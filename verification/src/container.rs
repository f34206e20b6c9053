//! Packets of an Ogg container: finding the comment packet of a stream, and
//! rewriting a container with that packet replaced.

use vstd::prelude::*;
use vstd::slice::slice_to_vec;
use crate::codec::decode_comment_header;
use crate::codec::encoded_block;
use crate::codec::fits_wire;
use crate::codec::holds_comment;
use crate::codec::is_comment;
use crate::codec::make_comment_header;
use crate::codec::parsed_comment;
use crate::comments::CommentHeader;
use crate::comments::TagPair;
use crate::comments::VorbisComments;
use crate::error::Error;

verus! {

/// A packet as the reader hands it out.
#[derive(Debug, Clone, PartialEq, Eq)]
pub struct OggPacket {
    pub data: Vec<u8>,
    pub stream_serial: u32,
    pub last_in_page: bool,
    pub last_in_stream: bool,
    pub absgp_page: u64,
}

/// The mathematical content of a packet.
pub struct PacketView {
    pub data: Seq<u8>,
    pub stream_serial: u32,
    pub last_in_page: bool,
    pub last_in_stream: bool,
    pub absgp_page: u64,
}

impl View for OggPacket {
    type V = PacketView;

    open spec fn view(&self) -> PacketView {
        PacketView {
            data: self.data@,
            stream_serial: self.stream_serial,
            last_in_page: self.last_in_page,
            last_in_stream: self.last_in_stream,
            absgp_page: self.absgp_page,
        }
    }
}

/// What a packet ends when it is written.
#[derive(Debug, Clone, Copy, PartialEq, Eq)]
pub enum Boundary {
    /// Nothing ends with this packet.
    NormalPacket,
    /// The packet is the last of its page, not of its stream.
    EndPage,
    /// The packet is the last of its page and of its stream.
    EndStream,
}

/// A packet as it is handed to the writer.
#[derive(Debug, Clone, PartialEq, Eq)]
pub struct Outgoing {
    pub data: Vec<u8>,
    pub stream_serial: u32,
    pub boundary: Boundary,
    pub absgp_page: u64,
}

/// The mathematical content of a packet handed to the writer.
pub struct Emitted {
    pub data: Seq<u8>,
    pub stream_serial: u32,
    pub boundary: Boundary,
    pub absgp_page: u64,
}

impl View for Outgoing {
    type V = Emitted;

    open spec fn view(&self) -> Emitted {
        Emitted {
            data: self.data@,
            stream_serial: self.stream_serial,
            boundary: self.boundary,
            absgp_page: self.absgp_page,
        }
    }
}

/// The error of the sink that the packet writer fills, `std::io::Error`.
#[verifier::external_type_specification]
#[verifier::external_body]
pub struct ExIoError(std::io::Error);

/// The fault that the packet reader reports, `ogg::OggReadError`.
#[verifier::external_type_specification]
#[verifier::external_body]
pub struct ExOggReadError(ogg::OggReadError);

/// An `ogg::PacketReader` over a buffer in memory. Nothing of its inner state
/// is visible to proofs but what `pending` and `faulty` name.
#[verifier::external_body]
pub struct PacketSource {
    inner: ogg::PacketReader<std::io::Cursor<Vec<u8>>>,
}

/// An `ogg::PacketWriter` into a buffer in memory. Nothing of its inner state
/// is visible to proofs but what `handed` names.
#[verifier::external_body]
pub struct PacketSink {
    inner: ogg::PacketWriter<std::io::Cursor<Vec<u8>>>,
}

/// The packets that a reader over these bytes yields before it reports the
/// end or a fault.
pub uninterp spec fn packets_of(source: Seq<u8>) -> Seq<PacketView>;

/// Whether a reader over these bytes, its packets read, reports a fault
/// rather than the end.
pub uninterp spec fn ends_in_fault(source: Seq<u8>) -> bool;

/// The packets that a reader has yet to yield.
pub uninterp spec fn pending(reader: PacketSource) -> Seq<PacketView>;

/// Whether a reader, its pending packets read, reports a fault.
pub uninterp spec fn faulty(reader: PacketSource) -> bool;

/// The packets that a writer has accepted, in order.
pub uninterp spec fn handed(writer: PacketSink) -> Seq<Emitted>;

/// Whether a writer that has accepted the packets `before` accepts `packet`
/// next. The sink is a buffer in memory, so the answer depends on nothing else.
pub uninterp spec fn accepted(before: Seq<Emitted>, packet: Emitted) -> bool;

/// The bytes that a writer has produced once it accepted these packets.
pub uninterp spec fn page_bytes(packets: Seq<Emitted>) -> Seq<u8>;

/// Calls `ogg::PacketReader::new` on a cursor over the bytes. The contract
/// only ties the reader's pending packets to the names for the source.
#[verifier::external_body]
fn open_reader(source: Vec<u8>) -> (r: PacketSource)
    ensures
        pending(r) == packets_of(source@),
        faulty(r) == ends_in_fault(source@),
{
    PacketSource { inner: ogg::PacketReader::new(std::io::Cursor::new(source)) }
}

/// Calls `ogg::PacketReader::read_packet`. A packet that comes is the first
/// pending one and leaves the rest pending; the end or a fault comes only when
/// none is pending.
#[verifier::external_body]
fn next_packet(reader: &mut PacketSource) -> (r: Result<
    Option<OggPacket>,
    ogg::OggReadError,
>)
    ensures
        match r {
            Ok(Some(p)) => pending(*old(reader)).len() > 0 && p@ == pending(*old(reader))[0]
                && pending(*final(reader)) == pending(*old(reader)).skip(1) && faulty(
                *final(reader),
            ) == faulty(*old(reader)),
            Ok(None) => pending(*old(reader)).len() == 0 && !faulty(*old(reader)),
            Err(_) => pending(*old(reader)).len() == 0 && faulty(*old(reader)),
        },
{
    match reader.inner.read_packet() {
        Ok(Some(p)) => Ok(Some(OggPacket {
            stream_serial: p.stream_serial(),
            last_in_page: p.last_in_page(),
            last_in_stream: p.last_in_stream(),
            absgp_page: p.absgp_page(),
            data: p.data,
        })),
        Ok(None) => Ok(None),
        Err(e) => Err(e),
    }
}

/// Calls `ogg::PacketWriter::new` on an empty buffer.
#[verifier::external_body]
fn open_writer() -> (w: PacketSink)
    ensures
        handed(w) == Seq::<Emitted>::empty(),
{
    PacketSink { inner: ogg::PacketWriter::new(std::io::Cursor::new(Vec::new())) }
}

/// Calls `ogg::PacketWriter::write_packet`. Whether the call succeeds is
/// named by `accepted`, over the packets accepted before and this one. On
/// success the writer has accepted the packet behind those it had.
#[verifier::external_body]
fn write_packet(writer: &mut PacketSink, packet: Outgoing) -> (r: Result<(), std::io::Error>)
    ensures
        r.is_ok() == accepted(handed(*old(writer)), packet@),
        r.is_ok() ==> handed(*final(writer)) == handed(*old(writer)).push(packet@),
{
    let inf = match packet.boundary {
        Boundary::NormalPacket => ogg::writing::PacketWriteEndInfo::NormalPacket,
        Boundary::EndPage => ogg::writing::PacketWriteEndInfo::EndPage,
        Boundary::EndStream => ogg::writing::PacketWriteEndInfo::EndStream,
    };
    let data = packet.data.into_boxed_slice();
    writer.inner.write_packet(data, packet.stream_serial, inf, packet.absgp_page)
}

/// Calls `ogg::PacketWriter::into_inner` and takes the buffer out of the
/// cursor. The bytes depend on the accepted packets alone; they are named.
#[verifier::external_body]
fn finish(writer: PacketSink) -> (r: Vec<u8>)
    ensures
        r@ == page_bytes(handed(writer)),
{
    writer.inner.into_inner().into_inner()
}

/// The boundary class of a packet, from its two flags.
pub open spec fn boundary_of(p: PacketView) -> Boundary {
    if p.last_in_page && p.last_in_stream {
        Boundary::EndStream
    } else if p.last_in_page {
        Boundary::EndPage
    } else {
        Boundary::NormalPacket
    }
}

/// A packet that ends both its page and its stream.
pub open spec fn is_terminal(p: PacketView) -> bool {
    p.last_in_page && p.last_in_stream
}

/// Whether some packet of the sequence is terminal.
pub open spec fn has_terminal(packets: Seq<PacketView>) -> bool
    decreases packets.len(),
{
    if packets.len() == 0 {
        false
    } else {
        is_terminal(packets[0]) || has_terminal(packets.skip(1))
    }
}

/// What is written for one packet: its payload, or the fresh block in its
/// place, with serial, boundary class and granule position as they were.
pub open spec fn emitted_for(p: PacketView, fresh: Seq<u8>, replace: bool) -> Emitted {
    Emitted {
        data: if replace {
            fresh
        } else {
            p.data
        },
        stream_serial: p.stream_serial,
        boundary: boundary_of(p),
        absgp_page: p.absgp_page,
    }
}

/// The packets written for a sequence read: the first that holds a comment
/// block, unless `done` says that one was replaced before, carries `fresh`;
/// nothing follows the first terminal packet.
pub open spec fn patched(packets: Seq<PacketView>, fresh: Seq<u8>, done: bool) -> Seq<Emitted>
    decreases packets.len(),
{
    if packets.len() == 0 {
        Seq::empty()
    } else {
        let hit = !done && is_comment(packets[0].data);
        let first = seq![emitted_for(packets[0], fresh, hit)];
        if is_terminal(packets[0]) {
            first
        } else {
            first + patched(packets.skip(1), fresh, done || hit)
        }
    }
}

/// The boundary class of a packet.
pub fn boundary_class(last_in_page: bool, last_in_stream: bool) -> (b: Boundary)
    ensures
        b == if last_in_page && last_in_stream {
            Boundary::EndStream
        } else if last_in_page {
            Boundary::EndPage
        } else {
            Boundary::NormalPacket
        },
{
    if last_in_page && last_in_stream {
        Boundary::EndStream
    } else if last_in_page {
        Boundary::EndPage
    } else {
        Boundary::NormalPacket
    }
}

/// What is written for a packet read: the packet itself, or, where `replace`
/// is set, the packet with `fresh` as its payload. Serial, boundary class and
/// granule position are those of the packet read.
pub fn patch_packet(packet: OggPacket, replace: bool, fresh: &[u8]) -> (out: Outgoing)
    ensures
        out@ == emitted_for(packet@, fresh@, replace),
{
    let OggPacket { data, stream_serial, last_in_page, last_in_stream, absgp_page } = packet;
    let boundary = boundary_class(last_in_page, last_in_stream);
    let payload = if replace {
        slice_to_vec(fresh)
    } else {
        data
    };
    Outgoing { data: payload, stream_serial, boundary, absgp_page }
}

/// One turn of the patcher on a packet read. `header_done` says that a
/// comment block was replaced before, `decodes` that this packet holds one.
/// Gives what is written for the packet, whether a block has been replaced
/// once this packet is written, and whether the patcher stops behind it.
pub fn patch_step(packet: OggPacket, header_done: bool, decodes: bool, fresh: &[u8]) -> (r: (
    Outgoing,
    bool,
    bool,
))
    ensures
        r.0@ == emitted_for(packet@, fresh@, !header_done && decodes),
        r.1 == (header_done || decodes),
        r.2 == is_terminal(packet@),
{
    let terminal = packet.last_in_page && packet.last_in_stream;
    let out = patch_packet(packet, !header_done && decodes, fresh);
    (out, header_done || decodes, terminal)
}

/// Every packet of the sequence is accepted by a writer that has accepted
/// those before it.
pub open spec fn all_accepted(out: Seq<Emitted>) -> bool {
    forall|k: int| 0 <= k < out.len() ==> accepted(out.take(k), #[trigger] out[k])
}

/// A sequence of accepted packets stays one when the writer accepts one more.
proof fn lemma_accept_one_more(out: Seq<Emitted>, packet: Emitted)
    requires
        all_accepted(out),
        accepted(out, packet),
    ensures
        all_accepted(out.push(packet)),
{
    let more = out.push(packet);
    assert forall|k: int| 0 <= k < more.len() implies accepted(more.take(k), #[trigger] more[k]) by {
        if k < out.len() {
            assert(more.take(k) =~= out.take(k));
            assert(more[k] == out[k]);
        } else {
            assert(more.take(k) =~= out);
        }
    }
}

/// Whether the patcher reads a source to its stop without meeting a fault.
pub open spec fn reads_through(source: Seq<u8>) -> bool {
    has_terminal(packets_of(source)) || !ends_in_fault(source)
}

/// The packets that the patcher hands to the writer for a source and a new
/// block.
pub open spec fn patched_from(source: Seq<u8>, vendor: Seq<char>, tags: Seq<TagPair>) -> Seq<
    Emitted,
> {
    patched(packets_of(source), encoded_block(vendor, tags), false)
}

/// Rewrites a container with the first packet that holds a comment block
/// replaced by the encoding of `new_header`. Every other packet goes through
/// with its payload, serial, boundary class and granule position; reading stops
/// behind the first terminal packet.
///
/// Fails with `Overflow` exactly when the block does not fit its layout, and
/// then before anything is read. Otherwise a fault of the reader gives
/// `ReadError` with the bytes written so far. `Io` comes exactly when the
/// sink refuses one of the packets to write.
pub fn replace_comment_header(source: Vec<u8>, new_header: CommentHeader) -> (r: Result<
    Vec<u8>,
    Error,
>)
    ensures
        !fits_wire(new_header.vendor_text(), new_header.tag_pairs()) ==> r == Err::<Vec<u8>, Error>(
            Error::Overflow,
        ),
        fits_wire(new_header.vendor_text(), new_header.tag_pairs()) && !all_accepted(
            patched_from(source@, new_header.vendor_text(), new_header.tag_pairs()),
        ) ==> r == Err::<Vec<u8>, Error>(Error::Io),
        fits_wire(new_header.vendor_text(), new_header.tag_pairs()) && all_accepted(
            patched_from(source@, new_header.vendor_text(), new_header.tag_pairs()),
        ) ==> match r {
            Ok(out) => reads_through(source@) && out@ == page_bytes(
                patched_from(source@, new_header.vendor_text(), new_header.tag_pairs()),
            ),
            Err(Error::ReadError(partial)) => !reads_through(source@) && partial@ == page_bytes(
                patched_from(source@, new_header.vendor_text(), new_header.tag_pairs()),
            ),
            Err(_) => false,
        },
{
    let fresh = match make_comment_header(&new_header) {
        Ok(bytes) => bytes,
        Err(_) => {
            return Err(Error::Overflow);
        },
    };
    let ghost all = packets_of(source@);
    let ghost target = patched(all, fresh@, false);
    assert(target == patched_from(source@, new_header.vendor_text(), new_header.tag_pairs()));
    let mut reader = open_reader(source);
    let mut writer = open_writer();
    let mut header_done = false;
    assert(handed(writer) + target =~= target);
    loop
        invariant
            handed(writer) + patched(pending(reader), fresh@, header_done) == target,
            has_terminal(all) == has_terminal(pending(reader)),
            all_accepted(handed(writer)),
            faulty(reader) == ends_in_fault(source@),
            all == packets_of(source@),
            target == patched(all, fresh@, false),
            fits_wire(new_header.vendor_text(), new_header.tag_pairs()),
            fresh@ == encoded_block(new_header.vendor_text(), new_header.tag_pairs()),
        decreases pending(reader).len(),
    {
        let ghost waiting = pending(reader);
        let ghost written = handed(writer);
        match next_packet(&mut reader) {
            Err(_) => {
                assert(written + Seq::<Emitted>::empty() =~= written);
                return Err(Error::ReadError(finish(writer)));
            },
            Ok(None) => {
                assert(written + Seq::<Emitted>::empty() =~= written);
                return Ok(finish(writer));
            },
            Ok(Some(packet)) => {
                let decodes = !header_done && holds_comment(packet.data.as_slice());
                let ghost one = emitted_for(waiting[0], fresh@, decodes);
                let ghost rest = patched(waiting.skip(1), fresh@, header_done || decodes);
                let (out, done, terminal) = patch_step(
                    packet,
                    header_done,
                    decodes,
                    fresh.as_slice(),
                );
                proof {
                    if terminal {
                        assert(written + seq![one] =~= written.push(one));
                    } else {
                        assert(written + (seq![one] + rest) =~= written.push(one) + rest);
                    }
                    assert(target.take(written.len() as int) =~= written);
                    assert(target[written.len() as int] == one);
                }
                match write_packet(&mut writer, out) {
                    Ok(_) => {},
                    Err(_) => {
                        return Err(Error::Io);
                    },
                }
                proof {
                    lemma_accept_one_more(written, one);
                }
                if terminal {
                    return Ok(finish(writer));
                }
                header_done = done;
            },
        }
    }
}

/// The index of the first packet from `from` on that belongs to stream
/// `serial`, or the length of the sequence where there is none.
pub open spec fn find_serial(packets: Seq<PacketView>, serial: u32, from: int) -> int
    decreases packets.len() - from,
{
    if from < 0 || from >= packets.len() {
        packets.len() as int
    } else if packets[from].stream_serial == serial {
        from
    } else {
        find_serial(packets, serial, from + 1)
    }
}

/// Where the comment packet of the stream of interest lies: the second packet
/// of the stream that the first packet of the source belongs to. The length of
/// the sequence where no such packet exists.
pub open spec fn comment_slot(packets: Seq<PacketView>) -> int {
    if packets.len() == 0 {
        0
    } else {
        find_serial(packets, packets[0].stream_serial, 1)
    }
}

/// The mathematical contents of a list of packets.
pub open spec fn packet_views(packets: Seq<OggPacket>) -> Seq<PacketView> {
    Seq::new(packets.len(), |i: int| packets[i]@)
}

/// Reads the packets of a source up to its end or to the first fault, and
/// tells which of the two it was.
pub fn read_packets(source: Vec<u8>) -> (r: (Vec<OggPacket>, bool))
    ensures
        packet_views(r.0@) == packets_of(source@),
        r.1 == ends_in_fault(source@),
{
    let ghost all = packets_of(source@);
    let mut reader = open_reader(source);
    let mut got: Vec<OggPacket> = Vec::new();
    assert(packet_views(got@) + pending(reader) =~= all);
    loop
        invariant
            packet_views(got@) + pending(reader) == all,
            all == packets_of(source@),
            faulty(reader) == ends_in_fault(source@),
        decreases pending(reader).len(),
    {
        let ghost waiting = pending(reader);
        let ghost before = packet_views(got@);
        match next_packet(&mut reader) {
            Ok(Some(packet)) => {
                got.push(packet);
                assert(packet_views(got@) =~= before.push(waiting[0]));
                assert(before.push(waiting[0]) + waiting.skip(1) =~= before + waiting);
            },
            Ok(None) => {
                assert(before + waiting =~= before);
                return (got, false);
            },
            Err(_) => {
                assert(before + waiting =~= before);
                return (got, true);
            },
        }
    }
}

/// Finds the comment packet of the stream of interest among the packets of a
/// source: the second packet of the stream that the first packet belongs to.
pub fn locate(packets: &[OggPacket]) -> (r: Option<usize>)
    ensures
        match r {
            Some(slot) => slot < packets.len() && slot == comment_slot(packet_views(packets@)),
            None => comment_slot(packet_views(packets@)) >= packets.len(),
        },
{
    if packets.len() == 0 {
        return None;
    }
    let ghost views = packet_views(packets@);
    let serial = packets[0].stream_serial;
    let mut i: usize = 1;
    while i < packets.len()
        invariant
            1 <= i <= packets.len(),
            views == packet_views(packets@),
            serial == views[0].stream_serial,
            find_serial(views, serial, 1) == find_serial(views, serial, i as int),
        decreases packets.len() - i,
    {
        assert(views[i as int] == packets[i as int]@);
        if packets[i].stream_serial == serial {
            return Some(i);
        }
        i += 1;
    }
    None
}

/// Reads the comment block of the stream that the first packet of the source
/// belongs to. By convention the block is the second packet of its stream:
/// the packets are read, that packet is located, and it alone is decoded.
///
/// Fails with `MalformedPacket` when that packet holds no comment block, with
/// `NotFound` when the source ends before it, and with `ReadError` when the
/// reader reports a fault before it.
pub fn read_comment_header(source: Vec<u8>) -> (r: Result<CommentHeader, Error>)
    ensures
        match r {
            Ok(h) => comment_slot(packets_of(source@)) < packets_of(source@).len() && is_comment(
                packets_of(source@)[comment_slot(packets_of(source@))].data,
            ) && parsed_comment(packets_of(source@)[comment_slot(packets_of(source@))].data)
                == Some((h.vendor_text(), h.tag_pairs())),
            Err(Error::MalformedPacket) => comment_slot(packets_of(source@)) < packets_of(
                source@,
            ).len() && !is_comment(
                packets_of(source@)[comment_slot(packets_of(source@))].data,
            ),
            Err(Error::NotFound) => comment_slot(packets_of(source@)) >= packets_of(source@).len()
                && !ends_in_fault(source@),
            Err(Error::ReadError(partial)) => comment_slot(packets_of(source@)) >= packets_of(
                source@,
            ).len() && ends_in_fault(source@) && partial@.len() == 0,
            Err(_) => false,
        },
        (forall|i: int|
            0 <= i < packets_of(source@).len() ==> !is_comment(
                #[trigger] packets_of(source@)[i].data,
            )) ==> r.is_err(),
{
    let ghost all = packets_of(source@);
    proof {
        if all.len() > 0 {
            lemma_find_serial_bounds(all, all[0].stream_serial, 1);
        }
    }
    let (packets, fault) = read_packets(source);
    match locate(packets.as_slice()) {
        Some(slot) => {
            assert(packet_views(packets@)[slot as int] == packets[slot as int]@);
            decode_comment_header(packets[slot].data.as_slice())
        },
        None => {
            if fault {
                Err(Error::ReadError(Vec::new()))
            } else {
                Err(Error::NotFound)
            }
        },
    }
}

/// How many packets the patcher writes: all up to the first terminal one,
/// that one included.
pub open spec fn stop_len(packets: Seq<PacketView>) -> int
    decreases packets.len(),
{
    if packets.len() == 0 {
        0
    } else if is_terminal(packets[0]) {
        1
    } else {
        1 + stop_len(packets.skip(1))
    }
}

/// The index of the first packet that holds a comment block, or the length of
/// the sequence where none does.
pub open spec fn first_comment(packets: Seq<PacketView>) -> int
    decreases packets.len(),
{
    if packets.len() == 0 {
        0
    } else if is_comment(packets[0].data) {
        0
    } else {
        1 + first_comment(packets.skip(1))
    }
}

/// The patched sequence, packet by packet.
pub proof fn lemma_patched_shape(packets: Seq<PacketView>, fresh: Seq<u8>, done: bool)
    ensures
        patched(packets, fresh, done).len() == stop_len(packets),
        0 <= stop_len(packets) <= packets.len(),
        0 <= first_comment(packets) <= packets.len(),
        forall|i: int|
            0 <= i < stop_len(packets) ==> #[trigger] patched(packets, fresh, done)[i]
                == emitted_for(packets[i], fresh, !done && i == first_comment(packets)),
    decreases packets.len(),
{
    if packets.len() > 0 {
        let hit = !done && is_comment(packets[0].data);
        let rest = packets.skip(1);
        lemma_patched_shape(rest, fresh, done || hit);
        if !is_terminal(packets[0]) {
            assert forall|i: int| 0 <= i < stop_len(packets) implies #[trigger] patched(
                packets,
                fresh,
                done,
            )[i] == emitted_for(packets[i], fresh, !done && i == first_comment(packets)) by {
                if i > 0 {
                    assert(patched(packets, fresh, done)[i] == patched(rest, fresh, done || hit)[i
                        - 1]);
                    assert(rest[i - 1] == packets[i]);
                }
            }
        }
    }
}

/// Where only the last packet may be terminal, the patcher stops nowhere
/// before the end.
proof fn lemma_stop_at_end(packets: Seq<PacketView>)
    requires
        forall|i: int| 0 <= i < packets.len() - 1 ==> !is_terminal(#[trigger] packets[i]),
    ensures
        stop_len(packets) == packets.len(),
    decreases packets.len(),
{
    if packets.len() > 1 {
        let rest = packets.skip(1);
        assert forall|i: int| 0 <= i < rest.len() - 1 implies !is_terminal(#[trigger] rest[i]) by {
            assert(rest[i] == packets[i + 1]);
        }
        lemma_stop_at_end(rest);
        assert(!is_terminal(packets[0]));
    } else if packets.len() == 1 {
        if !is_terminal(packets[0]) {
            assert(stop_len(packets.skip(1)) == 0);
        }
    }
}

/// Where no packet holds a comment block, `first_comment` is the length.
proof fn lemma_no_comment(packets: Seq<PacketView>)
    requires
        forall|i: int| 0 <= i < packets.len() ==> !is_comment(#[trigger] packets[i].data),
    ensures
        first_comment(packets) == packets.len(),
    decreases packets.len(),
{
    if packets.len() > 0 {
        let rest = packets.skip(1);
        assert forall|i: int| 0 <= i < rest.len() implies !is_comment(#[trigger] rest[i].data) by {
            assert(rest[i] == packets[i + 1]);
        }
        lemma_no_comment(rest);
        assert(!is_comment(packets[0].data));
    }
}

/// Patching keeps the packets: where no packet but the last is terminal, as
/// many packets are written as were read, each with the serial, the boundary
/// class and the granule position of the packet read in its place, and with its
/// payload too, except that the first packet holding a comment block carries
/// the fresh block.
pub proof fn lemma_patch_keeps_packets(packets: Seq<PacketView>, fresh: Seq<u8>)
    requires
        forall|i: int| 0 <= i < packets.len() - 1 ==> !is_terminal(#[trigger] packets[i]),
    ensures
        patched(packets, fresh, false).len() == packets.len(),
        forall|i: int|
            0 <= i < packets.len() ==> {
                let out = #[trigger] patched(packets, fresh, false)[i];
                &&& out.stream_serial == packets[i].stream_serial
                &&& out.boundary == boundary_of(packets[i])
                &&& out.absgp_page == packets[i].absgp_page
                &&& out.data == if i == first_comment(packets) {
                    fresh
                } else {
                    packets[i].data
                }
            },
{
    lemma_stop_at_end(packets);
    lemma_patched_shape(packets, fresh, false);
}

/// Where no packet holds a comment block, every packet written carries the
/// payload of the packet read in its place.
pub proof fn lemma_patch_without_comment(packets: Seq<PacketView>, fresh: Seq<u8>)
    requires
        forall|i: int| 0 <= i < packets.len() ==> !is_comment(#[trigger] packets[i].data),
    ensures
        patched(packets, fresh, false).len() <= packets.len(),
        forall|i: int|
            0 <= i < patched(packets, fresh, false).len() ==> #[trigger] patched(
                packets,
                fresh,
                false,
            )[i] == emitted_for(packets[i], fresh, false),
{
    lemma_no_comment(packets);
    lemma_patched_shape(packets, fresh, false);
}

/// `find_serial` gives an index from `from` on, or the length.
pub proof fn lemma_find_serial_bounds(packets: Seq<PacketView>, serial: u32, from: int)
    requires
        0 <= from,
    ensures
        from <= find_serial(packets, serial, from) || find_serial(packets, serial, from)
            == packets.len(),
        find_serial(packets, serial, from) <= packets.len(),
        find_serial(packets, serial, from) < packets.len() ==> packets[find_serial(
            packets,
            serial,
            from,
        )].stream_serial == serial,
    decreases packets.len() - from,
{
    if from < packets.len() && packets[from].stream_serial != serial {
        lemma_find_serial_bounds(packets, serial, from + 1);
    }
}

} // verus!
