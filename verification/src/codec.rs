//! The byte layout of a comment block, and the encoder that produces it.

use vstd::prelude::*;
use vstd::string::*;
use vstd::utf8::encode_utf8;
use crate::comments::pairs_view;
use crate::comments::CommentHeader;
use crate::comments::TagPair;
use crate::comments::VorbisComments;
use crate::error::Error;

verus! {

/// The four bytes of an unsigned 32-bit number, least significant first.
pub open spec fn le32(n: int) -> Seq<u8> {
    seq![
        (n % 256) as u8,
        (n / 256 % 256) as u8,
        (n / 65536 % 256) as u8,
        (n / 16777216 % 256) as u8,
    ]
}

/// The packet type 3 followed by the letters of "vorbis".
pub open spec fn magic() -> Seq<u8> {
    seq![3u8, 118u8, 111u8, 114u8, 98u8, 105u8, 115u8]
}

/// The text of one entry: the key, an equals sign, the value.
pub open spec fn entry_chars(pair: TagPair) -> Seq<char> {
    pair.0 + seq!['='] + pair.1
}

/// The bytes of one entry: its text in UTF-8.
pub open spec fn entry_text(pair: TagPair) -> Seq<u8> {
    encode_utf8(entry_chars(pair))
}

/// The encoding of a text in two parts is the encoding of the first part
/// followed by that of the second.
pub proof fn lemma_encode_concat(a: Seq<char>, b: Seq<char>)
    ensures
        encode_utf8(a + b) == encode_utf8(a) + encode_utf8(b),
    decreases a.len(),
{
    if a.len() == 0 {
        assert(a + b =~= b);
        assert(encode_utf8(a) + encode_utf8(b) =~= encode_utf8(b));
    } else {
        assert((a + b).drop_first() =~= a.drop_first() + b);
        assert((a + b)[0] == a[0]);
        lemma_encode_concat(a.drop_first(), b);
        assert(encode_utf8(a + b) =~= encode_utf8(a) + encode_utf8(b));
    }
}

/// The equals sign is the one byte 61.
proof fn lemma_encode_equals_sign()
    ensures
        encode_utf8(seq!['=']) == seq![61u8],
{
    let s = seq!['='];
    assert(s.drop_first() =~= Seq::<char>::empty());
    assert(encode_utf8(Seq::<char>::empty()) =~= Seq::<u8>::empty());
    assert(s[0] as u32 == 61u32);
    assert(61u32 & 0x7F == 61u32) by (bit_vector);
    assert(vstd::utf8::encode_scalar(61u32) =~= seq![61u8]);
    assert(encode_utf8(s) =~= seq![61u8]);
}

/// The bytes of an entry are those of the key, the byte 61 and those of the
/// value.
pub proof fn lemma_entry_bytes(pair: TagPair)
    ensures
        entry_text(pair) == encode_utf8(pair.0) + seq![61u8] + encode_utf8(pair.1),
{
    lemma_encode_equals_sign();
    lemma_encode_concat(pair.0 + seq!['='], pair.1);
    lemma_encode_concat(pair.0, seq!['=']);
}

/// The entries of a tag list, each behind its length.
pub open spec fn encoded_entries(tags: Seq<TagPair>) -> Seq<u8>
    decreases tags.len(),
{
    if tags.len() == 0 {
        Seq::empty()
    } else {
        encoded_entries(tags.drop_last()) + le32(entry_text(tags.last()).len() as int)
            + entry_text(tags.last())
    }
}

/// The whole block: magic, vendor, count, entries, framing bit.
pub open spec fn encoded_block(vendor: Seq<char>, tags: Seq<TagPair>) -> Seq<u8> {
    magic() + le32(encode_utf8(vendor).len() as int) + encode_utf8(vendor) + le32(
        tags.len() as int,
    ) + encoded_entries(tags) + seq![1u8]
}

/// Every length and the count fit an unsigned 32-bit field.
pub open spec fn fits_wire(vendor: Seq<char>, tags: Seq<TagPair>) -> bool {
    &&& encode_utf8(vendor).len() <= u32::MAX
    &&& tags.len() <= u32::MAX
    &&& forall|i: int| 0 <= i < tags.len() ==> (#[trigger] entry_text(tags[i])).len() <= u32::MAX
}

/// Appends the little-endian bytes of `n`.
fn push_le32(out: &mut Vec<u8>, n: u32)
    ensures
        final(out)@ == old(out)@ + le32(n as int),
{
    out.push((n % 256) as u8);
    out.push((n / 256 % 256) as u8);
    out.push((n / 65536 % 256) as u8);
    out.push((n / 16777216 % 256) as u8);
    assert(out@ =~= old(out)@ + le32(n as int));
}

/// Appends a copy of `bytes`.
fn push_bytes(out: &mut Vec<u8>, bytes: &[u8])
    ensures
        final(out)@ == old(out)@ + bytes@,
{
    let mut i: usize = 0;
    while i < bytes.len()
        invariant
            i <= bytes.len(),
            out@ == old(out)@ + bytes@.take(i as int),
        decreases bytes.len() - i,
    {
        out.push(bytes[i]);
        assert(bytes@.take(i + 1) =~= bytes@.take(i as int).push(bytes@[i as int]));
        assert(out@ =~= old(out)@ + bytes@.take(i + 1));
        i += 1;
    }
    assert(bytes@.take(i as int) =~= bytes@);
}

/// Writes a comment block out in its byte layout. Fails with `Overflow`, and
/// only then, when the vendor, the number of tags or one entry is too long for
/// its 32-bit length field.
pub fn make_comment_header(header: &CommentHeader) -> (r: Result<Vec<u8>, Error>)
    ensures
        match r {
            Ok(bytes) => fits_wire(header.vendor_text(), header.tag_pairs()) && bytes@
                == encoded_block(header.vendor_text(), header.tag_pairs()),
            Err(e) => !fits_wire(header.vendor_text(), header.tag_pairs()) && e == Error::Overflow,
        },
{
    let ghost tags = header.tag_pairs();
    let vendor = header.vendor.as_str().as_bytes();
    if vendor.len() > 0xFFFF_FFFF {
        return Err(Error::Overflow);
    }
    let count = header.comment_list.len();
    if count > 0xFFFF_FFFF {
        return Err(Error::Overflow);
    }
    let mut out: Vec<u8> = Vec::new();
    out.push(3);
    out.push(118);
    out.push(111);
    out.push(114);
    out.push(98);
    out.push(105);
    out.push(115);
    assert(out@ =~= magic());
    push_le32(&mut out, vendor.len() as u32);
    push_bytes(&mut out, vendor);
    push_le32(&mut out, count as u32);
    let ghost head = out@;
    assert(head + encoded_entries(tags.take(0)) =~= head);
    let mut k: usize = 0;
    while k < count
        invariant
            k <= count,
            count == header.comment_list.len(),
            tags == header.tag_pairs(),
            out@ == head + encoded_entries(tags.take(k as int)),
            forall|i: int| 0 <= i < k ==> (#[trigger] entry_text(tags[i])).len() <= u32::MAX,
        decreases count - k,
    {
        let key = header.comment_list[k].0.as_str().as_bytes();
        let value = header.comment_list[k].1.as_str().as_bytes();
        proof {
            lemma_entry_bytes(tags[k as int]);
        }
        assert(entry_text(tags[k as int]).len() == key.len() + 1 + value.len());
        if key.len() >= 0xFFFF_FFFF || value.len() > 0xFFFF_FFFE - key.len() {
            return Err(Error::Overflow);
        }
        let ghost so_far = out@;
        push_le32(&mut out, (key.len() + 1 + value.len()) as u32);
        push_bytes(&mut out, key);
        out.push(61);
        push_bytes(&mut out, value);
        proof {
            let entry = entry_text(tags[k as int]);
            assert(tags.take(k + 1).drop_last() =~= tags.take(k as int));
            assert(tags.take(k + 1).last() == tags[k as int]);
            assert(out@ =~= so_far + le32(entry.len() as int) + entry);
            assert(out@ =~= head + encoded_entries(tags.take(k + 1)));
        }
        k += 1;
    }
    assert(tags.take(k as int) =~= tags);
    out.push(1);
    Ok(out)
}

/// No key of the list holds an equals sign.
pub open spec fn keys_plain(tags: Seq<TagPair>) -> bool {
    forall|i: int| 0 <= i < tags.len() ==> !(#[trigger] tags[i]).0.contains('=')
}

/// Two numbers of 32 bits with the same four bytes are the same number.
pub proof fn lemma_le32_injective(a: int, b: int)
    requires
        0 <= a <= u32::MAX,
        0 <= b <= u32::MAX,
        le32(a) == le32(b),
    ensures
        a == b,
{
    assert(le32(a)[0] == le32(b)[0]);
    assert(le32(a)[1] == le32(b)[1]);
    assert(le32(a)[2] == le32(b)[2]);
    assert(le32(a)[3] == le32(b)[3]);
}

/// An entry whose key holds no equals sign gives key and value back.
pub proof fn lemma_entry_injective(p: TagPair, q: TagPair)
    requires
        !p.0.contains('='),
        !q.0.contains('='),
        entry_text(p) == entry_text(q),
    ensures
        p == q,
{
    let s = entry_chars(p);
    let t = entry_chars(q);
    vstd::utf8::encode_utf8_decode_utf8(s);
    vstd::utf8::encode_utf8_decode_utf8(t);
    assert(s == t);
    let n = p.0.len() as int;
    let m = q.0.len() as int;
    assert(s[n] == '=');
    assert(t[m] == '=');
    if n < m {
        assert(q.0[n] == t[n]);
        assert(q.0.contains('='));
    }
    if m < n {
        assert(p.0[m] == s[m]);
        assert(p.0.contains('='));
    }
    assert(p.0 =~= s.subrange(0, n));
    assert(q.0 =~= t.subrange(0, m));
    assert(p.1 =~= s.subrange(n + 1, s.len() as int));
    assert(q.1 =~= t.subrange(m + 1, t.len() as int));
}

/// The entries of a list begin with the first entry behind its length.
pub proof fn lemma_entries_front(tags: Seq<TagPair>)
    requires
        tags.len() > 0,
    ensures
        encoded_entries(tags) == le32(entry_text(tags[0]).len() as int) + entry_text(tags[0])
            + encoded_entries(tags.skip(1)),
    decreases tags.len(),
{
    let first = le32(entry_text(tags[0]).len() as int) + entry_text(tags[0]);
    if tags.len() == 1 {
        assert(tags.drop_last() =~= Seq::<TagPair>::empty());
        assert(tags.skip(1) =~= Seq::<TagPair>::empty());
        assert(encoded_entries(Seq::<TagPair>::empty()) =~= Seq::<u8>::empty());
        assert(encoded_entries(tags) =~= first + encoded_entries(tags.skip(1)));
    } else {
        let head = tags.drop_last();
        let tail = tags.skip(1);
        lemma_entries_front(head);
        assert(head.skip(1) =~= tail.drop_last());
        assert(head[0] == tags[0]);
        assert(tail.last() == tags.last());
        assert(encoded_entries(tags) =~= first + encoded_entries(tail));
    }
}

/// Two lists of as many entries, all fitting the layout and with keys free of
/// equals signs, have the same bytes only if they are the same list.
pub proof fn lemma_entries_injective(a: Seq<TagPair>, b: Seq<TagPair>)
    requires
        a.len() == b.len(),
        keys_plain(a),
        keys_plain(b),
        forall|i: int| 0 <= i < a.len() ==> (#[trigger] entry_text(a[i])).len() <= u32::MAX,
        forall|i: int| 0 <= i < b.len() ==> (#[trigger] entry_text(b[i])).len() <= u32::MAX,
        encoded_entries(a) == encoded_entries(b),
    ensures
        a == b,
    decreases a.len(),
{
    if a.len() == 0 {
        assert(a =~= b);
    } else {
        lemma_entries_front(a);
        lemma_entries_front(b);
        let x = entry_text(a[0]);
        let y = entry_text(b[0]);
        let ra = encoded_entries(a.skip(1));
        let rb = encoded_entries(b.skip(1));
        let whole = encoded_entries(a);
        assert(whole == le32(x.len() as int) + x + ra);
        assert(whole == le32(y.len() as int) + y + rb);
        assert(le32(x.len() as int) =~= whole.subrange(0, 4));
        assert(le32(y.len() as int) =~= whole.subrange(0, 4));
        lemma_le32_injective(x.len() as int, y.len() as int);
        assert(x =~= whole.subrange(4, 4 + x.len() as int));
        assert(y =~= whole.subrange(4, 4 + y.len() as int));
        assert(ra =~= whole.subrange(4 + x.len() as int, whole.len() as int));
        assert(rb =~= whole.subrange(4 + y.len() as int, whole.len() as int));
        lemma_entry_injective(a[0], b[0]);
        let ta = a.skip(1);
        let tb = b.skip(1);
        assert forall|i: int| 0 <= i < ta.len() implies !(#[trigger] ta[i]).0.contains('=') by {
            assert(ta[i] == a[i + 1]);
        }
        assert forall|i: int| 0 <= i < tb.len() implies !(#[trigger] tb[i]).0.contains('=') by {
            assert(tb[i] == b[i + 1]);
        }
        assert forall|i: int| 0 <= i < ta.len() implies (#[trigger] entry_text(ta[i])).len()
            <= u32::MAX by {
            assert(ta[i] == a[i + 1]);
        }
        assert forall|i: int| 0 <= i < tb.len() implies (#[trigger] entry_text(tb[i])).len()
            <= u32::MAX by {
            assert(tb[i] == b[i + 1]);
        }
        lemma_entries_injective(ta, tb);
        assert(a =~= seq![a[0]] + ta);
        assert(b =~= seq![b[0]] + tb);
    }
}

/// The layout loses nothing: two blocks that fit it, with keys free of equals
/// signs, have the same bytes only if they have the same vendor and the same
/// tags. So the bytes of such a block can be read back in one way only.
pub proof fn lemma_layout_determines_block(
    vendor: Seq<char>,
    tags: Seq<TagPair>,
    other_vendor: Seq<char>,
    other_tags: Seq<TagPair>,
)
    requires
        fits_wire(vendor, tags),
        fits_wire(other_vendor, other_tags),
        keys_plain(tags),
        keys_plain(other_tags),
        encoded_block(vendor, tags) == encoded_block(other_vendor, other_tags),
    ensures
        vendor == other_vendor,
        tags == other_tags,
{
    let whole = encoded_block(vendor, tags);
    let v = encode_utf8(vendor);
    let w = encode_utf8(other_vendor);
    let e = encoded_entries(tags);
    let f = encoded_entries(other_tags);
    assert(whole == magic() + le32(v.len() as int) + v + le32(tags.len() as int) + e + seq![1u8]);
    assert(whole == magic() + le32(w.len() as int) + w + le32(other_tags.len() as int) + f
        + seq![1u8]);
    assert(le32(v.len() as int) =~= whole.subrange(7, 11));
    assert(le32(w.len() as int) =~= whole.subrange(7, 11));
    lemma_le32_injective(v.len() as int, w.len() as int);
    let n = v.len() as int;
    assert(v =~= whole.subrange(11, 11 + n));
    assert(w =~= whole.subrange(11, 11 + n));
    vstd::utf8::encode_utf8_decode_utf8(vendor);
    vstd::utf8::encode_utf8_decode_utf8(other_vendor);
    assert(le32(tags.len() as int) =~= whole.subrange(11 + n, 15 + n));
    assert(le32(other_tags.len() as int) =~= whole.subrange(11 + n, 15 + n));
    lemma_le32_injective(tags.len() as int, other_tags.len() as int);
    assert(e =~= whole.subrange(15 + n, whole.len() - 1));
    assert(f =~= whole.subrange(15 + n, whole.len() - 1));
    lemma_entries_injective(tags, other_tags);
}

/// The block that a byte string is the layout of: the one block that fits the
/// layout, has keys free of equals signs and is written as these bytes, where
/// there is one.
pub open spec fn block_of(bytes: Seq<u8>) -> Option<(Seq<char>, Seq<TagPair>)> {
    if exists|b: (Seq<char>, Seq<TagPair>)| #[trigger]
        fits_wire(b.0, b.1) && keys_plain(b.1) && encoded_block(b.0, b.1) == bytes {
        Some(
            choose|b: (Seq<char>, Seq<TagPair>)| #[trigger]
                fits_wire(b.0, b.1) && keys_plain(b.1) && encoded_block(b.0, b.1) == bytes,
        )
    } else {
        None
    }
}

/// Reading back what was written gives the block that was written, for every
/// block that fits the layout and whose keys hold no equals sign.
pub proof fn lemma_block_of_encoded(vendor: Seq<char>, tags: Seq<TagPair>)
    requires
        fits_wire(vendor, tags),
        keys_plain(tags),
    ensures
        block_of(encoded_block(vendor, tags)) == Some((vendor, tags)),
{
    let bytes = encoded_block(vendor, tags);
    let given = (vendor, tags);
    assert(fits_wire(given.0, given.1) && keys_plain(given.1) && encoded_block(given.0, given.1)
        == bytes);
    let found = block_of(bytes).unwrap();
    lemma_layout_determines_block(vendor, tags, found.0, found.1);
}

/// The outcome of the header parser on a packet.
#[verifier::external_type_specification]
#[verifier::external_body]
pub struct ExHeaderReadError(lewton::header::HeaderReadError);

/// The number that the four bytes from `at` on hold, least significant first.
pub open spec fn le32_at(bytes: Seq<u8>, at: int) -> int {
    bytes[at] as int + 256 * (bytes[at + 1] as int) + 65536 * (bytes[at + 2] as int) + 16777216 * (
    bytes[at + 3] as int)
}

/// From `at` on the bytes hold `count` entries, each as long as the length in
/// front of it says, and at least one byte behind them.
pub open spec fn entries_framed(bytes: Seq<u8>, at: int, count: int) -> bool
    decreases count,
{
    if count <= 0 {
        at < bytes.len()
    } else {
        &&& at + 4 <= bytes.len()
        &&& at + 4 + le32_at(bytes, at) <= bytes.len()
        &&& entries_framed(bytes, at + 4 + le32_at(bytes, at), count - 1)
    }
}

/// The packet is long enough for what its length fields announce: the vendor,
/// the count, every entry and the framing byte.
pub open spec fn well_framed(bytes: Seq<u8>) -> bool {
    &&& bytes.len() >= 15
    &&& 15 + le32_at(bytes, 7) <= bytes.len()
    &&& entries_framed(bytes, 15 + le32_at(bytes, 7), le32_at(bytes, 11 + le32_at(bytes, 7)))
}

/// Four bytes written for a number hold that number.
pub proof fn lemma_le32_at(bytes: Seq<u8>, at: int, n: int)
    requires
        0 <= at,
        at + 4 <= bytes.len(),
        0 <= n <= u32::MAX,
        bytes.subrange(at, at + 4) == le32(n),
    ensures
        le32_at(bytes, at) == n,
{
    let four = bytes.subrange(at, at + 4);
    assert(four[0] == bytes[at]);
    assert(four[1] == bytes[at + 1]);
    assert(four[2] == bytes[at + 2]);
    assert(four[3] == bytes[at + 3]);
    assert(le32(n)[0] == (n % 256) as u8);
    assert(le32(n)[1] == (n / 256 % 256) as u8);
    assert(le32(n)[2] == (n / 65536 % 256) as u8);
    assert(le32(n)[3] == (n / 16777216 % 256) as u8);
}

/// The entries of a list that fits, written out and followed by the framing
/// byte, are framed.
pub proof fn lemma_entries_framed(bytes: Seq<u8>, at: int, tags: Seq<TagPair>)
    requires
        0 <= at <= bytes.len(),
        bytes.subrange(at, bytes.len() as int) == encoded_entries(tags) + seq![1u8],
        forall|i: int| 0 <= i < tags.len() ==> (#[trigger] entry_text(tags[i])).len() <= u32::MAX,
    ensures
        entries_framed(bytes, at, tags.len() as int),
    decreases tags.len(),
{
    let rest = bytes.subrange(at, bytes.len() as int);
    if tags.len() == 0 {
        assert(encoded_entries(tags) =~= Seq::<u8>::empty());
        assert(rest.len() == 1);
    } else {
        lemma_entries_front(tags);
        let entry = entry_text(tags[0]);
        let n = entry.len() as int;
        let tail = tags.skip(1);
        assert(rest == le32(n) + entry + encoded_entries(tail) + seq![1u8]);
        assert(rest.len() == 4 + n + encoded_entries(tail).len() + 1);
        assert(bytes.subrange(at, at + 4) =~= le32(n));
        lemma_le32_at(bytes, at, n);
        let suffix = encoded_entries(tail) + seq![1u8];
        assert(rest =~= (le32(n) + entry) + suffix);
        assert(rest.subrange(4 + n, rest.len() as int) =~= suffix);
        assert(bytes.subrange(at + 4 + n, bytes.len() as int) =~= rest.subrange(
            4 + n,
            rest.len() as int,
        ));
        assert forall|i: int| 0 <= i < tail.len() implies (#[trigger] entry_text(tail[i])).len()
            <= u32::MAX by {
            assert(tail[i] == tags[i + 1]);
        }
        lemma_entries_framed(bytes, at + 4 + n, tail);
    }
}

/// The layout of a block that fits is well framed.
pub proof fn lemma_encoded_is_framed(vendor: Seq<char>, tags: Seq<TagPair>)
    requires
        fits_wire(vendor, tags),
    ensures
        well_framed(encoded_block(vendor, tags)),
{
    let whole = encoded_block(vendor, tags);
    let v = encode_utf8(vendor);
    let n = v.len() as int;
    let e = encoded_entries(tags);
    assert(whole == magic() + le32(n) + v + le32(tags.len() as int) + e + seq![1u8]);
    assert(whole.len() == 7 + 4 + n + 4 + e.len() + 1);
    assert(whole.subrange(7, 11) =~= le32(n));
    lemma_le32_at(whole, 7, n);
    assert(whole.subrange(11 + n, 15 + n) =~= le32(tags.len() as int));
    lemma_le32_at(whole, 11 + n, tags.len() as int);
    assert(whole.subrange(15 + n, whole.len() as int) =~= e + seq![1u8]);
    lemma_entries_framed(whole, 15 + n, tags);
}

/// Reads four bytes as a number, least significant first.
fn read_le32(bytes: &[u8], at: usize) -> (n: u32)
    requires
        at + 4 <= bytes.len(),
    ensures
        n == le32_at(bytes@, at as int),
{
    let b0: u32 = bytes[at] as u32;
    let b1: u32 = bytes[at + 1] as u32;
    let b2: u32 = bytes[at + 2] as u32;
    let b3: u32 = bytes[at + 3] as u32;
    b0 + 256 * b1 + 65536 * b2 + 16777216 * b3
}

/// Tells whether a packet is long enough for what its length fields announce.
pub fn is_well_framed(packet: &[u8]) -> (r: bool)
    ensures
        r == well_framed(packet@),
{
    let len = packet.len();
    if len < 15 {
        return false;
    }
    let vendor_len = read_le32(packet, 7) as usize;
    if vendor_len > len - 15 {
        return false;
    }
    let count = read_le32(packet, 11 + vendor_len);
    let mut pos: usize = 15 + vendor_len;
    let mut left: u32 = count;
    let ghost start = pos as int;
    while left > 0
        invariant
            pos <= len,
            len == packet.len(),
            well_framed(packet@) == entries_framed(packet@, start, count as int),
            entries_framed(packet@, start, count as int) == entries_framed(
                packet@,
                pos as int,
                left as int,
            ),
        decreases left,
    {
        if len - pos < 4 {
            return false;
        }
        let entry_len = read_le32(packet, pos) as usize;
        if entry_len > len - pos - 4 {
            return false;
        }
        pos = pos + 4 + entry_len;
        left = left - 1;
    }
    pos < len
}

/// What the header parser makes of a packet: the vendor and the tags of the
/// comment block it holds, or nothing where it is no comment block.
pub uninterp spec fn parsed_comment(packet: Seq<u8>) -> Option<(Seq<char>, Seq<TagPair>)>;

/// Calls `lewton::header::read_header_comment` and moves the fields of its
/// result into a block of this library. The parser's answer depends on the
/// bytes alone and is named. Of the layout of a block that fits, with keys
/// free of equals signs, the parser gives that block back. The parser reserves
/// memory for what the length fields announce before it looks for the bytes,
/// so only well framed packets are handed to it.
#[verifier::external_body]
fn parse_comment(packet: &[u8]) -> (r: Result<CommentHeader, lewton::header::HeaderReadError>)
    requires
        well_framed(packet@),
    ensures
        match r {
            Ok(h) => parsed_comment(packet@) == Some((h.vendor@, pairs_view(h.comment_list@))),
            Err(_) => parsed_comment(packet@).is_none(),
        },
        forall|vendor: Seq<char>, tags: Seq<TagPair>|
            fits_wire(vendor, tags) && keys_plain(tags) && packet@ == #[trigger] encoded_block(
                vendor,
                tags,
            ) ==> match r {
                Ok(h) => h.vendor@ == vendor && pairs_view(h.comment_list@) == tags,
                Err(_) => false,
            },
{
    match lewton::header::read_header_comment(packet) {
        Ok(h) => Ok(CommentHeader { vendor: h.vendor, comment_list: h.comment_list }),
        Err(e) => Err(e),
    }
}

/// Whether a packet holds a comment block: it is well framed and the parser
/// reads a block from it.
pub open spec fn is_comment(packet: Seq<u8>) -> bool {
    well_framed(packet) && parsed_comment(packet).is_some()
}

/// Reads a comment block from the bytes of a packet. Fails with
/// `MalformedPacket` exactly when the packet holds none. The layout of a block
/// that fits, with keys free of equals signs, is read back as that block.
pub fn decode_comment_header(packet: &[u8]) -> (r: Result<CommentHeader, Error>)
    ensures
        match r {
            Ok(h) => is_comment(packet@) && parsed_comment(packet@) == Some(
                (h.vendor_text(), h.tag_pairs()),
            ),
            Err(e) => !is_comment(packet@) && e == Error::MalformedPacket,
        },
        forall|vendor: Seq<char>, tags: Seq<TagPair>|
            fits_wire(vendor, tags) && keys_plain(tags) && packet@ == #[trigger] encoded_block(
                vendor,
                tags,
            ) ==> match r {
                Ok(h) => h.vendor_text() == vendor && h.tag_pairs() == tags,
                Err(_) => false,
            },
{
    if !is_well_framed(packet) {
        assert forall|vendor: Seq<char>, tags: Seq<TagPair>|
            fits_wire(vendor, tags) && keys_plain(tags) && packet@ == #[trigger] encoded_block(
                vendor,
                tags,
            ) implies false by {
            lemma_encoded_is_framed(vendor, tags);
        }
        return Err(Error::MalformedPacket);
    }
    match parse_comment(packet) {
        Ok(h) => Ok(h),
        Err(_) => Err(Error::MalformedPacket),
    }
}

/// Tells whether a packet holds a comment block.
pub fn holds_comment(packet: &[u8]) -> (r: bool)
    ensures
        r == is_comment(packet@),
{
    is_well_framed(packet) && parse_comment(packet).is_ok()
}

} // verus!
