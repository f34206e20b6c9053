use oggvorbismeta::codec::decode_comment_header;
use oggvorbismeta::codec::holds_comment;
use oggvorbismeta::codec::is_well_framed;
use oggvorbismeta::make_comment_header;
use oggvorbismeta::CommentHeader;
use oggvorbismeta::Error;
use oggvorbismeta::VorbisComments;

#[test]
fn empty_block_with_vendor_ogg() {
    let mut block = <CommentHeader as VorbisComments>::new();
    block.set_vendor("Ogg");
    let bytes = make_comment_header(&block).unwrap();
    assert_eq!(
        bytes,
        vec![
            0x03, 0x76, 0x6F, 0x72, 0x62, 0x69, 0x73, 0x03, 0x00, 0x00, 0x00, 0x4F, 0x67, 0x67,
            0x00, 0x00, 0x00, 0x00, 0x01
        ]
    );
    assert_eq!(bytes.len(), 19);
}

#[test]
fn entries_follow_the_count() {
    let mut block = <CommentHeader as VorbisComments>::new();
    block.add_tag_single("A", "b");
    block.add_tag_single("cd", "");
    let bytes = make_comment_header(&block).unwrap();
    let mut expected: Vec<u8> = vec![3, b'v', b'o', b'r', b'b', b'i', b's'];
    expected.extend_from_slice(&[0, 0, 0, 0]);
    expected.extend_from_slice(&[2, 0, 0, 0]);
    expected.extend_from_slice(&[3, 0, 0, 0]);
    expected.extend_from_slice(b"a=b");
    expected.extend_from_slice(&[3, 0, 0, 0]);
    expected.extend_from_slice(b"cd=");
    expected.push(1);
    assert_eq!(bytes, expected);
}

#[test]
fn lengths_are_little_endian() {
    let mut block = <CommentHeader as VorbisComments>::new();
    block.set_vendor(&"x".repeat(300));
    block.add_tag_single("k", &"y".repeat(70000 - 2));
    let bytes = make_comment_header(&block).unwrap();
    assert_eq!(&bytes[7..11], &[0x2C, 0x01, 0x00, 0x00]);
    assert_eq!(&bytes[311..315], &[1, 0, 0, 0]);
    assert_eq!(&bytes[315..319], &[0x70, 0x11, 0x01, 0x00]);
    assert_eq!(bytes.len(), 7 + 4 + 300 + 4 + 4 + 70000 + 1);
    assert_eq!(bytes[bytes.len() - 1], 1);
}

#[test]
fn lengths_count_bytes_not_characters() {
    let mut block = <CommentHeader as VorbisComments>::new();
    block.set_vendor("\u{e9}");
    block.add_tag_single("t", "\u{20ac}");
    let bytes = make_comment_header(&block).unwrap();
    assert_eq!(&bytes[7..11], &[2, 0, 0, 0]);
    assert_eq!(&bytes[11..13], &[0xC3, 0xA9]);
    assert_eq!(&bytes[17..21], &[5, 0, 0, 0]);
    assert_eq!(&bytes[21..26], &[b't', b'=', 0xE2, 0x82, 0xAC]);
}

#[test]
fn decode_inverts_encode() {
    let mut block = <CommentHeader as VorbisComments>::new();
    block.set_vendor("Some vendor \u{e9}");
    block.add_tag_single("Artist", "Some Guy");
    block.add_tag_single("artist", "Another Dude");
    block.add_tag_single("title", "a=b=c");
    block.add_tag_single("empty", "");
    block.add_tag_single("date", "\u{20ac}1997");
    let bytes = make_comment_header(&block).unwrap();
    let back = decode_comment_header(&bytes).unwrap();
    assert_eq!(back, block);
    assert_eq!(back.get_tag_multi("ARTIST"), vec!["Some Guy", "Another Dude"]);
}

#[test]
fn decode_inverts_encode_of_empty_block() {
    let block = <CommentHeader as VorbisComments>::new();
    let bytes = make_comment_header(&block).unwrap();
    assert_eq!(decode_comment_header(&bytes).unwrap(), block);
}

#[test]
fn decode_rejects_other_packets() {
    assert_eq!(decode_comment_header(&[]), Err(Error::MalformedPacket));
    assert_eq!(decode_comment_header(&[1, 2, 3]), Err(Error::MalformedPacket));
    assert_eq!(
        decode_comment_header(&[1, b'v', b'o', b'r', b'b', b'i', b's', 0, 0, 0, 0]),
        Err(Error::MalformedPacket)
    );
    let mut block = <CommentHeader as VorbisComments>::new();
    block.set_vendor("Ogg");
    let mut bytes = make_comment_header(&block).unwrap();
    let last = bytes.len() - 1;
    bytes[last] = 0;
    assert_eq!(decode_comment_header(&bytes), Err(Error::MalformedPacket));
}

#[test]
fn holds_comment_tells_blocks_from_others() {
    let mut block = <CommentHeader as VorbisComments>::new();
    block.set_vendor("Ogg");
    let bytes = make_comment_header(&block).unwrap();
    assert!(holds_comment(&bytes));
    assert!(!holds_comment(&bytes[..bytes.len() - 1]));
    assert!(!holds_comment(b"\x01vorbis"));
}

#[test]
fn equals_sign_in_a_key_moves_to_the_value() {
    let pairs = vec![("a=b".to_string(), "c".to_string())];
    let block = <CommentHeader as VorbisComments>::from("v".to_string(), pairs);
    let bytes = make_comment_header(&block).unwrap();
    let back = decode_comment_header(&bytes).unwrap();
    assert_eq!(back.comment_list, vec![("a".to_string(), "b=c".to_string())]);
    assert_eq!(back.get_vendor(), "v");
}

#[test]
fn huge_announced_count_is_malformed() {
    let mut packet: Vec<u8> = vec![3, b'v', b'o', b'r', b'b', b'i', b's'];
    packet.extend_from_slice(&[0, 0, 0, 0]);
    packet.extend_from_slice(&[0xFF, 0xFF, 0xFF, 0xFF]);
    packet.push(1);
    assert!(!is_well_framed(&packet));
    assert!(!holds_comment(&packet));
    assert_eq!(decode_comment_header(&packet), Err(Error::MalformedPacket));
}

#[test]
fn huge_announced_lengths_are_malformed() {
    let mut packet: Vec<u8> = vec![3, b'v', b'o', b'r', b'b', b'i', b's'];
    packet.extend_from_slice(&[0xFF, 0xFF, 0xFF, 0xFF]);
    packet.extend_from_slice(&[0, 0, 0, 0, 1]);
    assert!(!is_well_framed(&packet));
    assert_eq!(decode_comment_header(&packet), Err(Error::MalformedPacket));
    let mut packet: Vec<u8> = vec![3, b'v', b'o', b'r', b'b', b'i', b's'];
    packet.extend_from_slice(&[0, 0, 0, 0]);
    packet.extend_from_slice(&[1, 0, 0, 0]);
    packet.extend_from_slice(&[0xFF, 0xFF, 0xFF, 0x7F]);
    packet.extend_from_slice(b"a=b");
    packet.push(1);
    assert!(!is_well_framed(&packet));
    assert_eq!(decode_comment_header(&packet), Err(Error::MalformedPacket));
}

#[test]
fn framing_follows_the_length_fields() {
    let mut block = <CommentHeader as VorbisComments>::new();
    block.set_vendor("Ogg");
    block.add_tag_single("a", "b");
    block.add_tag_single("cd", "");
    let bytes = make_comment_header(&block).unwrap();
    assert!(is_well_framed(&bytes));
    assert!(!is_well_framed(&bytes[..bytes.len() - 1]));
    assert!(!is_well_framed(&bytes[..14]));
    assert!(!is_well_framed(&[]));
    let mut longer = bytes.clone();
    longer.push(0);
    assert!(is_well_framed(&longer));
    let empty = make_comment_header(&<CommentHeader as VorbisComments>::new()).unwrap();
    assert_eq!(empty.len(), 16);
    assert!(is_well_framed(&empty));
    assert!(!is_well_framed(&empty[..15]));
}

#[test]
fn entries_without_equals_sign_are_skipped() {
    let mut packet: Vec<u8> = vec![3, b'v', b'o', b'r', b'b', b'i', b's'];
    packet.extend_from_slice(&[0, 0, 0, 0]);
    packet.extend_from_slice(&[2, 0, 0, 0]);
    packet.extend_from_slice(&[3, 0, 0, 0]);
    packet.extend_from_slice(b"abc");
    packet.extend_from_slice(&[3, 0, 0, 0]);
    packet.extend_from_slice(b"k=v");
    packet.push(1);
    let block = decode_comment_header(&packet).unwrap();
    assert_eq!(block.comment_list, vec![("k".to_string(), "v".to_string())]);
}
