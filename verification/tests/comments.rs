use oggvorbismeta::text::compare_text;
use oggvorbismeta::text::TextOrder;
use oggvorbismeta::CommentHeader;
use oggvorbismeta::VorbisComments;

fn sample() -> CommentHeader {
    let mut block = <CommentHeader as VorbisComments>::new();
    block.add_tag_single("Artist", "A");
    block.add_tag_single("artist", "B");
    block
}

#[test]
fn new_block_is_empty() {
    let block = <CommentHeader as VorbisComments>::new();
    assert_eq!(block.get_vendor(), "");
    assert!(block.comment_list.is_empty());
    assert!(block.get_tag_names().is_empty());
    assert_eq!(block.get_tag_single("artist"), None);
    assert!(block.get_tag_multi("artist").is_empty());
}

#[test]
fn from_takes_contents_as_given() {
    let pairs = vec![
        ("Title".to_string(), "One".to_string()),
        ("album".to_string(), "Two".to_string()),
    ];
    let block = <CommentHeader as VorbisComments>::from("Vendor".to_string(), pairs.clone());
    assert_eq!(block.get_vendor(), "Vendor");
    assert_eq!(block.comment_list, pairs);
    assert_eq!(block.get_tag_multi("TITLE"), vec!["One"]);
    assert_eq!(block.get_tag_names(), vec!["album".to_string(), "title".to_string()]);
}

#[test]
fn lookup_ignores_case() {
    let block = sample();
    assert_eq!(block.get_tag_multi("ARTIST"), vec!["A", "B"]);
    assert_eq!(block.get_tag_multi("artist"), vec!["A", "B"]);
    assert_eq!(block.get_tag_single("aRtIsT"), Some("A"));
}

#[test]
fn keys_are_stored_lowercase() {
    let block = sample();
    assert_eq!(
        block.comment_list,
        vec![
            ("artist".to_string(), "A".to_string()),
            ("artist".to_string(), "B".to_string()),
        ]
    );
}

#[test]
fn clear_removes_every_value() {
    let mut block = sample();
    block.add_tag_single("Title", "T");
    block.clear_tag("Artist");
    assert!(block.get_tag_multi("artist").is_empty());
    assert_eq!(block.get_tag_single("artist"), None);
    assert!(!block.get_tag_names().contains(&"artist".to_string()));
    assert_eq!(block.get_tag_multi("title"), vec!["T"]);
    assert_eq!(block.comment_list.len(), 1);
}

#[test]
fn clear_of_absent_tag_changes_nothing() {
    let mut block = sample();
    let before = block.clone();
    block.clear_tag("genre");
    assert_eq!(block, before);
}

#[test]
fn names_are_sorted_and_unique() {
    let mut block = <CommentHeader as VorbisComments>::new();
    block.add_tag_single("Title", "t");
    block.add_tag_single("ARTIST", "a");
    block.add_tag_single("date", "d");
    block.add_tag_single("artist", "b");
    block.add_tag_single("Album", "c");
    block.add_tag_single("TITLE", "u");
    assert_eq!(
        block.get_tag_names(),
        vec![
            "album".to_string(),
            "artist".to_string(),
            "date".to_string(),
            "title".to_string(),
        ]
    );
}

#[test]
fn names_do_not_depend_on_order() {
    let mut one = <CommentHeader as VorbisComments>::new();
    one.add_tag_single("b", "1");
    one.add_tag_single("A", "2");
    one.add_tag_single("c", "3");
    let mut two = <CommentHeader as VorbisComments>::new();
    two.add_tag_single("C", "3");
    two.add_tag_single("a", "2");
    two.add_tag_single("B", "1");
    two.add_tag_single("a", "4");
    assert_eq!(one.get_tag_names(), two.get_tag_names());
    assert_eq!(one.get_tag_names(), vec!["a".to_string(), "b".to_string(), "c".to_string()]);
}

#[test]
fn names_fold_keys_given_directly() {
    let pairs = vec![
        ("Zeta".to_string(), "1".to_string()),
        ("ALPHA".to_string(), "2".to_string()),
        ("zeta".to_string(), "3".to_string()),
    ];
    let block = <CommentHeader as VorbisComments>::from(String::new(), pairs);
    assert_eq!(block.get_tag_names(), vec!["alpha".to_string(), "zeta".to_string()]);
    assert_eq!(block.get_tag_multi("ZETA"), vec!["1", "3"]);
}

#[test]
fn add_multi_keeps_the_order_given() {
    let mut block = sample();
    block.add_tag_multi("Genre", &["x", "y", "z"]);
    assert_eq!(block.get_tag_multi("genre"), vec!["x", "y", "z"]);
    assert_eq!(block.comment_list.len(), 5);
    assert_eq!(block.comment_list[2], ("genre".to_string(), "x".to_string()));
    assert_eq!(block.comment_list[4], ("genre".to_string(), "z".to_string()));
    block.add_tag_multi("none", &[]);
    assert_eq!(block.comment_list.len(), 5);
}

#[test]
fn vendor_is_set_and_read() {
    let mut block = sample();
    assert_eq!(block.get_vendor(), "");
    block.set_vendor("Ogg");
    assert_eq!(block.get_vendor(), "Ogg");
    assert_eq!(block.get_tag_multi("artist"), vec!["A", "B"]);
}

#[test]
fn single_is_first_of_multi() {
    let mut block = <CommentHeader as VorbisComments>::new();
    block.add_tag_single("k", "first");
    block.add_tag_single("other", "x");
    block.add_tag_single("K", "second");
    assert_eq!(block.get_tag_single("k"), Some("first"));
    assert_eq!(block.get_tag_single("missing"), None);
}

#[test]
fn texts_compare_by_bytes() {
    assert_eq!(compare_text("a", "b"), TextOrder::Before);
    assert_eq!(compare_text("b", "a"), TextOrder::After);
    assert_eq!(compare_text("abc", "abc"), TextOrder::Same);
    assert_eq!(compare_text("ab", "abc"), TextOrder::Before);
    assert_eq!(compare_text("abc", "ab"), TextOrder::After);
    assert_eq!(compare_text("", ""), TextOrder::Same);
    assert_eq!(compare_text("", "a"), TextOrder::Before);
    assert_eq!(compare_text("z", "\u{e9}"), TextOrder::Before);
}

#[test]
fn keys_beyond_ascii_fold_too() {
    let mut block = <CommentHeader as VorbisComments>::new();
    block.add_tag_single("\u{c9}COLE", "x");
    block.add_tag_single("Zebra", "y");
    assert_eq!(block.comment_list[0].0, "\u{e9}cole");
    assert_eq!(block.get_tag_multi("\u{e9}Cole"), vec!["x"]);
    assert_eq!(block.get_tag_names(), vec!["zebra".to_string(), "\u{e9}cole".to_string()]);
    block.clear_tag("\u{c9}cole");
    assert_eq!(block.get_tag_names(), vec!["zebra".to_string()]);
}

#[test]
fn values_keep_their_case() {
    let mut block = <CommentHeader as VorbisComments>::new();
    block.add_tag_multi("TITLE", &["Loud", "quiet"]);
    assert_eq!(block.get_tag_multi("title"), vec!["Loud", "quiet"]);
    assert_eq!(block.get_tag_single("Title"), Some("Loud"));
}
