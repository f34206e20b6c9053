//! Text helpers: case folding of keys and the byte order of strings.

use vstd::prelude::*;
use vstd::utf8::*;
use vstd::string::*;

verus! {

/// The lowercase form of a text, as the standard library computes it.
pub uninterp spec fn lowercase(s: Seq<char>) -> Seq<char>;

/// Calls `str::to_lowercase`. Nothing is proved of the mapping itself: the
/// result is only given the name `lowercase`, so that two keys can be said to
/// fold to the same text.
#[verifier::external_body]
pub(crate) fn to_lower(s: &str) -> (r: String)
    ensures
        r@ == lowercase(s@),
{
    s.to_lowercase()
}

/// Strict lexicographic order of two byte strings, looking from index `i` on.
pub open spec fn byte_lt_from(a: Seq<u8>, b: Seq<u8>, i: int) -> bool
    decreases a.len() - i,
{
    if i < 0 || i >= b.len() {
        false
    } else if i >= a.len() {
        true
    } else if a[i] != b[i] {
        a[i] < b[i]
    } else {
        byte_lt_from(a, b, i + 1)
    }
}

/// Strict lexicographic order of two byte strings.
pub open spec fn byte_lt(a: Seq<u8>, b: Seq<u8>) -> bool {
    byte_lt_from(a, b, 0)
}

/// Strict order of two texts: the byte order of their UTF-8 encodings.
pub open spec fn text_lt(a: Seq<char>, b: Seq<char>) -> bool {
    byte_lt(encode_utf8(a), encode_utf8(b))
}

/// How one text stands to another in the byte order.
#[derive(Clone, Copy, Debug, PartialEq, Eq)]
pub enum TextOrder {
    Before,
    Same,
    After,
}

/// The position of `a` relative to `b`.
pub open spec fn text_order(a: Seq<char>, b: Seq<char>) -> TextOrder {
    if a == b {
        TextOrder::Same
    } else if text_lt(a, b) {
        TextOrder::Before
    } else {
        TextOrder::After
    }
}

/// The byte order is transitive.
pub proof fn lemma_byte_lt_transitive(a: Seq<u8>, b: Seq<u8>, c: Seq<u8>, i: int)
    requires
        0 <= i,
        byte_lt_from(a, b, i),
        byte_lt_from(b, c, i),
    ensures
        byte_lt_from(a, c, i),
    decreases b.len() - i,
{
    if i < a.len() && i < b.len() && i < c.len() && a[i] == b[i] && b[i] == c[i] {
        lemma_byte_lt_transitive(a, b, c, i + 1);
    }
}

/// No byte string stands before itself.
pub proof fn lemma_byte_lt_irreflexive(a: Seq<u8>, i: int)
    requires
        0 <= i,
    ensures
        !byte_lt_from(a, a, i),
    decreases a.len() - i,
{
    if i < a.len() {
        lemma_byte_lt_irreflexive(a, i + 1);
    }
}

/// No text stands before itself.
pub proof fn lemma_text_lt_irreflexive(a: Seq<char>)
    ensures
        !text_lt(a, a),
{
    lemma_byte_lt_irreflexive(encode_utf8(a), 0);
}

/// The order of texts is transitive.
pub proof fn lemma_text_lt_transitive(a: Seq<char>, b: Seq<char>, c: Seq<char>)
    requires
        text_lt(a, b),
        text_lt(b, c),
    ensures
        text_lt(a, c),
{
    lemma_byte_lt_transitive(encode_utf8(a), encode_utf8(b), encode_utf8(c), 0);
}

/// Of two texts that differ, exactly one stands before the other.
pub proof fn lemma_text_order_total(a: Seq<char>, b: Seq<char>)
    ensures
        text_order(a, b) == TextOrder::After <==> text_lt(b, a),
        text_order(a, b) == TextOrder::Before <==> text_lt(a, b),
        text_order(a, b) == TextOrder::Same <==> a == b,
{
    let x = encode_utf8(a);
    let y = encode_utf8(b);
    encode_utf8_decode_utf8(a);
    encode_utf8_decode_utf8(b);
    lemma_byte_lt_irreflexive(x, 0);
    if a != b {
        assert(x != y);
        lemma_bytes_trichotomy(x, y, 0);
    }
}

proof fn lemma_bytes_trichotomy(a: Seq<u8>, b: Seq<u8>, i: int)
    requires
        0 <= i <= a.len(),
        i <= b.len(),
        a != b,
        forall|k: int| 0 <= k < i ==> a[k] == b[k],
    ensures
        byte_lt_from(a, b, i) != byte_lt_from(b, a, i),
    decreases a.len() - i,
{
    if i < a.len() && i < b.len() {
        if a[i] == b[i] {
            lemma_bytes_trichotomy(a, b, i + 1);
        }
    } else if i == a.len() && i == b.len() {
        assert(a =~= b);
    }
}

/// Compares two texts by the bytes of their UTF-8 encodings.
pub fn compare_text(a: &str, b: &str) -> (r: TextOrder)
    ensures
        r == text_order(a@, b@),
{
    let x = a.as_bytes();
    let y = b.as_bytes();
    proof {
        encode_utf8_decode_utf8(a@);
        encode_utf8_decode_utf8(b@);
    }
    let mut i: usize = 0;
    while i < x.len() && i < y.len()
        invariant
            i <= x.len(),
            i <= y.len(),
            x@ == encode_utf8(a@),
            y@ == encode_utf8(b@),
            forall|k: int| 0 <= k < i ==> x@[k] == y@[k],
            byte_lt_from(x@, y@, 0) == byte_lt_from(x@, y@, i as int),
        decreases x.len() - i,
    {
        if x[i] < y[i] {
            return TextOrder::Before;
        }
        if x[i] > y[i] {
            return TextOrder::After;
        }
        i += 1;
    }
    if x.len() < y.len() {
        TextOrder::Before
    } else if x.len() > y.len() {
        TextOrder::After
    } else {
        assert(x@ =~= y@);
        TextOrder::Same
    }
}

} // verus!
