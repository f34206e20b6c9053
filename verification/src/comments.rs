//! The comment block in memory: a vendor text and an ordered list of tags.

use vstd::prelude::*;
use vstd::string::*;
use crate::text::TextOrder;
use crate::text::compare_text;
use crate::text::lemma_byte_lt_transitive;
use crate::text::lemma_text_order_total;
use crate::text::lowercase;
use crate::text::text_lt;
use crate::text::to_lower;

verus! {

/// A tag as a pair of texts: key, then value.
pub type TagPair = (Seq<char>, Seq<char>);

/// The texts of a list of owned pairs.
pub open spec fn pairs_view(list: Seq<(String, String)>) -> Seq<TagPair> {
    Seq::new(list.len(), |i: int| (list[i].0@, list[i].1@))
}

/// The texts of a list of owned strings.
pub open spec fn strings_view(list: Seq<String>) -> Seq<Seq<char>> {
    Seq::new(list.len(), |i: int| list[i]@)
}

/// The texts of a list of borrowed strings.
pub open spec fn strs_view(list: Seq<&str>) -> Seq<Seq<char>> {
    Seq::new(list.len(), |i: int| list[i]@)
}

/// A key answers to a tag name when both fold to the same lowercase text.
pub open spec fn key_matches(key: Seq<char>, tag: Seq<char>) -> bool {
    lowercase(key) == lowercase(tag)
}

/// The values stored under `tag`, in the order of the list.
pub open spec fn values_for(tags: Seq<TagPair>, tag: Seq<char>) -> Seq<Seq<char>>
    decreases tags.len(),
{
    if tags.len() == 0 {
        Seq::empty()
    } else if key_matches(tags.last().0, tag) {
        values_for(tags.drop_last(), tag).push(tags.last().1)
    } else {
        values_for(tags.drop_last(), tag)
    }
}

/// The list without the pairs stored under `tag`, the others in their order.
pub open spec fn without_key(tags: Seq<TagPair>, tag: Seq<char>) -> Seq<TagPair>
    decreases tags.len(),
{
    if tags.len() == 0 {
        Seq::empty()
    } else if key_matches(tags.last().0, tag) {
        without_key(tags.drop_last(), tag)
    } else {
        without_key(tags.drop_last(), tag).push(tags.last())
    }
}

/// One pair per value, each under the lowercase form of `tag`.
pub open spec fn pairs_under(tag: Seq<char>, values: Seq<Seq<char>>) -> Seq<TagPair> {
    Seq::new(values.len(), |i: int| (lowercase(tag), values[i]))
}

/// The lowercase forms of the keys of a list, position by position.
pub open spec fn folded_keys(tags: Seq<TagPair>) -> Seq<Seq<char>> {
    Seq::new(tags.len(), |i: int| lowercase(tags[i].0))
}

/// Strictly ascending in the byte order, hence free of repetitions.
pub open spec fn strictly_ascending(names: Seq<Seq<char>>) -> bool {
    forall|i: int, j: int| 0 <= i < j < names.len() ==> text_lt(names[i], names[j])
}

/// `names` lists the folded keys of `tags`: each once, in ascending order.
pub open spec fn is_name_list(names: Seq<Seq<char>>, tags: Seq<TagPair>) -> bool {
    &&& strictly_ascending(names)
    &&& forall|s: Seq<char>| names.contains(s) <==> folded_keys(tags).contains(s)
}

/// A comment block: the vendor text and the tags in insertion order. A key may
/// occur any number of times.
#[derive(Clone, Debug, PartialEq, Eq)]
pub struct CommentHeader {
    pub vendor: String,
    pub comment_list: Vec<(String, String)>,
}

/// A holder of Vorbis comments.
pub trait VorbisComments: Sized {
    /// The vendor text.
    spec fn vendor_text(&self) -> Seq<char>;

    /// The tags, in insertion order.
    spec fn tag_pairs(&self) -> Seq<TagPair>;

    /// Builds a block from its contents, taken as they are.
    fn from(vendor: String, comment_list: Vec<(String, String)>) -> (r: Self)
        ensures
            r.vendor_text() == vendor@,
            r.tag_pairs() == pairs_view(comment_list@),
    ;

    /// An empty block.
    fn new() -> (r: Self)
        ensures
            r.vendor_text() == Seq::<char>::empty(),
            r.tag_pairs() == Seq::<TagPair>::empty(),
    ;

    /// The tag names in use: lowercase, ascending, each once.
    fn get_tag_names(&self) -> (names: Vec<String>)
        ensures
            is_name_list(strings_view(names@), self.tag_pairs()),
    ;

    /// The first value stored under `tag`, if there is one.
    fn get_tag_single(&self, tag: &str) -> (r: Option<&str>)
        ensures
            match r {
                Some(v) => values_for(self.tag_pairs(), tag@).len() > 0 && v@ == values_for(
                    self.tag_pairs(),
                    tag@,
                )[0],
                None => values_for(self.tag_pairs(), tag@).len() == 0,
            },
    ;

    /// All values stored under `tag`, in insertion order.
    fn get_tag_multi(&self, tag: &str) -> (r: Vec<&str>)
        ensures
            strs_view(r@) == values_for(self.tag_pairs(), tag@),
    ;

    /// Removes every pair stored under `tag`.
    fn clear_tag(&mut self, tag: &str)
        ensures
            final(self).vendor_text() == old(self).vendor_text(),
            final(self).tag_pairs() == without_key(old(self).tag_pairs(), tag@),
    ;

    /// Appends one pair, its key folded to lowercase.
    fn add_tag_single(&mut self, tag: &str, value: &str)
        ensures
            final(self).vendor_text() == old(self).vendor_text(),
            final(self).tag_pairs() == old(self).tag_pairs().push((lowercase(tag@), value@)),
    ;

    /// Appends one pair per value, in the order given.
    fn add_tag_multi(&mut self, tag: &str, values: &[&str])
        ensures
            final(self).vendor_text() == old(self).vendor_text(),
            final(self).tag_pairs() == old(self).tag_pairs() + pairs_under(
                tag@,
                strs_view(values@),
            ),
    ;

    /// The vendor text.
    fn get_vendor(&self) -> (r: &str)
        ensures
            r@ == self.vendor_text(),
    ;

    /// Replaces the vendor text.
    fn set_vendor(&mut self, vend: &str)
        ensures
            final(self).vendor_text() == vend@,
            final(self).tag_pairs() == old(self).tag_pairs(),
    ;
}

/// Where `key` belongs in an ascending list, and whether it stands there
/// already.
fn find_slot(names: &Vec<String>, key: &str) -> (r: (usize, bool))
    ensures
        r.0 <= names.len(),
        forall|j: int| 0 <= j < r.0 ==> text_lt(#[trigger] names[j]@, key@),
        r.1 ==> r.0 < names.len() && names[r.0 as int]@ == key@,
        !r.1 ==> r.0 == names.len() || text_lt(key@, names[r.0 as int]@),
{
    let mut i: usize = 0;
    while i < names.len()
        invariant
            i <= names.len(),
            forall|j: int| 0 <= j < i ==> text_lt(#[trigger] names[j]@, key@),
        decreases names.len() - i,
    {
        proof {
            lemma_text_order_total(names[i as int]@, key@);
        }
        match compare_text(names[i].as_str(), key) {
            TextOrder::Before => {
                i += 1;
            },
            TextOrder::Same => {
                return (i, true);
            },
            TextOrder::After => {
                return (i, false);
            },
        }
    }
    (i, false)
}

/// Puts `key` into an ascending list unless it stands there already.
fn insert_name(names: &mut Vec<String>, key: String)
    requires
        strictly_ascending(strings_view(old(names)@)),
    ensures
        strictly_ascending(strings_view(final(names)@)),
        forall|s: Seq<char>|
            strings_view(final(names)@).contains(s) <==> (strings_view(old(names)@).contains(s)
                || s == key@),
{
    let (pos, found) = find_slot(names, key.as_str());
    let ghost before = strings_view(names@);
    if found {
        assert(before[pos as int] == key@);
    } else {
        names.insert(pos, key);
        let ghost after = strings_view(names@);
        assert(after =~= before.insert(pos as int, key@));
        assert forall|i: int, j: int| 0 <= i < j < after.len() implies text_lt(
            after[i],
            after[j],
        ) by {
            if j == pos {
                assert(after[i] == before[i]);
                assert(text_lt(old(names)@[i]@, key@));
            } else if i == pos {
                assert(after[j] == before[j - 1]);
                if j - 1 > pos {
                    assert(text_lt(before[pos as int], before[j - 1]));
                    lemma_byte_lt_transitive(
                        vstd::utf8::encode_utf8(key@),
                        vstd::utf8::encode_utf8(before[pos as int]),
                        vstd::utf8::encode_utf8(before[j - 1]),
                        0,
                    );
                }
            } else {
                let bi = if i < pos { i } else { i - 1 };
                let bj = if j < pos { j } else { j - 1 };
                assert(after[i] == before[bi]);
                assert(after[j] == before[bj]);
                assert(text_lt(before[bi], before[bj]));
            }
        }
        assert forall|s: Seq<char>| after.contains(s) <==> (before.contains(s) || s == key@) by {
            if after.contains(s) {
                let i = choose|i: int| 0 <= i < after.len() && after[i] == s;
                if i < pos {
                    assert(before[i] == s);
                } else if i > pos {
                    assert(before[i - 1] == s);
                }
            }
            if before.contains(s) {
                let i = choose|i: int| 0 <= i < before.len() && before[i] == s;
                if i < pos {
                    assert(after[i] == s);
                } else {
                    assert(after[i + 1] == s);
                }
            }
            if s == key@ {
                assert(after[pos as int] == s);
            }
        }
    }
}

impl VorbisComments for CommentHeader {
    open spec fn vendor_text(&self) -> Seq<char> {
        self.vendor@
    }

    open spec fn tag_pairs(&self) -> Seq<TagPair> {
        pairs_view(self.comment_list@)
    }

    fn from(vendor: String, comment_list: Vec<(String, String)>) -> (r: CommentHeader) {
        CommentHeader { vendor, comment_list }
    }

    fn new() -> (r: CommentHeader) {
        let r = CommentHeader { vendor: String::new(), comment_list: Vec::new() };
        assert(r.tag_pairs() =~= Seq::<TagPair>::empty());
        r
    }

    fn get_tag_names(&self) -> (names: Vec<String>) {
        let mut names: Vec<String> = Vec::new();
        let ghost tags = self.tag_pairs();
        let mut k: usize = 0;
        while k < self.comment_list.len()
            invariant
                k <= self.comment_list.len(),
                tags == self.tag_pairs(),
                is_name_list(strings_view(names@), tags.take(k as int)),
            decreases self.comment_list.len() - k,
        {
            let key = to_lower(self.comment_list[k].0.as_str());
            insert_name(&mut names, key);
            proof {
                let after = strings_view(names@);
                let seen = folded_keys(tags.take(k as int));
                let next = folded_keys(tags.take(k + 1));
                assert(next =~= seen.push(lowercase(tags[k as int].0)));
                assert forall|s: Seq<char>| after.contains(s) <==> next.contains(s) by {
                    if seen.contains(s) {
                        let i = choose|i: int| 0 <= i < seen.len() && seen[i] == s;
                        assert(next[i] == s);
                    }
                    if s == key@ {
                        assert(next[k as int] == s);
                    }
                    if next.contains(s) {
                        let i = choose|i: int| 0 <= i < next.len() && next[i] == s;
                        if i < k {
                            assert(seen[i] == s);
                        }
                    }
                }
            }
            k += 1;
        }
        assert(tags.take(k as int) =~= tags);
        names
    }

    fn get_tag_single(&self, tag: &str) -> (r: Option<&str>) {
        let tags = self.get_tag_multi(tag);
        if tags.len() > 0 {
            assert(strs_view(tags@)[0] == tags[0]@);
            Some(tags[0])
        } else {
            assert(strs_view(tags@).len() == 0);
            None
        }
    }

    fn get_tag_multi(&self, tag: &str) -> (r: Vec<&str>) {
        let wanted = to_lower(tag);
        let mut found: Vec<&str> = Vec::new();
        let ghost tags = self.tag_pairs();
        let mut k: usize = 0;
        while k < self.comment_list.len()
            invariant
                k <= self.comment_list.len(),
                tags == self.tag_pairs(),
                wanted@ == lowercase(tag@),
                strs_view(found@) == values_for(tags.take(k as int), tag@),
            decreases self.comment_list.len() - k,
        {
            let key = to_lower(self.comment_list[k].0.as_str());
            let ghost before = strs_view(found@);
            assert(tags.take(k + 1).drop_last() =~= tags.take(k as int));
            if key == wanted {
                found.push(self.comment_list[k].1.as_str());
                assert(strs_view(found@) =~= before.push(tags[k as int].1));
            }
            k += 1;
        }
        assert(tags.take(k as int) =~= tags);
        found
    }

    fn clear_tag(&mut self, tag: &str) {
        let wanted = to_lower(tag);
        let mut kept: Vec<(String, String)> = Vec::new();
        let ghost tags = self.tag_pairs();
        let mut k: usize = 0;
        while k < self.comment_list.len()
            invariant
                k <= self.comment_list.len(),
                tags == self.tag_pairs(),
                self.vendor == old(self).vendor,
                wanted@ == lowercase(tag@),
                pairs_view(kept@) == without_key(tags.take(k as int), tag@),
            decreases self.comment_list.len() - k,
        {
            let key = to_lower(self.comment_list[k].0.as_str());
            let ghost before = pairs_view(kept@);
            assert(tags.take(k + 1).drop_last() =~= tags.take(k as int));
            if key != wanted {
                kept.push((self.comment_list[k].0.clone(), self.comment_list[k].1.clone()));
                assert(pairs_view(kept@) =~= before.push(tags[k as int]));
            }
            k += 1;
        }
        assert(tags.take(k as int) =~= tags);
        self.comment_list = kept;
    }

    fn add_tag_single(&mut self, tag: &str, value: &str) {
        let ghost before = self.tag_pairs();
        self.comment_list.push((to_lower(tag), value.to_owned()));
        assert(self.tag_pairs() =~= before.push((lowercase(tag@), value@)));
    }

    fn add_tag_multi(&mut self, tag: &str, values: &[&str]) {
        let ghost before = self.tag_pairs();
        let ghost extra = pairs_under(tag@, strs_view(values@));
        let mut k: usize = 0;
        while k < values.len()
            invariant
                k <= values.len(),
                self.vendor == old(self).vendor,
                before == old(self).tag_pairs(),
                extra == pairs_under(tag@, strs_view(values@)),
                self.tag_pairs() == before + extra.take(k as int),
            decreases values.len() - k,
        {
            let ghost so_far = self.tag_pairs();
            self.comment_list.push((to_lower(tag), values[k].to_owned()));
            assert(self.tag_pairs() =~= so_far.push(extra[k as int]));
            assert(extra.take(k + 1) =~= extra.take(k as int).push(extra[k as int]));
            assert(self.tag_pairs() =~= before + extra.take(k + 1));
            k += 1;
        }
        assert(extra.take(k as int) =~= extra);
    }

    fn get_vendor(&self) -> (r: &str) {
        self.vendor.as_str()
    }

    fn set_vendor(&mut self, vend: &str) {
        self.vendor = vend.to_owned();
    }
}

/// After a tag is cleared, nothing is stored under it and its name is in use
/// no more.
pub proof fn lemma_clear_removes(tags: Seq<TagPair>, tag: Seq<char>)
    ensures
        values_for(without_key(tags, tag), tag) == Seq::<Seq<char>>::empty(),
        !folded_keys(without_key(tags, tag)).contains(lowercase(tag)),
    decreases tags.len(),
{
    if tags.len() > 0 {
        let head = tags.drop_last();
        lemma_clear_removes(head, tag);
        let kept = without_key(head, tag);
        if !key_matches(tags.last().0, tag) {
            let all = kept.push(tags.last());
            assert(all.drop_last() =~= kept);
            let names = folded_keys(all);
            if names.contains(lowercase(tag)) {
                let i = choose|i: int| 0 <= i < names.len() && names[i] == lowercase(tag);
                if i < kept.len() {
                    assert(folded_keys(kept)[i] == lowercase(tag));
                }
            }
        }
    } else {
        let names = folded_keys(without_key(tags, tag));
        assert(names.len() == 0);
    }
}

/// Clearing a tag leaves the values of every other tag as they were.
pub proof fn lemma_clear_keeps_others(tags: Seq<TagPair>, tag: Seq<char>, other: Seq<char>)
    requires
        lowercase(other) != lowercase(tag),
    ensures
        values_for(without_key(tags, tag), other) == values_for(tags, other),
    decreases tags.len(),
{
    if tags.len() > 0 {
        let head = tags.drop_last();
        lemma_clear_keeps_others(head, tag, other);
        if !key_matches(tags.last().0, tag) {
            assert(without_key(head, tag).push(tags.last()).drop_last() =~= without_key(head, tag));
        }
    }
}

/// An ascending list is fixed by the texts it holds: two such lists with the
/// same texts are the same list.
pub proof fn lemma_ascending_unique(a: Seq<Seq<char>>, b: Seq<Seq<char>>)
    requires
        strictly_ascending(a),
        strictly_ascending(b),
        forall|s: Seq<char>| a.contains(s) <==> b.contains(s),
    ensures
        a == b,
    decreases a.len(),
{
    if a.len() == 0 {
        if b.len() > 0 {
            assert(b.contains(b[0]));
        }
        assert(a =~= b);
    } else if b.len() == 0 {
        assert(a.contains(a[0]));
    } else {
        assert(a.contains(a[0]));
        assert(b.contains(b[0]));
        let i = choose|i: int| 0 <= i < a.len() && a[i] == b[0];
        let j = choose|j: int| 0 <= j < b.len() && b[j] == a[0];
        crate::text::lemma_text_lt_irreflexive(a[0]);
        if i > 0 {
            assert(text_lt(a[0], a[i]));
            if j > 0 {
                assert(text_lt(b[0], b[j]));
                crate::text::lemma_text_lt_transitive(a[0], b[0], a[0]);
            }
        }
        assert(a[0] == b[0]);
        let ta = a.skip(1);
        let tb = b.skip(1);
        assert forall|s: Seq<char>| ta.contains(s) <==> tb.contains(s) by {
            crate::text::lemma_text_lt_irreflexive(s);
            if ta.contains(s) {
                let k = choose|k: int| 0 <= k < ta.len() && ta[k] == s;
                assert(a[k + 1] == s);
                assert(text_lt(a[0], a[k + 1]));
                assert(a.contains(s));
                let m = choose|m: int| 0 <= m < b.len() && b[m] == s;
                assert(m > 0);
                assert(tb[m - 1] == s);
            }
            if tb.contains(s) {
                let k = choose|k: int| 0 <= k < tb.len() && tb[k] == s;
                assert(b[k + 1] == s);
                assert(text_lt(b[0], b[k + 1]));
                assert(b.contains(s));
                let m = choose|m: int| 0 <= m < a.len() && a[m] == s;
                assert(m > 0);
                assert(ta[m - 1] == s);
            }
        }
        assert forall|x: int, y: int| 0 <= x < y < ta.len() implies text_lt(ta[x], ta[y]) by {
            assert(text_lt(a[x + 1], a[y + 1]));
        }
        assert forall|x: int, y: int| 0 <= x < y < tb.len() implies text_lt(tb[x], tb[y]) by {
            assert(text_lt(b[x + 1], b[y + 1]));
        }
        lemma_ascending_unique(ta, tb);
        assert(a =~= seq![a[0]] + ta);
        assert(b =~= seq![b[0]] + tb);
    }
}

/// The list of tag names depends only on which lowercase keys occur: two tag
/// lists that fold to the same set of keys, in whatever order and however often,
/// have the same list of names.
pub proof fn lemma_names_ignore_order(
    first: Seq<TagPair>,
    second: Seq<TagPair>,
    names_first: Seq<Seq<char>>,
    names_second: Seq<Seq<char>>,
)
    requires
        is_name_list(names_first, first),
        is_name_list(names_second, second),
        forall|s: Seq<char>| folded_keys(first).contains(s) <==> folded_keys(second).contains(s),
    ensures
        names_first == names_second,
{
    lemma_ascending_unique(names_first, names_second);
}

/// A pair appended under a key is the last value of every tag that the key
/// answers to, and changes the values of no other tag.
pub proof fn lemma_append_then_get(tags: Seq<TagPair>, key: Seq<char>, value: Seq<char>, tag: Seq<char>)
    ensures
        values_for(tags.push((key, value)), tag) == if key_matches(key, tag) {
            values_for(tags, tag).push(value)
        } else {
            values_for(tags, tag)
        },
{
    assert(tags.push((key, value)).drop_last() =~= tags);
}

} // verus!
