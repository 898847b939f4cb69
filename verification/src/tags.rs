//! The tags of a note: a set of non-empty strings, kept in dictionary
//! order so that equal sets are stored alike.

use vstd::prelude::*;
use crate::text::{
    chars_of, field_ranges, fields, lemma_lex_asymmetric, lemma_lex_irreflexive, lemma_lex_total,
    lemma_lex_transitive, lex_lt, precedes, same_chars, string_of_range, trim_range, trimmed,
};

verus! {

/// A set of tags.
#[derive(Debug, PartialEq, Eq)]
pub struct Tags {
    items: Vec<String>,
}

/// The texts of a list of strings.
pub open spec fn texts(items: Seq<String>) -> Seq<Seq<char>> {
    Seq::new(items.len(), |i: int| items[i]@)
}

/// Whether a list of texts is in strictly ascending dictionary order.
pub open spec fn ascending(names: Seq<Seq<char>>) -> bool {
    forall|i: int, j: int| 0 <= i < j < names.len() ==> lex_lt(#[trigger] names[i], #[trigger] names[j])
}

/// The set of the texts that a list holds.
pub open spec fn members(names: Seq<Seq<char>>) -> Set<Seq<char>> {
    Set::new(|t: Seq<char>| exists|i: int| 0 <= i < names.len() && names[i] == t)
}

/// Two ascending lists with the same members are the same list.
pub proof fn lemma_ascending_unique(a: Seq<Seq<char>>, b: Seq<Seq<char>>)
    requires
        ascending(a),
        ascending(b),
        members(a) == members(b),
    ensures
        a == b,
    decreases a.len(),
{
    if a.len() == 0 {
        if b.len() > 0 {
            assert(b[0] == b[0]);
            assert(members(b).contains(b[0]));
        }
        assert(a =~= b);
    } else if b.len() == 0 {
        assert(a[0] == a[0]);
        assert(members(a).contains(a[0]));
    } else {
        let la = a.len() - 1;
        let lb = b.len() - 1;
        assert(members(a).contains(a[la]));
        assert(members(b).contains(b[lb]));
        let j = choose|j: int| 0 <= j < b.len() && b[j] == a[la];
        let i = choose|i: int| 0 <= i < a.len() && a[i] == b[lb];
        if j < lb && i < la {
            assert(lex_lt(b[j], b[lb]));
            assert(lex_lt(a[i], a[la]));
            lemma_lex_asymmetric(a[la], b[lb]);
        }
        assert(a[la] == b[lb]);
        let a0 = a.drop_last();
        let b0 = b.drop_last();
        assert forall|t: Seq<char>| members(a0).contains(t) == members(b0).contains(t) by {
            lemma_lex_irreflexive(t);
            if members(a0).contains(t) {
                let i = choose|i: int| 0 <= i < a0.len() && a0[i] == t;
                assert(a[i] == t);
                assert(lex_lt(a[i], a[la]));
                assert(members(a).contains(t));
                let j = choose|j: int| 0 <= j < b.len() && b[j] == t;
                assert(b0[j] == t);
            }
            if members(b0).contains(t) {
                let i = choose|i: int| 0 <= i < b0.len() && b0[i] == t;
                assert(b[i] == t);
                assert(lex_lt(b[i], b[lb]));
                assert(members(b).contains(t));
                let j = choose|j: int| 0 <= j < a.len() && a[j] == t;
                assert(a0[j] == t);
            }
        }
        assert(members(a0) =~= members(b0));
        assert(ascending(a0)) by {
            assert forall|i: int, j: int| 0 <= i < j < a0.len() implies lex_lt(
                #[trigger] a0[i],
                #[trigger] a0[j],
            ) by {
                assert(lex_lt(a[i], a[j]));
            }
        }
        assert(ascending(b0)) by {
            assert forall|i: int, j: int| 0 <= i < j < b0.len() implies lex_lt(
                #[trigger] b0[i],
                #[trigger] b0[j],
            ) by {
                assert(lex_lt(b[i], b[j]));
            }
        }
        lemma_ascending_unique(a0, b0);
        assert(a =~= a0.push(a[la]));
        assert(b =~= b0.push(b[lb]));
    }
}

impl View for Tags {
    type V = Set<Seq<char>>;

    closed spec fn view(&self) -> Set<Seq<char>> {
        members(self.names())
    }
}

impl Tags {
    /// The tags in the order in which they are stored.
    pub closed spec fn names(&self) -> Seq<Seq<char>> {
        texts(self.items@)
    }

    /// What holds of every set of tags: the names are in strictly
    /// ascending order, so none occurs twice, and none is empty.
    #[verifier::type_invariant]
    pub closed spec fn wf(&self) -> bool {
        &&& ascending(self.names())
        &&& forall|i: int| 0 <= i < self.names().len() ==> (#[trigger] self.names()[i]).len() > 0
    }

    /// The stored names are exactly the members of the set; they are in
    /// ascending order, and none of them is empty.
    pub proof fn lemma_names(&self)
        requires
            self.wf(),
        ensures
            self@ == members(self.names()),
            ascending(self.names()),
            forall|i: int| 0 <= i < self.names().len() ==> (#[trigger] self.names()[i]).len() > 0,
            forall|t: Seq<char>| self@.contains(t) ==> t.len() > 0,
    {
        assert forall|t: Seq<char>| self@.contains(t) implies t.len() > 0 by {
            let i = choose|i: int| 0 <= i < self.names().len() && self.names()[i] == t;
            assert(self.names()[i].len() > 0);
        }
    }

    /// Two sets of tags with the same members are stored alike.
    pub proof fn lemma_stored_alike(&self, other: &Tags)
        requires
            self.wf(),
            other.wf(),
            self@ == other@,
        ensures
            self.names() == other.names(),
    {
        lemma_ascending_unique(self.names(), other.names());
    }

    /// The empty set of tags.
    pub fn new() -> (tags: Tags)
        ensures
            tags@ == Set::<Seq<char>>::empty(),
            tags.names() == Seq::<Seq<char>>::empty(),
            tags.wf(),
    {
        let tags = Tags { items: Vec::new() };
        assert(tags@ =~= Set::<Seq<char>>::empty());
        assert(tags.names() =~= Seq::<Seq<char>>::empty());
        tags
    }

    /// How many tags the set holds.
    pub fn len(&self) -> (n: usize)
        ensures
            n == self.names().len(),
    {
        self.items.len()
    }

    /// The tag at position `i` of the stored order.
    pub fn get(&self, i: usize) -> (tag: &String)
        requires
            i < self.names().len(),
        ensures
            tag@ == self.names()[i as int],
    {
        &self.items[i]
    }

    /// Whether `tag` is in the set.
    pub fn contains(&self, tag: &str) -> (r: bool)
        ensures
            r == self@.contains(tag@),
    {
        let wanted = chars_of(tag);
        let mut i: usize = 0;
        while i < self.items.len()
            invariant
                i <= self.items.len(),
                wanted@ == tag@,
                forall|k: int| 0 <= k < i ==> self.names()[k] != tag@,
            decreases self.items.len() - i,
        {
            let have = chars_of(self.items[i].as_str());
            if same_chars(&have, &wanted) {
                assert(self.names()[i as int] == tag@);
                return true;
            }
            i += 1;
        }
        false
    }

    /// Adds `tag` to the set. The empty string is no tag and is left out.
    /// Returns whether the set has grown.
    pub fn insert(&mut self, tag: String) -> (added: bool)
        ensures
            final(self)@ == (if tag@.len() > 0 {
                old(self)@.insert(tag@)
            } else {
                old(self)@
            }),
            added == (tag@.len() > 0 && !old(self)@.contains(tag@)),
            final(self).wf(),
    {
        proof {
            use_type_invariant(&*self);
        }
        let wanted = chars_of(tag.as_str());
        if wanted.len() == 0 {
            return false;
        }
        let ghost before = self.names();
        let mut pos: usize = 0;
        let mut placed = false;
        while !placed && pos < self.items.len()
            invariant
                pos <= self.items.len(),
                wanted@ == tag@,
                self.names() == before,
                *self == *old(self),
                forall|k: int| 0 <= k < pos ==> lex_lt(before[k], tag@),
                placed ==> pos < before.len() && !lex_lt(before[pos as int], tag@),
            decreases self.items.len() - pos + (if placed { 0int } else { 1int }),
        {
            let have = chars_of(self.items[pos].as_str());
            if precedes(&have, &wanted) {
                pos += 1;
            } else {
                placed = true;
            }
        }
        if pos < self.items.len() {
            let have = chars_of(self.items[pos].as_str());
            if same_chars(&have, &wanted) {
                assert(before[pos as int] == tag@);
                assert(self@ =~= old(self)@.insert(tag@));
                return false;
            }
        }
        proof {
            if pos < before.len() {
                lemma_lex_total(before[pos as int], tag@);
            }
            assert forall|k: int| pos <= k < before.len() implies lex_lt(tag@, #[trigger] before[k]) by {
                if k > pos {
                    lemma_lex_transitive(tag@, before[pos as int], before[k]);
                }
            }
            assert forall|k: int| 0 <= k < before.len() implies #[trigger] before[k] != tag@ by {
                lemma_lex_irreflexive(tag@);
            }
        }
        let mut items: Vec<String> = Vec::new();
        core::mem::swap(&mut self.items, &mut items);
        assert(texts(items@) == before);
        items.insert(pos, tag);
        let ghost after = texts(items@);
        proof {
            assert(after =~= before.insert(pos as int, tag@));
            assert forall|i: int, j: int| 0 <= i < j < after.len() implies lex_lt(
                #[trigger] after[i],
                #[trigger] after[j],
            ) by {
                let oi = if i < pos { i } else { i - 1 };
                let oj = if j < pos { j } else { j - 1 };
                if i != pos && j != pos {
                    assert(lex_lt(before[oi], before[oj]));
                }
            }
            assert forall|i: int| 0 <= i < after.len() implies (#[trigger] after[i]).len() > 0 by {
                let oi = if i < pos { i } else { i - 1 };
                if i != pos {
                    assert(before[oi].len() > 0);
                }
            }
        }
        core::mem::swap(&mut self.items, &mut items);
        proof {
            assert(self.names() == after);
            assert forall|t: Seq<char>| members(after).contains(t) == (members(before).contains(t)
                || t == tag@) by {
                if members(after).contains(t) {
                    let i = choose|i: int| 0 <= i < after.len() && after[i] == t;
                    if i < pos {
                        assert(before[i] == t);
                    } else if i > pos {
                        assert(before[i - 1] == t);
                    }
                }
                if members(before).contains(t) {
                    let i = choose|i: int| 0 <= i < before.len() && before[i] == t;
                    if i < pos {
                        assert(after[i] == t);
                    } else {
                        assert(after[i + 1] == t);
                    }
                }
                if t == tag@ {
                    assert(after[pos as int] == t);
                }
            }
            assert(self@ =~= old(self)@.insert(tag@));
        }
        true
    }

    /// Whether every tag of this set is in `other`.
    pub fn is_subset(&self, other: &Tags) -> (r: bool)
        ensures
            r == self@.subset_of(other@),
    {
        let mut i: usize = 0;
        while i < self.items.len()
            invariant
                i <= self.items.len(),
                forall|k: int| 0 <= k < i ==> other@.contains(#[trigger] self.names()[k]),
            decreases self.items.len() - i,
        {
            if !other.contains(self.items[i].as_str()) {
                assert(self@.contains(self.names()[i as int]));
                return false;
            }
            i += 1;
        }
        true
    }

    /// The tags as a list of strings, in stored order.
    pub fn to_vec(&self) -> (v: Vec<String>)
        ensures
            texts(v@) == self.names(),
    {
        let mut v: Vec<String> = Vec::new();
        let mut i: usize = 0;
        while i < self.items.len()
            invariant
                i <= self.items.len(),
                texts(v@) == self.names().take(i as int),
            decreases self.items.len() - i,
        {
            v.push(self.items[i].clone());
            assert(texts(v@) =~= self.names().take(i as int).push(self.names()[i as int]));
            assert(self.names().take(i + 1) =~= self.names().take(i as int).push(
                self.names()[i as int],
            ));
            i += 1;
        }
        assert(self.names().take(self.items.len() as int) =~= self.names());
        v
    }

    /// The set of the strings in `list` that are not empty.
    pub fn from_vec(list: Vec<String>) -> (tags: Tags)
        ensures
            tags@ == members(texts(list@)).filter(|t: Seq<char>| t.len() > 0),
    {
        let mut tags = Tags::new();
        let mut i: usize = 0;
        let ghost all = texts(list@);
        while i < list.len()
            invariant
                i <= list.len(),
                all == texts(list@),
                tags@ == members(all.take(i as int)).filter(|t: Seq<char>| t.len() > 0),
            decreases list.len() - i,
        {
            let ghost before = tags@;
            tags.insert(list[i].clone());
            proof {
                let now = all.take(i + 1);
                let was = all.take(i as int);
                assert(now =~= was.push(all[i as int]));
                assert forall|t: Seq<char>| members(now).contains(t) == (members(was).contains(t)
                    || t == all[i as int]) by {
                    if members(now).contains(t) {
                        let k = choose|k: int| 0 <= k < now.len() && now[k] == t;
                        if k < i {
                            assert(was[k] == t);
                        }
                    }
                    if members(was).contains(t) {
                        let k = choose|k: int| 0 <= k < was.len() && was[k] == t;
                        assert(now[k] == t);
                    }
                    if t == all[i as int] {
                        assert(now[i as int] == t);
                    }
                }
                assert(tags@ =~= members(now).filter(|t: Seq<char>| t.len() > 0));
            }
            i += 1;
        }
        assert(all.take(list.len() as int) =~= all);
        tags
    }
}

impl Clone for Tags {
    fn clone(&self) -> (r: Self)
        ensures
            r@ == self@,
            r.names() == self.names(),
    {
        proof {
            use_type_invariant(self);
        }
        let items = self.to_vec();
        assert(texts(items@) =~= self.names());
        Tags { items }
    }
}

/// The tags that a comma-separated list names: each field without the
/// white space around it, the empty ones left out.
pub open spec fn listed_tags(list: Seq<char>) -> Set<Seq<char>> {
    Set::new(
        |t: Seq<char>|
            t.len() > 0 && exists|k: int|
                0 <= k < fields(list, ',').len() && trimmed(#[trigger] fields(list, ',')[k]) == t,
    )
}

/// Reads a comma-separated list of tags.
pub fn parse_tags(comma_delimited: &str) -> (tags: Tags)
    ensures
        tags@ == listed_tags(comma_delimited@),
{
    let chars = chars_of(comma_delimited);
    let ranges = field_ranges(&chars, ',');
    let ghost all = fields(chars@, ',');
    let mut tags = Tags::new();
    let mut k: usize = 0;
    while k < ranges.len()
        invariant
            k <= ranges.len(),
            chars@ == comma_delimited@,
            all == fields(chars@, ','),
            ranges.len() == all.len(),
            forall|j: int|
                0 <= j < ranges.len() ==> {
                    &&& (#[trigger] ranges[j]).0 <= ranges[j].1 <= chars.len()
                    &&& chars@.subrange(ranges[j].0 as int, ranges[j].1 as int) == all[j]
                },
            tags@ == Set::new(
                |t: Seq<char>|
                    t.len() > 0 && exists|j: int| 0 <= j < k && trimmed(#[trigger] all[j]) == t,
            ),
        decreases ranges.len() - k,
    {
        let (from, to) = ranges[k];
        let (a, b) = trim_range(&chars, from, to);
        let name = string_of_range(&chars, a, b);
        let ghost before = tags@;
        tags.insert(name);
        proof {
            let now = Set::new(
                |t: Seq<char>|
                    t.len() > 0 && exists|j: int| 0 <= j < k + 1 && trimmed(#[trigger] all[j]) == t,
            );
            assert forall|t: Seq<char>| now.contains(t) == tags@.contains(t) by {
                if now.contains(t) {
                    let j = choose|j: int| 0 <= j < k + 1 && trimmed(#[trigger] all[j]) == t;
                    if j < k {
                        assert(before.contains(t));
                    }
                }
                if before.contains(t) {
                    let j = choose|j: int| 0 <= j < k && trimmed(#[trigger] all[j]) == t;
                    assert(trimmed(all[j]) == t);
                }
                if t == name@ && t.len() > 0 {
                    assert(trimmed(all[k as int]) == t);
                }
            }
            assert(tags@ =~= now);
        }
        k += 1;
    }
    assert(tags@ =~= listed_tags(comma_delimited@));
    tags
}

} // verus!
