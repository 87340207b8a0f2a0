//! The key-value tags of a map element.

use crate::text;
use vstd::prelude::*;

verus! {

/// The tags of one element: each key occurs at most once.
///
/// An element carries a handful of tags, so they are kept in a plain list and
/// looked up by scanning it.
#[derive(Debug)]
pub struct Tags {
    entries: Vec<(String, String)>,
}

/// Whether `entries` has the key `k` at position `i`.
spec fn has_key_at(entries: Seq<(String, String)>, k: Seq<char>, i: int) -> bool {
    0 <= i < entries.len() && entries[i].0@ == k
}

/// What a list of entries maps its keys to.
spec fn entries_map(entries: Seq<(String, String)>) -> Map<Seq<char>, Seq<char>> {
    Map::new(
        |k: Seq<char>| exists|i: int| has_key_at(entries, k, i),
        |k: Seq<char>| entries[choose|i: int| has_key_at(entries, k, i)].1@,
    )
}

spec fn distinct_keys(entries: Seq<(String, String)>) -> bool {
    forall|i: int, j: int|
        0 <= i < entries.len() && 0 <= j < entries.len() && #[trigger] entries[i].0@
            == #[trigger] entries[j].0@ ==> i == j
}

proof fn lemma_entry(entries: Seq<(String, String)>, i: int)
    requires
        distinct_keys(entries),
        0 <= i < entries.len(),
    ensures
        entries_map(entries).contains_key(entries[i].0@),
        entries_map(entries)[entries[i].0@] == entries[i].1@,
{
    assert(has_key_at(entries, entries[i].0@, i));
    let j = choose|j: int| has_key_at(entries, entries[i].0@, j);
    assert(entries[j].0@ == entries[i].0@);
}

proof fn lemma_push_entry(entries: Seq<(String, String)>, e: (String, String))
    requires
        distinct_keys(entries),
        !entries_map(entries).contains_key(e.0@),
    ensures
        distinct_keys(entries.push(e)),
        entries_map(entries.push(e)) == entries_map(entries).insert(e.0@, e.1@),
{
    let more = entries.push(e);
    assert forall|i: int, j: int|
        0 <= i < more.len() && 0 <= j < more.len() && #[trigger] more[i].0@
            == #[trigger] more[j].0@ implies i == j by {
        if i < entries.len() {
            lemma_entry(entries, i);
            assert(entries[i] == more[i]);
        }
        if j < entries.len() {
            lemma_entry(entries, j);
            assert(entries[j] == more[j]);
        }
    }
    let a = entries_map(more);
    let b = entries_map(entries).insert(e.0@, e.1@);
    assert forall|k: Seq<char>| a.contains_key(k) == b.contains_key(k) by {
        if a.contains_key(k) {
            let i = choose|i: int| has_key_at(more, k, i);
            if i < entries.len() {
                assert(has_key_at(entries, k, i));
            }
        }
        if entries_map(entries).contains_key(k) {
            let i = choose|i: int| has_key_at(entries, k, i);
            assert(has_key_at(more, k, i));
        }
        if k == e.0@ {
            assert(has_key_at(more, k, entries.len() as int));
        }
    }
    assert forall|k: Seq<char>| a.contains_key(k) implies a[k] == b[k] by {
        let i = choose|i: int| has_key_at(more, k, i);
        lemma_entry(more, i);
        if i < entries.len() {
            lemma_entry(entries, i);
        }
    }
    assert(a =~= b);
}

impl View for Tags {
    type V = Map<Seq<char>, Seq<char>>;

    closed spec fn view(&self) -> Map<Seq<char>, Seq<char>> {
        entries_map(self.entries@)
    }
}

/// Whether tags map `key` to `value`.
pub open spec fn tag_is(tags: Map<Seq<char>, Seq<char>>, key: Seq<char>, value: Seq<char>) -> bool {
    tags.contains_key(key) && tags[key] == value
}

/// The number that the tag `key` holds, or zero where it is absent or not a
/// number.
pub open spec fn number_or_zero(tags: Map<Seq<char>, Seq<char>>, key: Seq<char>) -> i32 {
    if !tags.contains_key(key) {
        0
    } else {
        match text::parsed_i32(tags[key]) {
            Some(n) => n,
            None => 0,
        }
    }
}

impl Tags {
    #[verifier::type_invariant]
    spec fn keys_are_distinct(self) -> bool {
        distinct_keys(self.entries@)
    }

    /// No tags at all.
    pub fn new() -> (r: Tags)
        ensures
            r@ == Map::<Seq<char>, Seq<char>>::empty(),
    {
        let r = Tags { entries: Vec::new() };
        assert(r@ =~= Map::empty());
        r
    }

    /// The same tags, with `key` set to `value`.
    pub fn with(self, key: &str, value: &str) -> (r: Tags)
        ensures
            r@ == self@.insert(key@, value@),
    {
        proof {
            use_type_invariant(&self);
        }
        let mut entries: Vec<(String, String)> = Vec::new();
        let n: usize = self.entries.len();
        let mut i: usize = 0;
        assert(entries_map(entries@) =~= Map::empty());
        while i < n
            invariant
                n == self.entries@.len(),
                i <= n,
                distinct_keys(self.entries@),
                distinct_keys(entries@),
                entries_map(entries@) == entries_map(self.entries@.take(i as int)).remove(key@),
            decreases n - i,
        {
            let ghost before = self.entries@.take(i as int);
            let ghost after = self.entries@.take(i + 1);
            let ghost e = self.entries@[i as int];
            proof {
                assert(after =~= before.push(e));
                assert(distinct_keys(before));
                if entries_map(before).contains_key(e.0@) {
                    let j = choose|j: int| has_key_at(before, e.0@, j);
                    assert(self.entries@[j].0@ == e.0@);
                }
                lemma_push_entry(before, e);
            }
            if !text::str_eq(self.entries[i].0.as_str(), key) {
                let copy = (self.entries[i].0.clone(), self.entries[i].1.clone());
                proof {
                    lemma_push_entry(entries@, copy);
                }
                entries.push(copy);
            }
            assert(entries_map(entries@) =~= entries_map(after).remove(key@));
            i = i + 1;
        }
        assert(self.entries@.take(n as int) =~= self.entries@);
        let last = (key.to_owned(), value.to_owned());
        proof {
            lemma_push_entry(entries@, last);
        }
        entries.push(last);
        let r = Tags { entries };
        assert(r@ =~= self@.insert(key@, value@));
        r
    }

    /// The value of the tag `key`, if it is there.
    pub fn get(&self, key: &str) -> (r: Option<&String>)
        ensures
            match r {
                Some(v) => tag_is(self@, key@, v@),
                None => !self@.contains_key(key@),
            },
    {
        proof {
            use_type_invariant(self);
        }
        let n: usize = self.entries.len();
        let mut i: usize = 0;
        while i < n
            invariant
                n == self.entries@.len(),
                i <= n,
                distinct_keys(self.entries@),
                forall|j: int| 0 <= j < i ==> #[trigger] self.entries@[j].0@ != key@,
            decreases n - i,
        {
            if text::str_eq(self.entries[i].0.as_str(), key) {
                proof {
                    lemma_entry(self.entries@, i as int);
                }
                return Some(&self.entries[i].1);
            }
            i = i + 1;
        }
        proof {
            if self@.contains_key(key@) {
                let j = choose|j: int| has_key_at(self.entries@, key@, j);
                assert(self.entries@[j].0@ == key@);
            }
        }
        None
    }

    /// Whether there is a tag `key`.
    pub fn contains_key(&self, key: &str) -> (r: bool)
        ensures
            r == self@.contains_key(key@),
    {
        self.get(key).is_some()
    }

    /// Whether the tag `key` is there and holds `value`.
    pub fn holds(&self, key: &str, value: &str) -> (r: bool)
        ensures
            r == tag_is(self@, key@, value@),
    {
        match self.get(key) {
            Some(v) => text::str_eq(v.as_str(), value),
            None => false,
        }
    }

    /// The number that the tag `key` holds, or zero where it is absent or not
    /// a number.
    pub fn number_or_zero(&self, key: &str) -> (r: i32)
        ensures
            r == number_or_zero(self@, key@),
    {
        match self.get(key) {
            Some(v) => match text::parse_i32(v.as_str()) {
                Some(n) => n,
                None => 0,
            },
            None => 0,
        }
    }
}

impl Clone for Tags {
    fn clone(&self) -> (r: Tags)
        ensures
            r@ == self@,
    {
        proof {
            use_type_invariant(self);
        }
        let mut entries: Vec<(String, String)> = Vec::new();
        let n: usize = self.entries.len();
        let mut i: usize = 0;
        while i < n
            invariant
                n == self.entries@.len(),
                i <= n,
                entries@ == self.entries@.take(i as int),
            decreases n - i,
        {
            entries.push((self.entries[i].0.clone(), self.entries[i].1.clone()));
            assert(entries@ =~= self.entries@.take(i + 1));
            i = i + 1;
        }
        assert(entries@ =~= self.entries@);
        Tags { entries }
    }
}

impl Tags {
    /// Whether `other` maps every key of these tags to the same value.
    fn all_in(&self, other: &Tags) -> (r: bool)
        ensures
            r == self@.submap_of(other@),
    {
        proof {
            use_type_invariant(self);
        }
        let n: usize = self.entries.len();
        let mut i: usize = 0;
        while i < n
            invariant
                n == self.entries@.len(),
                i <= n,
                distinct_keys(self.entries@),
                forall|j: int|
                    0 <= j < i ==> tag_is(
                        other@,
                        #[trigger] self.entries@[j].0@,
                        self.entries@[j].1@,
                    ),
            decreases n - i,
        {
            if !other.holds(self.entries[i].0.as_str(), self.entries[i].1.as_str()) {
                proof {
                    lemma_entry(self.entries@, i as int);
                }
                return false;
            }
            i = i + 1;
        }
        assert forall|k: Seq<char>| #[trigger]
            self@.contains_key(k) implies other@.contains_key(k) && self@[k] == other@[k] by {
            let j = choose|j: int| has_key_at(self.entries@, k, j);
            lemma_entry(self.entries@, j);
            assert(self.entries@[j].0@ == k);
        }
        true
    }
}

impl PartialEq for Tags {
    fn eq(&self, other: &Tags) -> (r: bool) {
        let r = self.all_in(other) && other.all_in(self);
        proof {
            if r {
                assert(self@ =~= other@);
            }
        }
        r
    }
}

impl vstd::std_specs::cmp::PartialEqSpecImpl for Tags {
    open spec fn obeys_eq_spec() -> bool {
        true
    }

    open spec fn eq_spec(&self, other: &Tags) -> bool {
        self@ == other@
    }
}

} // verus!
