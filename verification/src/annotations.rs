//! The annotations of a span, and the map that a list of them makes.
//!
//! A list of annotations may name a key more than once; the map keeps the
//! value that was written last. The map lists its entries in ascending order
//! of their keys.

use crate::text::{lemma_str_lt_irreflexive, lemma_str_lt_total, lemma_str_lt_transitive, rank, str_lt, Rank};
use vstd::prelude::*;

verus! {

/// A key and its value, as sequences of characters.
pub type Entry = (Seq<char>, Seq<char>);

/// One annotation of a span.
#[derive(Clone, Debug, PartialEq, Eq)]
pub struct Annotation {
    pub key: String,
    pub value: String,
}

impl View for Annotation {
    type V = Entry;

    open spec fn view(&self) -> Entry {
        (self.key@, self.value@)
    }
}

/// The entries that a list of annotations stands for, one by one.
pub open spec fn entries_view(list: Seq<Annotation>) -> Seq<Entry> {
    list.map_values(|a: Annotation| a@)
}

/// The keys ascend strictly, so no key occurs twice.
pub open spec fn strictly_sorted(s: Seq<Entry>) -> bool {
    forall|i: int, j: int| 0 <= i < j < s.len() ==> str_lt(#[trigger] s[i].0, #[trigger] s[j].0)
}

/// The value of the last pair of `list` that has the key, if there is one.
pub open spec fn lookup(list: Seq<Entry>, key: Seq<char>) -> Option<Seq<char>>
    decreases list.len(),
{
    if list.len() == 0 {
        None
    } else if list.last().0 == key {
        Some(list.last().1)
    } else {
        lookup(list.drop_last(), key)
    }
}

/// Sorted entries after `key` is given `value`: the entry of that key is
/// replaced where there is one, and else a new entry goes to the key's place.
pub open spec fn put(s: Seq<Entry>, key: Seq<char>, value: Seq<char>) -> Seq<Entry>
    decreases s.len(),
{
    if s.len() == 0 {
        seq![(key, value)]
    } else if s.last().0 == key {
        s.drop_last().push((key, value))
    } else if str_lt(s.last().0, key) {
        s.push((key, value))
    } else {
        put(s.drop_last(), key, value).push(s.last())
    }
}

/// The sorted entries of the map that a list of pairs makes when its pairs are
/// put one after another.
pub open spec fn entries_of(list: Seq<Entry>) -> Seq<Entry>
    decreases list.len(),
{
    if list.len() == 0 {
        Seq::empty()
    } else {
        put(entries_of(list.drop_last()), list.last().0, list.last().1)
    }
}

/// A list names a key exactly if `lookup` finds a value for it.
pub proof fn lemma_lookup_none(list: Seq<Entry>, key: Seq<char>)
    ensures
        lookup(list, key) is None <==> forall|i: int| 0 <= i < list.len() ==> (#[trigger] list[i]).0 != key,
    decreases list.len(),
{
    if list.len() > 0 {
        lemma_lookup_none(list.drop_last(), key);
        if list.last().0 != key {
            if lookup(list, key) is None {
                assert forall|i: int| 0 <= i < list.len() implies (#[trigger] list[i]).0 != key by {
                    if i < list.len() - 1 {
                        assert(list.drop_last()[i].0 != key);
                    }
                }
            } else {
                let i = choose|i: int| 0 <= i < list.drop_last().len() && (#[trigger] list.drop_last()[i]).0 == key;
                assert(list[i].0 == key);
            }
        } else {
            assert(list[list.len() - 1].0 == key);
        }
    }
}

/// `lookup` finds the value of the pair that names the key last.
pub proof fn lemma_lookup_last(list: Seq<Entry>, key: Seq<char>, i: int)
    requires
        0 <= i < list.len(),
        list[i].0 == key,
        forall|j: int| i < j < list.len() ==> (#[trigger] list[j]).0 != key,
    ensures
        lookup(list, key) == Some(list[i].1),
    decreases list.len(),
{
    if i < list.len() - 1 {
        assert(list[list.len() - 1].0 != key);
        lemma_lookup_last(list.drop_last(), key, i);
    }
}

/// Every key after a `put` was a key before it, or is the key that was put.
proof fn lemma_put_keys(s: Seq<Entry>, key: Seq<char>, value: Seq<char>, i: int)
    requires
        0 <= i < put(s, key, value).len(),
    ensures
        put(s, key, value)[i].0 == key || exists|j: int|
            0 <= j < s.len() && s[j].0 == put(s, key, value)[i].0,
    decreases s.len(),
{
    if s.len() == 0 {
    } else if s.last().0 == key {
        if i < s.len() - 1 {
            assert(s[i].0 == put(s, key, value)[i].0);
        }
    } else if str_lt(s.last().0, key) {
        if i < s.len() {
            assert(s[i].0 == put(s, key, value)[i].0);
        }
    } else {
        let inner = put(s.drop_last(), key, value);
        if i < inner.len() {
            lemma_put_keys(s.drop_last(), key, value, i);
            if inner[i].0 != key {
                let j = choose|j: int| 0 <= j < s.drop_last().len() && s.drop_last()[j].0 == inner[i].0;
                assert(s[j].0 == put(s, key, value)[i].0);
            }
        } else {
            assert(s[s.len() - 1].0 == put(s, key, value)[i].0);
        }
    }
}

/// A `put` keeps sorted entries sorted.
pub proof fn lemma_put_sorted(s: Seq<Entry>, key: Seq<char>, value: Seq<char>)
    requires
        strictly_sorted(s),
    ensures
        strictly_sorted(put(s, key, value)),
    decreases s.len(),
{
    let r = put(s, key, value);
    if s.len() == 0 {
    } else if s.last().0 == key {
        assert forall|i: int, j: int| 0 <= i < j < r.len() implies str_lt(
            #[trigger] r[i].0,
            #[trigger] r[j].0,
        ) by {
            assert(r[i].0 == s[i].0 && r[j].0 == s[j].0);
        }
    } else if str_lt(s.last().0, key) {
        assert forall|i: int, j: int| 0 <= i < j < r.len() implies str_lt(
            #[trigger] r[i].0,
            #[trigger] r[j].0,
        ) by {
            if j == s.len() && i < s.len() - 1 {
                lemma_str_lt_transitive(s[i].0, s.last().0, key);
            }
        }
    } else {
        let inner = put(s.drop_last(), key, value);
        assert(strictly_sorted(s.drop_last()));
        lemma_put_sorted(s.drop_last(), key, value);
        lemma_str_lt_total(s.last().0, key);
        assert forall|i: int, j: int| 0 <= i < j < r.len() implies str_lt(
            #[trigger] r[i].0,
            #[trigger] r[j].0,
        ) by {
            if j == inner.len() {
                lemma_put_keys(s.drop_last(), key, value, i);
                if inner[i].0 != key {
                    let m = choose|m: int| 0 <= m < s.drop_last().len() && s.drop_last()[m].0 == inner[i].0;
                    assert(str_lt(s[m].0, s[s.len() - 1].0));
                }
            } else {
                assert(r[i] == inner[i] && r[j] == inner[j]);
            }
        }
    }
}

/// After a `put`, the key has the value that was put, and every other key has
/// what it had.
pub proof fn lemma_put_lookup(s: Seq<Entry>, key: Seq<char>, value: Seq<char>, other: Seq<char>)
    ensures
        lookup(put(s, key, value), other) == if other == key {
            Some(value)
        } else {
            lookup(s, other)
        },
    decreases s.len(),
{
    let r = put(s, key, value);
    if s.len() == 0 {
        assert(r.drop_last() =~= s);
    } else if s.last().0 == key {
        assert(r.drop_last() =~= s.drop_last());
    } else if str_lt(s.last().0, key) {
        assert(r.drop_last() =~= s);
    } else {
        assert(r.drop_last() =~= put(s.drop_last(), key, value));
        lemma_put_lookup(s.drop_last(), key, value, other);
    }
}

/// In sorted entries a key is found at one place at most: `lookup` gives the
/// value that stands there.
pub proof fn lemma_lookup_sorted(s: Seq<Entry>, key: Seq<char>)
    requires
        strictly_sorted(s),
    ensures
        match lookup(s, key) {
            Some(v) => exists|i: int| 0 <= i < s.len() && s[i] == (key, v),
            None => forall|i: int| 0 <= i < s.len() ==> (#[trigger] s[i]).0 != key,
        },
        forall|i: int| 0 <= i < s.len() && (#[trigger] s[i]).0 == key ==> lookup(s, key) == Some(s[i].1),
    decreases s.len(),
{
    if s.len() > 0 {
        let rest = s.drop_last();
        assert(strictly_sorted(rest));
        lemma_lookup_sorted(rest, key);
        if s.last().0 == key {
            assert(s[s.len() - 1] == (key, s.last().1));
            assert forall|i: int| 0 <= i < s.len() && (#[trigger] s[i]).0 == key implies lookup(s, key)
                == Some(s[i].1) by {
                if i < s.len() - 1 {
                    assert(str_lt(s[i].0, s[s.len() - 1].0));
                    lemma_str_lt_irreflexive(key);
                }
            }
        } else {
            match lookup(s, key) {
                Some(v) => {
                    let i = choose|i: int| 0 <= i < rest.len() && rest[i] == (key, v);
                    assert(s[i] == (key, v));
                },
                None => {
                    assert forall|i: int| 0 <= i < s.len() implies (#[trigger] s[i]).0 != key by {
                        if i < s.len() - 1 {
                            assert(rest[i].0 != key);
                        }
                    }
                },
            }
            assert forall|i: int| 0 <= i < s.len() && (#[trigger] s[i]).0 == key implies lookup(s, key)
                == Some(s[i].1) by {
                assert(rest[i].0 == key);
            }
        }
    }
}

/// The entries of a map are sorted, whatever list it was made from.
pub proof fn lemma_entries_sorted(list: Seq<Entry>)
    ensures
        strictly_sorted(entries_of(list)),
    decreases list.len(),
{
    if list.len() > 0 {
        lemma_entries_sorted(list.drop_last());
        lemma_put_sorted(entries_of(list.drop_last()), list.last().0, list.last().1);
    }
}

/// The last write wins: a key has in the map the value of the last pair of the
/// list that names it, and a key that the list does not name is not in the map.
pub proof fn lemma_last_write_wins(list: Seq<Entry>, key: Seq<char>)
    ensures
        lookup(entries_of(list), key) == lookup(list, key),
    decreases list.len(),
{
    if list.len() > 0 {
        lemma_last_write_wins(list.drop_last(), key);
        lemma_put_lookup(entries_of(list.drop_last()), list.last().0, list.last().1, key);
    }
}

/// Where sorted entries stand to a key: `at` is the place of the key's entry
/// if `found`, and else the place where an entry for the key would go.
spec fn located(s: Seq<Entry>, key: Seq<char>, found: bool, at: int) -> bool {
    &&& 0 <= at <= s.len()
    &&& found ==> at < s.len() && s[at].0 == key
    &&& forall|i: int| 0 <= i < at ==> str_lt((#[trigger] s[i]).0, key)
    &&& forall|i: int| at <= i < s.len() && !(found && i == at) ==> str_lt(key, (#[trigger] s[i]).0)
}

/// A `put` of a key that the entries hold replaces the value at its place.
proof fn lemma_put_replaces(s: Seq<Entry>, key: Seq<char>, value: Seq<char>, at: int)
    requires
        located(s, key, true, at),
    ensures
        put(s, key, value) =~= s.update(at, (key, value)),
    decreases s.len(),
{
    if at < s.len() - 1 {
        assert(str_lt(key, s[s.len() - 1].0));
        lemma_str_lt_total(s.last().0, key);
        lemma_put_replaces(s.drop_last(), key, value, at);
    }
}

/// A `put` of a key that the entries lack adds an entry at the key's place.
proof fn lemma_put_adds(s: Seq<Entry>, key: Seq<char>, value: Seq<char>, at: int)
    requires
        located(s, key, false, at),
    ensures
        put(s, key, value) =~= s.insert(at, (key, value)),
    decreases s.len(),
{
    if s.len() > 0 {
        if at < s.len() {
            assert(str_lt(key, s[s.len() - 1].0));
            lemma_str_lt_total(s.last().0, key);
            lemma_put_adds(s.drop_last(), key, value, at);
        } else {
            assert(str_lt(s[s.len() - 1].0, key));
            lemma_str_lt_irreflexive(key);
        }
    }
}

/// The map that the annotations of one span make: each key once, with the
/// value written last, the entries in ascending order of their keys.
#[derive(Debug)]
pub struct AnnotationMap<'a> {
    entries: Vec<(&'a str, &'a str)>,
}

impl<'a> View for AnnotationMap<'a> {
    type V = Seq<Entry>;

    closed spec fn view(&self) -> Seq<Entry> {
        self.entries@.map_values(|e: (&'a str, &'a str)| (e.0@, e.1@))
    }
}

impl<'a> AnnotationMap<'a> {
    /// The entries are in ascending order of their keys.
    #[verifier::type_invariant]
    spec fn sorted(self) -> bool {
        strictly_sorted(self@)
    }

    /// A map without entries.
    pub fn new() -> (r: Self)
        ensures
            r@ == Seq::<Entry>::empty(),
            strictly_sorted(r@),
    {
        let entries: Vec<(&'a str, &'a str)> = Vec::new();
        assert(entries@.map_values(|e: (&'a str, &'a str)| (e.0@, e.1@)) =~= Seq::<Entry>::empty());
        AnnotationMap { entries }
    }

    /// The number of entries.
    pub fn len(&self) -> (n: usize)
        ensures
            n == self@.len(),
    {
        self.entries.len()
    }

    /// The entry at place `i`, counted in ascending order of the keys.
    pub fn entry(&self, i: usize) -> (r: (&'a str, &'a str))
        requires
            i < self@.len(),
        ensures
            (r.0@, r.1@) == self@[i as int],
    {
        self.entries[i]
    }

    /// Finds the place of a key by bisection.
    fn locate(&self, key: &str) -> (r: (bool, usize))
        ensures
            located(self@, key@, r.0, r.1 as int),
    {
        proof {
            use_type_invariant(self);
        }
        let mut lo: usize = 0;
        let mut hi: usize = self.entries.len();
        while lo < hi
            invariant
                strictly_sorted(self@),
                lo <= hi <= self@.len(),
                self@.len() == self.entries@.len(),
                forall|i: int| 0 <= i < lo ==> str_lt((#[trigger] self@[i]).0, key@),
                forall|i: int| hi <= i < self@.len() ==> str_lt(key@, (#[trigger] self@[i]).0),
            decreases hi - lo,
        {
            let mid = lo + (hi - lo) / 2;
            assert(self@[mid as int].0 == self.entries@[mid as int].0@);
            match rank(self.entries[mid].0, key) {
                Rank::Equal => {
                    assert forall|i: int| 0 <= i < mid implies str_lt((#[trigger] self@[i]).0, key@) by {
                        assert(str_lt(self@[i].0, self@[mid as int].0));
                    }
                    assert forall|i: int| mid < i < self@.len() implies str_lt(
                        key@,
                        (#[trigger] self@[i]).0,
                    ) by {
                        assert(str_lt(self@[mid as int].0, self@[i].0));
                    }
                    return (true, mid);
                },
                Rank::Lower => {
                    assert forall|i: int| 0 <= i < mid + 1 implies str_lt((#[trigger] self@[i]).0, key@) by {
                        if i < mid {
                            assert(str_lt(self@[i].0, self@[mid as int].0));
                            lemma_str_lt_transitive(self@[i].0, self@[mid as int].0, key@);
                        }
                    }
                    lo = mid + 1;
                },
                Rank::Higher => {
                    proof {
                        lemma_str_lt_total(self@[mid as int].0, key@);
                    }
                    assert forall|i: int| mid <= i < self@.len() implies str_lt(
                        key@,
                        (#[trigger] self@[i]).0,
                    ) by {
                        if mid < i {
                            assert(str_lt(self@[mid as int].0, self@[i].0));
                            lemma_str_lt_transitive(key@, self@[mid as int].0, self@[i].0);
                        }
                    }
                    hi = mid;
                },
            }
        }
        (false, lo)
    }

    /// Gives `key` the value `value`, over the value that it had, if any.
    pub fn insert(&mut self, key: &'a str, value: &'a str)
        ensures
            final(self)@ == put(old(self)@, key@, value@),
            strictly_sorted(final(self)@),
    {
        let (found, at) = self.locate(key);
        proof {
            use_type_invariant(&*self);
            lemma_put_sorted(self@, key@, value@);
            if found {
                lemma_put_replaces(self@, key@, value@, at as int);
            } else {
                lemma_put_adds(self@, key@, value@, at as int);
            }
        }
        let mut entries = Vec::new();
        std::mem::swap(&mut entries, &mut self.entries);
        if found {
            entries[at] = (key, value);
        } else {
            entries.insert(at, (key, value));
        }
        assert(entries@.map_values(|e: (&'a str, &'a str)| (e.0@, e.1@)) =~= put(
            old(self)@,
            key@,
            value@,
        ));
        self.entries = entries;
    }

    /// The value of a key, if the map has the key.
    pub fn get(&self, key: &str) -> (r: Option<&'a str>)
        ensures
            match r {
                Some(v) => lookup(self@, key@) == Some(v@),
                None => lookup(self@, key@) is None,
            },
    {
        let (found, at) = self.locate(key);
        proof {
            use_type_invariant(self);
            lemma_lookup_sorted(self@, key@);
            if !found {
                assert forall|i: int| 0 <= i < self@.len() implies (#[trigger] self@[i]).0 != key@ by {
                    lemma_str_lt_irreflexive(key@);
                }
            }
        }
        if found {
            Some(self.entries[at].1)
        } else {
            None
        }
    }

    /// The map that a list of annotations makes, put in the list's order.
    pub fn collect(list: &'a Vec<Annotation>) -> (r: Self)
        ensures
            r@ == entries_of(entries_view(list@)),
            strictly_sorted(r@),
    {
        let mut map = AnnotationMap::new();
        let ghost all = entries_view(list@);
        let mut i: usize = 0;
        while i < list.len()
            invariant
                i <= list.len(),
                all == entries_view(list@),
                map@ == entries_of(all.take(i as int)),
                strictly_sorted(map@),
            decreases list.len() - i,
        {
            proof {
                assert(all.take(i + 1).drop_last() =~= all.take(i as int));
                assert(all.take(i + 1).last() == list@[i as int]@);
            }
            map.insert(list[i].key.as_str(), list[i].value.as_str());
            i = i + 1;
        }
        assert(all.take(i as int) =~= all);
        map
    }
}

} // verus!
