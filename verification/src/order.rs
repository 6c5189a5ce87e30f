//! Ordering timed items by their time. Items of the same time keep the order
//! in which they came.

use vstd::prelude::*;

verus! {

/// No item stands before one of an earlier time.
pub open spec fn sorted_by_time<T>(s: Seq<(u64, T)>) -> bool {
    forall|i: int, j: int| 0 <= i < j < s.len() ==> (#[trigger] s[i]).0 <= (#[trigger] s[j]).0
}

/// Sorted items with one more: `e` goes behind every item that is not later
/// than it.
pub open spec fn insert_stable<T>(s: Seq<(u64, T)>, e: (u64, T)) -> Seq<(u64, T)>
    decreases s.len(),
{
    if s.len() == 0 || s.last().0 <= e.0 {
        s.push(e)
    } else {
        insert_stable(s.drop_last(), e).push(s.last())
    }
}

/// The items in ascending order of their times, those of one time in the
/// order in which `s` has them.
pub open spec fn stable_sort<T>(s: Seq<(u64, T)>) -> Seq<(u64, T)>
    decreases s.len(),
{
    if s.len() == 0 {
        s
    } else {
        insert_stable(stable_sort(s.drop_last()), s.last())
    }
}

/// Two runs in one, read from their ends: the later of the two last items
/// goes last, and at the same time that of `right` does.
spec fn merge_stable<T>(left: Seq<(u64, T)>, right: Seq<(u64, T)>) -> Seq<(u64, T)>
    decreases left.len() + right.len(),
{
    if right.len() == 0 {
        left
    } else if left.len() == 0 {
        right
    } else if left.last().0 <= right.last().0 {
        merge_stable(left, right.drop_last()).push(right.last())
    } else {
        merge_stable(left.drop_last(), right).push(left.last())
    }
}

/// The test that picks the items of one time.
pub open spec fn at_time<T>(t: u64) -> spec_fn((u64, T)) -> bool {
    |e: (u64, T)| e.0 == t
}

/// `insert_stable` adds one item.
proof fn lemma_insert_len<T>(s: Seq<(u64, T)>, e: (u64, T))
    ensures
        insert_stable(s, e).len() == s.len() + 1,
    decreases s.len(),
{
    if !(s.len() == 0 || s.last().0 <= e.0) {
        lemma_insert_len(s.drop_last(), e);
    }
}

/// Every item of `insert_stable(s, e)` is `e` or an item of `s`.
proof fn lemma_insert_items<T>(s: Seq<(u64, T)>, e: (u64, T), i: int)
    requires
        0 <= i < insert_stable(s, e).len(),
    ensures
        insert_stable(s, e)[i] == e || exists|j: int| 0 <= j < s.len() && s[j] == insert_stable(s, e)[i],
    decreases s.len(),
{
    let r = insert_stable(s, e);
    if s.len() == 0 || s.last().0 <= e.0 {
        if i < s.len() {
            assert(s[i] == r[i]);
        }
    } else {
        let inner = insert_stable(s.drop_last(), e);
        if i < inner.len() {
            lemma_insert_items(s.drop_last(), e, i);
            if inner[i] != e {
                let j = choose|j: int| 0 <= j < s.drop_last().len() && s.drop_last()[j] == inner[i];
                assert(s[j] == r[i]);
            }
        } else {
            assert(s[s.len() - 1] == r[i]);
        }
    }
}

/// `insert_stable` keeps sorted items sorted.
proof fn lemma_insert_sorted<T>(s: Seq<(u64, T)>, e: (u64, T))
    requires
        sorted_by_time(s),
    ensures
        sorted_by_time(insert_stable(s, e)),
    decreases s.len(),
{
    let r = insert_stable(s, e);
    if s.len() == 0 || s.last().0 <= e.0 {
        assert forall|i: int, j: int| 0 <= i < j < r.len() implies (#[trigger] r[i]).0 <= (#[trigger] r[j]).0 by {
            if j == s.len() {
                assert(s[i].0 <= s[s.len() - 1].0);
            } else {
                assert(s[i].0 <= s[j].0);
            }
        }
    } else {
        let inner = insert_stable(s.drop_last(), e);
        assert(sorted_by_time(s.drop_last()));
        lemma_insert_sorted(s.drop_last(), e);
        assert forall|i: int, j: int| 0 <= i < j < r.len() implies (#[trigger] r[i]).0 <= (#[trigger] r[j]).0 by {
            if j == inner.len() {
                lemma_insert_items(s.drop_last(), e, i);
                if inner[i] != e {
                    let m = choose|m: int| 0 <= m < s.drop_last().len() && s.drop_last()[m] == inner[i];
                    assert(s[m].0 <= s[s.len() - 1].0);
                }
            } else {
                assert(inner[i].0 <= inner[j].0);
            }
        }
    }
}

/// `insert_stable` puts an item behind the items of its own time and leaves
/// the items of every other time as they are.
proof fn lemma_insert_keeps_ties<T>(s: Seq<(u64, T)>, e: (u64, T), t: u64)
    ensures
        insert_stable(s, e).filter(at_time(t)) == if e.0 == t {
            s.filter(at_time(t)).push(e)
        } else {
            s.filter(at_time(t))
        },
    decreases s.len(),
{
    reveal(Seq::filter);
    let r = insert_stable(s, e);
    if s.len() == 0 || s.last().0 <= e.0 {
        assert(r.drop_last() =~= s);
    } else {
        lemma_insert_keeps_ties(s.drop_last(), e, t);
        assert(r.drop_last() =~= insert_stable(s.drop_last(), e));
    }
}

/// `insert_stable` adds its item and no other, and loses none.
proof fn lemma_insert_permutes<T>(s: Seq<(u64, T)>, e: (u64, T))
    ensures
        insert_stable(s, e).to_multiset() == s.to_multiset().insert(e),
    decreases s.len(),
{
    broadcast use vstd::seq_lib::group_to_multiset_ensures;

    if !(s.len() == 0 || s.last().0 <= e.0) {
        lemma_insert_permutes(s.drop_last(), e);
        assert(s =~= s.drop_last().push(s.last()));
        assert(insert_stable(s, e).to_multiset() =~= s.to_multiset().insert(e));
    }
}

/// Sorting neither adds an item nor loses one.
pub proof fn lemma_stable_sort_permutes<T>(s: Seq<(u64, T)>)
    ensures
        stable_sort(s).len() == s.len(),
        stable_sort(s).to_multiset() == s.to_multiset(),
    decreases s.len(),
{
    broadcast use vstd::seq_lib::group_to_multiset_ensures;

    if s.len() > 0 {
        lemma_stable_sort_permutes(s.drop_last());
        lemma_insert_len(stable_sort(s.drop_last()), s.last());
        lemma_insert_permutes(stable_sort(s.drop_last()), s.last());
        assert(s =~= s.drop_last().push(s.last()));
    }
}

/// The sorted items ascend in time.
pub proof fn lemma_stable_sort_sorted<T>(s: Seq<(u64, T)>)
    ensures
        sorted_by_time(stable_sort(s)),
    decreases s.len(),
{
    if s.len() > 0 {
        lemma_stable_sort_sorted(s.drop_last());
        lemma_insert_sorted(stable_sort(s.drop_last()), s.last());
    }
}

/// The items of any one time come out of the sort as they went in: the
/// same items, in the same order.
pub proof fn lemma_stable_sort_keeps_ties<T>(s: Seq<(u64, T)>, t: u64)
    ensures
        stable_sort(s).filter(at_time(t)) == s.filter(at_time(t)),
    decreases s.len(),
{
    reveal(Seq::filter);
    if s.len() > 0 {
        lemma_stable_sort_keeps_ties(s.drop_last(), t);
        lemma_insert_keeps_ties(stable_sort(s.drop_last()), s.last(), t);
    }
}

/// The place at which `insert_stable` puts an item: behind the last item that
/// is not later than it.
spec fn insert_point<T>(s: Seq<(u64, T)>, e: (u64, T)) -> int
    decreases s.len(),
{
    if s.len() == 0 || s.last().0 <= e.0 {
        s.len() as int
    } else {
        insert_point(s.drop_last(), e)
    }
}

/// `insert_stable` puts its item at `insert_point`, before the items that are
/// later than it.
proof fn lemma_insert_point<T>(s: Seq<(u64, T)>, e: (u64, T))
    ensures
        0 <= insert_point(s, e) <= s.len(),
        insert_stable(s, e) == s.insert(insert_point(s, e), e),
        forall|i: int| insert_point(s, e) <= i < s.len() ==> (#[trigger] s[i]).0 > e.0,
    decreases s.len(),
{
    if s.len() == 0 || s.last().0 <= e.0 {
        assert(s.push(e) =~= s.insert(s.len() as int, e));
    } else {
        let rest = s.drop_last();
        lemma_insert_point(rest, e);
        let k = insert_point(rest, e);
        assert(rest.insert(k, e).push(s.last()) =~= s.insert(k, e));
        assert forall|i: int| k <= i < s.len() implies (#[trigger] s[i]).0 > e.0 by {
            if i < s.len() - 1 {
                assert(rest[i].0 > e.0);
            }
        }
    }
}

/// An item that stands in `s` before another and is not later than it stands
/// before it in `stable_sort(s)` too. And every item of `s` is in
/// `stable_sort(s)`.
pub proof fn lemma_stable_sort_keeps_order<T>(s: Seq<(u64, T)>)
    ensures
        forall|i: int|
            0 <= i < s.len() ==> exists|p: int|
                0 <= p < stable_sort(s).len() && stable_sort(s)[p] == #[trigger] s[i],
        forall|i: int, j: int|
            0 <= i < j < s.len() && s[i].0 <= s[j].0 ==> exists|p: int, q: int|
                0 <= p < q < stable_sort(s).len() && stable_sort(s)[p] == #[trigger] s[i] && stable_sort(
                    s,
                )[q] == #[trigger] s[j],
    decreases s.len(),
{
    if s.len() > 0 {
        let rest = s.drop_last();
        let before = stable_sort(rest);
        let after = stable_sort(s);
        let e = s.last();
        let k = insert_point(before, e);
        lemma_stable_sort_keeps_order(rest);
        lemma_insert_point(before, e);
        assert(after == before.insert(k, e));
        assert forall|i: int| 0 <= i < s.len() implies exists|p: int|
            0 <= p < after.len() && after[p] == #[trigger] s[i] by {
            if i < s.len() - 1 {
                let p = choose|p: int| 0 <= p < before.len() && before[p] == rest[i];
                let moved = if p < k {
                    p
                } else {
                    p + 1
                };
                assert(after[moved] == s[i]);
            } else {
                assert(after[k] == s[i]);
            }
        }
        assert forall|i: int, j: int| 0 <= i < j < s.len() && s[i].0 <= s[j].0 implies exists|
            p: int,
            q: int,
        |
            0 <= p < q < after.len() && after[p] == #[trigger] s[i] && after[q] == #[trigger] s[j] by {
            if j < s.len() - 1 {
                assert(rest[i].0 <= rest[j].0);
                let (p, q) = choose|p: int, q: int|
                    0 <= p < q < before.len() && before[p] == rest[i] && before[q] == rest[j];
                let p_moved = if p < k {
                    p
                } else {
                    p + 1
                };
                let q_moved = if q < k {
                    q
                } else {
                    q + 1
                };
                assert(after[p_moved] == s[i] && after[q_moved] == s[j]);
            } else {
                let p = choose|p: int| 0 <= p < before.len() && before[p] == rest[i];
                if p >= k {
                    assert(before[p].0 > e.0);
                }
                assert(after[p] == s[i] && after[k] == s[j]);
            }
        }
    }
}

/// Giving the items other contents with the same times changes nothing in
/// where `insert_stable` puts an item.
proof fn lemma_insert_maps<T, U>(s: Seq<(u64, T)>, e: (u64, T), f: spec_fn((u64, T)) -> (u64, U))
    requires
        forall|x: (u64, T)| (#[trigger] f(x)).0 == x.0,
    ensures
        insert_stable(s, e).map_values(f) == insert_stable(s.map_values(f), f(e)),
    decreases s.len(),
{
    if s.len() == 0 || s.last().0 <= e.0 {
        assert(s.push(e).map_values(f) =~= s.map_values(f).push(f(e)));
    } else {
        lemma_insert_maps(s.drop_last(), e, f);
        assert(s.map_values(f).drop_last() =~= s.drop_last().map_values(f));
        assert(insert_stable(s, e).map_values(f) =~= insert_stable(s.drop_last(), e).map_values(f).push(
            f(s.last()),
        ));
    }
}

/// The sort looks at the times alone: giving the items other contents with
/// the same times and sorting is sorting and giving the contents then.
pub proof fn lemma_stable_sort_maps<T, U>(s: Seq<(u64, T)>, f: spec_fn((u64, T)) -> (u64, U))
    requires
        forall|x: (u64, T)| (#[trigger] f(x)).0 == x.0,
    ensures
        stable_sort(s).map_values(f) == stable_sort(s.map_values(f)),
    decreases s.len(),
{
    if s.len() == 0 {
        assert(s.map_values(f) =~= Seq::<(u64, U)>::empty());
        assert(stable_sort(s).map_values(f) =~= stable_sort(s.map_values(f)));
    } else {
        lemma_stable_sort_maps(s.drop_last(), f);
        assert(s.map_values(f).drop_last() =~= s.drop_last().map_values(f));
        lemma_insert_maps(stable_sort(s.drop_last()), s.last(), f);
    }
}

/// Merging with a run that got one more item is merging first and then
/// giving the result that item.
proof fn lemma_merge_insert<T>(left: Seq<(u64, T)>, right: Seq<(u64, T)>, e: (u64, T))
    ensures
        merge_stable(left, insert_stable(right, e)) == insert_stable(merge_stable(left, right), e),
    decreases left.len() + right.len(),
{
    let with_e = insert_stable(right, e);
    let merged = merge_stable(left, right);
    if right.len() == 0 || right.last().0 <= e.0 {
        assert(with_e.drop_last() =~= right);
        assert(with_e.last() == e);
        if left.len() == 0 {
            assert(merged =~= right);
        } else if left.last().0 <= e.0 {
            assert(merged.len() > 0 && merged.last().0 <= e.0);
        } else {
            lemma_merge_insert(left.drop_last(), right, e);
            if right.len() == 0 {
                assert(merge_stable(left.drop_last(), right) =~= left.drop_last());
            } else {
                assert(merged.drop_last() =~= merge_stable(left.drop_last(), right));
            }
        }
    } else {
        assert(with_e.drop_last() =~= insert_stable(right.drop_last(), e));
        assert(with_e.last() == right.last());
        if left.len() == 0 {
            assert(merged =~= right);
        } else if left.last().0 <= right.last().0 {
            lemma_merge_insert(left, right.drop_last(), e);
            assert(merged.drop_last() =~= merge_stable(left, right.drop_last()));
        } else {
            lemma_merge_insert(left.drop_last(), right, e);
            assert(merged.drop_last() =~= merge_stable(left.drop_last(), right));
        }
    }
}

/// Merging two sorted halves sorts the whole.
proof fn lemma_merge_sorts<T>(a: Seq<(u64, T)>, b: Seq<(u64, T)>)
    ensures
        merge_stable(stable_sort(a), stable_sort(b)) == stable_sort(a + b),
    decreases b.len(),
{
    if b.len() == 0 {
        assert(a + b =~= a);
    } else {
        lemma_merge_sorts(a, b.drop_last());
        lemma_merge_insert(stable_sort(a), stable_sort(b.drop_last()), b.last());
        assert((a + b).drop_last() =~= a + b.drop_last());
    }
}

/// Merges two runs from their ends, as `merge_stable` reads them.
fn merge<T>(left: Vec<(u64, T)>, right: Vec<(u64, T)>) -> (out: Vec<(u64, T)>)
    ensures
        out@ == merge_stable(left@, right@),
{
    let ghost whole = merge_stable(left@, right@);
    let mut left = left;
    let mut right = right;
    // The merged items from the last one down.
    let mut back: Vec<(u64, T)> = Vec::new();
    while left.len() > 0 && right.len() > 0
        invariant
            whole == merge_stable(left@, right@) + back@.reverse(),
        decreases left.len() + right.len(),
    {
        let ghost before = merge_stable(left@, right@);
        let item = if left[left.len() - 1].0 <= right[right.len() - 1].0 {
            right.pop()
        } else {
            left.pop()
        };
        match item {
            Some(e) => {
                assert(before == merge_stable(left@, right@).push(e));
                back.push(e);
                assert(back@.reverse() =~= seq![e] + back@.drop_last().reverse());
                assert(whole =~= merge_stable(left@, right@) + back@.reverse());
            },
            None => {},
        }
    }
    let mut out = if left.len() > 0 {
        left
    } else {
        right
    };
    while back.len() > 0
        invariant
            whole == out@ + back@.reverse(),
        decreases back.len(),
    {
        let ghost rest = back@;
        match back.pop() {
            Some(e) => {
                assert(rest.reverse() =~= seq![e] + back@.reverse());
                out.push(e);
                assert(whole =~= out@ + back@.reverse());
            },
            None => {},
        }
    }
    assert(back@.reverse() =~= Seq::<(u64, T)>::empty());
    assert(whole =~= out@);
    out
}

/// Sorts timed items by their time. Items of the same time keep their order.
pub fn sort_by_time<T>(items: Vec<(u64, T)>) -> (sorted: Vec<(u64, T)>)
    ensures
        sorted@ == stable_sort(items@),
    decreases items.len(),
{
    let mut items = items;
    let ghost whole = items@;
    let n = items.len();
    if n < 2 {
        proof {
            if n == 1 {
                assert(stable_sort(whole.drop_last()) =~= Seq::<(u64, T)>::empty());
                assert(whole =~= Seq::<(u64, T)>::empty().push(whole.last()));
            }
        }
        return items;
    }
    let second = items.split_off(n / 2);
    proof {
        assert(whole =~= items@ + second@);
        lemma_merge_sorts(items@, second@);
    }
    let first = sort_by_time(items);
    let second = sort_by_time(second);
    merge(first, second)
}

} // verus!
