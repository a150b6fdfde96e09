//! Counting elements on either side of a value, and the median as a rank.
//!
//! The median of an odd-length sequence is defined by sorting: it is the
//! middle element of the ascending arrangement ([`median_of`]). The window
//! never re-sorts, so its proofs use the equivalent description by counting
//! ([`is_middle`]): a value of the sequence with fewer than half of the
//! elements strictly below it and fewer than half strictly above it.

use vstd::prelude::*;
use vstd::relations::sorted_by;
use vstd::seq_lib::*;
use crate::order::{ascending, lawful, le, lemma_ascending_total, lemma_strict_total, lt};

verus! {

/// The number of elements of `s` that satisfy `f`.
pub open spec fn tally<T>(s: Seq<T>, f: spec_fn(T) -> bool) -> nat
    decreases s.len(),
{
    if s.len() == 0 {
        0
    } else {
        tally(s.drop_last(), f) + if f(s.last()) { 1nat } else { 0nat }
    }
}

/// The values strictly before `m`.
pub open spec fn below<T: Ord>(m: T) -> spec_fn(T) -> bool {
    |x: T| lt(x, m)
}

/// The values strictly after `m`.
pub open spec fn above<T: Ord>(m: T) -> spec_fn(T) -> bool {
    |x: T| lt(m, x)
}

/// The number of elements of `s` strictly before `m`.
pub open spec fn count_below<T: Ord>(s: Seq<T>, m: T) -> nat {
    tally(s, below(m))
}

/// The number of elements of `s` strictly after `m`.
pub open spec fn count_above<T: Ord>(s: Seq<T>, m: T) -> nat {
    tally(s, above(m))
}

/// `m` is an element of `s`, and fewer than half of the elements of `s` are
/// strictly before it, and fewer than half strictly after it.
pub open spec fn is_middle<T: Ord>(s: Seq<T>, m: T) -> bool {
    &&& s.contains(m)
    &&& 2 * count_below(s, m) < s.len()
    &&& 2 * count_above(s, m) < s.len()
}

/// The elements of `s` in ascending order.
pub open spec fn sorted<T: Ord>(s: Seq<T>) -> Seq<T> {
    s.sort_by(ascending::<T>())
}

/// The median of `s`: the element in the middle of `s` once sorted. Meant for
/// sequences of odd length over a lawful element type.
pub open spec fn median_of<T: Ord>(s: Seq<T>) -> T {
    sorted(s)[(s.len() / 2) as int]
}

/// A count is at most the length.
pub proof fn lemma_tally_bound<T>(s: Seq<T>, f: spec_fn(T) -> bool)
    ensures
        tally(s, f) <= s.len(),
    decreases s.len(),
{
    if s.len() > 0 {
        lemma_tally_bound(s.drop_last(), f);
    }
}

/// Counts add up over concatenation.
pub proof fn lemma_tally_concat<T>(a: Seq<T>, b: Seq<T>, f: spec_fn(T) -> bool)
    ensures
        tally(a + b, f) == tally(a, f) + tally(b, f),
    decreases b.len(),
{
    if b.len() > 0 {
        assert((a + b).drop_last() =~= a + b.drop_last());
        lemma_tally_concat(a, b.drop_last(), f);
    }
}

/// Removing an element lowers the count by one if it was counted.
pub proof fn lemma_tally_remove<T>(s: Seq<T>, f: spec_fn(T) -> bool, i: int)
    requires
        0 <= i < s.len(),
    ensures
        tally(s, f) == tally(s.remove(i), f) + if f(s[i]) { 1nat } else { 0nat },
{
    let head = s.subrange(0, i);
    let tail = s.subrange(i + 1, s.len() as int);
    assert(s =~= head.push(s[i]) + tail);
    assert(head.push(s[i]).drop_last() =~= head);
    lemma_tally_concat(head.push(s[i]), tail, f);
    lemma_tally_concat(head, tail, f);
}

/// A count does not depend on the order of the elements.
pub proof fn lemma_tally_permutation<T>(s: Seq<T>, t: Seq<T>, f: spec_fn(T) -> bool)
    requires
        s.to_multiset() == t.to_multiset(),
    ensures
        tally(s, f) == tally(t, f),
    decreases s.len(),
{
    broadcast use group_to_multiset_ensures;

    assert(s.len() == s.to_multiset().len() && t.len() == t.to_multiset().len());
    if s.len() > 0 {
        let x = s.last();
        assert(t.to_multiset().count(x) > 0);
        let j = choose|j: int| 0 <= j < t.len() && t[j] == x;
        assert(s.drop_last() =~= s.remove(s.len() - 1));
        lemma_tally_permutation(s.drop_last(), t.remove(j), f);
        lemma_tally_remove(t, f, j);
    }
}

/// Where no element satisfies `f`, the count is zero.
pub proof fn lemma_tally_none<T>(s: Seq<T>, f: spec_fn(T) -> bool)
    requires
        forall|i: int| 0 <= i < s.len() ==> !f(#[trigger] s[i]),
    ensures
        tally(s, f) == 0,
    decreases s.len(),
{
    if s.len() > 0 {
        lemma_tally_none(s.drop_last(), f);
    }
}

/// Where `f` implies `g` on `s`, and some element satisfies `g` but not `f`,
/// `g` counts at least one more than `f`.
pub proof fn lemma_tally_strict<T>(s: Seq<T>, f: spec_fn(T) -> bool, g: spec_fn(T) -> bool, k: int)
    requires
        forall|i: int| 0 <= i < s.len() && f(#[trigger] s[i]) ==> g(s[i]),
        0 <= k < s.len(),
        g(s[k]),
        !f(s[k]),
    ensures
        tally(s, f) + 1 <= tally(s, g),
    decreases s.len(),
{
    if k == s.len() - 1 {
        lemma_tally_disjoint(s.drop_last(), f, |x: T| !g(x));
        lemma_tally_cover(s.drop_last(), g, |x: T| !g(x));
    } else {
        lemma_tally_strict(s.drop_last(), f, g, k);
    }
}

/// Where no element satisfies both `f` and `g`, their counts together are at
/// most the length.
pub proof fn lemma_tally_disjoint<T>(s: Seq<T>, f: spec_fn(T) -> bool, g: spec_fn(T) -> bool)
    requires
        forall|i: int| 0 <= i < s.len() ==> !(f(#[trigger] s[i]) && g(s[i])),
    ensures
        tally(s, f) + tally(s, g) <= s.len(),
    decreases s.len(),
{
    if s.len() > 0 {
        lemma_tally_disjoint(s.drop_last(), f, g);
    }
}

/// Where every element satisfies `f` or `g`, their counts together are at
/// least the length.
pub proof fn lemma_tally_cover<T>(s: Seq<T>, f: spec_fn(T) -> bool, g: spec_fn(T) -> bool)
    requires
        forall|i: int| 0 <= i < s.len() ==> f(#[trigger] s[i]) || g(s[i]),
    ensures
        tally(s, f) + tally(s, g) >= s.len(),
    decreases s.len(),
{
    if s.len() > 0 {
        lemma_tally_cover(s.drop_last(), f, g);
    }
}

/// In an ascending sequence, at most `k` elements are strictly before the
/// element at index `k`, and at most those after index `k` are strictly after
/// it.
pub proof fn lemma_sorted_rank<T: Ord + Clone>(t: Seq<T>, k: int)
    requires
        lawful::<T>(),
        sorted_by(t, ascending::<T>()),
        0 <= k < t.len(),
    ensures
        count_below(t, t[k]) <= k,
        count_above(t, t[k]) <= t.len() - 1 - k,
{
    lemma_strict_total::<T>();
    let m = t[k];
    let asc = ascending::<T>();
    assert forall|i: int, j: int| 0 <= i <= j < t.len() implies le(t[i], t[j]) by {
        if i < j {
            assert(asc(t[i], t[j]));
        }
    }
    let front = t.subrange(0, k);
    let back = t.subrange(k, t.len() as int);
    assert(t =~= front + back);
    lemma_tally_concat(front, back, below(m));
    lemma_tally_bound(front, below(m));
    assert forall|i: int| 0 <= i < back.len() implies !below(m)(#[trigger] back[i]) by {
        assert(le(t[k], t[k + i]));
    }
    lemma_tally_none(back, below(m));

    let upto = t.subrange(0, k + 1);
    let rest = t.subrange(k + 1, t.len() as int);
    assert(t =~= upto + rest);
    lemma_tally_concat(upto, rest, above(m));
    lemma_tally_bound(rest, above(m));
    assert forall|i: int| 0 <= i < upto.len() implies !above(m)(#[trigger] upto[i]) by {
        assert(le(t[i], t[k]));
    }
    lemma_tally_none(upto, above(m));
}

/// Any ascending arrangement of the elements of `s` is `sorted(s)`.
pub proof fn lemma_sorted_is_unique<T: Ord + Clone>(s: Seq<T>, t: Seq<T>)
    requires
        lawful::<T>(),
        sorted_by(t, ascending::<T>()),
        t.to_multiset() == s.to_multiset(),
    ensures
        t == sorted(s),
        t.len() == s.len(),
{
    broadcast use group_to_multiset_ensures;

    lemma_ascending_total::<T>();
    s.lemma_sort_by_ensures(ascending::<T>());
    lemma_sorted_unique(t, sorted(s), ascending::<T>());
    assert(t.len() == t.to_multiset().len() && s.len() == s.to_multiset().len());
}

/// The median has fewer than half of the elements on either side.
pub proof fn lemma_median_is_middle<T: Ord + Clone>(s: Seq<T>)
    requires
        lawful::<T>(),
        s.len() % 2 == 1,
    ensures
        is_middle(s, median_of(s)),
{
    broadcast use group_to_multiset_ensures;

    lemma_ascending_total::<T>();
    s.lemma_sort_by_ensures(ascending::<T>());
    let t = sorted(s);
    lemma_sorted_is_unique(s, t);
    let k = (s.len() / 2) as int;
    let m = t[k];
    lemma_sorted_rank(t, k);
    lemma_tally_permutation(s, t, below(m));
    lemma_tally_permutation(s, t, above(m));
    assert(s.to_multiset().count(m) > 0);
}

/// A sequence has at most one middle value.
pub proof fn lemma_middle_unique<T: Ord + Clone>(s: Seq<T>, a: T, b: T)
    requires
        lawful::<T>(),
        is_middle(s, a),
        is_middle(s, b),
    ensures
        a == b,
{
    lemma_strict_total::<T>();
    if lt(a, b) {
        lemma_tally_cover(s, below(b), above(a));
    } else if lt(b, a) {
        lemma_tally_cover(s, below(a), above(b));
    }
}

/// The median, by rank: for a sequence of odd length, the middle value in the
/// counting sense is the middle element of the sorted sequence, and no other
/// value is.
pub proof fn lemma_median_by_rank<T: Ord + Clone>(s: Seq<T>, m: T)
    requires
        lawful::<T>(),
        s.len() % 2 == 1,
    ensures
        is_middle(s, m) <==> m == median_of(s),
{
    lemma_median_is_middle(s);
    if is_middle(s, m) {
        lemma_middle_unique(s, m, median_of(s));
    }
}

/// A value with fewer than half of the elements on either side occurs in the
/// sequence.
pub proof fn lemma_middle_from_counts<T: Ord + Clone>(s: Seq<T>, m: T)
    requires
        lawful::<T>(),
        2 * count_below(s, m) < s.len(),
        2 * count_above(s, m) < s.len(),
    ensures
        is_middle(s, m),
{
    lemma_strict_total::<T>();
    if !s.contains(m) {
        lemma_tally_cover(s, below(m), above(m));
    }
}

/// What dropping the oldest element and appending `p` does to the counts.
pub proof fn lemma_slide_counts<T: Ord + Clone>(s: Seq<T>, p: T, m: T)
    requires
        s.len() > 0,
    ensures
        count_below(s.drop_first().push(p), m) + (if lt(s[0], m) { 1nat } else { 0nat })
            == count_below(s, m) + (if lt(p, m) { 1nat } else { 0nat }),
        count_above(s.drop_first().push(p), m) + (if lt(m, s[0]) { 1nat } else { 0nat })
            == count_above(s, m) + (if lt(m, p) { 1nat } else { 0nat }),
{
    let rest = s.drop_first();
    assert(rest.push(p).drop_last() =~= rest);
    lemma_tally_remove(s, below(m), 0);
    lemma_tally_remove(s, above(m), 0);
}

/// When more than half of the elements are strictly after `m`, but no more
/// than one over half, the least of them is the middle value.
pub proof fn lemma_step_up<T: Ord + Clone>(s: Seq<T>, m: T, k: int)
    requires
        lawful::<T>(),
        s.len() % 2 == 1,
        2 * count_above(s, m) == s.len() + 1,
        0 <= k < s.len(),
        lt(m, s[k]),
        forall|i: int| 0 <= i < s.len() && lt(m, #[trigger] s[i]) ==> le(s[k], s[i]),
    ensures
        is_middle(s, s[k]),
{
    lemma_strict_total::<T>();
    let n = s[k];
    lemma_tally_strict(s, above(n), above(m), k);
    lemma_tally_disjoint(s, below(n), above(m));
}

/// When more than half of the elements are strictly before `m`, but no more
/// than one over half, the greatest of them is the middle value.
pub proof fn lemma_step_down<T: Ord + Clone>(s: Seq<T>, m: T, k: int)
    requires
        lawful::<T>(),
        s.len() % 2 == 1,
        2 * count_below(s, m) == s.len() + 1,
        0 <= k < s.len(),
        lt(s[k], m),
        forall|i: int| 0 <= i < s.len() && lt(#[trigger] s[i], m) ==> le(s[i], s[k]),
    ensures
        is_middle(s, s[k]),
{
    lemma_strict_total::<T>();
    let n = s[k];
    lemma_tally_strict(s, below(n), below(m), k);
    lemma_tally_disjoint(s, above(n), below(m));
}

} // verus!
