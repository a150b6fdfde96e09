//! The window as a sequence: what it holds after a stream of values, which
//! median it reports, and how a signed index addresses it.

use vstd::prelude::*;
use vstd::relations::sorted_by;
use crate::order::{ascending, lawful};
use crate::rank::{lemma_sorted_is_unique, median_of};

verus! {

/// The contents of a window of `size` that held `s` and then took `v`: `v`
/// joins at the back, and if the window was full its oldest element leaves.
pub open spec fn slide<T>(size: nat, s: Seq<T>, v: T) -> Seq<T> {
    if s.len() < size {
        s.push(v)
    } else {
        s.drop_first().push(v)
    }
}

/// The contents of a window of `size` that started empty and took the values
/// `xs` one by one.
pub open spec fn fed<T>(size: nat, xs: Seq<T>) -> Seq<T>
    decreases xs.len(),
{
    if xs.len() == 0 {
        Seq::empty()
    } else {
        slide(size, fed(size, xs.drop_last()), xs.last())
    }
}

/// The last `size` values of `xs`, or all of `xs` where it has fewer.
pub open spec fn latest<T>(size: nat, xs: Seq<T>) -> Seq<T> {
    if xs.len() <= size {
        xs
    } else {
        xs.subrange(xs.len() - size, xs.len() as int)
    }
}

/// The median that a window of `size` reports while it holds `s`: none until
/// it is full, then the median of its contents.
pub open spec fn reported_median<T: Ord>(size: nat, s: Seq<T>) -> Option<T> {
    if s.len() == size {
        Some(median_of(s))
    } else {
        None
    }
}

/// The position that a signed index addresses in a window of `len` elements:
/// from the front when it is not negative, from the back when it is, and none
/// when its magnitude is not below `len`.
pub open spec fn position(len: nat, index: int) -> Option<int> {
    if 0 <= index < len {
        Some(index)
    } else if -len < index < 0 {
        Some(len + index)
    } else {
        None
    }
}

/// A window holds exactly the latest values it was given, as many as its
/// size allows, oldest first.
pub proof fn lemma_fed_latest<T>(size: nat, xs: Seq<T>)
    requires
        size > 0,
    ensures
        fed(size, xs) == latest(size, xs),
    decreases xs.len(),
{
    if xs.len() > 0 {
        lemma_fed_latest(size, xs.drop_last());
    }
}

/// A window that has taken fewer values than its size reports no median.
pub proof fn lemma_no_median_before_full<T: Ord>(size: nat, xs: Seq<T>)
    requires
        xs.len() < size,
    ensures
        reported_median(size, fed(size, xs)) is None,
{
    lemma_fed_latest(size, xs);
}

/// A window is full from its `size`-th value on, and not before.
pub proof fn lemma_full_from_size_on<T>(size: nat, xs: Seq<T>)
    requires
        size > 0,
    ensures
        fed(size, xs).len() == size <==> xs.len() >= size,
        fed(size, xs).len() <= size,
{
    lemma_fed_latest(size, xs);
}

/// Once a window has taken at least `size` values, the median it reports is
/// the middle element of the latest `size` values put in ascending order,
/// whatever came before them: `t` is any ascending arrangement of them.
pub proof fn lemma_median_of_latest<T: Ord + Clone>(size: nat, xs: Seq<T>, t: Seq<T>)
    requires
        lawful::<T>(),
        size % 2 == 1,
        xs.len() >= size,
        sorted_by(t, ascending::<T>()),
        t.to_multiset() == latest(size, xs).to_multiset(),
    ensures
        t.len() == size,
        reported_median(size, fed(size, xs)) == Some(t[size as int / 2]),
{
    lemma_fed_latest(size, xs);
    lemma_sorted_is_unique(latest(size, xs), t);
}

/// In a window that holds something, index 0 addresses the oldest element
/// and the index one below the number of elements the newest; that number,
/// its negation and everything beyond them address nothing.
pub proof fn lemma_position_ends(len: nat)
    requires
        len > 0,
    ensures
        position(len, 0) == Some(0int),
        position(len, len - 1) == Some(len - 1),
        forall|index: int| index >= len ==> position(len, index) is None,
        forall|index: int| index <= -len ==> position(len, index) is None,
{
}

/// In a window that holds more than one element, index -1 addresses the
/// newest. (Where it holds one, -1 is the negated number of elements.)
pub proof fn lemma_position_newest(len: nat)
    requires
        len > 1,
    ensures
        position(len, -1) == Some(len - 1),
{
}

} // verus!
