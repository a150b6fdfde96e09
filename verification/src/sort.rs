//! A merge sort on queues, used once per window: when it first fills.

use std::collections::VecDeque;
use vstd::prelude::*;
use vstd::relations::sorted_by;
use vstd::seq_lib::*;
use crate::order::{ascending, lawful, le, lemma_operators, lemma_strict_total};
use crate::rank::{lemma_sorted_is_unique, sorted};

verus! {

/// Everything in `a` is at or before everything in `b`.
spec fn all_le<T: Ord>(a: Seq<T>, b: Seq<T>) -> bool {
    forall|i: int, j: int| 0 <= i < a.len() && 0 <= j < b.len() ==> le(#[trigger] a[i], #[trigger] b[j])
}

/// Moving the front of an ascending `src` to the back of an ascending `out`
/// that precedes it keeps both ascending and `out` before what is left.
proof fn lemma_move_front<T: Ord + Clone>(out: Seq<T>, src: Seq<T>, other: Seq<T>)
    requires
        lawful::<T>(),
        src.len() > 0,
        sorted_by(out, ascending::<T>()),
        sorted_by(src, ascending::<T>()),
        sorted_by(other, ascending::<T>()),
        all_le(out, src),
        all_le(out, other),
        other.len() > 0 ==> le(src[0], other[0]),
    ensures
        sorted_by(out.push(src[0]), ascending::<T>()),
        sorted_by(src.subrange(1, src.len() as int), ascending::<T>()),
        all_le(out.push(src[0]), src.subrange(1, src.len() as int)),
        all_le(out.push(src[0]), other),
{
    lemma_strict_total::<T>();
    let asc = ascending::<T>();
    let grown = out.push(src[0]);
    let rest = src.subrange(1, src.len() as int);
    assert forall|i: int, j: int| 0 <= i < grown.len() && 0 <= j < rest.len() implies le(
        #[trigger] grown[i],
        #[trigger] rest[j],
    ) by {
        if i >= out.len() {
            assert(asc(src[0], src[j + 1]));
        }
    }
    assert forall|i: int, j: int| 0 <= i < grown.len() && 0 <= j < other.len() implies le(
        #[trigger] grown[i],
        #[trigger] other[j],
    ) by {
        if i >= out.len() && j > 0 {
            assert(asc(other[0], other[j]));
        }
    }
}

/// A sequence holds its first element and what follows it.
proof fn lemma_front_multiset<T>(s: Seq<T>)
    requires
        s.len() > 0,
    ensures
        s.to_multiset() == s.remove(0).to_multiset().insert(s[0]),
{
    broadcast use {group_to_multiset_ensures, vstd::multiset::group_multiset_axioms};

    assert(s.to_multiset().count(s[0]) > 0);
}

/// Merges two queues into one that holds the elements of both, ascending
/// when both are.
fn merge<T: Ord + Clone>(left: VecDeque<T>, right: VecDeque<T>) -> (out: VecDeque<T>)
    ensures
        out@.to_multiset() == left@.to_multiset().add(right@.to_multiset()),
        lawful::<T>() && sorted_by(left@, ascending::<T>()) && sorted_by(right@, ascending::<T>())
            ==> sorted_by(out@, ascending::<T>()),
{
    broadcast use {group_to_multiset_ensures, vstd::multiset::group_multiset_axioms};

    let ghost both = left@.to_multiset().add(right@.to_multiset());
    let ghost ordered = lawful::<T>() && sorted_by(left@, ascending::<T>()) && sorted_by(
        right@,
        ascending::<T>(),
    );
    let mut left = left;
    let mut right = right;
    let mut out: VecDeque<T> = VecDeque::new();
    while left.len() > 0 && right.len() > 0
        invariant
            out@.to_multiset().add(left@.to_multiset()).add(right@.to_multiset()) == both,
            ordered ==> lawful::<T>(),
            ordered ==> sorted_by(out@, ascending::<T>()),
            ordered ==> sorted_by(left@, ascending::<T>()),
            ordered ==> sorted_by(right@, ascending::<T>()),
            ordered ==> all_le(out@, left@),
            ordered ==> all_le(out@, right@),
        decreases left.len() + right.len(),
    {
        let ghost out0 = out@;
        let ghost left0 = left@;
        let ghost right0 = right@;
        proof {
            if ordered {
                lemma_operators::<T>();
                lemma_strict_total::<T>();
            }
        }
        if right[0] < left[0] {
            let x = right.pop_front().unwrap();
            out.push_back(x);
            proof {
                lemma_front_multiset(right0);
                to_multiset_build(out0, x);
                if ordered {
                    lemma_move_front(out0, right0, left0);
                }
            }
        } else {
            let x = left.pop_front().unwrap();
            out.push_back(x);
            proof {
                lemma_front_multiset(left0);
                to_multiset_build(out0, x);
                if ordered {
                    lemma_move_front(out0, left0, right0);
                }
            }
        }
    }
    let ghost out1 = out@;
    let ghost left1 = left@;
    let ghost right1 = right@;
    out.append(&mut left);
    out.append(&mut right);
    proof {
        lemma_multiset_commutative(out1, left1);
        lemma_multiset_commutative(out1 + left1, right1);
    }
    out
}

/// Puts `items` in ascending order.
pub(crate) fn merge_sort<T: Ord + Clone>(items: VecDeque<T>) -> (out: VecDeque<T>)
    ensures
        out@.len() == items@.len(),
        out@.to_multiset() == items@.to_multiset(),
        lawful::<T>() ==> out@ == sorted(items@),
    decreases items@.len(),
{
    broadcast use group_to_multiset_ensures;

    let n = items.len();
    if n <= 1 {
        proof {
            if lawful::<T>() {
                lemma_sorted_is_unique(items@, items@);
            }
        }
        return items;
    }
    let mut front = items;
    let back = front.split_off(n / 2);
    proof {
        assert(items@ =~= front@ + back@);
        lemma_multiset_commutative(front@, back@);
    }
    let front = merge_sort(front);
    let back = merge_sort(back);
    let out = merge(front, back);
    proof {
        assert(items@.len() == items@.to_multiset().len());
        if lawful::<T>() {
            crate::order::lemma_ascending_total::<T>();
            items@.subrange(0, (n / 2) as int).lemma_sort_by_ensures(ascending::<T>());
            items@.subrange((n / 2) as int, n as int).lemma_sort_by_ensures(ascending::<T>());
            lemma_sorted_is_unique(items@, out@);
        }
    }
    out
}

} // verus!
