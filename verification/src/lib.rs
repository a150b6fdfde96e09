//! A sliding window over a stream of ordered values that keeps the median of
//! the values it holds.
//!
//! A [`MovingMedian`] has a fixed, odd size. Values are added one at a time;
//! once the window is full each new value pushes out the oldest one, and the
//! median of the window is brought up to date by one pass over its contents
//! rather than by sorting them again.

use std::collections::VecDeque;
use vstd::prelude::*;

pub mod model;
pub mod order;
pub mod rank;
mod sort;

use crate::model::{position, reported_median, slide};
use crate::order::{lawful, le, lemma_operators, lemma_strict_total, lt};
use crate::rank::{
    count_above, count_below, lemma_median_by_rank, lemma_median_is_middle,
    lemma_middle_from_counts, lemma_slide_counts, lemma_step_down, lemma_step_up,
};
use crate::sort::merge_sort;

verus! {

/// Why a window could not be made, or an element not be read.
#[derive(Debug, Clone, Copy, PartialEq, Eq, Structural)]
pub enum Error {
    /// The requested size is even; zero counts as even.
    InvalidCapacity,
    /// The magnitude of the index is not below the number of elements held.
    IndexOutOfBounds,
}

/// A fixed-size queue of the latest values added to it, which knows their
/// median once it is full.
///
/// The size is odd, so that the median is one of the elements whatever the
/// element type is. Bringing the median up to date costs one pass over the
/// window for each value added; only the first median is found by sorting.
#[derive(Debug)]
pub struct MovingMedian<T: Ord + Clone> {
    odd_sampling_size: usize,
    queue: VecDeque<T>,
    is_full: bool,
    median: Option<T>,
}

impl<T: Ord + Clone> View for MovingMedian<T> {
    type V = Seq<T>;

    /// The values held, oldest first.
    closed spec fn view(&self) -> Seq<T> {
        self.queue@
    }
}

impl<T: Ord + Clone> MovingMedian<T> {
    /// The size that the window was made with.
    pub closed spec fn sampling_size(&self) -> nat {
        self.odd_sampling_size as nat
    }

    /// Whether the window has filled up.
    pub closed spec fn spec_is_full(&self) -> bool {
        self.is_full
    }

    /// The median that the window keeps, if it keeps one.
    pub closed spec fn kept_median(&self) -> Option<T> {
        self.median
    }

    /// The window is consistent: its size is odd, it holds no more values
    /// than its size, it is full when it holds as many, and it keeps a median
    /// exactly when it is full. For a lawful element type the median it
    /// keeps is the median of the values it holds.
    pub open spec fn wf(&self) -> bool {
        &&& self.sampling_size() % 2 == 1
        &&& self@.len() <= self.sampling_size() <= usize::MAX
        &&& self.is_full() <==> self@.len() == self.sampling_size()
        &&& self.is_full() <==> self.kept_median() is Some
        &&& lawful::<T>() ==> self.kept_median() == reported_median(self.sampling_size(), self@)
    }

    /// Adds `val` as the newest value. A full window drops its oldest value
    /// for it; a window that becomes or stays full keeps the median of what
    /// it now holds.
    pub fn add(&mut self, val: T)
        requires
            old(self).wf(),
        ensures
            final(self).wf(),
            final(self).sampling_size() == old(self).sampling_size(),
            final(self)@ == slide(old(self).sampling_size(), old(self)@, val),
            old(self).is_full() ==> final(self).is_full(),
            lawful::<T>() ==> final(self).kept_median() == reported_median(
                final(self).sampling_size(),
                final(self)@,
            ),
    {
        let ghost before = self.queue@;
        self.queue.push_back(val);

        if !self.is_full {
            if self.queue.len() == self.odd_sampling_size {
                self.is_full = true;

                let copy = self.queue.clone();
                let copy = merge_sort(copy);
                let middle = copy[self.odd_sampling_size / 2].clone();
                assert(cloned::<T>(copy@[self.odd_sampling_size as int / 2], middle));
                self.median = Some(middle);
            }
        } else {
            let last_ejected_val = self.queue.pop_front().unwrap();
            let len = self.queue.len();
            let last_put_val = &self.queue[len - 1];
            let median = self.median.as_ref().unwrap();
            proof {
                assert(self.queue@ =~= slide(self.sampling_size(), before, val));
                if lawful::<T>() {
                    lemma_operators::<T>();
                    lemma_median_is_middle(before);
                    lemma_slide_counts(before, val, *median);
                }
            }

            if (last_ejected_val < *median && *last_put_val < *median)
                || (last_ejected_val == *median && *last_put_val == *median)
                || (last_ejected_val > *median && *last_put_val > *median) {
                // The value that left and the value that came are on the same
                // side of the median, or both are the median: it stays.
                proof {
                    if lawful::<T>() {
                        lemma_middle_from_counts(self.queue@, *median);
                        lemma_median_by_rank(self.queue@, *median);
                    }
                }
            } else if *last_put_val > *median {
                let (higher_count, min_over_median) = count_over(&self.queue, median);
                if higher_count > self.odd_sampling_size / 2 {
                    // More than half of the window is over the median: the
                    // least of those values is the median now.
                    let k = min_over_median.unwrap();
                    let shifted = self.queue[k].clone();
                    proof {
                        assert(cloned::<T>(self.queue@[k as int], shifted));
                        if lawful::<T>() {
                            lemma_step_up(self.queue@, *median, k as int);
                            lemma_median_by_rank(self.queue@, shifted);
                        }
                    }
                    self.median = Some(shifted);
                } else {
                    proof {
                        if lawful::<T>() {
                            lemma_middle_from_counts(self.queue@, *median);
                            lemma_median_by_rank(self.queue@, *median);
                        }
                    }
                }
            } else {
                let (lower_count, max_under_median) = count_under(&self.queue, median);
                if lower_count > self.odd_sampling_size / 2 {
                    // More than half of the window is under the median: the
                    // greatest of those values is the median now.
                    let k = max_under_median.unwrap();
                    let shifted = self.queue[k].clone();
                    proof {
                        assert(cloned::<T>(self.queue@[k as int], shifted));
                        if lawful::<T>() {
                            lemma_step_down(self.queue@, *median, k as int);
                            lemma_median_by_rank(self.queue@, shifted);
                        }
                    }
                    self.median = Some(shifted);
                } else {
                    proof {
                        if lawful::<T>() {
                            lemma_middle_from_counts(self.queue@, *median);
                            lemma_median_by_rank(self.queue@, *median);
                        }
                    }
                }
            }
        }
    }

    /// The value at `idx`, counted from the oldest value when `idx` is not
    /// negative and back from the newest when it is: 0 is the oldest value,
    /// -1 the newest. An index whose magnitude is not below the number of
    /// values held is out of bounds; so is the negated number itself.
    pub fn get(&self, idx: isize) -> (r: Result<T, Error>)
        ensures
            match position(self@.len(), idx as int) {
                Some(k) => r matches Ok(v) && cloned::<T>(self@[k], v),
                None => r == Err::<T, Error>(Error::IndexOutOfBounds),
            },
    {
        let len = self.queue.len();
        if idx >= 0 {
            let at = idx as usize;
            if at >= len {
                Err(Error::IndexOutOfBounds)
            } else {
                Ok(self.queue[at].clone())
            }
        } else {
            // The magnitude of `idx`, which `isize::MIN` itself has none of.
            let back = (-(idx + 1)) as usize + 1;
            if back >= len {
                Err(Error::IndexOutOfBounds)
            } else {
                Ok(self.queue[len - back].clone())
            }
        }
    }

    /// The size that the window was made with.
    pub fn odd_sampling_size(&self) -> (n: usize)
        ensures
            n == self.sampling_size(),
    {
        self.odd_sampling_size
    }

    /// Whether the window holds as many values as its size. Once it does, it
    /// does so for good.
    #[verifier::when_used_as_spec(spec_is_full)]
    pub fn is_full(&self) -> (full: bool)
        ensures
            full == self.is_full(),
            self.wf() ==> (full <==> self@.len() == self.sampling_size()),
    {
        self.is_full
    }

    /// The median of the values held, or `None` while the window is not full.
    pub fn median(&self) -> (m: Option<T>)
        requires
            self.wf(),
        ensures
            m is Some <==> self@.len() == self.sampling_size(),
            m matches Some(v) ==> cloned::<T>(self.kept_median().unwrap(), v),
            lawful::<T>() ==> m == reported_median(self.sampling_size(), self@),
    {
        self.median.clone()
    }
}

/// Counts the values of `queue` that are over `pivot`, and finds the least of
/// them: the last one, where several are least.
fn count_over<T: Ord + Clone>(queue: &VecDeque<T>, pivot: &T) -> (found: (usize, Option<usize>))
    ensures
        found.0 <= queue@.len(),
        found.1 is Some <==> found.0 > 0,
        found.1 matches Some(k) ==> k < queue@.len(),
        lawful::<T>() ==> found.0 == count_above(queue@, *pivot),
        lawful::<T>() ==> (found.1 matches Some(k) ==> {
            &&& lt(*pivot, queue@[k as int])
            &&& forall|j: int|
                0 <= j < queue@.len() && lt(*pivot, #[trigger] queue@[j]) ==> le(queue@[k as int], queue@[j])
        }),
{
    let len = queue.len();
    let mut higher_count: usize = 0;
    let mut min_over_median: Option<usize> = None;
    let mut i: usize = 0;
    while i < len
        invariant
            len == queue@.len(),
            i <= len,
            higher_count <= i,
            min_over_median is Some <==> higher_count > 0,
            min_over_median matches Some(k) ==> k < i,
            lawful::<T>() ==> higher_count == count_above(queue@.subrange(0, i as int), *pivot),
            lawful::<T>() && min_over_median is None ==> forall|j: int|
                0 <= j < i ==> !lt(*pivot, #[trigger] queue@[j]),
            lawful::<T>() ==> (min_over_median matches Some(k) ==> {
                &&& lt(*pivot, queue@[k as int])
                &&& forall|j: int|
                    0 <= j < i && lt(*pivot, #[trigger] queue@[j]) ==> le(queue@[k as int], queue@[j])
            }),
        decreases len - i,
    {
        proof {
            if lawful::<T>() {
                lemma_operators::<T>();
                lemma_strict_total::<T>();
            }
            assert(queue@.subrange(0, i + 1).drop_last() =~= queue@.subrange(0, i as int));
        }
        if queue[i] > *pivot {
            higher_count += 1;
            let lowest = match min_over_median {
                None => true,
                Some(k) => queue[i] <= queue[k],
            };
            if lowest {
                min_over_median = Some(i);
            }
        }
        i += 1;
    }
    assert(queue@.subrange(0, len as int) =~= queue@);
    (higher_count, min_over_median)
}

/// Counts the values of `queue` that are under `pivot`, and finds the
/// greatest of them: the last one, where several are greatest.
fn count_under<T: Ord + Clone>(queue: &VecDeque<T>, pivot: &T) -> (found: (usize, Option<usize>))
    ensures
        found.0 <= queue@.len(),
        found.1 is Some <==> found.0 > 0,
        found.1 matches Some(k) ==> k < queue@.len(),
        lawful::<T>() ==> found.0 == count_below(queue@, *pivot),
        lawful::<T>() ==> (found.1 matches Some(k) ==> {
            &&& lt(queue@[k as int], *pivot)
            &&& forall|j: int|
                0 <= j < queue@.len() && lt(#[trigger] queue@[j], *pivot) ==> le(queue@[j], queue@[k as int])
        }),
{
    let len = queue.len();
    let mut lower_count: usize = 0;
    let mut max_under_median: Option<usize> = None;
    let mut i: usize = 0;
    while i < len
        invariant
            len == queue@.len(),
            i <= len,
            lower_count <= i,
            max_under_median is Some <==> lower_count > 0,
            max_under_median matches Some(k) ==> k < i,
            lawful::<T>() ==> lower_count == count_below(queue@.subrange(0, i as int), *pivot),
            lawful::<T>() && max_under_median is None ==> forall|j: int|
                0 <= j < i ==> !lt(#[trigger] queue@[j], *pivot),
            lawful::<T>() ==> (max_under_median matches Some(k) ==> {
                &&& lt(queue@[k as int], *pivot)
                &&& forall|j: int|
                    0 <= j < i && lt(#[trigger] queue@[j], *pivot) ==> le(queue@[j], queue@[k as int])
            }),
        decreases len - i,
    {
        proof {
            if lawful::<T>() {
                lemma_operators::<T>();
                lemma_strict_total::<T>();
            }
            assert(queue@.subrange(0, i + 1).drop_last() =~= queue@.subrange(0, i as int));
        }
        if queue[i] < *pivot {
            lower_count += 1;
            let highest = match max_under_median {
                None => true,
                Some(k) => queue[i] >= queue[k],
            };
            if highest {
                max_under_median = Some(i);
            }
        }
        i += 1;
    }
    assert(queue@.subrange(0, len as int) =~= queue@);
    (lower_count, max_under_median)
}

/// Makes an empty window of the given size. An even size, zero included,
/// is refused with [`Error::InvalidCapacity`].
pub fn new<T: Ord + Clone>(odd_sampling_size: usize) -> (r: Result<MovingMedian<T>, Error>)
    ensures
        match r {
            Ok(window) => {
                &&& odd_sampling_size % 2 == 1
                &&& window.wf()
                &&& window.sampling_size() == odd_sampling_size
                &&& window@ == Seq::<T>::empty()
                &&& !window.is_full()
                &&& window.kept_median() is None
            },
            Err(e) => odd_sampling_size % 2 == 0 && e == Error::InvalidCapacity,
        },
{
    if odd_sampling_size % 2 == 1 {
        Ok(
            MovingMedian {
                odd_sampling_size,
                is_full: false,
                queue: VecDeque::with_capacity(odd_sampling_size),
                median: None,
            },
        )
    } else {
        Err(Error::InvalidCapacity)
    }
}

} // verus!
