use vstd::prelude::*;

use std::ops::RangeInclusive;

verus! {

/// Ranges whose common part can be taken.
pub trait Overlapable: Sized {
    /// `r` is the common part of `self` and `other`.
    spec fn is_overlap_of(&self, other: &Self, r: &Self) -> bool;

    /// The common part of two ranges: empty when they do not meet.
    fn iter_overlap(&self, other: &Self) -> (r: Self)
        ensures
            self.is_overlap_of(other, &r),
    ;
}

/// Relies on `RangeInclusive::start`: the lower bound the range holds.
#[verifier::external_body]
fn range_start(r: &RangeInclusive<usize>) -> (s: usize)
    ensures
        s == r@.start,
{
    *r.start()
}

/// Relies on `RangeInclusive::end`: the upper bound the range holds.
#[verifier::external_body]
fn range_end(r: &RangeInclusive<usize>) -> (e: usize)
    ensures
        e == r@.end,
{
    *r.end()
}

impl Overlapable for RangeInclusive<usize> {
    /// From the larger of the two starts to the smaller of the two ends; a
    /// range whose start is past its end holds nothing.
    open spec fn is_overlap_of(&self, other: &Self, r: &Self) -> bool {
        &&& r@.start == (if self@.start >= other@.start { self@.start } else { other@.start })
        &&& r@.end == (if self@.end <= other@.end { self@.end } else { other@.end })
        &&& !r@.exhausted
    }

    fn iter_overlap(&self, other: &Self) -> (r: Self) {
        let (a, b) = (range_start(self), range_start(other));
        let (c, d) = (range_end(self), range_end(other));
        let lower = if a >= b { a } else { b };
        let upper = if c <= d { c } else { d };
        // A RangeInclusive whose lower bound is greater than its upper bound
        // generates nothing.
        RangeInclusive::new(lower, upper)
    }
}

} // verus!
