//! Closed intervals over an ordered type.

use vstd::prelude::*;
use crate::scalar::Numerical;

verus! {

/// The closed interval from `start` to `end`.
#[derive(Debug, Clone)]
pub struct IntervalType<S> {
    pub start: S,
    pub end: S,
}

/// An interval with integer end points.
pub type IntInterval = IntervalType<i32>;

impl<S> IntervalType<S> {
    /// The interval from `start` to `end`.
    pub fn new(start: S, end: S) -> (r: Self)
        ensures
            r.start == start,
            r.end == end,
    {
        Self { start, end }
    }
}

impl IntInterval {
    /// Distance between the two end points, as a mathematical integer.
    pub open spec fn diameter_spec(&self) -> int {
        if self.end >= self.start {
            self.end - self.start
        } else {
            self.start - self.end
        }
    }

    /// Distance between the two end points. The difference `end - start`
    /// has to be representable.
    pub fn diameter(&self) -> (r: u32)
        requires
            i32::MIN <= self.end - self.start <= i32::MAX,
        ensures
            r == self.diameter_spec(),
    {
        let difference: i32 = self.end - self.start;
        if difference >= 0 {
            difference as u32
        } else {
            // `-difference` overflows for the smallest value, so negate one less.
            let below: u32 = (-(difference + 1)) as u32;
            below + 1
        }
    }
}

impl<S: Numerical> IntervalType<S> {
    /// Whether `x` lies between the end points, both included.
    pub open spec fn contains_spec(&self, x: S) -> bool {
        self.start.le_spec(x) && x.le_spec(self.end)
    }

    /// The mid point `(start + end) / 2`.
    pub open spec fn middle_spec(&self) -> S {
        self.start.add_spec(self.end).div_spec(S::from_i32_spec(2))
    }

    /// Whether `x` lies between the end points, both included.
    pub fn contains(&self, x: S) -> (r: bool)
        ensures
            r == self.contains_spec(x),
    {
        self.start.le(x) && x.le(self.end)
    }

    /// The mid point of the interval.
    pub fn middle(&self) -> (r: S)
        ensures
            r == self.middle_spec(),
    {
        self.start.add(self.end).div(S::from_i32(2))
    }
}

} // verus!
