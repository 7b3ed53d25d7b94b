//! Newton's method for a root of a function of one variable, safeguarded
//! by an interval that brackets the root.

use vstd::prelude::*;
use crate::function::{evaluate, is_function, value_at};
use crate::interval::IntervalType;
use crate::localize_root::{brackets_root, check_root};
use crate::scalar::{Index, Numerical, OtherNumericalOps};

verus! {

/// The end of the interval that the last split moved.
pub enum SplitAction {
    /// There was no split yet.
    Nothing,
    /// The root is in the left part: the end moved towards the start.
    ShrinkToStart,
    /// The root is in the right part: the start moved towards the end.
    ShrinkToEnd,
}

/// The Newton step from `x`: `x − f(x) / f'(x)`.
pub open spec fn newton_point<S: Numerical, F: Fn(S) -> S, G: Fn(S) -> S>(
    f: &F,
    fprime: &G,
    x: S,
) -> S {
    x.sub_spec(value_at(f, x).div_spec(value_at(fprime, x)))
}

/// The part of `interval` on one side of `x` that brackets a root: the left
/// part if it does, the right part otherwise.
pub open spec fn split_at<S: Numerical, F: Fn(S) -> S>(f: &F, interval: IntervalType<S>, x: S) -> (
    IntervalType<S>,
    SplitAction,
) {
    let left = IntervalType { start: interval.start, end: x };
    if brackets_root(f, left) {
        (left, SplitAction::ShrinkToStart)
    } else {
        (IntervalType { start: x, end: interval.end }, SplitAction::ShrinkToEnd)
    }
}

/// What one round of the method comes to.
pub enum NewtonStep<S> {
    /// The root, to the accuracy asked for.
    Found(S),
    /// A smaller interval that brackets the root, and how it came about.
    Continue(IntervalType<S>, SplitAction),
}

/// A Newton step from the end point `x`, if it stays inside the interval:
/// the new point is the root if it is closer to `x` than the accuracy, and
/// splits the interval otherwise.
pub open spec fn accepted_step<S: Numerical, F: Fn(S) -> S, G: Fn(S) -> S>(
    f: &F,
    fprime: &G,
    interval: IntervalType<S>,
    x: S,
    accuracy: S,
) -> NewtonStep<S> {
    let x_new = newton_point(f, fprime, x);
    if x_new.sub_spec(x).abs_spec().lt_spec(accuracy) {
        NewtonStep::Found(x_new)
    } else {
        let (next, action) = split_at(f, interval, x_new);
        NewtonStep::Continue(next, action)
    }
}

/// One round. A Newton step is tried from the end of the interval, unless
/// the last split moved the start, then from the start, unless the last
/// split moved the end. A step counts if it stays inside the interval. If
/// neither counts, the interval is split in the middle, and its middle is
/// the root once it is shorter than the accuracy.
pub open spec fn newton_round<S: Numerical, F: Fn(S) -> S, G: Fn(S) -> S>(
    f: &F,
    fprime: &G,
    interval: IntervalType<S>,
    previous: SplitAction,
    accuracy: S,
) -> NewtonStep<S> {
    if previous !is ShrinkToEnd && interval.contains_spec(
        newton_point(f, fprime, interval.end),
    ) {
        accepted_step(f, fprime, interval, interval.end, accuracy)
    } else if previous !is ShrinkToStart && interval.contains_spec(
        newton_point(f, fprime, interval.start),
    ) {
        accepted_step(f, fprime, interval, interval.start, accuracy)
    } else {
        let (next, action) = split_at(f, interval, interval.middle_spec());
        if next.end.sub_spec(next.start).lt_spec(accuracy) {
            NewtonStep::Found(next.middle_spec())
        } else {
            NewtonStep::Continue(next, action)
        }
    }
}

/// The root that the next `rounds` rounds find, or `None` if they find
/// none.
pub open spec fn newton_run<S: Numerical, F: Fn(S) -> S, G: Fn(S) -> S>(
    f: &F,
    fprime: &G,
    interval: IntervalType<S>,
    previous: SplitAction,
    accuracy: S,
    rounds: nat,
) -> Option<S>
    decreases rounds,
{
    if rounds == 0 {
        None
    } else {
        match newton_round(f, fprime, interval, previous, accuracy) {
            NewtonStep::Found(x) => Some(x),
            NewtonStep::Continue(next, action) => newton_run(
                f,
                fprime,
                next,
                action,
                accuracy,
                (rounds - 1) as nat,
            ),
        }
    }
}

/// The Newton step from `x`.
fn newton_iteration<S: Numerical, F: Fn(S) -> S, G: Fn(S) -> S>(f: &F, fprime: &G, x: S) -> (r: S)
    requires
        is_function(f),
        is_function(fprime),
    ensures
        r == newton_point(f, fprime, x),
{
    x.sub(evaluate(f, x).div(evaluate(fprime, x)))
}

/// Splits `interval` at `x` and keeps the part that brackets a root.
fn interval_split<S: Numerical, F: Fn(S) -> S>(f: &F, interval: IntervalType<S>, x: S) -> (r: (
    IntervalType<S>,
    SplitAction,
))
    requires
        is_function(f),
    ensures
        r == split_at(f, interval, x),
{
    let left_interval = IntervalType::new(interval.start, x);
    let right_interval = IntervalType::new(x, interval.end);
    if check_root(f, &left_interval) {
        (left_interval, SplitAction::ShrinkToStart)
    } else {
        (right_interval, SplitAction::ShrinkToEnd)
    }
}

/// A Newton step from the end point `x` that stays inside the interval.
fn accept_step<S: Numerical, F: Fn(S) -> S>(
    f: &F,
    interval: IntervalType<S>,
    x: S,
    x_new: S,
    accuracy: S,
) -> (r: NewtonStep<S>)
    requires
        is_function(f),
    ensures
        r == (if x_new.sub_spec(x).abs_spec().lt_spec(accuracy) {
            NewtonStep::Found(x_new)
        } else {
            NewtonStep::Continue(split_at(f, interval, x_new).0, split_at(f, interval, x_new).1)
        }),
{
    if x_new.sub(x).abs_trait().lt(accuracy) {
        NewtonStep::Found(x_new)
    } else {
        let (next, action) = interval_split(f, interval, x_new);
        NewtonStep::Continue(next, action)
    }
}

/// One round of the method.
fn newton_round_of<S: Numerical, F: Fn(S) -> S, G: Fn(S) -> S>(
    f: &F,
    fprime: &G,
    interval: IntervalType<S>,
    previous: SplitAction,
    accuracy: S,
) -> (r: NewtonStep<S>)
    requires
        is_function(f),
        is_function(fprime),
    ensures
        r == newton_round(f, fprime, interval, previous, accuracy),
{
    let from_end = match previous {
        SplitAction::ShrinkToEnd => false,
        _ => true,
    };
    if from_end {
        let x = interval.end;
        let x_new = newton_iteration(f, fprime, x);
        if interval.contains(x_new) {
            return accept_step(f, interval, x, x_new, accuracy);
        }
    }
    let from_start = match previous {
        SplitAction::ShrinkToStart => false,
        _ => true,
    };
    if from_start {
        let x = interval.start;
        let x_new = newton_iteration(f, fprime, x);
        if interval.contains(x_new) {
            return accept_step(f, interval, x, x_new, accuracy);
        }
    }
    let x_new = interval.middle();
    let (next, action) = interval_split(f, interval, x_new);
    if next.end.sub(next.start).lt(accuracy) {
        NewtonStep::Found(next.middle())
    } else {
        NewtonStep::Continue(next, action)
    }
}

/// Newton's method for a root of `f` inside `interval`, with the
/// derivative `fprime`. Returns `None` when `max_iterations` rounds do not
/// find the root to the accuracy asked for.
pub fn newton_method<S: Numerical, F: Fn(S) -> S, G: Fn(S) -> S>(
    f: &F,
    fprime: &G,
    interval: IntervalType<S>,
    accuracy: S,
    max_iterations: Index,
) -> (r: Option<S>)
    requires
        is_function(f),
        is_function(fprime),
    ensures
        r == newton_run(f, fprime, interval, SplitAction::Nothing, accuracy, max_iterations as nat),
{
    let mut current = IntervalType::new(interval.start, interval.end);
    let mut previous_iteration = SplitAction::Nothing;
    let mut k: Index = 0;
    while k < max_iterations
        invariant
            k <= max_iterations,
            is_function(f),
            is_function(fprime),
            newton_run(f, fprime, interval, SplitAction::Nothing, accuracy, max_iterations as nat)
                == newton_run(
                f,
                fprime,
                current,
                previous_iteration,
                accuracy,
                (max_iterations - k) as nat,
            ),
        decreases max_iterations - k,
    {
        match newton_round_of(f, fprime, current, previous_iteration, accuracy) {
            NewtonStep::Found(x) => {
                return Some(x);
            },
            NewtonStep::Continue(next, action) => {
                current = next;
                previous_iteration = action;
            },
        }
        k += 1;
    }
    None
}

} // verus!
