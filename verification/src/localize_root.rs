//! Bracketing a root of a function: the search for an interval at whose
//! end points the function has values of different sign.

use vstd::prelude::*;
use crate::function::{evaluate, is_function, is_single_valued, value_at};
use crate::interval::{IntInterval, IntervalType};
use crate::scalar::{Index, Numerical};

verus! {

/// Whether the values of `f` at the two end points have a product that is
/// not positive, as they do when `f` changes sign in between.
pub open spec fn brackets_root<S: Numerical, F: Fn(S) -> S>(f: &F, interval: IntervalType<S>) -> bool {
    value_at(f, interval.start).mul_spec(value_at(f, interval.end)).le_spec(S::from_i32_spec(0))
}

/// Whether `f` changes sign, or vanishes, between the end points of
/// `interval`.
pub fn check_root<S: Numerical, F: Fn(S) -> S>(f: &F, interval: &IntervalType<S>) -> (r: bool)
    requires
        is_function(f),
    ensures
        r == brackets_root(f, *interval),
        call_ensures(*f, (interval.start,), value_at(f, interval.start)),
        call_ensures(*f, (interval.end,), value_at(f, interval.end)),
{
    let start_value = evaluate(f, interval.start);
    let end_value = evaluate(f, interval.end);
    start_value.mul(end_value).le(S::from_i32(0))
}

/// Part `j` of the `parts` equal parts of the unit interval that begins at
/// `start + i`.
pub open spec fn part_of<S: Numerical>(start: i32, i: u32, j: u32, parts: u32) -> IntervalType<S> {
    IntervalType {
        start: S::from_i32_spec(start).add_spec(S::from_index_spec(i as Index)).add_spec(
            S::from_index_spec(j as Index).div_spec(S::from_index_spec(parts as Index)),
        ),
        end: S::from_i32_spec(start).add_spec(S::from_index_spec(i as Index)).add_spec(
            S::from_index_spec((j + 1) as Index).div_spec(S::from_index_spec(parts as Index)),
        ),
    }
}

/// The first of the parts from `from` on, of the unit interval at
/// `start + i`, that brackets a root.
pub open spec fn first_part<S: Numerical, F: Fn(S) -> S>(
    f: &F,
    start: i32,
    i: u32,
    parts: u32,
    from: nat,
) -> Option<IntervalType<S>>
    decreases parts - from,
{
    if from >= parts {
        None
    } else {
        let current = part_of::<S>(start, i, from as u32, parts);
        if brackets_root(f, current) {
            Some(current)
        } else {
            first_part(f, start, i, parts, from + 1)
        }
    }
}

/// The first part that brackets a root in the unit intervals from number
/// `from` on, of the `units` unit intervals that begin at `start`.
pub open spec fn first_unit<S: Numerical, F: Fn(S) -> S>(
    f: &F,
    start: i32,
    units: u32,
    parts: u32,
    from: nat,
) -> Option<IntervalType<S>>
    decreases units - from,
{
    if from >= units {
        None
    } else {
        match first_part(f, start, from as u32, parts, 0) {
            Some(found) => Some(found),
            None => first_unit(f, start, units, parts, from + 1),
        }
    }
}

/// One level of the search: an interval with integer end points and the
/// number of parts that each of its unit intervals is cut into.
pub struct Level {
    pub interval: IntInterval,
    pub parts: u32,
}

/// The first part that brackets a root in the levels from number `from`
/// on.
pub open spec fn first_level<S: Numerical, F: Fn(S) -> S>(f: &F, levels: Seq<Level>, from: nat) -> Option<
    IntervalType<S>,
>
    decreases levels.len() - from,
{
    if from >= levels.len() {
        None
    } else {
        let level = levels[from as int];
        match first_unit(
            f,
            level.interval.start,
            level.interval.diameter_spec() as u32,
            level.parts,
            0,
        ) {
            Some(found) => Some(found),
            None => first_level(f, levels, from + 1),
        }
    }
}

/// The levels `1` to `k_max` that the two functions describe.
pub open spec fn levels_of<IF: Fn(u32) -> IntInterval, PF: Fn(u32) -> u32>(
    k_max: u32,
    interval_fn: &IF,
    parts_fn: &PF,
) -> Seq<Level> {
    Seq::new(
        k_max as nat,
        |k: int|
            Level {
                interval: value_at(interval_fn, (k + 1) as u32),
                parts: value_at(parts_fn, (k + 1) as u32),
            },
    )
}

/// Searches one level: the unit intervals of `interval` from left to
/// right, each in `parts` equal parts from left to right. Returns the
/// first part that brackets a root of `f`.
pub fn search_level<S: Numerical, F: Fn(S) -> S>(f: &F, interval: &IntInterval, parts: u32) -> (r:
    Option<IntervalType<S>>)
    requires
        is_function(f),
        i32::MIN <= interval.end - interval.start <= i32::MAX,
    ensures
        r == first_unit(f, interval.start, interval.diameter_spec() as u32, parts, 0),
{
    let units = interval.diameter();
    let start = interval.start;
    let mut i: u32 = 0;
    while i < units
        invariant
            i <= units,
            is_function(f),
            start == interval.start,
            units == interval.diameter_spec(),
            first_unit(f, start, units, parts, 0) == first_unit(f, start, units, parts, i as nat),
        decreases units - i,
    {
        let mut j: u32 = 0;
        while j < parts
            invariant
                j <= parts,
                i < units,
                is_function(f),
                start == interval.start,
                units == interval.diameter_spec(),
                first_unit(f, start, units, parts, 0) == first_unit(
                    f,
                    start,
                    units,
                    parts,
                    i as nat,
                ),
                first_part(f, start, i, parts, 0) == first_part(f, start, i, parts, j as nat),
            decreases parts - j,
        {
            let base = S::from_i32(start).add(S::from_index(i as Index));
            let count = S::from_index(parts as Index);
            let current_interval = IntervalType::new(
                base.add(S::from_index(j as Index).div(count)),
                base.add(S::from_index((j + 1) as Index).div(count)),
            );
            assert(current_interval == part_of::<S>(start, i, j, parts));
            if check_root(f, &current_interval) {
                return Some(current_interval);
            }
            j += 1;
        }
        i += 1;
    }
    None
}

/// Searches for a part that brackets a root of `f`, level after level from
/// `1` to `k_max`. Level `k` covers the interval `interval_fn(k)` with unit
/// intervals in `parts_fn(k)` parts. Returns the first part that brackets a
/// root.
pub fn general_localize_root<
    S: Numerical,
    F: Fn(S) -> S,
    IF: Fn(u32) -> IntInterval,
    PF: Fn(u32) -> u32,
>(f: &F, k_max: u32, interval_fn: &IF, parts_fn: &PF) -> (r: Option<IntervalType<S>>)
    requires
        is_function(f),
        k_max < u32::MAX,
        is_single_valued(interval_fn),
        is_single_valued(parts_fn),
        forall|k: u32|
            1 <= k <= k_max ==> call_requires(*interval_fn, (k,)) && call_requires(
                *parts_fn,
                (k,),
            ),
        forall|k: u32, interval: IntInterval|
            1 <= k <= k_max && call_ensures(*interval_fn, (k,), interval) ==> i32::MIN
                <= interval.end - interval.start <= i32::MAX,
    ensures
        r == first_level(f, levels_of(k_max, interval_fn, parts_fn), 0),
{
    let ghost levels = levels_of(k_max, interval_fn, parts_fn);
    let mut k: u32 = 1;
    while k <= k_max
        invariant
            1 <= k <= k_max + 1,
            k_max < u32::MAX,
            is_function(f),
            is_single_valued(interval_fn),
            is_single_valued(parts_fn),
            forall|k: u32|
                1 <= k <= k_max ==> call_requires(*interval_fn, (k,)) && call_requires(
                    *parts_fn,
                    (k,),
                ),
            forall|k: u32, interval: IntInterval|
                1 <= k <= k_max && call_ensures(*interval_fn, (k,), interval) ==> i32::MIN
                    <= interval.end - interval.start <= i32::MAX,
            levels == levels_of(k_max, interval_fn, parts_fn),
            first_level(f, levels, 0) == first_level(f, levels, (k - 1) as nat),
        decreases k_max + 1 - k,
    {
        let general_interval = evaluate(interval_fn, k);
        let interval_parts = evaluate(parts_fn, k);
        assert(levels[k - 1].interval == general_interval);
        assert(levels[k - 1].parts == interval_parts);
        match search_level(f, &general_interval, interval_parts) {
            Some(found) => {
                return Some(found);
            },
            None => {},
        }
        k += 1;
    }
    None
}

/// The power `10^exponent`.
pub open spec fn power_of_ten(exponent: nat) -> int
    decreases exponent,
{
    if exponent == 0 {
        1
    } else {
        10 * power_of_ten((exponent - 1) as nat)
    }
}

/// The power `2^exponent`.
pub open spec fn power_of_two(exponent: nat) -> int
    decreases exponent,
{
    if exponent == 0 {
        1
    } else {
        2 * power_of_two((exponent - 1) as nat)
    }
}

/// Level `k` of the default search: the interval from `−10^(k−1)` to
/// `10^(k−1)` with unit intervals in `2^(k+2)` parts.
pub open spec fn default_level(k: nat) -> Level {
    Level {
        interval: IntervalType {
            start: (-power_of_ten((k - 1) as nat)) as i32,
            end: power_of_ten((k - 1) as nat) as i32,
        },
        parts: power_of_two(k + 2) as u32,
    }
}

/// The three levels of the default search.
pub open spec fn default_levels() -> Seq<Level> {
    Seq::new(3, |k: int| default_level((k + 1) as nat))
}

/// Searches for a part that brackets a root of `f` in `[−1, 1]` with parts
/// of length `1/8`, then in `[−10, 10]` with parts of length `1/16`, then in
/// `[−100, 100]` with parts of length `1/32`.
pub fn localize_root<S: Numerical, F: Fn(S) -> S>(f: &F) -> (r: Option<IntervalType<S>>)
    requires
        is_function(f),
    ensures
        r == first_level(f, default_levels(), 0),
{
    proof {
        reveal_with_fuel(power_of_ten, 4);
        reveal_with_fuel(power_of_two, 8);
    }
    let mut radius: i32 = 1;
    let mut parts: u32 = 8;
    let mut k: u32 = 1;
    while k <= 3
        invariant
            1 <= k <= 4,
            is_function(f),
            radius == power_of_ten((k - 1) as nat),
            parts == power_of_two((k + 2) as nat),
            1 <= radius <= 1000,
            8 <= parts <= 64,
            first_level(f, default_levels(), 0) == first_level(
                f,
                default_levels(),
                (k - 1) as nat,
            ),
        decreases 4 - k,
    {
        let interval = IntInterval::new(-radius, radius);
        assert(default_levels()[k - 1] == default_level(k as nat));
        match search_level(f, &interval, parts) {
            Some(found) => {
                return Some(found);
            },
            None => {},
        }
        proof {
            reveal_with_fuel(power_of_ten, 5);
            reveal_with_fuel(power_of_two, 8);
        }
        radius = radius * 10;
        parts = parts * 2;
        k += 1;
    }
    None
}

/// Level `k` of the search in a given interval: that interval with unit
/// intervals in `100^k` parts.
pub open spec fn refined_level(interval: IntInterval, k: nat) -> Level {
    Level { interval, parts: power_of_ten(2 * k) as u32 }
}

/// The three levels of the search in a given interval.
pub open spec fn refined_levels(interval: IntInterval) -> Seq<Level> {
    Seq::new(3, |k: int| refined_level(interval, (k + 1) as nat))
}

/// Searches for a part that brackets a root of `f` in `interval`, with
/// parts of length `1/100`, then `1/10000`, then `1/1000000`.
pub fn localize_root_in_interval<S: Numerical, F: Fn(S) -> S>(f: &F, interval: IntInterval) -> (r:
    Option<IntervalType<S>>)
    requires
        is_function(f),
        i32::MIN <= interval.end - interval.start <= i32::MAX,
    ensures
        r == first_level(f, refined_levels(interval), 0),
{
    proof {
        reveal_with_fuel(power_of_ten, 8);
    }
    let mut parts: u32 = 100;
    let mut k: u32 = 1;
    while k <= 3
        invariant
            1 <= k <= 4,
            is_function(f),
            i32::MIN <= interval.end - interval.start <= i32::MAX,
            parts == power_of_ten((2 * k) as nat),
            100 <= parts <= 100_000_000,
            first_level(f, refined_levels(interval), 0) == first_level(
                f,
                refined_levels(interval),
                (k - 1) as nat,
            ),
        decreases 4 - k,
    {
        assert(refined_levels(interval)[k - 1] == refined_level(interval, k as nat));
        match search_level(f, &interval, parts) {
            Some(found) => {
                return Some(found);
            },
            None => {},
        }
        proof {
            reveal_with_fuel(power_of_ten, 9);
        }
        parts = parts * 100;
        k += 1;
    }
    None
}

} // verus!
