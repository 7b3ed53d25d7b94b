//! Points to interpolate at, and the error of an interpolation.

use vstd::prelude::*;
use crate::function::{evaluate, is_function, value_at};
use crate::scalar::{Index, Numerical, OtherNumericalOps};

verus! {

/// Point `k` of the `n + 1` equidistant points from `a` to `b`:
/// `a + (b − a)·k / n`.
pub open spec fn equidistant<S: Numerical>(a: S, b: S, n: Index, k: Index) -> S {
    a.add_spec(b.sub_spec(a).mul_spec(S::from_index_spec(k)).div_spec(S::from_index_spec(n)))
}

/// The `n + 1` equidistant points from `a` to `b`.
pub fn points_eq<S: Numerical>(a: S, b: S, n: Index) -> (r: Vec<S>)
    requires
        n < usize::MAX,
    ensures
        r@ == Seq::new((n + 1) as nat, |k: int| equidistant(a, b, n, k as Index)),
{
    let mut c: Vec<S> = Vec::new();
    let mut k: Index = 0;
    while k < n + 1
        invariant
            k <= n + 1,
            n < usize::MAX,
            c@ == Seq::new(k as nat, |i: int| equidistant(a, b, n, i as Index)),
        decreases n + 1 - k,
    {
        c.push(a.add(b.sub(a).mul(S::from_index(k)).div(S::from_index(n))));
        assert(c@ =~= Seq::new((k + 1) as nat, |i: int| equidistant(a, b, n, i as Index)));
        k += 1;
    }
    c
}

/// The largest distance `|f(x) − g(x)|` over the first `count` of the
/// `m + 1` equidistant points from `a` to `b`, found from zero in the order
/// of the points.
pub open spec fn largest_error<S: Numerical, F: Fn(S) -> S, G: Fn(S) -> S>(
    f: &F,
    g: &G,
    a: S,
    b: S,
    m: Index,
    count: nat,
) -> S
    decreases count,
{
    if count == 0 {
        S::zero_spec()
    } else {
        let before = largest_error(f, g, a, b, m, (count - 1) as nat);
        let x = equidistant(a, b, m, (count - 1) as Index);
        let d = value_at(f, x).sub_spec(value_at(g, x)).abs_spec();
        if before.lt_spec(d) {
            d
        } else {
            before
        }
    }
}

/// The largest distance between `f` and `g` over the `m + 1` equidistant
/// points from `a` to `b`.
pub fn calc_error<S: Numerical, F: Fn(S) -> S, G: Fn(S) -> S>(f: &F, g: &G, a: S, b: S, m: Index) -> (r:
    S)
    requires
        is_function(f),
        is_function(g),
    ensures
        r == largest_error(f, g, a, b, m, (m + 1) as nat),
{
    let mut r = S::zero();
    let mut k: Index = 0;
    let mut done = false;
    while !done
        invariant
            k <= m,
            is_function(f),
            is_function(g),
            !done ==> r == largest_error(f, g, a, b, m, k as nat),
            done ==> r == largest_error(f, g, a, b, m, (m + 1) as nat),
        decreases
                (if done {
                    0
                } else {
                    m - k + 1
                }),
    {
        let x = a.add(b.sub(a).mul(S::from_index(k)).div(S::from_index(m)));
        let d = evaluate(f, x).sub(evaluate(g, x)).abs_trait();
        if r.lt(d) {
            r = d;
        }
        if k == m {
            done = true;
        } else {
            k += 1;
        }
    }
    r
}

} // verus!
