//! The power method on a diagonal matrix: where the arithmetic treats zero,
//! one and the diagonal entries as exact arithmetic does, the iteration
//! returns the diagonal entry of largest magnitude.

use vstd::prelude::*;
use crate::layout::{cell, lemma_cell_bounds, row_of};
use crate::lu::dot_prefix;
use crate::power_method::{change_sum, counted_abs_sum, estimate_of, is_power_result};
use crate::power_method::{largest_diagonal, lemma_largest_diagonal_bounds};
use crate::power_method::{lemma_mean_of_one_estimate, power_run, power_start, power_step};
use crate::power_method::{settled, starts_at_an_eigenvector, Estimate, PowerMethod, PowerState};
use crate::scalar::{one_spec, pm_convergence_spec, pm_min_coord_spec, Numerical};
use crate::scalar::OtherNumericalOps;
use crate::vector::{abs_sum_prefix, apply_spec, norm_one_spec, normalized};

verus! {

/// Whether the matrix is zero off its diagonal.
pub open spec fn is_diagonal<S: Numerical>(matrix: Seq<S>, n: nat) -> bool {
    forall|i: int, k: int|
        0 <= i < n && 0 <= k < n && i != k ==> matrix[#[trigger] cell(n, i, k)] == S::zero_spec()
}

/// The vector with `c` in coordinate `j` and zero elsewhere.
pub open spec fn spike<S: Numerical>(n: nat, j: int, c: S) -> Seq<S> {
    Seq::new(
        n,
        |k: int|
            if k == j {
                c
            } else {
                S::zero_spec()
            },
    )
}

/// Whether zero and `x` combine as in exact arithmetic: `x + 0` and `0 + x`
/// are `x`, and `x · 0` and `0 · x` are zero.
pub open spec fn plain_beside_zero<S: Numerical>(x: S) -> bool {
    &&& S::zero_spec().add_spec(x) == x
    &&& x.add_spec(S::zero_spec()) == x
    &&& S::zero_spec().mul_spec(x) == S::zero_spec()
    &&& x.mul_spec(S::zero_spec()) == S::zero_spec()
}

/// The magnitudes of a spike add up to zero before its coordinate and to
/// the magnitude of its entry from there on.
proof fn lemma_spike_abs_sum<S: Numerical>(n: nat, j: int, c: S, count: nat)
    requires
        0 <= j < n,
        count <= n,
        S::zero_spec().abs_spec() == S::zero_spec(),
        plain_beside_zero(S::zero_spec()),
        plain_beside_zero(c.abs_spec()),
    ensures
        abs_sum_prefix(spike(n, j, c), count) == if count <= j {
            S::zero_spec()
        } else {
            c.abs_spec()
        },
    decreases count,
{
    if count > 0 {
        lemma_spike_abs_sum(n, j, c, (count - 1) as nat);
    }
}

/// A spike divided by its one-norm is the spike of its entry divided by the
/// magnitude of the entry.
pub proof fn lemma_spike_normalized<S: Numerical>(n: nat, j: int, c: S)
    requires
        0 <= j < n,
        S::zero_spec().abs_spec() == S::zero_spec(),
        plain_beside_zero(S::zero_spec()),
        plain_beside_zero(c.abs_spec()),
        S::zero_spec().div_spec(c.abs_spec()) == S::zero_spec(),
    ensures
        norm_one_spec(spike(n, j, c)) == c.abs_spec(),
        normalized(spike(n, j, c)) == spike(n, j, c.div_spec(c.abs_spec())),
{
    lemma_spike_abs_sum(n, j, c, n);
    assert(normalized(spike(n, j, c)) =~= spike(n, j, c.div_spec(c.abs_spec())));
}

/// Row `i` of a diagonal matrix times a spike: zero, but for the row of the
/// spike's coordinate from that coordinate on, where it is the product of
/// the diagonal entry and the spike's entry.
proof fn lemma_diagonal_row_dot<S: Numerical>(
    matrix: Seq<S>,
    n: nat,
    i: int,
    j: int,
    c: S,
    count: nat,
)
    requires
        matrix.len() == n * n,
        is_diagonal(matrix, n),
        0 <= i < n,
        0 <= j < n,
        count <= n,
        plain_beside_zero(S::zero_spec()),
        plain_beside_zero(c),
        plain_beside_zero(matrix[cell(n, i, i)]),
        plain_beside_zero(matrix[cell(n, j, j)].mul_spec(c)),
    ensures
        dot_prefix(row_of(matrix, n, i), spike(n, j, c), count) == if i == j && count > j {
            matrix[cell(n, j, j)].mul_spec(c)
        } else {
            S::zero_spec()
        },
    decreases count,
{
    if count > 0 {
        lemma_diagonal_row_dot(matrix, n, i, j, c, (count - 1) as nat);
        let k = count - 1;
        lemma_cell_bounds(n, i, k);
        lemma_cell_bounds(n, i, 0);
        assert(row_of(matrix, n, i)[k] == matrix[cell(n, i, k)]);
        if k != i {
            assert(matrix[cell(n, i, k)] == S::zero_spec());
        }
    }
}

/// A diagonal matrix times a spike is the spike of the product of the
/// diagonal entry and the spike's entry.
pub proof fn lemma_diagonal_times_spike<S: Numerical>(matrix: Seq<S>, n: nat, j: int, c: S)
    requires
        matrix.len() == n * n,
        is_diagonal(matrix, n),
        0 <= j < n,
        plain_beside_zero(S::zero_spec()),
        plain_beside_zero(c),
        forall|i: int| 0 <= i < n ==> plain_beside_zero(#[trigger] matrix[cell(n, i, i)]),
        plain_beside_zero(matrix[cell(n, j, j)].mul_spec(c)),
    ensures
        apply_spec(matrix, n, spike(n, j, c)) == spike(n, j, matrix[cell(n, j, j)].mul_spec(c)),
{
    assert forall|i: int| 0 <= i < n implies #[trigger] apply_spec(matrix, n, spike(n, j, c))[i]
        == spike(n, j, matrix[cell(n, j, j)].mul_spec(c))[i] by {
        lemma_cell_bounds(n, i, 0);
        assert(row_of(matrix, n, i).len() == n);
        assert(plain_beside_zero(matrix[cell(n, i, i)]));
        lemma_diagonal_row_dot(matrix, n, i, j, c, n);
    }
    assert(apply_spec(matrix, n, spike(n, j, c)) =~= spike(
        n,
        j,
        matrix[cell(n, j, j)].mul_spec(c),
    ));
}

/// The estimates with the value `l` in coordinate `j`, the only one that
/// counts.
pub open spec fn single_estimate<S: Numerical>(n: nat, j: int, l: S) -> Estimate<S> {
    Estimate { lambda: spike(n, j, l), valid: Seq::new(n, |k: int| k == j) }
}

/// The estimates that a spike gives after a spike: one estimate, in their
/// coordinate, if zero is below the floor of a well-conditioned coordinate
/// and the entry of the second spike is not.
pub proof fn lemma_spike_estimate<S: Numerical>(n: nat, j: int, y: S, z: S)
    requires
        0 <= j < n,
        S::zero_spec().abs_spec().lt_spec(pm_min_coord_spec::<S>()),
        !z.abs_spec().lt_spec(pm_min_coord_spec::<S>()),
    ensures
        estimate_of(spike(n, j, y), spike(n, j, z)) == single_estimate(n, j, y.div_spec(z)),
{
    let e = estimate_of(spike(n, j, y), spike(n, j, z));
    let s = single_estimate(n, j, y.div_spec(z));
    assert(e.lambda =~= s.lambda);
    assert(e.valid =~= s.valid);
}

/// Between two sets of estimates of which none counts outside coordinate
/// `j`, the change is zero before that coordinate and, from there on,
/// `0 + |difference|` if one of the two counts there.
proof fn lemma_change_at_one_coordinate<S: Numerical>(
    previous: Estimate<S>,
    current: Estimate<S>,
    j: int,
    count: nat,
)
    requires
        0 <= j < current.lambda.len(),
        count <= current.lambda.len(),
        previous.lambda.len() == current.lambda.len(),
        previous.valid.len() == current.lambda.len(),
        current.valid.len() == current.lambda.len(),
        forall|k: int|
            0 <= k < current.lambda.len() && k != j ==> !(#[trigger] previous.valid[k])
                && !current.valid[k],
    ensures
        change_sum(previous, current, count) == if count > j && (previous.valid[j]
            || current.valid[j]) {
            S::zero_spec().add_spec(previous.lambda[j].sub_spec(current.lambda[j]).abs_spec())
        } else {
            S::zero_spec()
        },
    decreases count,
{
    if count > 0 {
        lemma_change_at_one_coordinate(previous, current, j, (count - 1) as nat);
        if count - 1 != j {
            assert(!previous.valid[count - 1]);
        }
    }
}

/// Of estimates of which none counts outside coordinate `j`, the magnitudes
/// add up to zero before that coordinate and, from there on, to
/// `0 + |estimate|` if it counts.
proof fn lemma_magnitude_at_one_coordinate<S: Numerical>(e: Estimate<S>, j: int, count: nat)
    requires
        0 <= j < e.lambda.len(),
        count <= e.lambda.len(),
        e.valid.len() == e.lambda.len(),
        forall|k: int| 0 <= k < e.lambda.len() && k != j ==> !(#[trigger] e.valid[k]),
    ensures
        counted_abs_sum(e, count) == if count > j && e.valid[j] {
            S::zero_spec().add_spec(e.lambda[j].abs_spec())
        } else {
            S::zero_spec()
        },
    decreases count,
{
    if count > 0 {
        lemma_magnitude_at_one_coordinate(e, j, (count - 1) as nat);
        if count - 1 != j {
            assert(!e.valid[count - 1]);
        }
    }
}

/// The diagonal entry of largest magnitude, the first of several.
pub open spec fn dominant_entry<S: Numerical>(matrix: Seq<S>, n: nat) -> S {
    matrix[cell(n, largest_diagonal(matrix, n, n), largest_diagonal(matrix, n, n))]
}

/// The sign of the dominant entry: the entry divided by its magnitude.
pub open spec fn dominant_sign<S: Numerical>(matrix: Seq<S>, n: nat) -> S {
    dominant_entry(matrix, n).div_spec(dominant_entry(matrix, n).abs_spec())
}

/// The dominant entry times its sign: the entry of the second iterate.
pub open spec fn dominant_product<S: Numerical>(matrix: Seq<S>, n: nat) -> S {
    dominant_entry(matrix, n).mul_spec(dominant_sign(matrix, n))
}

/// What the arithmetic has to know for the power method to be followed
/// through a diagonal matrix, with `d` for the dominant entry, `s` for its
/// sign and `t` for `d·s`. All of it holds in exact arithmetic for every
/// diagonal matrix but the zero matrix.
///
/// - Of zero: `|0| = 0`, zero is plain beside zero and lies below the
///   floor of a well-conditioned coordinate.
/// - Of one: `|1| = 1`, `1 / 1 = 1`, `0 / 1 = 0`, one is plain beside zero
///   and does not lie below the floor.
/// - Of the diagonal: every entry is plain beside zero.
/// - Of `d`: `d · 1 = d`, `d / 1 = d` for both ways of writing one, `|d|`
///   is plain beside zero and `0 / |d| = 0`.
/// - Of `s`: it is plain beside zero and does not lie below the floor.
/// - Of `t`: it is plain beside zero, as is `|t|`, `t / s = d` and
///   `0 / |t| = 0`.
/// - Of the test of convergence: `|d − d|` and `|0 − d|` are plain beside
///   zero, `|d − d|` is less than the tolerance times `|d|`, and `|0 − d|`
///   is not.
pub open spec fn diagonal_is_plain<S: Numerical>(matrix: Seq<S>, n: nat) -> bool {
    let zero = S::zero_spec();
    let one = one_spec::<S>();
    let floor = pm_min_coord_spec::<S>();
    let d = dominant_entry(matrix, n);
    let s = dominant_sign(matrix, n);
    let t = dominant_product(matrix, n);
    &&& zero.abs_spec() == zero
    &&& plain_beside_zero(zero)
    &&& zero.lt_spec(floor)
    &&& one.abs_spec() == one
    &&& one.div_spec(one) == one
    &&& zero.div_spec(one) == zero
    &&& plain_beside_zero(one)
    &&& !one.lt_spec(floor)
    &&& forall|i: int| 0 <= i < n ==> plain_beside_zero(#[trigger] matrix[cell(n, i, i)])
    &&& d.mul_spec(one) == d
    &&& d.div_spec(one) == d
    &&& d.div_spec(S::from_index_spec(1)) == d
    &&& plain_beside_zero(d.abs_spec())
    &&& zero.div_spec(d.abs_spec()) == zero
    &&& plain_beside_zero(s)
    &&& !s.abs_spec().lt_spec(floor)
    &&& plain_beside_zero(t)
    &&& plain_beside_zero(t.abs_spec())
    &&& t.div_spec(s) == d
    &&& zero.div_spec(t.abs_spec()) == zero
    &&& plain_beside_zero(d.sub_spec(d).abs_spec())
    &&& plain_beside_zero(zero.sub_spec(d).abs_spec())
    &&& d.sub_spec(d).abs_spec().lt_spec(
        pm_convergence_spec::<S>().mul_spec(d.abs_spec().max_spec(d.abs_spec())),
    )
    &&& !zero.sub_spec(d).abs_spec().lt_spec(
        pm_convergence_spec::<S>().mul_spec(zero.max_spec(d.abs_spec())),
    )
}

/// The power method on a diagonal matrix ends with its second round: the
/// estimate is the diagonal entry of largest magnitude, in the coordinate
/// of that entry alone, and the iterate is zero in every other coordinate.
pub proof fn lemma_power_run_on_a_diagonal_matrix<S: Numerical>(
    matrix: Seq<S>,
    n: nat,
    rounds: nat,
)
    requires
        n >= 1,
        rounds >= 2,
        matrix.len() == n * n,
        is_diagonal(matrix, n),
        diagonal_is_plain(matrix, n),
    ensures
        starts_at_an_eigenvector(matrix, n),
        power_run(matrix, n, power_start(matrix, n), rounds) == Some(
            PowerState {
                y: spike(n, largest_diagonal(matrix, n, n), dominant_product(matrix, n)),
                estimate: single_estimate(
                    n,
                    largest_diagonal(matrix, n, n),
                    dominant_entry(matrix, n),
                ),
            },
        ),
        power_run(matrix, n, power_start(matrix, n), 1) is None,
{
    let zero = S::zero_spec();
    let one = one_spec::<S>();
    let j = largest_diagonal(matrix, n, n);
    let d = dominant_entry(matrix, n);
    let s = dominant_sign(matrix, n);
    let t = dominant_product(matrix, n);
    lemma_largest_diagonal_bounds(matrix, n, n);
    lemma_cell_bounds(n, j, j);
    assert(plain_beside_zero(matrix[cell(n, j, j)]));

    let start = power_start(matrix, n);
    assert(start.y =~= spike(n, j, one));
    lemma_spike_normalized(n, j, one);
    lemma_diagonal_times_spike(matrix, n, j, one);
    lemma_spike_estimate(n, j, d, one);
    let first = power_step(matrix, n, start);
    assert(first.y == spike(n, j, d));
    assert(first.estimate == single_estimate(n, j, d));

    lemma_spike_normalized(n, j, d);
    lemma_diagonal_times_spike(matrix, n, j, s);
    lemma_spike_estimate(n, j, t, s);
    let second = power_step(matrix, n, first);
    assert(second.y == spike(n, j, t));
    assert(second.estimate == first.estimate);

    lemma_change_at_one_coordinate(first.estimate, first.estimate, j, n);
    lemma_magnitude_at_one_coordinate(first.estimate, j, n);
    assert(settled(first.estimate, first.estimate));

    lemma_change_at_one_coordinate(start.estimate, first.estimate, j, n);
    lemma_magnitude_at_one_coordinate(start.estimate, j, n);
    assert(!settled(start.estimate, first.estimate));

    assert(power_run(matrix, n, first, (rounds - 1) as nat) == Some(second));
    assert(power_run(matrix, n, first, 0) is None);
}

/// What the power method returns for a diagonal matrix: the diagonal entry
/// of largest magnitude, the first of several, with the vector that has
/// the sign of `d·s` in the coordinate of that entry and zero elsewhere.
pub proof fn lemma_power_method_on_a_diagonal_matrix<S: Numerical>(
    matrix: Seq<S>,
    n: nat,
    rounds: nat,
    result: Option<PowerMethod<S>>,
)
    requires
        n >= 1,
        rounds >= 2,
        matrix.len() == n * n,
        is_diagonal(matrix, n),
        diagonal_is_plain(matrix, n),
        is_power_result(matrix, n, rounds, result),
    ensures
        result matches Some(found) && found.value == dominant_entry(matrix, n) && found.vector@
            == spike(
            n,
            largest_diagonal(matrix, n, n),
            dominant_product(matrix, n).div_spec(dominant_product(matrix, n).abs_spec()),
        ),
{
    let j = largest_diagonal(matrix, n, n);
    lemma_largest_diagonal_bounds(matrix, n, n);
    lemma_power_run_on_a_diagonal_matrix(matrix, n, rounds);
    lemma_mean_of_one_estimate(single_estimate(n, j, dominant_entry(matrix, n)), j);
    lemma_spike_normalized(n, j, dominant_product(matrix, n));
}

} // verus!
