//! The shifted inverse power method: an iteration from an estimate of an
//! eigenvalue towards the eigenvalue nearest to it.

use vstd::prelude::*;
use vstd::slice::slice_to_vec;
use crate::layout::{cell, cell_index, filled};
use crate::lu::{factorize, solve_spec, LUDecomposition, LuFactors};
use crate::power_method::PowerMethod;
use crate::scalar::{one, one_spec, pm_convergence, pm_convergence_spec, pm_min_coord};
use crate::scalar::{pm_min_coord_spec, Index, Numerical, OtherNumericalOps, MAX_ITERATIONS};
use crate::vector::{lower_diagonal, lowered_diagonal, norm_one, norm_one_spec, normalize};
use crate::vector::normalized;

verus! {

/// What one round of the inverse power method hands to the next.
pub struct InverseState<S> {
    /// The iterate, of one-norm one after the first round.
    pub y: Seq<S>,
    /// The current estimate of the eigenvalue.
    pub shift: S,
    /// Whether the shift has stopped moving because a shifted matrix was
    /// singular to working precision.
    pub frozen: bool,
    /// The factors of the last shifted matrix that could be factored.
    pub factors: Option<LuFactors<S>>,
}

/// The ratios `z[k] / y[k]` over the coordinates among the first `count`
/// whose `y[k]` has a magnitude of `1e-8` or more, added up from zero.
pub open spec fn ratio_sum<S: Numerical>(z: Seq<S>, y: Seq<S>, count: nat) -> S
    decreases count,
{
    if count == 0 {
        S::zero_spec()
    } else {
        let before = ratio_sum(z, y, (count - 1) as nat);
        if pm_min_coord_spec::<S>().le_spec(y[count - 1].abs_spec()) {
            before.add_spec(z[count - 1].div_spec(y[count - 1]))
        } else {
            before
        }
    }
}

/// How many of the first `count` coordinates of `y` have a magnitude of
/// `1e-8` or more.
pub open spec fn ratio_count<S: Numerical>(y: Seq<S>, count: nat) -> nat
    decreases count,
{
    if count == 0 {
        0
    } else {
        ratio_count(y, (count - 1) as nat) + if pm_min_coord_spec::<S>().le_spec(
            y[count - 1].abs_spec(),
        ) {
            1nat
        } else {
            0nat
        }
    }
}

/// The correction of the shift: the mean of `z[k] / y[k]` over the
/// well-conditioned coordinates, where `y` solves `(A − s·I)·y = z`.
pub open spec fn shift_update<S: Numerical>(z: Seq<S>, y: Seq<S>) -> S {
    ratio_sum(z, y, y.len()).div_spec(S::from_index_spec(ratio_count(y, y.len()) as Index))
}

/// Where coordinate `j` of `y` is the only well-conditioned one, the sum
/// of the ratios is zero before it and `0 + z[j] / y[j]` from it on, and
/// one ratio is counted from it on.
proof fn lemma_ratios_of_one_coordinate<S: Numerical>(z: Seq<S>, y: Seq<S>, j: int, count: nat)
    requires
        0 <= j < y.len(),
        count <= y.len(),
        forall|k: int|
            0 <= k < y.len() ==> (pm_min_coord_spec::<S>().le_spec(#[trigger] y[k].abs_spec()) <==> k
                == j),
    ensures
        ratio_sum(z, y, count) == if count <= j {
            S::zero_spec()
        } else {
            S::zero_spec().add_spec(z[j].div_spec(y[j]))
        },
        ratio_count(y, count) == if count <= j {
            0nat
        } else {
            1nat
        },
    decreases count,
{
    if count > 0 {
        lemma_ratios_of_one_coordinate(z, y, j, (count - 1) as nat);
        assert(pm_min_coord_spec::<S>().le_spec(y[count - 1].abs_spec()) <==> count - 1 == j);
    }
}

/// Where coordinate `j` of `y` is the only well-conditioned one, the
/// correction of the shift is the ratio `z[j] / y[j]`, if adding the ratio
/// to zero and dividing it by one leave it as it is.
pub proof fn lemma_shift_update_of_one_coordinate<S: Numerical>(z: Seq<S>, y: Seq<S>, j: int)
    requires
        0 <= j < y.len(),
        forall|k: int|
            0 <= k < y.len() ==> (pm_min_coord_spec::<S>().le_spec(#[trigger] y[k].abs_spec()) <==> k
                == j),
        S::zero_spec().add_spec(z[j].div_spec(y[j])) == z[j].div_spec(y[j]),
        z[j].div_spec(y[j]).div_spec(S::from_index_spec(1)) == z[j].div_spec(y[j]),
    ensures
        shift_update(z, y) == z[j].div_spec(y[j]),
{
    lemma_ratios_of_one_coordinate(z, y, j, y.len());
}

/// The sign that relates `y` to `z`, taken from the first coordinates from
/// `from` on whose product has a sign: one if it is positive, minus one if
/// it is negative. Minus one, too, if no product has a sign.
pub open spec fn relative_sign_from<S: Numerical>(y: Seq<S>, z: Seq<S>, from: nat) -> S
    decreases y.len() - from,
{
    if from >= y.len() {
        one_spec::<S>().neg_spec()
    } else if S::zero_spec().lt_spec(y[from as int].mul_spec(z[from as int])) {
        one_spec::<S>()
    } else if y[from as int].mul_spec(z[from as int]).lt_spec(S::zero_spec()) {
        one_spec::<S>().neg_spec()
    } else {
        relative_sign_from(y, z, from + 1)
    }
}

/// The sign that relates `y` to `z`: that of the product of their first
/// coordinates, or of the first coordinates after them whose product has a
/// sign where theirs has none.
pub open spec fn relative_sign<S: Numerical>(y: Seq<S>, z: Seq<S>) -> S {
    relative_sign_from(y, z, 0)
}

/// The magnitudes of `sign·y[k] − z[k]` over the first `count` coordinates,
/// added up from zero.
pub open spec fn signed_change<S: Numerical>(sign: S, y: Seq<S>, z: Seq<S>, count: nat) -> S
    decreases count,
{
    if count == 0 {
        S::zero_spec()
    } else {
        signed_change(sign, y, z, (count - 1) as nat).add_spec(
            sign.mul_spec(y[count - 1]).sub_spec(z[count - 1]).abs_spec(),
        )
    }
}

/// Whether the iterate has settled: `y` differs from `z`, up to sign, by
/// less than `1e-6` times the larger of their one-norms.
pub open spec fn direction_settled<S: Numerical>(y: Seq<S>, z: Seq<S>) -> bool {
    signed_change(relative_sign(y, z), y, z, y.len()).lt_spec(
        pm_convergence_spec::<S>().mul_spec(norm_one_spec(z).max_spec(norm_one_spec(y))),
    )
}

/// Whether the shift has settled: the magnitude of its correction is
/// smaller than `1e-6` times the larger magnitude of the shift before and
/// after it.
pub open spec fn shift_settled<S: Numerical>(shift: S, mu: S) -> bool {
    mu.abs_spec().lt_spec(
        pm_convergence_spec::<S>().mul_spec(
            shift.abs_spec().max_spec(shift.add_spec(mu).abs_spec()),
        ),
    )
}

/// The factors to solve with in this round, and whether the shift is
/// frozen from now on. While the shift moves, the shifted matrix is
/// factored anew; if that fails, the shift freezes and the factors of the
/// last success stay.
pub open spec fn refactored<S: Numerical>(matrix: Seq<S>, n: nat, state: InverseState<S>) -> (
    Option<LuFactors<S>>,
    bool,
) {
    if state.frozen {
        (state.factors, true)
    } else {
        match factorize(lowered_diagonal(matrix, n, state.shift), n) {
            Some(factors) => (Some(factors), false),
            None => (state.factors, true),
        }
    }
}

/// One round: the next state, and whether the iteration has converged with
/// it. `None` when there are no factors to solve with, which is the case
/// only if the matrix shifted by the initial estimate cannot be factored.
pub open spec fn inverse_step<S: Numerical>(matrix: Seq<S>, n: nat, state: InverseState<S>) -> Option<
    (InverseState<S>, bool),
> {
    let (factors, frozen) = refactored(matrix, n, state);
    match factors {
        None => None,
        Some(f) => {
            let solved = solve_spec(f, state.y);
            let mu = if frozen {
                S::zero_spec()
            } else {
                shift_update(state.y, solved)
            };
            let y = normalized(solved);
            let converged = direction_settled(y, state.y) && (shift_settled(state.shift, mu)
                || frozen);
            let shift = if converged {
                state.shift
            } else {
                state.shift.add_spec(mu)
            };
            Some((InverseState { y, shift, frozen, factors: Some(f) }, converged))
        },
    }
}

/// The state of the first round among the next `rounds` with which the
/// iteration has converged, or `None` if there is no such round.
pub open spec fn inverse_run<S: Numerical>(
    matrix: Seq<S>,
    n: nat,
    state: InverseState<S>,
    rounds: nat,
) -> Option<InverseState<S>>
    decreases rounds,
{
    if rounds == 0 {
        None
    } else {
        match inverse_step(matrix, n, state) {
            None => None,
            Some((next, converged)) => if converged {
                Some(next)
            } else {
                inverse_run(matrix, n, next, (rounds - 1) as nat)
            },
        }
    }
}

/// A state in which the inverse power method stops within some number of
/// rounds is the state in which it stops within any larger number of rounds.
pub proof fn lemma_inverse_run_extends<S: Numerical>(
    matrix: Seq<S>,
    n: nat,
    state: InverseState<S>,
    rounds: nat,
    more: nat,
)
    requires
        inverse_run(matrix, n, state, rounds) is Some,
        rounds <= more,
    ensures
        inverse_run(matrix, n, state, more) == inverse_run(matrix, n, state, rounds),
    decreases rounds,
{
    match inverse_step(matrix, n, state) {
        None => {},
        Some((next, converged)) => {
            if !converged {
                lemma_inverse_run_extends(matrix, n, next, (rounds - 1) as nat, (more - 1) as nat);
            }
        },
    }
}

/// The state that the last of the next `rounds` rounds starts from: the
/// round that converges, if one does.
pub open spec fn last_round_start<S: Numerical>(
    matrix: Seq<S>,
    n: nat,
    state: InverseState<S>,
    rounds: nat,
) -> InverseState<S>
    decreases rounds,
{
    if rounds == 0 {
        state
    } else {
        match inverse_step(matrix, n, state) {
            None => state,
            Some((next, converged)) => if converged {
                state
            } else {
                last_round_start(matrix, n, next, (rounds - 1) as nat)
            },
        }
    }
}

/// The state in which the inverse power method stops is what one round
/// makes of the state before it, and that round has passed the test of
/// convergence: the iterate has settled against the one before it, the
/// shift has not been corrected, and the shift had settled unless it is
/// frozen.
pub proof fn lemma_inverse_run_has_converged<S: Numerical>(
    matrix: Seq<S>,
    n: nat,
    state: InverseState<S>,
    rounds: nat,
)
    requires
        inverse_run(matrix, n, state, rounds) is Some,
    ensures
        ({
            let before = last_round_start(matrix, n, state, rounds);
            let after = inverse_run(matrix, n, state, rounds)->0;
            &&& inverse_step(matrix, n, before) == Some((after, true))
            &&& direction_settled(after.y, before.y)
            &&& after.shift == before.shift
            &&& after.frozen || shift_settled(
                before.shift,
                shift_update(before.y, solve_spec(after.factors->0, before.y)),
            )
        }),
    decreases rounds,
{
    match inverse_step(matrix, n, state) {
        None => {},
        Some((next, converged)) => {
            if !converged {
                lemma_inverse_run_has_converged(matrix, n, next, (rounds - 1) as nat);
            }
        },
    }
}

/// The distance of diagonal entry `i` from the estimate.
pub open spec fn diagonal_distance<S: Numerical>(matrix: Seq<S>, n: nat, initial: S, i: int) -> S {
    matrix[cell(n, i, i)].sub_spec(initial).abs_spec()
}

/// Among the first `count` diagonal entries, the number of the one that is
/// nearest to the estimate; of several at the least distance, the first.
pub open spec fn nearest_diagonal<S: Numerical>(
    matrix: Seq<S>,
    n: nat,
    initial: S,
    count: nat,
) -> int
    decreases count,
{
    if count <= 1 {
        0
    } else {
        let best = nearest_diagonal(matrix, n, initial, (count - 1) as nat);
        if diagonal_distance(matrix, n, initial, count - 1).lt_spec(
            diagonal_distance(matrix, n, initial, best),
        ) {
            count - 1
        } else {
            best
        }
    }
}

/// The nearest diagonal entry is one of the entries seen.
pub proof fn lemma_nearest_diagonal_bounds<S: Numerical>(
    matrix: Seq<S>,
    n: nat,
    initial: S,
    count: nat,
)
    ensures
        0 <= nearest_diagonal(matrix, n, initial, count),
        count >= 1 ==> nearest_diagonal(matrix, n, initial, count) < count,
    decreases count,
{
    if count > 1 {
        lemma_nearest_diagonal_bounds(matrix, n, initial, (count - 1) as nat);
    }
}

/// Whether `<` orders the distances of the first `count` diagonal entries
/// from the estimate: no distance is less than itself, and a distance less
/// than one that is less than a third is less than the third.
pub open spec fn distances_are_ordered<S: Numerical>(
    matrix: Seq<S>,
    n: nat,
    initial: S,
    count: nat,
) -> bool {
    &&& forall|i: int|
        0 <= i < count ==> !(#[trigger] diagonal_distance(matrix, n, initial, i)).lt_spec(
            diagonal_distance(matrix, n, initial, i),
        )
    &&& forall|i: int, j: int, k: int|
        0 <= i < count && 0 <= j < count && 0 <= k < count && (#[trigger] diagonal_distance(
            matrix,
            n,
            initial,
            i,
        )).lt_spec(#[trigger] diagonal_distance(matrix, n, initial, j)) && diagonal_distance(
            matrix,
            n,
            initial,
            j,
        ).lt_spec(#[trigger] diagonal_distance(matrix, n, initial, k)) ==> diagonal_distance(
            matrix,
            n,
            initial,
            i,
        ).lt_spec(diagonal_distance(matrix, n, initial, k))
}

/// No diagonal entry is nearer to the estimate than the one chosen, if `<`
/// orders the distances.
pub proof fn lemma_nearest_diagonal_is_nearest<S: Numerical>(
    matrix: Seq<S>,
    n: nat,
    initial: S,
    count: nat,
    i: int,
)
    requires
        0 <= i < count,
        distances_are_ordered(matrix, n, initial, count),
    ensures
        !diagonal_distance(matrix, n, initial, i).lt_spec(
            diagonal_distance(matrix, n, initial, nearest_diagonal(matrix, n, initial, count)),
        ),
    decreases count,
{
    if count > 1 {
        let before = nearest_diagonal(matrix, n, initial, (count - 1) as nat);
        let chosen = nearest_diagonal(matrix, n, initial, count);
        lemma_nearest_diagonal_bounds(matrix, n, initial, (count - 1) as nat);
        let d_i = diagonal_distance(matrix, n, initial, i);
        let d_before = diagonal_distance(matrix, n, initial, before);
        let d_chosen = diagonal_distance(matrix, n, initial, chosen);
        if i < count - 1 {
            lemma_nearest_diagonal_is_nearest(matrix, n, initial, (count - 1) as nat, i);
            if chosen != before && d_i.lt_spec(d_chosen) {
                assert(d_chosen.lt_spec(d_before));
                assert(d_i.lt_spec(d_before));
            }
        }
    }
}

/// The state before the first round: the unit vector of the diagonal entry
/// nearest to the estimate, the estimate as the shift, and no factors yet.
/// For a diagonal matrix that vector belongs to the eigenvalue nearest to
/// the estimate.
pub open spec fn inverse_start<S: Numerical>(matrix: Seq<S>, n: nat, initial: S) -> InverseState<S> {
    InverseState {
        y: Seq::new(
            n,
            |i: int|
                if i == nearest_diagonal(matrix, n, initial, n) {
                    one_spec::<S>()
                } else {
                    S::zero_spec()
                },
        ),
        shift: initial,
        frozen: false,
        factors: None,
    }
}

/// The first round, where the solution for the start vector is
/// well-conditioned in the coordinate of the start vector alone: unless
/// the round has converged, it corrects the estimate by one over that
/// coordinate of the solution, if adding the correction to zero and
/// dividing it by one leave it as it is. In exact arithmetic, for a
/// diagonal matrix with the entry `d` nearest to the estimate `s`, that
/// coordinate is `1 / (d − s)`.
pub proof fn lemma_first_round_from_unit_vector<S: Numerical>(matrix: Seq<S>, n: nat, initial: S)
    requires
        n >= 1,
        factorize(lowered_diagonal(matrix, n, initial), n) is Some,
        ({
            let j = nearest_diagonal(matrix, n, initial, n);
            let start = inverse_start(matrix, n, initial);
            let solved = solve_spec(
                factorize(lowered_diagonal(matrix, n, initial), n)->0,
                start.y,
            );
            let correction = one_spec::<S>().div_spec(solved[j]);
            &&& solved.len() == n
            &&& forall|k: int|
                0 <= k < n ==> (pm_min_coord_spec::<S>().le_spec(#[trigger] solved[k].abs_spec())
                    <==> k == j)
            &&& S::zero_spec().add_spec(correction) == correction
            &&& correction.div_spec(S::from_index_spec(1)) == correction
        }),
    ensures
        ({
            let j = nearest_diagonal(matrix, n, initial, n);
            let start = inverse_start(matrix, n, initial);
            let solved = solve_spec(
                factorize(lowered_diagonal(matrix, n, initial), n)->0,
                start.y,
            );
            match inverse_step(matrix, n, start) {
                Some((next, converged)) => next.y == normalized(solved) && (!converged
                    ==> next.shift == initial.add_spec(one_spec::<S>().div_spec(solved[j]))),
                None => false,
            }
        }),
{
    let j = nearest_diagonal(matrix, n, initial, n);
    let start = inverse_start(matrix, n, initial);
    let solved = solve_spec(factorize(lowered_diagonal(matrix, n, initial), n)->0, start.y);
    lemma_nearest_diagonal_bounds(matrix, n, initial, n);
    assert(start.y[j] == one_spec::<S>());
    lemma_shift_update_of_one_coordinate(start.y, solved, j);
}

/// One over the coordinate of the start vector in the solution that the
/// first round finds for it.
pub open spec fn first_correction<S: Numerical>(matrix: Seq<S>, n: nat, initial: S) -> S {
    one_spec::<S>().div_spec(
        solve_spec(
            factorize(lowered_diagonal(matrix, n, initial), n)->0,
            inverse_start(matrix, n, initial).y,
        )[nearest_diagonal(matrix, n, initial, n)],
    )
}

/// Whether the start vector is an eigenvector as far as the first round can
/// tell: the matrix shifted by the estimate can be factored, the solution
/// for the start vector is well-conditioned in the coordinate of the start
/// vector alone and, normalised, is the start vector again, and a vector
/// counts as settled against itself.
pub open spec fn starts_at_an_eigenvector<S: Numerical>(matrix: Seq<S>, n: nat, initial: S) -> bool {
    let j = nearest_diagonal(matrix, n, initial, n);
    let start = inverse_start(matrix, n, initial);
    let solved = solve_spec(factorize(lowered_diagonal(matrix, n, initial), n)->0, start.y);
    &&& factorize(lowered_diagonal(matrix, n, initial), n) is Some
    &&& solved.len() == n
    &&& forall|k: int|
        0 <= k < n ==> (pm_min_coord_spec::<S>().le_spec(#[trigger] solved[k].abs_spec()) <==> k
            == j)
    &&& normalized(solved) == start.y
    &&& direction_settled(start.y, start.y)
}

/// The whole iteration from a start vector that is an eigenvector. If the first correction of the estimate is small
/// enough for the estimate to count as settled, the first round returns the
/// estimate as it was given. Otherwise the first round corrects it, the
/// matrix shifted by the corrected estimate cannot be factored, the shift
/// freezes, and the second round returns the corrected estimate. Either
/// way the vector returned is the start vector. The arithmetic has to leave
/// the correction as it is when it is added to zero and divided by one.
///
/// In exact arithmetic, for the diagonal matrix of `2` and `1` and the
/// estimate `0.9`, the solution is `(0, 10)`, the correction `0.1` and the
/// corrected estimate `1`.
pub proof fn lemma_run_from_an_eigenvector<S: Numerical>(
    matrix: Seq<S>,
    n: nat,
    initial: S,
    rounds: nat,
)
    requires
        n >= 1,
        rounds >= 2,
        starts_at_an_eigenvector(matrix, n, initial),
        S::zero_spec().add_spec(first_correction(matrix, n, initial)) == first_correction(
            matrix,
            n,
            initial,
        ),
        first_correction(matrix, n, initial).div_spec(S::from_index_spec(1)) == first_correction(
            matrix,
            n,
            initial,
        ),
        !shift_settled(initial, first_correction(matrix, n, initial)) ==> factorize(
            lowered_diagonal(matrix, n, initial.add_spec(first_correction(matrix, n, initial))),
            n,
        ) is None,
    ensures
        inverse_run(matrix, n, inverse_start(matrix, n, initial), rounds) matches Some(last)
            && last.y == inverse_start(matrix, n, initial).y && last.shift == (if shift_settled(
            initial,
            first_correction(matrix, n, initial),
        ) {
            initial
        } else {
            initial.add_spec(first_correction(matrix, n, initial))
        }),
{
    let j = nearest_diagonal(matrix, n, initial, n);
    let start = inverse_start(matrix, n, initial);
    let factors = factorize(lowered_diagonal(matrix, n, initial), n)->0;
    let solved = solve_spec(factors, start.y);
    let correction = first_correction(matrix, n, initial);
    lemma_first_round_from_unit_vector(matrix, n, initial);
    lemma_nearest_diagonal_bounds(matrix, n, initial, n);
    assert(start.y[j] == one_spec::<S>());
    lemma_shift_update_of_one_coordinate(start.y, solved, j);
    assert(shift_update(start.y, solved) == correction);
    let first = inverse_step(matrix, n, start);
    assert(first == Some(
        (
            InverseState {
                y: start.y,
                shift: if shift_settled(initial, correction) {
                    initial
                } else {
                    initial.add_spec(correction)
                },
                frozen: false,
                factors: Some(factors),
            },
            shift_settled(initial, correction),
        ),
    ));
    if !shift_settled(initial, correction) {
        let next = (first->0).0;
        assert(refactored(matrix, n, next) == (Some(factors), true));
        let second = inverse_step(matrix, n, next);
        assert(second == Some(
            (
                InverseState {
                    y: start.y,
                    shift: initial.add_spec(correction),
                    frozen: true,
                    factors: Some(factors),
                },
                true,
            ),
        ));
        assert(inverse_run(matrix, n, next, (rounds - 1) as nat) == Some((second->0).0));
    }
}

/// Whether `result` is what the inverse power method returns for the given
/// matrix and initial estimate within `rounds` rounds: the shift and the
/// iterate of the first round that converged, or nothing if no round did.
pub open spec fn is_inverse_power_result<S: Numerical>(
    matrix: Seq<S>,
    n: nat,
    initial: S,
    rounds: nat,
    result: Option<PowerMethod<S>>,
) -> bool {
    match inverse_run(matrix, n, inverse_start(matrix, n, initial), rounds) {
        Some(state) => result matches Some(found) && found.value == state.shift && found.vector@
            == state.y,
        None => result is None,
    }
}

/// The view of the factors that an optional factorisation holds.
pub open spec fn factors_of<S>(lu: Option<LUDecomposition<S>>) -> Option<LuFactors<S>> {
    match lu {
        Some(d) => Some(d@),
        None => None,
    }
}

/// The correction of the shift for the solve that turned `z` into `y`.
fn shift_correction<S: Numerical>(z: &Vec<S>, y: &Vec<S>) -> (r: S)
    requires
        z@.len() == y@.len(),
    ensures
        r == shift_update(z@, y@),
{
    let floor = pm_min_coord::<S>();
    let mut count: Index = 0;
    let mut mu = S::zero();
    let mut k: Index = 0;
    while k < y.len()
        invariant
            k <= y@.len(),
            z@.len() == y@.len(),
            floor == pm_min_coord_spec::<S>(),
            count == ratio_count(y@, k as nat),
            count <= k,
            mu == ratio_sum(z@, y@, k as nat),
        decreases y@.len() - k,
    {
        if floor.le(y[k].abs_trait()) {
            count += 1;
            mu = mu.add(z[k].div(y[k]));
        }
        k += 1;
    }
    mu.div(S::from_index(count))
}

/// The sign that relates `y` to `z`.
fn sign_between<S: Numerical>(y: &Vec<S>, z: &Vec<S>) -> (r: S)
    requires
        y@.len() == z@.len(),
    ensures
        r == relative_sign(y@, z@),
{
    let zero = S::zero();
    let mut k: Index = 0;
    while k < y.len()
        invariant
            k <= y@.len(),
            y@.len() == z@.len(),
            zero == S::zero_spec(),
            relative_sign(y@, z@) == relative_sign_from(y@, z@, k as nat),
        decreases y@.len() - k,
    {
        let product = y[k].mul(z[k]);
        if zero.lt(product) {
            return one::<S>();
        }
        if product.lt(zero) {
            return one::<S>().neg();
        }
        k += 1;
    }
    one::<S>().neg()
}

/// Whether the iterate `y` has settled against its predecessor `z`.
fn has_direction_settled<S: Numerical>(y: &Vec<S>, z: &Vec<S>) -> (r: bool)
    requires
        y@.len() == z@.len(),
    ensures
        r == direction_settled(y@, z@),
{
    let z_norm = norm_one(z.as_slice());
    let y_norm = norm_one(y.as_slice());
    let sign = sign_between(y, z);
    let mut change = S::zero();
    let mut k: Index = 0;
    while k < y.len()
        invariant
            k <= y@.len(),
            y@.len() == z@.len(),
            sign == relative_sign(y@, z@),
            change == signed_change(sign, y@, z@, k as nat),
        decreases y@.len() - k,
    {
        change = change.add(sign.mul(y[k]).sub(z[k]).abs_trait());
        k += 1;
    }
    change.lt(pm_convergence::<S>().mul(z_norm.max(y_norm)))
}

/// The state of an inverse power iteration between two rounds. It lets a
/// caller run the rounds one by one and look at the estimate in between.
pub struct InverseIteration<S> {
    y: Vec<S>,
    shift: S,
    stop_shifting: bool,
    lu: Option<LUDecomposition<S>>,
}

impl<S> View for InverseIteration<S> {
    type V = InverseState<S>;

    closed spec fn view(&self) -> InverseState<S> {
        InverseState {
            y: self.y@,
            shift: self.shift,
            frozen: self.stop_shifting,
            factors: factors_of(self.lu),
        }
    }
}

impl<S> InverseIteration<S> {
    #[verifier::type_invariant]
    spec fn fits(&self) -> bool {
        &&& self.y@.len() >= 1
        &&& self.lu matches Some(d) ==> d@.dimension() == self.y@.len()
    }
}

impl<S: Numerical> InverseIteration<S> {
    /// The iteration before its first round, for the `dimension`-square
    /// `matrix` and the estimate `initial`.
    pub fn start(matrix: &[S], dimension: Index, initial: S) -> (r: Self)
        requires
            dimension >= 1,
            matrix@.len() == dimension * dimension,
        ensures
            r@ == inverse_start(matrix@, dimension as nat, initial),
            r@.y.len() == dimension,
    {
        let ghost n = dimension as nat;
        assert(matrix@.len() == matrix.len());
        let mut nearest: Index = 0;
        let mut i: Index = 1;
        while i < dimension
            invariant
                1 <= i <= dimension,
                nearest < dimension,
                n == dimension,
                matrix@.len() == dimension * dimension,
                dimension * dimension <= usize::MAX,
                nearest == nearest_diagonal(matrix@, n, initial, i as nat),
            decreases dimension - i,
        {
            let distance = matrix[cell_index(dimension, i, i)].sub(initial).abs_trait();
            let least = matrix[cell_index(dimension, nearest, nearest)].sub(initial).abs_trait();
            if distance.lt(least) {
                nearest = i;
            }
            i += 1;
        }
        let mut y = filled(dimension, S::zero());
        y[nearest] = one::<S>();
        assert(y@ =~= inverse_start(matrix@, n, initial).y);
        InverseIteration { y, shift: initial, stop_shifting: false, lu: None }
    }

    /// Number of rows of the matrix that the iteration is for.
    pub fn dimension(&self) -> (r: Index)
        ensures
            r == self@.y.len(),
    {
        self.y.len()
    }

    /// The current estimate of the eigenvalue.
    pub fn shift(&self) -> (r: S)
        ensures
            r == self@.shift,
    {
        self.shift
    }

    /// Whether the estimate has stopped moving.
    pub fn is_frozen(&self) -> (r: bool)
        ensures
            r == self@.frozen,
    {
        self.stop_shifting
    }

    /// One round for the matrix that the iteration was started for. Gives
    /// the state after the round and whether the iteration has converged
    /// with it, or `None` in place of that if there are no factors to solve
    /// with; the state is then frozen and otherwise as it was.
    pub fn round(self, matrix: &[S]) -> (r: (Self, Option<bool>))
        requires
            matrix@.len() == self@.y.len() * self@.y.len(),
        ensures
            r.0@.y.len() == self@.y.len(),
            match inverse_step(matrix@, self@.y.len(), self@) {
                Some((next, converged)) => r.1 == Some(converged) && r.0@ == next,
                None => r.1 is None && r.0@ == (InverseState {
                    y: self@.y,
                    shift: self@.shift,
                    frozen: true,
                    factors: None,
                }),
            },
    {
        proof {
            use_type_invariant(&self);
        }
        let ghost state = self@;
        let InverseIteration { y, shift, stop_shifting, lu } = self;
        let dimension = y.len();
        let ghost n = dimension as nat;
        let mut stop_shifting = stop_shifting;
        let mut lu = lu;
        if !stop_shifting {
            let mut system_matrix = slice_to_vec(matrix);
            lower_diagonal(system_matrix.as_mut_slice(), dimension, shift);
            match LUDecomposition::compute(&system_matrix, dimension) {
                Some(computed) => {
                    lu = Some(computed);
                },
                None => {
                    stop_shifting = true;
                },
            }
        }
        assert((factors_of(lu), stop_shifting) == refactored(matrix@, n, state));
        let z = y;
        let mut solved = slice_to_vec(z.as_slice());
        match &lu {
            None => {
                return (InverseIteration { y: z, shift, stop_shifting, lu }, None);
            },
            Some(decomposition) => {
                decomposition.solve(&mut solved);
            },
        }
        let mu = if !stop_shifting {
            shift_correction(&z, &solved)
        } else {
            S::zero()
        };
        let y = normalize(solved.as_slice());
        let converged = has_direction_settled(&y, &z) && (mu.abs_trait().lt(
            pm_convergence::<S>().mul(shift.abs_trait().max(shift.add(mu).abs_trait())),
        ) || stop_shifting);
        let shift = if converged {
            shift
        } else {
            shift.add(mu)
        };
        (InverseIteration { y, shift, stop_shifting, lu }, Some(converged))
    }

    /// The estimate and the iterate, as the result of the method.
    pub fn into_result(self) -> (r: PowerMethod<S>)
        ensures
            r.value == self@.shift,
            r.vector@ == self@.y,
    {
        let InverseIteration { y, shift, stop_shifting: _, lu: _ } = self;
        PowerMethod { value: shift, vector: y }
    }
}

/// The inverse power method with a bound on the number of rounds.
///
/// Starts from the unit vector of the diagonal entry nearest to the
/// estimate `initial`. Each round factors the matrix shifted by the current
/// estimate, solves with the iterate as the right-hand side, corrects the
/// estimate by the mean ratio of old to new coordinates and normalises the
/// new iterate by its one-norm. A shifted matrix that is singular to
/// working precision freezes the estimate; the rounds go on with the
/// factors of the last success. The first round after which the iterate
/// has settled, and the estimate has settled or is frozen, gives the
/// result: the estimate and the iterate. Returns `None` when no round among
/// the first `max_iterations` does, and when not even the first shifted
/// matrix can be factored.
pub fn inverse_power_method_with_cap<S: Numerical>(
    matrix: &[S],
    dimension: Index,
    initial: S,
    max_iterations: Index,
) -> (r: Option<PowerMethod<S>>)
    requires
        dimension >= 1,
        matrix@.len() == dimension * dimension,
    ensures
        is_inverse_power_result(matrix@, dimension as nat, initial, max_iterations as nat, r),
{
    let ghost n = dimension as nat;
    let mut iteration = InverseIteration::start(matrix, dimension, initial);
    let mut round: Index = 0;
    while round < max_iterations
        invariant
            round <= max_iterations,
            n == dimension,
            matrix@.len() == dimension * dimension,
            iteration@.y.len() == dimension,
            inverse_run(matrix@, n, inverse_start(matrix@, n, initial), max_iterations as nat)
                == inverse_run(matrix@, n, iteration@, (max_iterations - round) as nat),
        decreases max_iterations - round,
    {
        let (next, outcome) = iteration.round(matrix);
        iteration = next;
        match outcome {
            None => {
                return None;
            },
            Some(converged) => {
                if converged {
                    return Some(iteration.into_result());
                }
            },
        }
        round += 1;
    }
    None
}

/// The inverse power method on the `dimension`-square `matrix`, run for at
/// most `MAX_ITERATIONS` rounds from the estimate `initial` of an
/// eigenvalue.
///
/// Returns the estimate and the iterate, of one-norm one, of the first
/// round after which both have settled, as the iteration of
/// `inverse_power_method_with_cap` defines it, and `None` when no round
/// settles them. The iteration aims at the eigenvalue nearest to
/// `initial`. The contract says what the rounds compute, not that they
/// arrive there: a correction of the estimate is a mean of coordinate
/// ratios, which nothing bounds.
pub fn inverse_power_method<S: Numerical>(matrix: &[S], dimension: Index, initial: S) -> (r: Option<
    PowerMethod<S>,
>)
    requires
        dimension >= 1,
        matrix@.len() == dimension * dimension,
    ensures
        is_inverse_power_result(matrix@, dimension as nat, initial, MAX_ITERATIONS as nat, r),
{
    inverse_power_method_with_cap(matrix, dimension, initial, MAX_ITERATIONS)
}

} // verus!
