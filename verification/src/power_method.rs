//! The power method: an iteration from a unit vector towards the eigenvalue
//! of largest magnitude and its eigenvector.

use vstd::prelude::*;
use crate::layout::{cell, cell_index, filled};
use crate::scalar::{one, one_spec, pm_convergence, pm_convergence_spec, pm_min_coord};
use crate::scalar::{pm_min_coord_spec, Index, Numerical, OtherNumericalOps, MAX_ITERATIONS};
use crate::vector::{apply, apply_spec, normalize, normalized};

verus! {

/// An eigenvalue with an eigenvector that belongs to it.
#[derive(Debug, Clone)]
pub struct PowerMethod<S> {
    pub value: S,
    pub vector: Vec<S>,
}

/// One eigenvalue estimate per coordinate, and which of them count.
pub struct Estimate<S> {
    pub lambda: Seq<S>,
    pub valid: Seq<bool>,
}

/// What one round of the power method hands to the next.
pub struct PowerState<S> {
    /// The iterate `A·z`, not normalised.
    pub y: Seq<S>,
    /// The estimates taken from the iterate.
    pub estimate: Estimate<S>,
}

/// The estimates `y[i] / z[i]`. A coordinate whose `z[i]` is smaller in
/// magnitude than `1e-8` is ill-conditioned: it does not count and its
/// estimate is zero.
pub open spec fn estimate_of<S: Numerical>(y: Seq<S>, z: Seq<S>) -> Estimate<S> {
    Estimate {
        lambda: Seq::new(
            z.len(),
            |i: int|
                if z[i].abs_spec().lt_spec(pm_min_coord_spec::<S>()) {
                    S::zero_spec()
                } else {
                    y[i].div_spec(z[i])
                },
        ),
        valid: Seq::new(z.len(), |i: int| !z[i].abs_spec().lt_spec(pm_min_coord_spec::<S>())),
    }
}

/// The magnitudes of the estimates that count among the first `count`,
/// added up from zero.
pub open spec fn counted_abs_sum<S: Numerical>(e: Estimate<S>, count: nat) -> S
    decreases count,
{
    if count == 0 {
        S::zero_spec()
    } else {
        let before = counted_abs_sum(e, (count - 1) as nat);
        if e.valid[count - 1] {
            before.add_spec(e.lambda[count - 1].abs_spec())
        } else {
            before
        }
    }
}

/// The estimates that count among the first `count`, added up from zero.
pub open spec fn counted_sum<S: Numerical>(e: Estimate<S>, count: nat) -> S
    decreases count,
{
    if count == 0 {
        S::zero_spec()
    } else {
        let before = counted_sum(e, (count - 1) as nat);
        if e.valid[count - 1] {
            before.add_spec(e.lambda[count - 1])
        } else {
            before
        }
    }
}

/// How many of the first `count` estimates count.
pub open spec fn counted<S>(e: Estimate<S>, count: nat) -> nat
    decreases count,
{
    if count == 0 {
        0
    } else {
        counted(e, (count - 1) as nat) + if e.valid[count - 1] {
            1nat
        } else {
            0nat
        }
    }
}

/// The magnitudes of the changes between two rounds, over the coordinates
/// among the first `count` that count in either round, added up from zero.
pub open spec fn change_sum<S: Numerical>(
    previous: Estimate<S>,
    current: Estimate<S>,
    count: nat,
) -> S
    decreases count,
{
    if count == 0 {
        S::zero_spec()
    } else {
        let before = change_sum(previous, current, (count - 1) as nat);
        if previous.valid[count - 1] || current.valid[count - 1] {
            before.add_spec(
                previous.lambda[count - 1].sub_spec(current.lambda[count - 1]).abs_spec(),
            )
        } else {
            before
        }
    }
}

/// Whether the estimates have settled: their change is smaller than `1e-6`
/// times the larger of the two sums of magnitudes.
pub open spec fn settled<S: Numerical>(previous: Estimate<S>, current: Estimate<S>) -> bool {
    let n = current.lambda.len();
    change_sum(previous, current, n).lt_spec(
        pm_convergence_spec::<S>().mul_spec(
            counted_abs_sum(previous, n).max_spec(counted_abs_sum(current, n)),
        ),
    )
}

/// The mean of the estimates that count.
pub open spec fn mean_estimate<S: Numerical>(e: Estimate<S>) -> S {
    let n = e.lambda.len();
    counted_sum(e, n).div_spec(S::from_index_spec(counted(e, n) as Index))
}

/// The magnitude of diagonal entry `i`.
pub open spec fn diagonal_magnitude<S: Numerical>(matrix: Seq<S>, n: nat, i: int) -> S {
    matrix[cell(n, i, i)].abs_spec()
}

/// Among the first `count` diagonal entries, the number of the one of
/// largest magnitude; of several of the largest magnitude, the first.
pub open spec fn largest_diagonal<S: Numerical>(matrix: Seq<S>, n: nat, count: nat) -> int
    decreases count,
{
    if count <= 1 {
        0
    } else {
        let best = largest_diagonal(matrix, n, (count - 1) as nat);
        if diagonal_magnitude(matrix, n, best).lt_spec(diagonal_magnitude(matrix, n, count - 1)) {
            count - 1
        } else {
            best
        }
    }
}

/// The largest diagonal entry is one of the entries seen.
pub proof fn lemma_largest_diagonal_bounds<S: Numerical>(matrix: Seq<S>, n: nat, count: nat)
    ensures
        0 <= largest_diagonal(matrix, n, count),
        count >= 1 ==> largest_diagonal(matrix, n, count) < count,
    decreases count,
{
    if count > 1 {
        lemma_largest_diagonal_bounds(matrix, n, (count - 1) as nat);
    }
}

/// Whether `<` orders the magnitudes of the first `count` diagonal entries:
/// no magnitude is less than itself, and a magnitude less than one that is
/// less than a third is less than the third.
pub open spec fn magnitudes_are_ordered<S: Numerical>(matrix: Seq<S>, n: nat, count: nat) -> bool {
    &&& forall|i: int|
        0 <= i < count ==> !(#[trigger] diagonal_magnitude(matrix, n, i)).lt_spec(
            diagonal_magnitude(matrix, n, i),
        )
    &&& forall|i: int, j: int, k: int|
        0 <= i < count && 0 <= j < count && 0 <= k < count && (#[trigger] diagonal_magnitude(
            matrix,
            n,
            i,
        )).lt_spec(#[trigger] diagonal_magnitude(matrix, n, j)) && diagonal_magnitude(
            matrix,
            n,
            j,
        ).lt_spec(#[trigger] diagonal_magnitude(matrix, n, k)) ==> diagonal_magnitude(
            matrix,
            n,
            i,
        ).lt_spec(diagonal_magnitude(matrix, n, k))
}

/// No diagonal entry is larger in magnitude than the one chosen, if `<`
/// orders the magnitudes.
pub proof fn lemma_largest_diagonal_is_largest<S: Numerical>(
    matrix: Seq<S>,
    n: nat,
    count: nat,
    i: int,
)
    requires
        0 <= i < count,
        magnitudes_are_ordered(matrix, n, count),
    ensures
        !diagonal_magnitude(matrix, n, largest_diagonal(matrix, n, count)).lt_spec(
            diagonal_magnitude(matrix, n, i),
        ),
    decreases count,
{
    if count > 1 {
        let before = largest_diagonal(matrix, n, (count - 1) as nat);
        let chosen = largest_diagonal(matrix, n, count);
        lemma_largest_diagonal_bounds(matrix, n, (count - 1) as nat);
        let m_i = diagonal_magnitude(matrix, n, i);
        let m_before = diagonal_magnitude(matrix, n, before);
        let m_chosen = diagonal_magnitude(matrix, n, chosen);
        if i < count - 1 {
            lemma_largest_diagonal_is_largest(matrix, n, (count - 1) as nat, i);
            if chosen != before && m_chosen.lt_spec(m_i) {
                assert(m_before.lt_spec(m_chosen));
                assert(m_before.lt_spec(m_i));
            }
        }
    }
}

/// The state before the first round: the unit vector of the diagonal entry
/// of largest magnitude, and no estimate that counts. For a diagonal matrix
/// that vector belongs to the eigenvalue of largest magnitude.
pub open spec fn power_start<S: Numerical>(matrix: Seq<S>, n: nat) -> PowerState<S> {
    PowerState {
        y: Seq::new(
            n,
            |i: int|
                if i == largest_diagonal(matrix, n, n) {
                    one_spec::<S>()
                } else {
                    S::zero_spec()
                },
        ),
        estimate: Estimate {
            lambda: Seq::new(n, |i: int| S::zero_spec()),
            valid: Seq::new(n, |i: int| false),
        },
    }
}

/// One round: normalise the iterate, multiply it by the matrix and take the
/// estimates.
pub open spec fn power_step<S: Numerical>(matrix: Seq<S>, n: nat, state: PowerState<S>) -> PowerState<
    S,
> {
    let z = normalized(state.y);
    let y = apply_spec(matrix, n, z);
    PowerState { y, estimate: estimate_of(y, z) }
}

/// The state of the first round among the next `rounds` after which the
/// estimates have settled, or `None` if there is no such round.
pub open spec fn power_run<S: Numerical>(
    matrix: Seq<S>,
    n: nat,
    state: PowerState<S>,
    rounds: nat,
) -> Option<PowerState<S>>
    decreases rounds,
{
    if rounds == 0 {
        None
    } else {
        let next = power_step(matrix, n, state);
        if settled(state.estimate, next.estimate) {
            Some(next)
        } else {
            power_run(matrix, n, next, (rounds - 1) as nat)
        }
    }
}

/// A state in which the power method stops within some number of rounds
/// is the state in which it stops within any larger number of rounds.
pub proof fn lemma_power_run_extends<S: Numerical>(
    matrix: Seq<S>,
    n: nat,
    state: PowerState<S>,
    rounds: nat,
    more: nat,
)
    requires
        power_run(matrix, n, state, rounds) is Some,
        rounds <= more,
    ensures
        power_run(matrix, n, state, more) == power_run(matrix, n, state, rounds),
    decreases rounds,
{
    let next = power_step(matrix, n, state);
    if !settled(state.estimate, next.estimate) {
        lemma_power_run_extends(matrix, n, next, (rounds - 1) as nat, (more - 1) as nat);
    }
}

/// Where estimate `j` is the only one that counts, the sum of the estimates
/// is zero before it and `0 + lambda[j]` from it on, and one estimate is
/// counted from it on.
proof fn lemma_sums_of_one_estimate<S: Numerical>(e: Estimate<S>, j: int, count: nat)
    requires
        0 <= j < e.lambda.len(),
        e.valid.len() == e.lambda.len(),
        count <= e.lambda.len(),
        forall|k: int| 0 <= k < e.lambda.len() ==> (#[trigger] e.valid[k] <==> k == j),
    ensures
        counted_sum(e, count) == if count <= j {
            S::zero_spec()
        } else {
            S::zero_spec().add_spec(e.lambda[j])
        },
        counted(e, count) == if count <= j {
            0nat
        } else {
            1nat
        },
    decreases count,
{
    if count > 0 {
        lemma_sums_of_one_estimate(e, j, (count - 1) as nat);
        assert(e.valid[count - 1] <==> count - 1 == j);
    }
}

/// Where estimate `j` is the only one that counts, the mean of the
/// estimates is that estimate, if adding it to zero and dividing it by one
/// leave it as it is.
pub proof fn lemma_mean_of_one_estimate<S: Numerical>(e: Estimate<S>, j: int)
    requires
        0 <= j < e.lambda.len(),
        e.valid.len() == e.lambda.len(),
        forall|k: int| 0 <= k < e.lambda.len() ==> (#[trigger] e.valid[k] <==> k == j),
        S::zero_spec().add_spec(e.lambda[j]) == e.lambda[j],
        e.lambda[j].div_spec(S::from_index_spec(1)) == e.lambda[j],
    ensures
        mean_estimate(e) == e.lambda[j],
{
    lemma_sums_of_one_estimate(e, j, e.lambda.len());
}

/// The estimates of the first round.
pub open spec fn first_estimate<S: Numerical>(matrix: Seq<S>, n: nat) -> Estimate<S> {
    power_step(matrix, n, power_start(matrix, n)).estimate
}

/// Whether the start vector is an eigenvector as far as two rounds can
/// tell: the first round has an estimate in the coordinate of the start
/// vector alone, the second round finds the same estimates again, and
/// estimates count as settled against themselves.
pub open spec fn starts_at_an_eigenvector<S: Numerical>(matrix: Seq<S>, n: nat) -> bool {
    let first = power_step(matrix, n, power_start(matrix, n));
    let second = power_step(matrix, n, first);
    &&& first.estimate.lambda.len() == n
    &&& first.estimate.valid.len() == n
    &&& forall|k: int|
        0 <= k < n ==> (#[trigger] first.estimate.valid[k] <==> k == largest_diagonal(
            matrix,
            n,
            n,
        ))
    &&& second.estimate == first.estimate
    &&& settled(first.estimate, first.estimate)
}

/// The whole iteration from a start vector that is an eigenvector: it ends
/// with the first round or with the second, and the value it returns is
/// the estimate that the first round found in the coordinate of the start
/// vector. The arithmetic has to leave that estimate as it is when it is
/// added to zero and divided by one.
///
/// In exact arithmetic, for a diagonal matrix, the start vector belongs
/// to the diagonal entry of largest magnitude and the estimate is that
/// entry: for the diagonal matrix of `1` and `2` the value is `2` and the
/// vector `(0, 1)`.
pub proof fn lemma_power_run_from_an_eigenvector<S: Numerical>(matrix: Seq<S>, n: nat, rounds: nat)
    requires
        n >= 1,
        rounds >= 2,
        starts_at_an_eigenvector(matrix, n),
        S::zero_spec().add_spec(
            first_estimate(matrix, n).lambda[largest_diagonal(matrix, n, n)],
        ) == first_estimate(matrix, n).lambda[largest_diagonal(matrix, n, n)],
        first_estimate(matrix, n).lambda[largest_diagonal(matrix, n, n)].div_spec(
            S::from_index_spec(1),
        ) == first_estimate(matrix, n).lambda[largest_diagonal(matrix, n, n)],
    ensures
        ({
            let first = power_step(matrix, n, power_start(matrix, n));
            let second = power_step(matrix, n, first);
            &&& power_run(matrix, n, power_start(matrix, n), rounds) matches Some(last)
                && last.estimate == first.estimate && (last.y == first.y || last.y == second.y)
                && mean_estimate(last.estimate) == first.estimate.lambda[largest_diagonal(
                matrix,
                n,
                n,
            )]
        }),
{
    let j = largest_diagonal(matrix, n, n);
    let start = power_start(matrix, n);
    let first = power_step(matrix, n, start);
    let second = power_step(matrix, n, first);
    lemma_largest_diagonal_bounds(matrix, n, n);
    lemma_mean_of_one_estimate(first.estimate, j);
    if !settled(start.estimate, first.estimate) {
        assert(power_run(matrix, n, first, (rounds - 1) as nat) == Some(second));
    }
}

/// The power method does not end in a state that two rounds bring back to
/// itself without the estimates settling in between, whatever the number
/// of rounds: so it is where the iterate alternates between two vectors.
pub proof fn lemma_power_run_on_a_cycle<S: Numerical>(
    matrix: Seq<S>,
    n: nat,
    state: PowerState<S>,
    rounds: nat,
)
    requires
        power_step(matrix, n, power_step(matrix, n, state)) == state,
        !settled(state.estimate, power_step(matrix, n, state).estimate),
        !settled(power_step(matrix, n, state).estimate, state.estimate),
    ensures
        power_run(matrix, n, state, rounds) is None,
    decreases rounds,
{
    if rounds > 0 {
        lemma_power_run_on_a_cycle(matrix, n, power_step(matrix, n, state), (rounds - 1) as nat);
    }
}

/// The power method reports that it has not converged if the state after
/// its first round is one that two rounds bring back to itself, and the
/// estimates settle neither in the first round nor in the rounds of that
/// cycle.
pub proof fn lemma_power_method_on_a_cycle<S: Numerical>(
    matrix: Seq<S>,
    n: nat,
    rounds: nat,
    result: Option<PowerMethod<S>>,
)
    requires
        ({
            let start = power_start(matrix, n);
            let first = power_step(matrix, n, start);
            let second = power_step(matrix, n, first);
            &&& power_step(matrix, n, second) == first
            &&& !settled(start.estimate, first.estimate)
            &&& !settled(first.estimate, second.estimate)
            &&& !settled(second.estimate, first.estimate)
        }),
        is_power_result(matrix, n, rounds, result),
    ensures
        result is None,
{
    if rounds > 0 {
        let first = power_step(matrix, n, power_start(matrix, n));
        lemma_power_run_on_a_cycle(matrix, n, first, (rounds - 1) as nat);
    }
}

/// Whether `result` is what the power method returns for the given matrix
/// within `rounds` rounds: the mean estimate and the normalised iterate of
/// the first round that settled, or nothing if no round did.
pub open spec fn is_power_result<S: Numerical>(
    matrix: Seq<S>,
    n: nat,
    rounds: nat,
    result: Option<PowerMethod<S>>,
) -> bool {
    match power_run(matrix, n, power_start(matrix, n), rounds) {
        Some(state) => result matches Some(found) && found.value == mean_estimate(state.estimate)
            && found.vector@ == normalized(state.y),
        None => result is None,
    }
}

/// The estimates for the iterate `y` that came from `z`.
fn estimates<S: Numerical>(y: &Vec<S>, z: &Vec<S>) -> (r: (Vec<S>, Vec<bool>))
    requires
        y@.len() == z@.len(),
    ensures
        (Estimate { lambda: r.0@, valid: r.1@ }) == estimate_of(y@, z@),
{
    let floor = pm_min_coord::<S>();
    let mut lambda: Vec<S> = Vec::new();
    let mut valid: Vec<bool> = Vec::new();
    let mut i: Index = 0;
    while i < z.len()
        invariant
            i <= z@.len(),
            y@.len() == z@.len(),
            floor == pm_min_coord_spec::<S>(),
            lambda@ == estimate_of(y@, z@).lambda.subrange(0, i as int),
            valid@ == estimate_of(y@, z@).valid.subrange(0, i as int),
        decreases z@.len() - i,
    {
        if z[i].abs_trait().lt(floor) {
            valid.push(false);
            lambda.push(S::zero());
        } else {
            valid.push(true);
            lambda.push(y[i].div(z[i]));
        }
        assert(lambda@ =~= estimate_of(y@, z@).lambda.subrange(0, i + 1));
        assert(valid@ =~= estimate_of(y@, z@).valid.subrange(0, i + 1));
        i += 1;
    }
    assert(lambda@ =~= estimate_of(y@, z@).lambda);
    assert(valid@ =~= estimate_of(y@, z@).valid);
    (lambda, valid)
}

/// Whether the estimates have settled between two rounds.
fn has_settled<S: Numerical>(
    previous_lambda: &Vec<S>,
    previous_valid: &Vec<bool>,
    current_lambda: &Vec<S>,
    current_valid: &Vec<bool>,
) -> (r: bool)
    requires
        previous_lambda@.len() == current_lambda@.len(),
        previous_valid@.len() == current_lambda@.len(),
        current_valid@.len() == current_lambda@.len(),
    ensures
        r == settled(
            Estimate { lambda: previous_lambda@, valid: previous_valid@ },
            Estimate { lambda: current_lambda@, valid: current_valid@ },
        ),
{
    let ghost previous = Estimate { lambda: previous_lambda@, valid: previous_valid@ };
    let ghost current = Estimate { lambda: current_lambda@, valid: current_valid@ };
    let dimension = current_lambda.len();
    let mut previous_norm = S::zero();
    let mut current_norm = S::zero();
    let mut change = S::zero();
    let mut i: Index = 0;
    while i < dimension
        invariant
            i <= dimension,
            dimension == current_lambda@.len(),
            previous_lambda@.len() == dimension,
            previous_valid@.len() == dimension,
            current_valid@.len() == dimension,
            previous == (Estimate { lambda: previous_lambda@, valid: previous_valid@ }),
            current == (Estimate { lambda: current_lambda@, valid: current_valid@ }),
            previous_norm == counted_abs_sum(previous, i as nat),
            current_norm == counted_abs_sum(current, i as nat),
            change == change_sum(previous, current, i as nat),
        decreases dimension - i,
    {
        if previous_valid[i] {
            previous_norm = previous_norm.add(previous_lambda[i].abs_trait());
        }
        if current_valid[i] {
            current_norm = current_norm.add(current_lambda[i].abs_trait());
        }
        if previous_valid[i] || current_valid[i] {
            change = change.add(previous_lambda[i].sub(current_lambda[i]).abs_trait());
        }
        i += 1;
    }
    change.lt(pm_convergence::<S>().mul(previous_norm.max(current_norm)))
}

/// The mean of the estimates that count.
fn mean_of<S: Numerical>(lambda: &Vec<S>, valid: &Vec<bool>) -> (r: S)
    requires
        lambda@.len() == valid@.len(),
    ensures
        r == mean_estimate(Estimate { lambda: lambda@, valid: valid@ }),
{
    let ghost e = Estimate { lambda: lambda@, valid: valid@ };
    let mut sum = S::zero();
    let mut count: Index = 0;
    let mut i: Index = 0;
    while i < lambda.len()
        invariant
            i <= lambda@.len(),
            lambda@.len() == valid@.len(),
            e == (Estimate { lambda: lambda@, valid: valid@ }),
            count == counted(e, i as nat),
            count <= i,
            sum == counted_sum(e, i as nat),
        decreases lambda@.len() - i,
    {
        if valid[i] {
            count += 1;
            sum = sum.add(lambda[i]);
        }
        i += 1;
    }
    sum.div(S::from_index(count))
}

/// The power method with a bound on the number of rounds.
///
/// Starts from the unit vector of the diagonal entry of largest magnitude,
/// the first of several. Each round normalises the iterate by its one-norm, multiplies it by the matrix and estimates the eigenvalue
/// in every well-conditioned coordinate. The first round after which the
/// estimates have settled ends the iteration. Returns `None` when no round
/// among the first `max_iterations` does.
pub fn power_method_with_cap<S: Numerical>(
    matrix: &[S],
    dimension: Index,
    max_iterations: Index,
) -> (r: Option<PowerMethod<S>>)
    requires
        dimension >= 1,
        matrix@.len() == dimension * dimension,
    ensures
        is_power_result(matrix@, dimension as nat, max_iterations as nat, r),
{
    let ghost n = dimension as nat;
    assert(matrix@.len() == matrix.len());
    let mut largest: Index = 0;
    let mut i: Index = 1;
    while i < dimension
        invariant
            1 <= i <= dimension,
            largest < dimension,
            n == dimension,
            matrix@.len() == dimension * dimension,
            dimension * dimension <= usize::MAX,
            largest == largest_diagonal(matrix@, n, i as nat),
        decreases dimension - i,
    {
        let magnitude = matrix[cell_index(dimension, i, i)].abs_trait();
        let most = matrix[cell_index(dimension, largest, largest)].abs_trait();
        if most.lt(magnitude) {
            largest = i;
        }
        i += 1;
    }
    let mut y = filled(dimension, S::zero());
    y[largest] = one::<S>();
    let mut lambda = filled(dimension, S::zero());
    let mut valid = filled(dimension, false);
    proof {
        assert(y@ =~= power_start::<S>(matrix@, n).y);
        assert(lambda@ =~= power_start::<S>(matrix@, n).estimate.lambda);
        assert(valid@ =~= power_start::<S>(matrix@, n).estimate.valid);
    }
    let mut round: Index = 0;
    while round < max_iterations
        invariant
            round <= max_iterations,
            n == dimension,
            matrix@.len() == dimension * dimension,
            y@.len() == dimension,
            lambda@.len() == dimension,
            valid@.len() == dimension,
            power_run(matrix@, n, power_start(matrix@, n), max_iterations as nat) == power_run(
                matrix@,
                n,
                PowerState { y: y@, estimate: Estimate { lambda: lambda@, valid: valid@ } },
                (max_iterations - round) as nat,
            ),
        decreases max_iterations - round,
    {
        let z = normalize(y.as_slice());
        let next_y = apply(matrix, dimension, z.as_slice());
        let (next_lambda, next_valid) = estimates(&next_y, &z);
        let done = has_settled(&lambda, &valid, &next_lambda, &next_valid);
        y = next_y;
        lambda = next_lambda;
        valid = next_valid;
        if done {
            let value = mean_of(&lambda, &valid);
            let vector = normalize(y.as_slice());
            return Some(PowerMethod { value, vector });
        }
        round += 1;
    }
    None
}

/// The power method on the `dimension`-square `matrix`, run for at most
/// `MAX_ITERATIONS` rounds from the unit vector of the diagonal entry of
/// largest magnitude.
///
/// Returns the mean of the eigenvalue estimates of the first round after
/// which they have settled, with the iterate of that round scaled to
/// one-norm one, and `None` when no round settles them. The iteration aims
/// at the eigenvalue of largest magnitude. The contract says what the
/// rounds compute, not that they arrive there: from a start without a
/// component along the eigenvector of that eigenvalue they settle on
/// another one.
pub fn power_method<S: Numerical>(matrix: &[S], dimension: Index) -> (r: Option<PowerMethod<S>>)
    requires
        dimension >= 1,
        matrix@.len() == dimension * dimension,
    ensures
        is_power_result(matrix@, dimension as nat, MAX_ITERATIONS as nat, r),
{
    power_method_with_cap(matrix, dimension, MAX_ITERATIONS)
}

} // verus!
