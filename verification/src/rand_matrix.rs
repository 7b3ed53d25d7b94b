//! Test matrices with known eigenvalues: `T⁻¹·diag(λ)·T` for eigenvalues `λ`
//! and an invertible `T` that are made from a stream of draws from `[0, 1)`.
//! Drawing the numbers is left to the caller.

use vstd::prelude::*;
use crate::layout::{cell, cell_index, filled, table};
use crate::layout::{lemma_cell_div_mod, lemma_position_is_cell};
use crate::lu::{factorize, solve_spec, LUDecomposition, LuFactors};
use crate::scalar::{reciprocal, reciprocal_spec, Index, Numerical, OtherNumericalOps};

verus! {

/// A matrix, stored row after row, with the eigenvalues it was built from.
#[derive(Debug, Clone)]
pub struct GenerateMatrix<S> {
    pub matrix: Vec<S>,
    pub eigenvalues: Vec<S>,
}

/// Least distance between two eigenvalues: `0.5`.
pub open spec fn values_separation_spec<S: Numerical>() -> S {
    reciprocal_spec::<S>(2)
}

/// Least distance between two eigenvalues: `0.5`.
pub fn values_separation<S: Numerical>() -> (r: S)
    ensures
        r == values_separation_spec::<S>(),
{
    reciprocal(2)
}

/// Bound on the magnitude of an eigenvalue: ten times the separation times
/// the dimension.
pub open spec fn values_magnitude_spec<S: Numerical>(dimension: Index) -> S {
    S::from_i32_spec(10).mul_spec(values_separation_spec::<S>()).mul_spec(
        S::from_index_spec(dimension),
    )
}

/// Bound on the magnitude of an eigenvalue.
pub fn values_magnitude<S: Numerical>(dimension: Index) -> (r: S)
    ensures
        r == values_magnitude_spec::<S>(dimension),
{
    S::from_i32(10).mul(values_separation::<S>()).mul(S::from_index(dimension))
}

/// Bound on the magnitude of an entry of the transformation: `5`.
pub fn transformation_magnitude<S: Numerical>() -> (r: S)
    ensures
        r == S::from_i32_spec(5),
{
    S::from_i32(5)
}

/// The point `(unit − 0.5)·2·magnitude`, which runs over
/// `[−magnitude, magnitude)` as `unit` runs over `[0, 1)`.
pub open spec fn spread_spec<S: Numerical>(unit: S, magnitude: S) -> S {
    unit.sub_spec(reciprocal_spec::<S>(2)).mul_spec(S::from_i32_spec(2)).mul_spec(magnitude)
}

/// Maps a sample `unit` of `[0, 1)` to `[−magnitude, magnitude)`.
pub fn spread<S: Numerical>(unit: S, magnitude: S) -> (r: S)
    ensures
        r == spread_spec(unit, magnitude),
{
    unit.sub(reciprocal::<S>(2)).mul(S::from_i32(2)).mul(magnitude)
}

/// Whether `candidate` is at least the separation away from each of the
/// first `count` values.
pub open spec fn separated<S: Numerical>(values: Seq<S>, count: int, candidate: S) -> bool {
    forall|l: int|
        0 <= l < count ==> !(#[trigger] candidate.sub_spec(values[l])).abs_spec().lt_spec(
            values_separation_spec::<S>(),
        )
}

/// Whether `candidate` may join the first `count` eigenvalues: it is not
/// closer than the separation to any of them.
pub fn is_separated<S: Numerical>(values: &[S], count: Index, candidate: S) -> (r: bool)
    requires
        count <= values@.len(),
    ensures
        r == separated(values@, count as int, candidate),
{
    let separation = values_separation::<S>();
    let mut l: Index = 0;
    while l < count
        invariant
            l <= count,
            count <= values@.len(),
            separation == values_separation_spec::<S>(),
            separated(values@, l as int, candidate),
        decreases count - l,
    {
        if candidate.sub(values[l]).abs_trait().lt(separation) {
            return false;
        }
        l += 1;
    }
    true
}

/// Column `column` of `diag(λ)·T`.
pub open spec fn weighted_column<S: Numerical>(
    eigenvalues: Seq<S>,
    transformation: Seq<S>,
    n: nat,
    column: int,
) -> Seq<S> {
    Seq::new(n, |row: int| eigenvalues[row].mul_spec(transformation[cell(n, row, column)]))
}

/// The matrix `T⁻¹·diag(λ)·T`: column by column, the solution of
/// `T·x = diag(λ)·T·e`.
pub open spec fn similar_matrix<S: Numerical>(
    eigenvalues: Seq<S>,
    transformation: Seq<S>,
    factors: LuFactors<S>,
    n: nat,
) -> Seq<S> {
    table(
        n,
        |i: int, j: int| solve_spec(factors, weighted_column(eigenvalues, transformation, n, j))[i],
    )
}

/// The matrix `T⁻¹·diag(λ)·T` for the transformation `T` that `lu` factors.
pub fn similar_matrix_of<S: Numerical>(
    eigenvalues: &[S],
    transformation: &[S],
    lu: &LUDecomposition<S>,
    dimension: Index,
) -> (r: Vec<S>)
    requires
        eigenvalues@.len() == dimension,
        transformation@.len() == dimension * dimension,
        lu@.dimension() == dimension,
    ensures
        r@ == similar_matrix(eigenvalues@, transformation@, lu@, dimension as nat),
{
    let ghost n = dimension as nat;
    let ghost d = dimension as int;
    let ghost target = similar_matrix(eigenvalues@, transformation@, lu@, n);
    assert(transformation@.len() == transformation.len());
    assert(n * n >= 0) by (nonlinear_arith);
    let mut matrix = filled(dimension * dimension, S::zero());
    let mut col: Index = 0;
    while col < dimension
        invariant
            col <= dimension,
            d == dimension,
            n == dimension,
            dimension * dimension <= usize::MAX,
            eigenvalues@.len() == dimension,
            transformation@.len() == dimension * dimension,
            lu@.dimension() == dimension,
            matrix@.len() == n * n,
            target.len() == n * n,
            target == similar_matrix(eigenvalues@, transformation@, lu@, n),
            forall|p: int| 0 <= p < n * n && p % d < col ==> (#[trigger] matrix@[p]) == target[p],
        decreases dimension - col,
    {
        let mut work_array: Vec<S> = Vec::new();
        let mut row: Index = 0;
        while row < dimension
            invariant
                row <= dimension,
                col < dimension,
                n == dimension,
                dimension * dimension <= usize::MAX,
                eigenvalues@.len() == dimension,
                transformation@.len() == dimension * dimension,
                work_array@ == Seq::new(
                    row as nat,
                    |i: int| eigenvalues@[i].mul_spec(transformation@[cell(n, i, col as int)]),
                ),
            decreases dimension - row,
        {
            work_array.push(eigenvalues[row].mul(transformation[cell_index(dimension, row, col)]));
            assert(work_array@ =~= Seq::new(
                (row + 1) as nat,
                |i: int| eigenvalues@[i].mul_spec(transformation@[cell(n, i, col as int)]),
            ));
            row += 1;
        }
        assert(work_array@ =~= weighted_column(eigenvalues@, transformation@, n, col as int));
        lu.solve(&mut work_array);
        row = 0;
        while row < dimension
            invariant
                row <= dimension,
                col < dimension,
                d == dimension,
                n == dimension,
                dimension * dimension <= usize::MAX,
                matrix@.len() == n * n,
                target.len() == n * n,
                target == similar_matrix(eigenvalues@, transformation@, lu@, n),
                work_array@ == solve_spec(
                    lu@,
                    weighted_column(eigenvalues@, transformation@, n, col as int),
                ),
                work_array@.len() == dimension,
                forall|p: int|
                    0 <= p < n * n && (p % d < col || (p % d == col && p / d < row)) ==> (
                    #[trigger] matrix@[p]) == target[p],
            decreases dimension - row,
        {
            let position = cell_index(dimension, row, col);
            proof {
                lemma_cell_div_mod(n, row as int, col as int);
            }
            matrix[position] = work_array[row];
            proof {
                assert forall|p: int|
                    0 <= p < n * n && (p % d < col || (p % d == col && p / d < row + 1)) implies (
                #[trigger] matrix@[p]) == target[p] by {
                    lemma_position_is_cell(n, p);
                }
            }
            row += 1;
        }
        proof {
            assert forall|p: int| 0 <= p < n * n && p % d < col + 1 implies (
            #[trigger] matrix@[p]) == target[p] by {
                lemma_position_is_cell(n, p);
            }
        }
        col += 1;
    }
    proof {
        assert forall|p: int| 0 <= p < n * n implies matrix@[p] == target[p] by {
            lemma_position_is_cell(n, p);
        }
        assert(matrix@ =~= target);
    }
    matrix
}

/// The test matrix for the given eigenvalues and transformation, or `None`
/// if the transformation is singular to working precision and another one
/// has to be drawn.
pub fn generate_matrix_from<S: Numerical>(
    dimension: Index,
    eigenvalues: Vec<S>,
    transformation: &Vec<S>,
) -> (r: Option<GenerateMatrix<S>>)
    requires
        eigenvalues@.len() == dimension,
        transformation@.len() == dimension * dimension,
    ensures
        match factorize(transformation@, dimension as nat) {
            Some(factors) => r matches Some(generated) && generated.eigenvalues@ == eigenvalues@
                && generated.matrix@ == similar_matrix(
                eigenvalues@,
                transformation@,
                factors,
                dimension as nat,
            ),
            None => r is None,
        },
{
    match LUDecomposition::compute(transformation, dimension) {
        None => None,
        Some(lu) => {
            let matrix = similar_matrix_of(
                eigenvalues.as_slice(),
                transformation.as_slice(),
                &lu,
                dimension,
            );
            Some(GenerateMatrix { matrix, eigenvalues })
        },
    }
}

/// Whether each value is at least the separation away from every value
/// before it.
pub open spec fn pairwise_separated<S: Numerical>(values: Seq<S>) -> bool {
    forall|k: int| 0 <= k < values.len() ==> #[trigger] separated(values, k, values[k])
}

/// Any two of the values are at least the separation apart, whichever is
/// subtracted from the other, if the magnitude of their difference is the
/// same both ways.
pub proof fn lemma_pairwise_separated_both_ways<S: Numerical>(values: Seq<S>, k: int, l: int)
    requires
        pairwise_separated(values),
        0 <= k < values.len(),
        0 <= l < values.len(),
        k != l,
        values[k].sub_spec(values[l]).abs_spec() == values[l].sub_spec(values[k]).abs_spec(),
    ensures
        !values[k].sub_spec(values[l]).abs_spec().lt_spec(values_separation_spec::<S>()),
{
    if l < k {
        assert(separated(values, k, values[k]));
    } else {
        assert(separated(values, l, values[l]));
    }
}

/// Whether each value is one of the draws, spread over `magnitude`.
pub open spec fn drawn_from<S: Numerical>(values: Seq<S>, draws: Seq<S>, magnitude: S) -> bool {
    forall|k: int|
        0 <= k < values.len() ==> exists|j: int|
            0 <= j < draws.len() && #[trigger] values[k] == #[trigger] spread_spec(
                draws[j],
                magnitude,
            )
}

/// Values drawn from a stream are no larger in magnitude than `magnitude`,
/// if the spread of every draw of the stream is no larger: as it is, in
/// exact arithmetic, of draws from `[0, 1)`.
pub proof fn lemma_drawn_values_are_bounded<S: Numerical>(
    values: Seq<S>,
    draws: Seq<S>,
    magnitude: S,
    k: int,
)
    requires
        drawn_from(values, draws, magnitude),
        forall|j: int|
            0 <= j < draws.len() ==> (#[trigger] spread_spec(
                draws[j],
                magnitude,
            )).abs_spec().le_spec(magnitude),
        0 <= k < values.len(),
    ensures
        values[k].abs_spec().le_spec(magnitude),
{
    let j = choose|j: int|
        0 <= j < draws.len() && #[trigger] values[k] == #[trigger] spread_spec(draws[j], magnitude);
    assert(values[k] == spread_spec(draws[j], magnitude));
}

/// The eigenvalues that the draws from number `at` on add to `values`, and
/// the number of the first draw behind them. The draws are taken in turn,
/// each spread over `magnitude`; one that comes closer than the separation
/// to a value already there is passed over. `None` if the draws end before
/// there are `n` values.
pub open spec fn eigenvalues_drawn<S: Numerical>(
    draws: Seq<S>,
    at: nat,
    n: nat,
    magnitude: S,
    values: Seq<S>,
) -> Option<(Seq<S>, nat)>
    decreases draws.len() - at,
{
    if values.len() >= n {
        Some((values, at))
    } else if at >= draws.len() {
        None
    } else {
        let candidate = spread_spec(draws[at as int], magnitude);
        eigenvalues_drawn(
            draws,
            at + 1,
            n,
            magnitude,
            if separated(values, values.len() as int, candidate) {
                values.push(candidate)
            } else {
                values
            },
        )
    }
}

/// Takes `dimension` eigenvalues from the front of `draws`, a stream of
/// draws from `[0, 1)`: returns them with the number of draws used, or
/// `None` if the stream ends too early. No two of the eigenvalues are
/// closer than the separation, and each is a draw spread over the
/// magnitude that belongs to the dimension.
pub fn draw_eigenvalues<S: Numerical>(dimension: Index, draws: &[S]) -> (r: Option<(Vec<S>, Index)>)
    ensures
        match eigenvalues_drawn(
            draws@,
            0,
            dimension as nat,
            values_magnitude_spec::<S>(dimension),
            Seq::empty(),
        ) {
            Some((values, used)) => r matches Some(found) && found.0@ == values && found.1 == used,
            None => r is None,
        },
        r matches Some(found) ==> {
            &&& found.0@.len() == dimension
            &&& found.1 <= draws@.len()
            &&& pairwise_separated(found.0@)
            &&& drawn_from(found.0@, draws@, values_magnitude_spec::<S>(dimension))
        },
{
    let ghost n = dimension as nat;
    let magnitude = values_magnitude::<S>(dimension);
    let mut values: Vec<S> = Vec::new();
    let mut at: Index = 0;
    assert(values@ =~= Seq::empty());
    while values.len() < dimension
        invariant
            at <= draws@.len(),
            values@.len() <= dimension,
            n == dimension,
            magnitude == values_magnitude_spec::<S>(dimension),
            eigenvalues_drawn(draws@, 0, n, magnitude, Seq::empty()) == eigenvalues_drawn(
                draws@,
                at as nat,
                n,
                magnitude,
                values@,
            ),
            pairwise_separated(values@),
            drawn_from(values@, draws@, magnitude),
        decreases draws@.len() - at,
    {
        if at >= draws.len() {
            return None;
        }
        let candidate = spread(draws[at], magnitude);
        if is_separated(values.as_slice(), values.len(), candidate) {
            let ghost before = values@;
            values.push(candidate);
            proof {
                assert forall|k: int| 0 <= k < values@.len() implies #[trigger] separated(
                    values@,
                    k,
                    values@[k],
                ) by {
                    if k < before.len() {
                        assert(separated(before, k, before[k]));
                        assert forall|l: int| 0 <= l < k implies !(#[trigger] values@[k].sub_spec(
                            values@[l],
                        )).abs_spec().lt_spec(values_separation_spec::<S>()) by {
                            assert(values@[l] == before[l]);
                            assert(values@[k] == before[k]);
                        }
                    } else {
                        assert forall|l: int| 0 <= l < k implies !(#[trigger] values@[k].sub_spec(
                            values@[l],
                        )).abs_spec().lt_spec(values_separation_spec::<S>()) by {
                            assert(values@[l] == before[l]);
                        }
                    }
                }
                assert forall|k: int| 0 <= k < values@.len() implies exists|j: int|
                    0 <= j < draws@.len() && #[trigger] values@[k] == #[trigger] spread_spec(
                        draws@[j],
                        magnitude,
                    ) by {
                    if k < before.len() {
                        assert(values@[k] == before[k]);
                        let j = choose|j: int|
                            0 <= j < draws@.len() && #[trigger] before[k] == #[trigger] spread_spec(
                                draws@[j],
                                magnitude,
                            );
                        assert(values@[k] == spread_spec(draws@[j], magnitude));
                    } else {
                        assert(values@[k] == spread_spec(draws@[at as int], magnitude));
                    }
                }
            }
        }
        at += 1;
    }
    Some((values, at))
}

/// The transformation made of the `n·n` draws from number `at` on, each
/// spread over the magnitude `5`.
pub open spec fn transformation_at<S: Numerical>(draws: Seq<S>, at: nat, n: nat) -> Seq<S> {
    Seq::new(n * n, |k: int| spread_spec(draws[at + k], S::from_i32_spec(5)))
}

/// Makes a transformation of the `dimension·dimension` draws from number
/// `at` on.
pub fn transformation_from<S: Numerical>(draws: &[S], at: Index, dimension: Index) -> (r: Vec<S>)
    requires
        dimension * dimension <= usize::MAX,
        at + dimension * dimension <= draws@.len(),
    ensures
        r@ == transformation_at(draws@, at as nat, dimension as nat),
{
    let size = dimension * dimension;
    let magnitude = transformation_magnitude::<S>();
    let mut transformation: Vec<S> = Vec::new();
    let mut k: Index = 0;
    while k < size
        invariant
            k <= size,
            at + size <= draws.len(),
            magnitude == S::from_i32_spec(5),
            transformation@ == Seq::new(
                k as nat,
                |i: int| spread_spec(draws@[at + i], S::from_i32_spec(5)),
            ),
        decreases size - k,
    {
        transformation.push(spread(draws[at + k], magnitude));
        assert(transformation@ =~= Seq::new(
            (k + 1) as nat,
            |i: int| spread_spec(draws@[at + i], S::from_i32_spec(5)),
        ));
        k += 1;
    }
    transformation
}

/// The first transformation that can be factored, with its factors, among
/// those made of the draws from number `at` on, `n·n` draws each. `None` if
/// the draws end before one is found.
pub open spec fn transformation_drawn<S: Numerical>(draws: Seq<S>, at: nat, n: nat) -> Option<
    (Seq<S>, LuFactors<S>),
>
    decreases draws.len() - at,
{
    if at + n * n > draws.len() {
        None
    } else {
        match factorize(transformation_at(draws, at, n), n) {
            Some(factors) => Some((transformation_at(draws, at, n), factors)),
            None => if n * n <= 0 {
                None
            } else {
                transformation_drawn(draws, at + n * n, n)
            },
        }
    }
}

/// The eigenvalues and the matrix that a stream of draws gives: first the
/// eigenvalues, then, from the draws behind them, the first transformation
/// `T` that can be factored, and with both the matrix `T⁻¹·diag(λ)·T`.
pub open spec fn generated<S: Numerical>(draws: Seq<S>, dimension: Index) -> Option<
    (Seq<S>, Seq<S>),
> {
    match eigenvalues_drawn(
        draws,
        0,
        dimension as nat,
        values_magnitude_spec::<S>(dimension),
        Seq::empty(),
    ) {
        None => None,
        Some((eigenvalues, used)) => match transformation_drawn(draws, used, dimension as nat) {
            None => None,
            Some((transformation, factors)) => Some(
                (
                    eigenvalues,
                    similar_matrix(eigenvalues, transformation, factors, dimension as nat),
                ),
            ),
        },
    }
}

/// A test matrix with known eigenvalues, made from `draws`, a stream of
/// draws from `[0, 1)` that is used from its front.
///
/// The eigenvalues come first: each draw, spread over ten times the
/// separation times the dimension, becomes the next eigenvalue unless it is
/// closer than the separation to one already taken. The draws behind them
/// make transformations, `dimension·dimension` draws each, until one can be
/// factored. Returns `None` if the stream ends before that.
pub fn generate_matrix<S: Numerical>(dimension: Index, draws: &[S]) -> (r: Option<
    GenerateMatrix<S>,
>)
    requires
        dimension * dimension <= usize::MAX,
    ensures
        match generated(draws@, dimension) {
            Some((eigenvalues, matrix)) => r matches Some(g) && g.eigenvalues@ == eigenvalues
                && g.matrix@ == matrix,
            None => r is None,
        },
        r matches Some(g) ==> {
            &&& g.eigenvalues@.len() == dimension
            &&& g.matrix@.len() == dimension * dimension
            &&& pairwise_separated(g.eigenvalues@)
            &&& drawn_from(g.eigenvalues@, draws@, values_magnitude_spec::<S>(dimension))
        },
{
    let ghost n = dimension as nat;
    let size = dimension * dimension;
    let (eigenvalues, used) = match draw_eigenvalues(dimension, draws) {
        None => { return None; },
        Some(found) => found,
    };
    let mut at: Index = used;
    loop
        invariant
            n == dimension,
            size == dimension * dimension,
            at <= draws.len(),
            eigenvalues@.len() == dimension,
            eigenvalues_drawn(
                draws@,
                0,
                n,
                values_magnitude_spec::<S>(dimension),
                Seq::empty(),
            ) == Some((eigenvalues@, used as nat)),
            pairwise_separated(eigenvalues@),
            drawn_from(eigenvalues@, draws@, values_magnitude_spec::<S>(dimension)),
            transformation_drawn(draws@, used as nat, n) == transformation_drawn(
                draws@,
                at as nat,
                n,
            ),
        decreases draws.len() - at,
    {
        if size > draws.len() - at {
            return None;
        }
        let transformation = transformation_from(draws, at, dimension);
        match LUDecomposition::compute(&transformation, dimension) {
            Some(lu) => {
                let matrix = similar_matrix_of(
                    eigenvalues.as_slice(),
                    transformation.as_slice(),
                    &lu,
                    dimension,
                );
                return Some(GenerateMatrix { matrix, eigenvalues });
            },
            None => {
                if size == 0 {
                    return None;
                }
                at += size;
            },
        }
    }
}

} // verus!
