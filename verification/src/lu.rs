//! Pivoted LU factorisation of a dense square matrix, and the solve by
//! forward and backward substitution that uses it.

use vstd::prelude::*;
use vstd::slice::{slice_subrange, slice_to_vec};
use crate::layout::{cell, cell_index, column_of, filled, row_of, row_start, table};
use crate::layout::{lemma_cell_bounds, lemma_cell_div_mod, lemma_position_is_cell};
use crate::scalar::{min_pivot, min_pivot_spec, one, one_spec, Index, Numerical, OtherNumericalOps};

verus! {

/// The sum of the first `count` products `x[i] * y[i]`, added up from zero
/// in the order of the indices.
pub open spec fn dot_prefix<S: Numerical>(x: Seq<S>, y: Seq<S>, count: nat) -> S
    decreases count,
{
    if count == 0 {
        S::zero_spec()
    } else {
        dot_prefix(x, y, (count - 1) as nat).add_spec(x[count - 1].mul_spec(y[count - 1]))
    }
}

/// The dot product of two sequences of one length.
pub open spec fn dot_spec<S: Numerical>(x: Seq<S>, y: Seq<S>) -> S {
    dot_prefix(x, y, x.len())
}

/// The dot product of `x` and `y`.
pub fn dot_product<S: Numerical>(x: &[S], y: &[S]) -> (r: S)
    requires
        x@.len() == y@.len(),
    ensures
        r == dot_spec(x@, y@),
{
    let mut r = S::zero();
    let mut i: Index = 0;
    while i < x.len()
        invariant
            x@.len() == y@.len(),
            i <= x@.len(),
            r == dot_prefix(x@, y@, i as nat),
        decreases x@.len() - i,
    {
        r = r.add(x[i].mul(y[i]));
        i += 1;
    }
    r
}

/// Selects backward substitution over an upper triangular factor.
pub const UPPER: Index = 0;

/// Selects forward substitution over a lower triangular factor.
pub const LOWER: Index = 1;

/// Whether every entry of `permutation` is an index into it.
pub open spec fn in_range(permutation: Seq<Index>) -> bool {
    forall|i: int| 0 <= i < permutation.len() ==> (#[trigger] permutation[i]) < permutation.len()
}

/// The row that substitution step number `step` solves for: the pivots in
/// order for a lower factor, in reverse order for an upper one.
pub open spec fn pivot_at(permutation: Seq<Index>, triangularity: Index, step: int) -> int {
    if triangularity == UPPER {
        permutation[permutation.len() - 1 - step] as int
    } else {
        permutation[step] as int
    }
}

/// One substitution step: unknown `k` becomes what is left of `x[k]` after
/// the dot product of row `k` with the other unknowns, divided by the
/// diagonal entry. The dot product runs over the whole row, with unknown `k`
/// itself taken as zero.
pub open spec fn substitute_at<S: Numerical>(
    matrix: Seq<S>,
    dimension: nat,
    k: int,
    x: Seq<S>,
) -> Seq<S> {
    let cleared = x.update(k, S::zero_spec());
    cleared.update(
        k,
        x[k].sub_spec(dot_spec(row_of(matrix, dimension, k), cleared)).div_spec(
            matrix[cell(dimension, k, k)],
        ),
    )
}

/// The first `steps` substitution steps, applied to `x` one after another.
pub open spec fn substitute<S: Numerical>(
    matrix: Seq<S>,
    permutation: Seq<Index>,
    triangularity: Index,
    x: Seq<S>,
    steps: nat,
) -> Seq<S>
    decreases steps,
{
    if steps == 0 {
        x
    } else {
        substitute_at(
            matrix,
            permutation.len(),
            pivot_at(permutation, triangularity, steps - 1),
            substitute(matrix, permutation, triangularity, x, (steps - 1) as nat),
        )
    }
}

/// Substitution keeps the number of unknowns.
pub proof fn lemma_substitute_len<S: Numerical>(
    matrix: Seq<S>,
    permutation: Seq<Index>,
    triangularity: Index,
    x: Seq<S>,
    steps: nat,
)
    requires
        in_range(permutation),
        x.len() == permutation.len(),
        steps <= permutation.len(),
    ensures
        substitute(matrix, permutation, triangularity, x, steps).len() == x.len(),
    decreases steps,
{
    if steps > 0 {
        lemma_substitute_len(matrix, permutation, triangularity, x, (steps - 1) as nat);
    }
}

/// Solves a triangular system in place, unknown after unknown in pivot order.
fn triangular_solve<S: Numerical, const TRIANGULARITY: usize>(
    matrix: &Vec<S>,
    permutation: &Vec<Index>,
    x: &mut Vec<S>,
)
    requires
        TRIANGULARITY == UPPER || TRIANGULARITY == LOWER,
        matrix@.len() == permutation@.len() * permutation@.len(),
        old(x)@.len() == permutation@.len(),
        in_range(permutation@),
    ensures
        final(x)@ == substitute(
            matrix@,
            permutation@,
            TRIANGULARITY,
            old(x)@,
            permutation@.len(),
        ),
        final(x)@.len() == old(x)@.len(),
{
    let dimension = permutation.len();
    assert(matrix@.len() == matrix.len());
    let mut kk: Index = 0;
    while kk < dimension
        invariant
            TRIANGULARITY == UPPER || TRIANGULARITY == LOWER,
            dimension == permutation@.len(),
            matrix@.len() == dimension * dimension,
            dimension * dimension <= usize::MAX,
            x@.len() == dimension,
            in_range(permutation@),
            kk <= dimension,
            x@ == substitute(matrix@, permutation@, TRIANGULARITY, old(x)@, kk as nat),
        decreases dimension - kk,
    {
        let k = if TRIANGULARITY == UPPER {
            permutation[dimension - 1 - kk]
        } else {
            permutation[kk]
        };
        assert(k == pivot_at(permutation@, TRIANGULARITY, kk as int));
        let v = x[k];
        x[k] = S::zero();
        let start = row_start(dimension, k);
        let row = slice_subrange(matrix.as_slice(), start, start + dimension);
        let sum = dot_product(row, x.as_slice());
        let diagonal = matrix[cell_index(dimension, k, k)];
        x[k] = v.sub(sum).div(diagonal);
        kk += 1;
    }
}

/// What a factorisation holds: the two factors, stored row after row, and
/// the rows in the order in which they served as pivots.
///
/// Column `p` of either factor belongs to the elimination step at which row
/// `p` was the pivot, and `lower` has a unit diagonal. With rows and columns
/// taken in pivot order, the two are the factors `L` and `U` of
/// `P·A = L·U`.
pub struct LuFactors<S> {
    pub lower: Seq<S>,
    pub upper: Seq<S>,
    pub permutation: Seq<Index>,
    pub inverse_permutation: Seq<Index>,
}

/// Whether `p` and `q` are permutations of `0..n` that undo each other.
pub open spec fn mutually_inverse(p: Seq<Index>, q: Seq<Index>) -> bool {
    &&& p.len() == q.len()
    &&& forall|i: int|
        0 <= i < p.len() ==> (#[trigger] p[i]) < p.len() && q[p[i] as int] == i
    &&& forall|i: int|
        0 <= i < q.len() ==> (#[trigger] q[i]) < q.len() && p[q[i] as int] == i
}

impl<S> LuFactors<S> {
    /// Number of rows and columns of the factored matrix.
    pub open spec fn dimension(self) -> nat {
        self.permutation.len()
    }

    /// The buffers fit the dimension and every recorded row is a row.
    pub open spec fn shaped(self) -> bool {
        &&& self.lower.len() == self.dimension() * self.dimension()
        &&& self.upper.len() == self.dimension() * self.dimension()
        &&& self.inverse_permutation.len() == self.dimension()
        &&& in_range(self.permutation)
        &&& in_range(self.inverse_permutation)
    }

    /// Shaped, and the two permutations undo each other.
    pub open spec fn wf(self) -> bool {
        &&& self.shaped()
        &&& mutually_inverse(self.permutation, self.inverse_permutation)
    }
}

impl<S: Numerical> LuFactors<S> {
    /// With rows and columns taken in pivot order, `lower` is lower
    /// triangular with a unit diagonal and `upper` is upper triangular.
    pub open spec fn triangular(self) -> bool {
        let n = self.dimension();
        let p = self.permutation;
        forall|a: int, b: int|
            0 <= a < n && 0 <= b < n ==> {
                &&& a == b ==> self.lower[#[trigger] cell(n, p[a] as int, p[b] as int)]
                    == one_spec::<S>()
                &&& a < b ==> self.lower[cell(n, p[a] as int, p[b] as int)] == S::zero_spec()
                &&& a > b ==> self.upper[cell(n, p[a] as int, p[b] as int)] == S::zero_spec()
            }
    }
}

/// The solution that the factors give for the right-hand side `x`: forward
/// substitution over `lower`, backward substitution over `upper`, then the
/// unknowns read in pivot order.
pub open spec fn solve_spec<S: Numerical>(factors: LuFactors<S>, x: Seq<S>) -> Seq<S> {
    let forward = substitute(factors.lower, factors.permutation, LOWER, x, factors.dimension());
    let backward = substitute(
        factors.upper,
        factors.permutation,
        UPPER,
        forward,
        factors.dimension(),
    );
    Seq::new(x.len(), |i: int| backward[factors.permutation[i] as int])
}

/// State of the elimination between two columns: the factors as far as they
/// are filled, and which rows have served as a pivot.
pub struct Elimination<S> {
    pub factors: LuFactors<S>,
    pub row_used: Seq<bool>,
}

impl<S> Elimination<S> {
    /// The state made of the given parts.
    pub open spec fn of(
        lower: Seq<S>,
        upper: Seq<S>,
        permutation: Seq<Index>,
        inverse_permutation: Seq<Index>,
        row_used: Seq<bool>,
    ) -> Self {
        Elimination {
            factors: LuFactors { lower, upper, permutation, inverse_permutation },
            row_used,
        }
    }

    /// The state fits dimension `n` after `k` columns: the permutations undo
    /// each other and the rows used so far are those at the first `k`
    /// positions of the pivot order.
    pub open spec fn wf_at(self, n: nat, k: nat) -> bool {
        &&& self.factors.dimension() == n
        &&& self.factors.wf()
        &&& self.row_used.len() == n
        &&& forall|i: int|
            0 <= i < n ==> (#[trigger] self.row_used[i]) == (self.factors.inverse_permutation[i]
                < k)
    }
}

impl<S: Numerical> Elimination<S> {
    /// After `k` columns the factors are triangular as far as they are
    /// filled: off its unit diagonal, `lower` is zero except in the column
    /// of an earlier pivot and there only in rows that come later in the
    /// pivot order; `upper` is zero except in the column of an earlier pivot
    /// and there only in rows that do not come later.
    pub open spec fn triangular_at(self, n: nat, k: nat) -> bool {
        let q = self.factors.inverse_permutation;
        &&& forall|i: int, p: int|
            0 <= i < n && 0 <= p < n ==> self.factors.lower[#[trigger] cell(n, i, p)] == (if i
                == p {
                one_spec::<S>()
            } else {
                S::zero_spec()
            }) || (i != p && q[p] < k && q[p] < q[i])
        &&& forall|i: int, p: int|
            0 <= i < n && 0 <= p < n ==> self.factors.upper[#[trigger] cell(n, i, p)]
                == S::zero_spec() || (q[p] < k && q[i] <= q[p])
    }
}

/// The state before the first column: `lower` is the identity, `upper` is
/// zero, both permutations are the identity and no row is used.
pub open spec fn elimination_start<S: Numerical>(n: nat) -> Elimination<S> {
    Elimination {
        factors: LuFactors {
            lower: table(
                n,
                |i: int, j: int|
                    if i == j {
                        one_spec::<S>()
                    } else {
                        S::zero_spec()
                    },
            ),
            upper: table(n, |i: int, j: int| S::zero_spec()),
            permutation: Seq::new(n, |i: int| i as Index),
            inverse_permutation: Seq::new(n, |i: int| i as Index),
        },
        row_used: Seq::new(n, |i: int| false),
    }
}

/// The pivot among the first `count` rows: an unused row takes over from a
/// used one, and from an unused one only with a strictly larger magnitude, so
/// that the first of several equally large candidates stays.
pub open spec fn pivot_candidate<S: Numerical>(
    column: Seq<S>,
    row_used: Seq<bool>,
    count: nat,
) -> int
    decreases count,
{
    if count == 0 {
        0
    } else {
        let best = pivot_candidate(column, row_used, (count - 1) as nat);
        let i = count - 1;
        if !row_used[i] && (row_used[best] || column[best].abs_spec().lt_spec(
            column[i].abs_spec(),
        )) {
            i
        } else {
            best
        }
    }
}

/// Column `k` of the matrix after the eliminations recorded so far.
pub open spec fn candidate_column<S: Numerical>(
    matrix: Seq<S>,
    n: nat,
    state: Elimination<S>,
    k: int,
) -> Seq<S> {
    substitute(state.factors.lower, state.factors.permutation, LOWER, column_of(matrix, n, k), n)
}

/// The permutation with `pivot_row` moved to position `k`, by exchanging it
/// with the row that was there.
pub open spec fn pivot_order(p: Seq<Index>, q: Seq<Index>, k: int, pivot_row: int) -> Seq<
    Index,
> {
    p.update(k, pivot_row as Index).update(q[pivot_row] as int, p[k])
}

/// The inverse of `pivot_order`.
pub open spec fn pivot_position(p: Seq<Index>, q: Seq<Index>, k: int, pivot_row: int) -> Seq<
    Index,
> {
    q.update(pivot_row, k as Index).update(p[k] as int, q[pivot_row])
}

/// Elimination of column `k`. Fails when the pivot is smaller in magnitude
/// than the tolerance. Otherwise the pivot row is marked as used, column
/// `pivot_row` of `upper` takes the candidates of the used rows, column
/// `pivot_row` of `lower` those of the other rows divided by the pivot, and
/// the pivot row moves to position `k` of the pivot order.
pub open spec fn eliminate_column<S: Numerical>(
    matrix: Seq<S>,
    n: nat,
    state: Elimination<S>,
    k: int,
) -> Option<Elimination<S>> {
    let column = candidate_column(matrix, n, state, k);
    let pivot_row = pivot_candidate(column, state.row_used, n);
    let pivot_value = column[pivot_row];
    if pivot_value.abs_spec().lt_spec(min_pivot_spec::<S>()) {
        None
    } else {
        let row_used = state.row_used.update(pivot_row, true);
        Some(
            Elimination {
                factors: LuFactors {
                    lower: table(
                        n,
                        |i: int, j: int|
                            if j == pivot_row && !row_used[i] {
                                column[i].div_spec(pivot_value)
                            } else {
                                state.factors.lower[cell(n, i, j)]
                            },
                    ),
                    upper: table(
                        n,
                        |i: int, j: int|
                            if j == pivot_row && row_used[i] {
                                column[i]
                            } else {
                                state.factors.upper[cell(n, i, j)]
                            },
                    ),
                    permutation: pivot_order(
                        state.factors.permutation,
                        state.factors.inverse_permutation,
                        k,
                        pivot_row,
                    ),
                    inverse_permutation: pivot_position(
                        state.factors.permutation,
                        state.factors.inverse_permutation,
                        k,
                        pivot_row,
                    ),
                },
                row_used,
            },
        )
    }
}

/// The state after the first `k` columns, or `None` if one of them had no
/// usable pivot.
pub open spec fn eliminate<S: Numerical>(matrix: Seq<S>, n: nat, k: nat) -> Option<
    Elimination<S>,
>
    decreases k,
{
    if k == 0 {
        Some(elimination_start(n))
    } else {
        match eliminate(matrix, n, (k - 1) as nat) {
            None => None,
            Some(state) => eliminate_column(matrix, n, state, k - 1),
        }
    }
}

/// The factors of an `n`-square matrix, or `None` if it is singular to
/// working precision.
pub open spec fn factorize<S: Numerical>(matrix: Seq<S>, n: nat) -> Option<LuFactors<S>> {
    match eliminate(matrix, n, n) {
        None => None,
        Some(state) => Some(state.factors),
    }
}

/// Once a column has no usable pivot, the factorisation has failed.
pub proof fn lemma_eliminate_stays_failed<S: Numerical>(matrix: Seq<S>, n: nat, k: nat, m: nat)
    requires
        k <= m,
        eliminate(matrix, n, k) is None,
    ensures
        eliminate(matrix, n, m) is None,
    decreases m,
{
    if k < m {
        lemma_eliminate_stays_failed(matrix, n, k, (m - 1) as nat);
    }
}

/// The pivot candidate is one of the rows seen, and an unused one if any of
/// them is unused.
pub proof fn lemma_pivot_candidate<S: Numerical>(column: Seq<S>, row_used: Seq<bool>, count: nat)
    ensures
        0 <= pivot_candidate(column, row_used, count),
        count > 0 ==> pivot_candidate(column, row_used, count) < count,
        (exists|i: int| 0 <= i < count && !row_used[i]) ==> !row_used[pivot_candidate(
            column,
            row_used,
            count,
        )],
    decreases count,
{
    if count > 0 {
        lemma_pivot_candidate(column, row_used, (count - 1) as nat);
        let best = pivot_candidate(column, row_used, (count - 1) as nat);
        if exists|i: int| 0 <= i < count && !row_used[i] {
            let j = choose|i: int| 0 <= i < count && !row_used[i];
            if j < count - 1 {
                assert(0 <= j < count - 1 && !row_used[j]);
            }
        }
    }
}

/// No unused row after the pivot offers a strictly larger magnitude than
/// the pivot: among candidates of the largest magnitude the first is taken.
pub proof fn lemma_pivot_candidate_is_first<S: Numerical>(
    column: Seq<S>,
    row_used: Seq<bool>,
    count: nat,
)
    ensures
        forall|i: int|
            pivot_candidate(column, row_used, count) < i < count && !row_used[i]
                && !row_used[pivot_candidate(column, row_used, count)] ==> !column[pivot_candidate(
                column,
                row_used,
                count,
            )].abs_spec().lt_spec(#[trigger] column[i].abs_spec()),
    decreases count,
{
    if count > 0 {
        lemma_pivot_candidate_is_first(column, row_used, (count - 1) as nat);
        lemma_pivot_candidate(column, row_used, (count - 1) as nat);
    }
}

/// The start state is well-formed.
pub proof fn lemma_elimination_start_wf<S: Numerical>(n: nat)
    requires
        n <= usize::MAX,
    ensures
        elimination_start::<S>(n).wf_at(n, 0),
{
    assert(n * n >= 0) by (nonlinear_arith);
    let start = elimination_start::<S>(n);
    assert forall|i: int| 0 <= i < n implies (#[trigger] start.factors.permutation[i]) == i by {}
    assert forall|i: int| 0 <= i < n implies (#[trigger] start.factors.inverse_permutation[i])
        == i by {}
}

/// Recording a fresh pivot row at position `k` keeps the permutations
/// inverse to each other, keeps the earlier pivots in place, and makes the
/// used rows those at the first `k + 1` positions.
pub proof fn lemma_record_pivot(
    p: Seq<Index>,
    q: Seq<Index>,
    row_used: Seq<bool>,
    k: nat,
    pivot_row: int,
)
    requires
        mutually_inverse(p, q),
        row_used.len() == p.len(),
        k < p.len(),
        0 <= pivot_row < p.len(),
        !row_used[pivot_row],
        forall|i: int| 0 <= i < p.len() ==> (#[trigger] row_used[i]) == (q[i] < k),
    ensures
        mutually_inverse(pivot_order(p, q, k as int, pivot_row), pivot_position(p, q, k as int, pivot_row)),
        pivot_order(p, q, k as int, pivot_row).len() == p.len(),
        pivot_order(p, q, k as int, pivot_row)[k as int] == pivot_row,
        forall|j: int| 0 <= j < k ==> pivot_order(p, q, k as int, pivot_row)[j] == p[j],
        forall|i: int|
            0 <= i < p.len() ==> (#[trigger] row_used.update(pivot_row, true)[i]) == (
            pivot_position(p, q, k as int, pivot_row)[i] < k + 1),
{
    let n = p.len();
    let ipr = q[pivot_row];
    let pk = p[k as int];
    let p_next = pivot_order(p, q, k as int, pivot_row);
    let q_next = pivot_position(p, q, k as int, pivot_row);
    assert(p[ipr as int] == pivot_row);
    assert(q[pk as int] == k);
    assert(ipr >= k);
    assert forall|i: int| 0 <= i < n implies (#[trigger] p_next[i]) < n && q_next[p_next[i] as int] == i by {
        assert(q[p[i] as int] == i);
    }
    assert forall|i: int| 0 <= i < n implies (#[trigger] q_next[i]) < n && p_next[q_next[i] as int] == i by {
        assert(p[q[i] as int] == i);
    }
    assert forall|j: int| 0 <= j < k implies p_next[j] == p[j] by {
        assert(q[p[j] as int] == j);
    }
    assert forall|i: int| 0 <= i < n implies (#[trigger] row_used.update(pivot_row, true)[i]) == (
    q_next[i] < k + 1) by {
        assert(p[q[i] as int] == i);
        assert(row_used[i] == (q[i] < k));
    }
}

/// The start state is triangular.
pub proof fn lemma_elimination_start_triangular<S: Numerical>(n: nat)
    ensures
        elimination_start::<S>(n).triangular_at(n, 0),
{
    let start = elimination_start::<S>(n);
    assert(n * n >= 0) by (nonlinear_arith);
    assert forall|i: int, p: int| 0 <= i < n && 0 <= p < n implies start.factors.lower[#[trigger] cell(
        n,
        i,
        p,
    )] == (if i == p {
        one_spec::<S>()
    } else {
        S::zero_spec()
    }) && start.factors.upper[cell(n, i, p)] == S::zero_spec() by {
        lemma_cell_bounds(n, i, p);
        lemma_cell_div_mod(n, i, p);
    }
}

/// Elimination of a column keeps the factors triangular as far as filled.
pub proof fn lemma_eliminate_column_triangular<S: Numerical>(
    matrix: Seq<S>,
    n: nat,
    state: Elimination<S>,
    k: nat,
)
    requires
        state.wf_at(n, k),
        state.triangular_at(n, k),
        k < n,
    ensures
        eliminate_column(matrix, n, state, k as int) matches Some(next) ==> next.triangular_at(
            n,
            k + 1,
        ),
{
    lemma_eliminate_column_wf(matrix, n, state, k);
    match eliminate_column(matrix, n, state, k as int) {
        None => {},
        Some(next) => {
            let column = candidate_column(matrix, n, state, k as int);
            let pivot_row = pivot_candidate(column, state.row_used, n);
            let p_before = state.factors.permutation;
            let q_before = state.factors.inverse_permutation;
            let q_after = next.factors.inverse_permutation;
            let pk = p_before[k as int] as int;
            assert(q_before[pk] == k);
            assert(n * n >= 0) by (nonlinear_arith);
            assert forall|i: int| 0 <= i < n implies (q_before[i] < k ==> q_after[i] == q_before[i]) && (q_before[i] >= k
                ==> q_after[i] >= k) by {
                assert(state.row_used[i] == (q_before[i] < k));
                assert(p_before[q_before[i] as int] == i);
            }
            assert forall|i: int, p: int| 0 <= i < n && 0 <= p < n implies next.factors.lower[#[trigger] cell(
                n,
                i,
                p,
            )] == (if i == p {
                one_spec::<S>()
            } else {
                S::zero_spec()
            }) || (i != p && q_after[p] < k + 1 && q_after[p] < q_after[i]) by {
                lemma_cell_bounds(n, i, p);
                lemma_cell_div_mod(n, i, p);
                assert(next.row_used[i] == (q_after[i] < k + 1));
                assert(next.row_used[p] == (q_after[p] < k + 1));
                assert(state.row_used[p] == (q_before[p] < k));
                assert(state.row_used[i] == (q_before[i] < k));
            }
            assert forall|i: int, p: int| 0 <= i < n && 0 <= p < n implies next.factors.upper[#[trigger] cell(
                n,
                i,
                p,
            )] == S::zero_spec() || (q_after[p] < k + 1 && q_after[i] <= q_after[p]) by {
                lemma_cell_bounds(n, i, p);
                lemma_cell_div_mod(n, i, p);
                assert(next.row_used[i] == (q_after[i] < k + 1));
                assert(next.row_used[p] == (q_after[p] < k + 1));
                assert(state.row_used[p] == (q_before[p] < k));
                assert(state.row_used[i] == (q_before[i] < k));
            }
        },
    }
}

/// Once every column is eliminated, the factors are triangular in pivot
/// order.
pub proof fn lemma_triangular_at_end<S: Numerical>(state: Elimination<S>, n: nat)
    requires
        state.wf_at(n, n),
        state.triangular_at(n, n),
    ensures
        state.factors.triangular(),
{
    let p = state.factors.permutation;
    let q = state.factors.inverse_permutation;
    assert forall|a: int, b: int| 0 <= a < n && 0 <= b < n implies {
        &&& a == b ==> state.factors.lower[#[trigger] cell(n, p[a] as int, p[b] as int)]
            == one_spec::<S>()
        &&& a < b ==> state.factors.lower[cell(n, p[a] as int, p[b] as int)] == S::zero_spec()
        &&& a > b ==> state.factors.upper[cell(n, p[a] as int, p[b] as int)] == S::zero_spec()
    } by {
        assert(q[p[a] as int] == a);
        assert(q[p[b] as int] == b);
    }
}

/// The factors of every matrix that can be factored are well-formed and
/// triangular in pivot order.
pub proof fn lemma_factorize_wf<S: Numerical>(matrix: Seq<S>, n: nat)
    requires
        n <= usize::MAX,
    ensures
        factorize(matrix, n) matches Some(factors) ==> factors.wf() && factors.dimension() == n
            && factors.triangular(),
{
    lemma_eliminate_wf(matrix, n, n);
    if let Some(state) = eliminate(matrix, n, n) {
        lemma_triangular_at_end(state, n);
    }
}

/// Every state that the elimination reaches is well-formed and triangular
/// as far as filled.
pub proof fn lemma_eliminate_wf<S: Numerical>(matrix: Seq<S>, n: nat, k: nat)
    requires
        n <= usize::MAX,
        k <= n,
    ensures
        eliminate(matrix, n, k) matches Some(state) ==> state.wf_at(n, k) && state.triangular_at(
            n,
            k,
        ),
    decreases k,
{
    if k == 0 {
        lemma_elimination_start_wf::<S>(n);
        lemma_elimination_start_triangular::<S>(n);
    } else {
        lemma_eliminate_wf(matrix, n, (k - 1) as nat);
        if let Some(state) = eliminate(matrix, n, (k - 1) as nat) {
            lemma_eliminate_column_wf(matrix, n, state, (k - 1) as nat);
            lemma_eliminate_column_triangular(matrix, n, state, (k - 1) as nat);
        }
    }
}

/// Whether adding `x·0` to zero gives zero, as it does for every finite `x`
/// in rounded arithmetic.
pub open spec fn vanishes_on_zero<S: Numerical>(x: S) -> bool {
    S::zero_spec().add_spec(x.mul_spec(S::zero_spec())) == S::zero_spec()
}

/// What the arithmetic has to know of zero for a zero column to be seen as
/// one: `0 − 0` and `0 / 1` are zero, and the magnitude of zero is zero and
/// below the pivot tolerance.
pub open spec fn zero_is_plain<S: Numerical>() -> bool {
    &&& S::zero_spec().sub_spec(S::zero_spec()) == S::zero_spec()
    &&& S::zero_spec().div_spec(one_spec::<S>()) == S::zero_spec()
    &&& S::zero_spec().abs_spec() == S::zero_spec()
    &&& S::zero_spec().lt_spec(min_pivot_spec::<S>())
}

/// The dot product of a row with the zero vector is zero if every entry of
/// the row vanishes on zero.
pub proof fn lemma_dot_with_zeros<S: Numerical>(row: Seq<S>, zeros: Seq<S>, count: nat)
    requires
        count <= row.len(),
        count <= zeros.len(),
        forall|i: int| 0 <= i < count ==> vanishes_on_zero(#[trigger] row[i]),
        forall|i: int| 0 <= i < count ==> (#[trigger] zeros[i]) == S::zero_spec(),
    ensures
        dot_prefix(row, zeros, count) == S::zero_spec(),
    decreases count,
{
    if count > 0 {
        lemma_dot_with_zeros(row, zeros, (count - 1) as nat);
        assert(vanishes_on_zero(row[count - 1]));
    }
}

/// Forward substitution over a lower factor with a unit diagonal sends the
/// zero vector to itself, if every entry of the factor vanishes on zero.
pub proof fn lemma_substitute_zeros<S: Numerical>(
    lower: Seq<S>,
    permutation: Seq<Index>,
    steps: nat,
)
    requires
        zero_is_plain::<S>(),
        in_range(permutation),
        steps <= permutation.len(),
        lower.len() == permutation.len() * permutation.len(),
        forall|p: int| 0 <= p < lower.len() ==> vanishes_on_zero(#[trigger] lower[p]),
        forall|i: int|
            0 <= i < permutation.len() ==> lower[#[trigger] cell(permutation.len(), i, i)]
                == one_spec::<S>(),
    ensures
        substitute(
            lower,
            permutation,
            LOWER,
            Seq::new(permutation.len(), |i: int| S::zero_spec()),
            steps,
        ) == Seq::new(permutation.len(), |i: int| S::zero_spec()),
    decreases steps,
{
    if steps > 0 {
        let n = permutation.len();
        let zeros = Seq::new(n, |i: int| S::zero_spec());
        lemma_substitute_zeros(lower, permutation, (steps - 1) as nat);
        let k = pivot_at(permutation, LOWER, steps - 1);
        assert(k == permutation[steps - 1]);
        let cleared = zeros.update(k, S::zero_spec());
        assert(cleared =~= zeros);
        lemma_cell_bounds(n, k, 0);
        let row = row_of(lower, n, k);
        assert forall|i: int| 0 <= i < n implies vanishes_on_zero(#[trigger] row[i]) by {
            assert(row[i] == lower[cell(n, k, 0) + i]);
        }
        lemma_dot_with_zeros(row, zeros, n);
        assert(lower[cell(n, k, k)] == one_spec::<S>());
        assert(substitute_at(lower, n, k, zeros) =~= zeros);
    }
}

/// A matrix with a zero column cannot be factored, provided that the
/// arithmetic treats zero plainly and every entry of the lower factor, as
/// it stands when that column is reached, vanishes on zero.
pub proof fn lemma_zero_column_is_singular<S: Numerical>(matrix: Seq<S>, n: nat, k: nat)
    requires
        n <= usize::MAX,
        matrix.len() == n * n,
        k < n,
        forall|i: int| 0 <= i < n ==> matrix[#[trigger] cell(n, i, k as int)] == S::zero_spec(),
        zero_is_plain::<S>(),
        eliminate(matrix, n, k) matches Some(state) ==> forall|p: int|
            0 <= p < n * n ==> vanishes_on_zero(#[trigger] state.factors.lower[p]),
    ensures
        factorize(matrix, n) is None,
{
    match eliminate(matrix, n, k) {
        None => {
            lemma_eliminate_stays_failed(matrix, n, k, n);
        },
        Some(state) => {
            lemma_eliminate_wf(matrix, n, k);
            lemma_eliminate_column_wf(matrix, n, state, k);
            let zeros = Seq::new(n, |i: int| S::zero_spec());
            assert(column_of(matrix, n, k as int) =~= zeros);
            assert forall|i: int| 0 <= i < n implies state.factors.lower[#[trigger] cell(n, i, i)]
                == one_spec::<S>() by {}
            lemma_substitute_zeros(state.factors.lower, state.factors.permutation, n);
            let column = candidate_column(matrix, n, state, k as int);
            assert(column == zeros);
            assert(eliminate_column(matrix, n, state, k as int) is None);
            assert(eliminate(matrix, n, (k + 1) as nat) is None);
            lemma_eliminate_stays_failed(matrix, n, (k + 1) as nat, n);
        },
    }
}

/// Forward substitution settles every unknown at the step of its row:
/// before that step the unknown is as given, after it as that step left it.
pub proof fn lemma_substitute_entry<S: Numerical>(
    lower: Seq<S>,
    permutation: Seq<Index>,
    inverse_permutation: Seq<Index>,
    x: Seq<S>,
    steps: nat,
    j: int,
)
    requires
        mutually_inverse(permutation, inverse_permutation),
        x.len() == permutation.len(),
        steps <= permutation.len(),
        0 <= j < permutation.len(),
    ensures
        inverse_permutation[j] >= steps ==> substitute(lower, permutation, LOWER, x, steps)[j]
            == x[j],
        inverse_permutation[j] < steps ==> substitute(lower, permutation, LOWER, x, steps)[j]
            == substitute(
            lower,
            permutation,
            LOWER,
            x,
            (inverse_permutation[j] + 1) as nat,
        )[j],
    decreases steps,
{
    if steps > 0 {
        let before = substitute(lower, permutation, LOWER, x, (steps - 1) as nat);
        lemma_substitute_entry(lower, permutation, inverse_permutation, x, (steps - 1) as nat, j);
        lemma_substitute_len(lower, permutation, LOWER, x, (steps - 1) as nat);
        let k = pivot_at(permutation, LOWER, steps - 1);
        assert(k == permutation[steps - 1]);
        assert(inverse_permutation[k] == steps - 1);
        assert(permutation[inverse_permutation[j] as int] == j);
    }
}

/// Whether, when forward substitution for column `k` reaches row `r` in the
/// given state, the products of that row of the lower factor with the
/// unknowns as they stand add nothing to zero, as they do where the row of
/// the factor is zero beside its diagonal and the unknowns are finite.
pub open spec fn row_adds_nothing_in<S: Numerical>(
    matrix: Seq<S>,
    n: nat,
    state: Elimination<S>,
    k: nat,
    r: int,
) -> bool {
    let before = substitute(
        state.factors.lower,
        state.factors.permutation,
        LOWER,
        column_of(matrix, n, k as int),
        state.factors.inverse_permutation[r] as nat,
    );
    forall|c: int|
        0 <= c < n ==> S::zero_spec().add_spec(
            (#[trigger] state.factors.lower[cell(n, r, c)]).mul_spec(
                before.update(r, S::zero_spec())[c],
            ),
        ) == S::zero_spec()
}

/// The same for the state in which the elimination reaches column `k`, if
/// it does.
pub open spec fn row_adds_nothing<S: Numerical>(matrix: Seq<S>, n: nat, k: nat, r: int) -> bool {
    eliminate(matrix, n, k) is Some ==> row_adds_nothing_in(
        matrix,
        n,
        eliminate(matrix, n, k)->0,
        k,
        r,
    )
}

/// A dot product whose every product adds nothing to zero is zero.
pub proof fn lemma_dot_adds_nothing<S: Numerical>(row: Seq<S>, x: Seq<S>, count: nat)
    requires
        forall|c: int|
            0 <= c < count ==> S::zero_spec().add_spec((#[trigger] row[c]).mul_spec(x[c]))
                == S::zero_spec(),
    ensures
        dot_prefix(row, x, count) == S::zero_spec(),
    decreases count,
{
    if count > 0 {
        lemma_dot_adds_nothing(row, x, (count - 1) as nat);
        assert(S::zero_spec().add_spec(row[count - 1].mul_spec(x[count - 1])) == S::zero_spec());
    }
}

/// The candidate of a zero row is zero.
pub proof fn lemma_zero_row_candidate<S: Numerical>(
    matrix: Seq<S>,
    n: nat,
    state: Elimination<S>,
    k: nat,
    r: int,
)
    requires
        0 <= r < n,
        k < n,
        matrix.len() == n * n,
        eliminate(matrix, n, k) == Some(state),
        state.wf_at(n, k),
        state.triangular_at(n, k),
        forall|j: int| 0 <= j < n ==> matrix[#[trigger] cell(n, r, j)] == S::zero_spec(),
        zero_is_plain::<S>(),
        row_adds_nothing(matrix, n, k, r),
    ensures
        candidate_column(matrix, n, state, k as int)[r] == S::zero_spec(),
{
    let lower = state.factors.lower;
    let p = state.factors.permutation;
    let q = state.factors.inverse_permutation;
    let x = column_of(matrix, n, k as int);
    let s = q[r] as nat;
    assert(x[r] == matrix[cell(n, r, k as int)]);
    lemma_substitute_entry(lower, p, q, x, s, r);
    lemma_substitute_entry(lower, p, q, x, n, r);
    lemma_substitute_len(lower, p, LOWER, x, s);
    let before = substitute(lower, p, LOWER, x, s);
    assert(before[r] == S::zero_spec());
    assert(p[s as int] == r);
    assert(pivot_at(p, LOWER, s as int) == r);
    let cleared = before.update(r, S::zero_spec());
    let row = row_of(lower, n, r);
    lemma_cell_bounds(n, r, 0);
    assert(row_adds_nothing_in(matrix, n, state, k, r));
    assert forall|c: int| 0 <= c < n implies S::zero_spec().add_spec(
        (#[trigger] row[c]).mul_spec(cleared[c]),
    ) == S::zero_spec() by {
        assert(row[c] == lower[cell(n, r, c)]);
        assert(S::zero_spec().add_spec(lower[cell(n, r, c)].mul_spec(cleared[c]))
            == S::zero_spec());
    }
    lemma_dot_adds_nothing(row, cleared, n);
    assert(lower[cell(n, r, r)] == one_spec::<S>());
    assert(substitute(lower, p, LOWER, x, (s + 1) as nat) == substitute_at(lower, n, r, before));
    assert(substitute_at(lower, n, r, before)[r] == S::zero_spec());
}

/// While the elimination has not failed, a zero row has not been a pivot.
pub proof fn lemma_zero_row_stays_unused<S: Numerical>(matrix: Seq<S>, n: nat, r: int, k: nat)
    requires
        n <= usize::MAX,
        matrix.len() == n * n,
        0 <= r < n,
        k <= n,
        forall|j: int| 0 <= j < n ==> matrix[#[trigger] cell(n, r, j)] == S::zero_spec(),
        zero_is_plain::<S>(),
        forall|c: nat| c < n ==> #[trigger] row_adds_nothing(matrix, n, c, r),
    ensures
        eliminate(matrix, n, k) matches Some(state) ==> !state.row_used[r],
    decreases k,
{
    if k > 0 {
        lemma_zero_row_stays_unused(matrix, n, r, (k - 1) as nat);
        lemma_eliminate_wf(matrix, n, (k - 1) as nat);
        if let Some(state) = eliminate(matrix, n, (k - 1) as nat) {
            lemma_eliminate_column_wf(matrix, n, state, (k - 1) as nat);
            assert(row_adds_nothing(matrix, n, (k - 1) as nat, r));
            lemma_zero_row_candidate(matrix, n, state, (k - 1) as nat, r);
        }
    }
}

/// A matrix with a zero row cannot be factored, provided that the
/// arithmetic treats zero plainly and that in every column the products of
/// that row of the lower factor with the unknowns add nothing to zero.
pub proof fn lemma_zero_row_is_singular<S: Numerical>(matrix: Seq<S>, n: nat, r: int)
    requires
        n <= usize::MAX,
        matrix.len() == n * n,
        0 <= r < n,
        forall|j: int| 0 <= j < n ==> matrix[#[trigger] cell(n, r, j)] == S::zero_spec(),
        zero_is_plain::<S>(),
        forall|c: nat| c < n ==> #[trigger] row_adds_nothing(matrix, n, c, r),
    ensures
        factorize(matrix, n) is None,
{
    lemma_zero_row_stays_unused(matrix, n, r, n);
    lemma_eliminate_wf(matrix, n, n);
    if let Some(state) = eliminate(matrix, n, n) {
        assert(state.row_used[r] == (state.factors.inverse_permutation[r] < n));
    }
}

/// Elimination of a column keeps the state well-formed, and its pivot is a
/// row that no earlier column used.
pub proof fn lemma_eliminate_column_wf<S: Numerical>(
    matrix: Seq<S>,
    n: nat,
    state: Elimination<S>,
    k: nat,
)
    requires
        state.wf_at(n, k),
        k < n,
    ensures
        candidate_column(matrix, n, state, k as int).len() == n,
        0 <= pivot_candidate(candidate_column(matrix, n, state, k as int), state.row_used, n) < n,
        !state.row_used[pivot_candidate(
            candidate_column(matrix, n, state, k as int),
            state.row_used,
            n,
        )],
        eliminate_column(matrix, n, state, k as int) matches Some(next) ==> next.wf_at(
            n,
            k + 1,
        ),
{
    let column = candidate_column(matrix, n, state, k as int);
    lemma_substitute_len(
        state.factors.lower,
        state.factors.permutation,
        LOWER,
        column_of(matrix, n, k as int),
        n,
    );
    lemma_pivot_candidate(column, state.row_used, n);
    let p = state.factors.permutation;
    let q = state.factors.inverse_permutation;
    let fresh = p[k as int] as int;
    assert(q[fresh] == k);
    assert(!state.row_used[fresh]);
    let pivot_row = pivot_candidate(column, state.row_used, n);
    lemma_record_pivot(p, q, state.row_used, k, pivot_row);
    assert(n * n >= 0) by (nonlinear_arith);
}

/// A factorisation `P·A = L·U` of a square matrix `A` with row pivoting.
#[derive(Debug)]
pub struct LUDecomposition<S> {
    lower_: Vec<S>,
    upper_: Vec<S>,
    permutation_: Vec<Index>,
    inverse_permutation_: Vec<Index>,
}

impl<S> View for LUDecomposition<S> {
    type V = LuFactors<S>;

    closed spec fn view(&self) -> LuFactors<S> {
        LuFactors {
            lower: self.lower_@,
            upper: self.upper_@,
            permutation: self.permutation_@,
            inverse_permutation: self.inverse_permutation_@,
        }
    }
}

impl<S> LUDecomposition<S> {
    #[verifier::type_invariant]
    spec fn shaped(&self) -> bool {
        self@.shaped()
    }
}

impl<S: Copy> Clone for LUDecomposition<S> {
    /// A copy that holds the same factors.
    fn clone(&self) -> (r: Self)
        ensures
            r@ == self@,
    {
        proof {
            use_type_invariant(self);
        }
        LUDecomposition {
            lower_: slice_to_vec(self.lower_.as_slice()),
            upper_: slice_to_vec(self.upper_.as_slice()),
            permutation_: slice_to_vec(self.permutation_.as_slice()),
            inverse_permutation_: slice_to_vec(self.inverse_permutation_.as_slice()),
        }
    }
}

impl<S: Numerical> LUDecomposition<S> {
    /// Factors filled with zeros, for a matrix of the given dimension.
    pub fn new_zero(dimension: Index) -> (r: LUDecomposition<S>)
        requires
            dimension * dimension <= usize::MAX,
        ensures
            r@.lower == Seq::new((dimension * dimension) as nat, |i: int| S::zero_spec()),
            r@.upper == Seq::new((dimension * dimension) as nat, |i: int| S::zero_spec()),
            r@.permutation == Seq::new(dimension as nat, |i: int| 0usize),
            r@.inverse_permutation == Seq::new(dimension as nat, |i: int| 0usize),
            r@.shaped(),
    {
        let lower = filled(dimension * dimension, S::zero());
        let upper = filled(dimension * dimension, S::zero());
        let permutation = filled(dimension, 0usize);
        let inverse_permutation = filled(dimension, 0usize);
        LUDecomposition {
            lower_: lower,
            upper_: upper,
            permutation_: permutation,
            inverse_permutation_: inverse_permutation,
        }
    }

    /// Factors the `dimension`-square matrix stored row after row in
    /// `matrix`, choosing in each column the unused row of largest magnitude
    /// as the pivot. Returns `None` exactly when some column has no pivot of
    /// magnitude `1e-7` or more.
    pub fn compute(matrix: &Vec<S>, dimension: Index) -> (r: Option<LUDecomposition<S>>)
        requires
            matrix@.len() == dimension * dimension,
        ensures
            match r {
                Some(d) => {
                    &&& factorize(matrix@, dimension as nat) == Some(d@)
                    &&& d@.wf()
                    &&& d@.triangular()
                    &&& d@.dimension() == dimension
                },
                None => factorize(matrix@, dimension as nat) is None,
            },
    {
        let ghost n = dimension as nat;
        let ghost d = dimension as int;
        assert(matrix@.len() == matrix.len());
        let tolerance = min_pivot::<S>();

        let mut permutation: Vec<Index> = Vec::new();
        let mut inverse_permutation: Vec<Index> = Vec::new();
        let mut k: Index = 0;
        while k < dimension
            invariant
                k <= dimension,
                permutation@ == Seq::new(k as nat, |i: int| i as Index),
                inverse_permutation@ == Seq::new(k as nat, |i: int| i as Index),
            decreases dimension - k,
        {
            permutation.push(k);
            inverse_permutation.push(k);
            assert(permutation@ =~= Seq::new((k + 1) as nat, |i: int| i as Index));
            assert(inverse_permutation@ =~= Seq::new((k + 1) as nat, |i: int| i as Index));
            k += 1;
        }

        let mut lower = filled(dimension * dimension, S::zero());
        let mut upper = filled(dimension * dimension, S::zero());
        let unit = one::<S>();
        k = 0;
        while k < dimension
            invariant
                k <= dimension,
                d == dimension,
                n == dimension,
                dimension * dimension <= usize::MAX,
                unit == one_spec::<S>(),
                lower@.len() == n * n,
                forall|c: int|
                    0 <= c < n * n ==> (#[trigger] lower@[c]) == (if c / d == c % d && c / d < k {
                        one_spec::<S>()
                    } else {
                        S::zero_spec()
                    }),
            decreases dimension - k,
        {
            let position = cell_index(dimension, k, k);
            lower[position] = unit;
            proof {
                lemma_cell_div_mod(n, k as int, k as int);
                assert forall|c: int| 0 <= c < n * n implies (#[trigger] lower@[c]) == (if c / d
                    == c % d && c / d < k + 1 {
                    one_spec::<S>()
                } else {
                    S::zero_spec()
                }) by {
                    lemma_position_is_cell(n, c);
                }
            }
            k += 1;
        }
        let mut row_used = filled(dimension, false);
        proof {
            let start = elimination_start::<S>(n);
            assert forall|c: int| 0 <= c < n * n implies lower@[c] == start.factors.lower[c] by {
                lemma_position_is_cell(n, c);
            }
            assert(lower@ =~= start.factors.lower);
            assert(upper@ =~= start.factors.upper);
            assert(row_used@ =~= start.row_used);
            lemma_elimination_start_wf::<S>(n);
        }

        k = 0;
        while k < dimension
            invariant
                k <= dimension,
                d == dimension,
                n == dimension,
                matrix@.len() == n * n,
                dimension * dimension <= usize::MAX,
                tolerance == min_pivot_spec::<S>(),
                eliminate(matrix@, n, k as nat) == Some(
                    Elimination::of(
                        lower@,
                        upper@,
                        permutation@,
                        inverse_permutation@,
                        row_used@,
                    ),
                ),
                Elimination::of(
                    lower@,
                    upper@,
                    permutation@,
                    inverse_permutation@,
                    row_used@,
                ).wf_at(n, k as nat),
            decreases dimension - k,
        {
            let ghost state = Elimination::of(
                lower@,
                upper@,
                permutation@,
                inverse_permutation@,
                row_used@,
            );

            let mut column: Vec<S> = Vec::new();
            let mut i: Index = 0;
            while i < dimension
                invariant
                    i <= dimension,
                    k < dimension,
                    n == dimension,
                    matrix@.len() == n * n,
                    dimension * dimension <= usize::MAX,
                    column@ == Seq::new(i as nat, |row: int| matrix@[cell(n, row, k as int)]),
                decreases dimension - i,
            {
                column.push(matrix[cell_index(dimension, i, k)]);
                assert(column@ =~= Seq::new(
                    (i + 1) as nat,
                    |row: int| matrix@[cell(n, row, k as int)],
                ));
                i += 1;
            }
            assert(column@ =~= column_of(matrix@, n, k as int));
            triangular_solve::<S, LOWER>(&lower, &permutation, &mut column);
            proof {
                lemma_eliminate_column_wf(matrix@, n, state, k as nat);
            }
            assert(column@ == candidate_column(matrix@, n, state, k as int));

            let mut pivot_row: Index = 0;
            i = 0;
            while i < dimension
                invariant
                    i <= dimension,
                    k < dimension,
                    pivot_row < dimension,
                    column@.len() == dimension,
                    row_used@.len() == dimension,
                    pivot_row == pivot_candidate(column@, row_used@, i as nat),
                decreases dimension - i,
            {
                if !row_used[i] && (row_used[pivot_row] || column[pivot_row].abs_trait().lt(
                    column[i].abs_trait(),
                )) {
                    pivot_row = i;
                }
                i += 1;
            }

            let pivot_value = column[pivot_row];
            if pivot_value.abs_trait().lt(tolerance) {
                proof {
                    assert(eliminate_column(matrix@, n, state, k as int) is None);
                    assert(eliminate(matrix@, n, (k + 1) as nat) is None);
                    lemma_eliminate_stays_failed(matrix@, n, (k + 1) as nat, n);
                }
                return None;
            }
            let ghost next = eliminate_column(matrix@, n, state, k as int)->0;
            row_used[pivot_row] = true;
            assert(row_used@ == next.row_used);

            let ghost lower0 = lower@;
            let ghost upper0 = upper@;
            i = 0;
            while i < dimension
                invariant
                    i <= dimension,
                    d == dimension,
                    n == dimension,
                    pivot_row < dimension,
                    dimension * dimension <= usize::MAX,
                    column@.len() == dimension,
                    row_used@.len() == dimension,
                    lower0.len() == n * n,
                    upper0.len() == n * n,
                    lower@.len() == n * n,
                    upper@.len() == n * n,
                    forall|c: int|
                        0 <= c < n * n ==> (#[trigger] lower@[c]) == (if c % d == pivot_row && c
                            / d < i && !row_used@[c / d] {
                            column@[c / d].div_spec(pivot_value)
                        } else {
                            lower0[c]
                        }),
                    forall|c: int|
                        0 <= c < n * n ==> (#[trigger] upper@[c]) == (if c % d == pivot_row && c
                            / d < i && row_used@[c / d] {
                            column@[c / d]
                        } else {
                            upper0[c]
                        }),
                decreases dimension - i,
            {
                let position = cell_index(dimension, i, pivot_row);
                if row_used[i] {
                    upper[position] = column[i];
                } else {
                    lower[position] = column[i].div(pivot_value);
                }
                proof {
                    lemma_cell_div_mod(n, i as int, pivot_row as int);
                    assert forall|c: int| 0 <= c < n * n implies (#[trigger] lower@[c]) == (if c
                        % d == pivot_row && c / d < i + 1 && !row_used@[c / d] {
                        column@[c / d].div_spec(pivot_value)
                    } else {
                        lower0[c]
                    }) by {
                        lemma_position_is_cell(n, c);
                    }
                    assert forall|c: int| 0 <= c < n * n implies (#[trigger] upper@[c]) == (if c
                        % d == pivot_row && c / d < i + 1 && row_used@[c / d] {
                        column@[c / d]
                    } else {
                        upper0[c]
                    }) by {
                        lemma_position_is_cell(n, c);
                    }
                }
                i += 1;
            }
            proof {
                assert forall|c: int| 0 <= c < n * n implies lower@[c] == next.factors.lower[c] by {
                    lemma_position_is_cell(n, c);
                }
                assert forall|c: int| 0 <= c < n * n implies upper@[c] == next.factors.upper[c] by {
                    lemma_position_is_cell(n, c);
                }
                assert(lower@ =~= next.factors.lower);
                assert(upper@ =~= next.factors.upper);
            }

            let ipr = inverse_permutation[pivot_row];
            let pk = permutation[k];
            permutation[k] = pivot_row;
            inverse_permutation[pivot_row] = k;
            permutation[ipr] = pk;
            inverse_permutation[pk] = ipr;
            assert(permutation@ == next.factors.permutation);
            assert(inverse_permutation@ == next.factors.inverse_permutation);
            k += 1;
        }

        proof {
            lemma_factorize_wf(matrix@, n);
        }
        Some(
            LUDecomposition {
                lower_: lower,
                upper_: upper,
                permutation_: permutation,
                inverse_permutation_: inverse_permutation,
            },
        )
    }

    /// The lower factor, stored row after row.
    pub fn lower(&self) -> (r: &Vec<S>)
        ensures
            r@ == self@.lower,
    {
        &self.lower_
    }

    /// The upper factor, stored row after row.
    pub fn upper(&self) -> (r: &Vec<S>)
        ensures
            r@ == self@.upper,
    {
        &self.upper_
    }

    /// The rows in the order in which they were the pivot.
    pub fn permutation(&self) -> (r: &Vec<Index>)
        ensures
            r@ == self@.permutation,
    {
        &self.permutation_
    }

    /// For every row its place in the pivot order.
    pub fn inverse_permutation(&self) -> (r: &Vec<Index>)
        ensures
            r@ == self@.inverse_permutation,
    {
        &self.inverse_permutation_
    }

    /// Solves `A·x = b` in place: `x` holds `b` before the call and the
    /// solution after it. The factors are left as they are.
    pub fn solve(&self, x: &mut Vec<S>)
        requires
            old(x)@.len() == self@.dimension(),
        ensures
            final(x)@ == solve_spec(self@, old(x)@),
            final(x)@.len() == old(x)@.len(),
    {
        proof {
            use_type_invariant(self);
        }
        triangular_solve::<S, LOWER>(&self.lower_, &self.permutation_, x);
        triangular_solve::<S, UPPER>(&self.upper_, &self.permutation_, x);
        let ghost backward = x@;
        let mut temp: Vec<S> = Vec::new();
        let mut i: Index = 0;
        while i < x.len()
            invariant
                x@ == backward,
                x@.len() == self.permutation_@.len(),
                in_range(self.permutation_@),
                i <= x@.len(),
                temp@ == Seq::new(i as nat, |j: int| backward[self.permutation_@[j] as int]),
            decreases x@.len() - i,
        {
            temp.push(x[self.permutation_[i]]);
            assert(temp@ =~= Seq::new(
                (i + 1) as nat,
                |j: int| backward[self.permutation_@[j] as int],
            ));
            i += 1;
        }
        *x = temp;
    }
}

} // verus!
