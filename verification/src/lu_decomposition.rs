//! LU factorisation of a matrix behind the access traits, with the
//! eliminations kept as columns of multipliers, and the solve that uses it.

use vstd::prelude::*;
use vstd::set_lib::{lemma_int_range, lemma_len_subset, lemma_map_size, set_int_range};
use crate::layout::{cell, filled, table};
use crate::layout::{lemma_cell_bounds, lemma_cell_div_mod, lemma_position_is_cell};
use crate::matrix::column::{column_entries, set_at, ColumnMut};
use crate::matrix::row_permuted::RowPermutedMatrix;
use crate::matrix::solve_upper::{solve_upper, upper_solve};
use crate::matrix::traits::{entries_of, lemma_entries_of, set_entry, MatrixMutRef, MatrixRef};
use crate::representation::repr_ref;
use crate::scalar::{Index, Numerical, OtherNumericalOps};

verus! {

/// Stands for an index that is not there.
pub const INDEX_NOT_FOUND: Index = usize::MAX;

/// The multipliers of one elimination step: column `column` of the
/// matrix that the step multiplies by.
#[derive(Debug, Clone)]
pub struct ColumnEtaMatrix<Scalar> {
    pub column: Index,
    pub eta_vector: Vec<Scalar>,
}

impl<Scalar: OtherNumericalOps + Copy> ColumnEtaMatrix<Scalar> {
    /// Multipliers that are all zero, for a column that is not chosen yet.
    pub fn new(dimension: Index) -> (r: ColumnEtaMatrix<Scalar>)
        ensures
            r.column == INDEX_NOT_FOUND,
            r.eta_vector@ == Seq::new(dimension as nat, |i: int| Scalar::zero_spec()),
    {
        ColumnEtaMatrix { column: INDEX_NOT_FOUND, eta_vector: filled(dimension, Scalar::zero()) }
    }
}

/// State of the elimination between two columns.
pub struct EtaState<S> {
    /// The matrix as far as it is eliminated, stored row after row.
    pub entries: Seq<S>,
    /// For every row the step at which it was the pivot, if it was.
    pub permutation: Seq<Index>,
    /// For every step its pivot row.
    pub inverse_permutation: Seq<Index>,
    /// The multipliers, those of step `c` from slot `c·n` on.
    pub eta: Seq<S>,
}

/// The pivot of a column among the first `count` rows, with its
/// magnitude: a row that was no pivot yet takes over if its magnitude is
/// not smaller, so that the last of several equally large candidates stays.
pub open spec fn pivot_search<S: Numerical>(
    entries: Seq<S>,
    n: nat,
    permutation: Seq<Index>,
    column: int,
    count: nat,
) -> (S, Index)
    decreases count,
{
    if count == 0 {
        (S::zero_spec(), INDEX_NOT_FOUND)
    } else {
        let before = pivot_search(entries, n, permutation, column, (count - 1) as nat);
        let row = count - 1;
        let value = entries[cell(n, row, column)].abs_spec();
        if permutation[row] == INDEX_NOT_FOUND && before.0.le_spec(value) {
            (value, row as Index)
        } else {
            before
        }
    }
}

/// The multiplier of `row` in the step at `column` with the given pivot.
pub open spec fn eta_factor<S: Numerical>(
    entries: Seq<S>,
    n: nat,
    pivot: int,
    column: int,
    row: int,
) -> S {
    entries[cell(n, row, column)].neg_spec().div_spec(entries[cell(n, pivot, column)])
}

/// The elimination step at `column`, or `None` if no row offers a pivot.
/// Every row that was no pivot yet gets zero in the column and, unless its
/// multiplier is zero, the multiple of the pivot row added in the later
/// columns.
pub open spec fn eta_step<S: Numerical>(state: EtaState<S>, n: nat, column: int) -> Option<
    EtaState<S>,
> {
    let pivot = pivot_search(state.entries, n, state.permutation, column, n).1;
    if pivot == INDEX_NOT_FOUND {
        None
    } else {
        let permutation = state.permutation.update(pivot as int, column as Index);
        Some(
            EtaState {
                entries: table(
                    n,
                    |i: int, j: int|
                        if permutation[i] == INDEX_NOT_FOUND && j == column {
                            S::zero_spec()
                        } else if permutation[i] == INDEX_NOT_FOUND && j > column && !eta_factor(
                            state.entries,
                            n,
                            pivot as int,
                            column,
                            i,
                        ).eq_spec(S::zero_spec()) {
                            state.entries[cell(n, i, j)].add_spec(
                                eta_factor(state.entries, n, pivot as int, column, i).mul_spec(
                                    state.entries[cell(n, pivot as int, j)],
                                ),
                            )
                        } else {
                            state.entries[cell(n, i, j)]
                        },
                ),
                permutation,
                inverse_permutation: state.inverse_permutation.update(column, pivot),
                eta: Seq::new(
                    state.eta.len(),
                    |p: int|
                        if column * n <= p < column * n + n && permutation[p - column * n]
                            == INDEX_NOT_FOUND {
                            eta_factor(state.entries, n, pivot as int, column, p - column * n)
                        } else {
                            state.eta[p]
                        },
                ),
            },
        )
    }
}

/// The state before the first column.
pub open spec fn eta_start<S: Numerical>(entries: Seq<S>, n: nat) -> EtaState<S> {
    EtaState {
        entries,
        permutation: Seq::new(n, |i: int| INDEX_NOT_FOUND),
        inverse_permutation: Seq::new(n, |i: int| INDEX_NOT_FOUND),
        eta: Seq::new((n * (n - 1)) as nat, |p: int| S::zero_spec()),
    }
}

/// The state after the first `count` columns, or `None` if one of them
/// offered no pivot.
pub open spec fn eta_steps<S: Numerical>(entries: Seq<S>, n: nat, count: nat) -> Option<EtaState<S>>
    decreases count,
{
    if count == 0 {
        Some(eta_start(entries, n))
    } else {
        match eta_steps(entries, n, (count - 1) as nat) {
            None => None,
            Some(state) => eta_step(state, n, count - 1),
        }
    }
}

/// The state with the row that was never a pivot as the pivot of the last
/// step.
pub open spec fn eta_finish<S>(state: EtaState<S>, n: nat, count: nat) -> EtaState<S>
    decreases count,
{
    if count == 0 {
        state
    } else {
        let before = eta_finish(state, n, (count - 1) as nat);
        let row = count - 1;
        if before.permutation[row] == INDEX_NOT_FOUND {
            EtaState {
                entries: before.entries,
                permutation: before.permutation.update(row, (n - 1) as Index),
                inverse_permutation: before.inverse_permutation.update(n - 1, row as Index),
                eta: before.eta,
            }
        } else {
            before
        }
    }
}

/// What the factorisation of an `n`-square matrix holds, or `None` if a
/// column offered no pivot.
pub open spec fn eta_factorize<S: Numerical>(entries: Seq<S>, n: nat) -> Option<EtaState<S>> {
    match eta_steps(entries, n, (n - 1) as nat) {
        None => None,
        Some(state) => Some(eta_finish(state, n, n)),
    }
}

impl<S> EtaState<S> {
    /// The state fits dimension `n` after `c` steps: every step has its
    /// pivot row, and every row is the pivot of one of the steps or of none.
    pub open spec fn wf_at(self, n: nat, c: nat) -> bool {
        &&& self.entries.len() == n * n
        &&& self.permutation.len() == n
        &&& self.inverse_permutation.len() == n
        &&& self.eta.len() == n * (n - 1)
        &&& forall|s: int|
            0 <= s < c ==> (#[trigger] self.inverse_permutation[s]) < n
                && self.permutation[self.inverse_permutation[s] as int] == s
        &&& forall|row: int|
            0 <= row < n ==> (#[trigger] self.permutation[row]) == INDEX_NOT_FOUND || (
            self.permutation[row] < c && self.inverse_permutation[self.permutation[row] as int]
                == row)
    }

    /// The state fits dimension `n` and every row is the pivot of one step.
    pub open spec fn wf(self, n: nat) -> bool {
        &&& self.wf_at(n, n)
        &&& forall|row: int| 0 <= row < n ==> (#[trigger] self.permutation[row]) < n
    }
}

/// The pivot search finds a row that was no pivot yet, or none.
pub proof fn lemma_pivot_search<S: Numerical>(
    entries: Seq<S>,
    n: nat,
    permutation: Seq<Index>,
    column: int,
    count: nat,
)
    requires
        count <= usize::MAX,
    ensures
        ({
            let found = pivot_search(entries, n, permutation, column, count).1;
            found == INDEX_NOT_FOUND || (found < count && permutation[found as int]
                == INDEX_NOT_FOUND)
        }),
    decreases count,
{
    if count > 0 {
        lemma_pivot_search(entries, n, permutation, column, (count - 1) as nat);
    }
}

/// An elimination step keeps the state well-formed.
pub proof fn lemma_eta_step_wf<S: Numerical>(state: EtaState<S>, n: nat, column: nat)
    requires
        state.wf_at(n, column),
        column < n,
        n < usize::MAX,
    ensures
        eta_step(state, n, column as int) matches Some(next) ==> next.wf_at(n, column + 1),
{
    lemma_pivot_search(state.entries, n, state.permutation, column as int, n);
    assert(n * n >= 0) by (nonlinear_arith);
    match eta_step(state, n, column as int) {
        None => {},
        Some(next) => {
            let pivot = pivot_search(state.entries, n, state.permutation, column as int, n).1;
            assert forall|s: int| 0 <= s < column + 1 implies (
            #[trigger] next.inverse_permutation[s]) < n
                && next.permutation[next.inverse_permutation[s] as int] == s by {
                if s < column {
                    assert(state.inverse_permutation[s] < n);
                }
            }
            assert forall|row: int| 0 <= row < n implies (#[trigger] next.permutation[row])
                == INDEX_NOT_FOUND || (next.permutation[row] < column + 1
                && next.inverse_permutation[next.permutation[row] as int] == row) by {
                if row != pivot {
                    assert(state.permutation[row] == INDEX_NOT_FOUND || state.permutation[row]
                        < column);
                }
            }
        },
    }
}

/// Every state that the elimination reaches is well-formed.
pub proof fn lemma_eta_steps_wf<S: Numerical>(entries: Seq<S>, n: nat, count: nat)
    requires
        entries.len() == n * n,
        1 <= n < usize::MAX,
        count <= n,
    ensures
        eta_steps(entries, n, count) matches Some(state) ==> state.wf_at(n, count),
    decreases count,
{
    assert(n * (n - 1) >= 0) by (nonlinear_arith)
        requires
            n >= 1,
    ;
    if count > 0 {
        lemma_eta_steps_wf(entries, n, (count - 1) as nat);
        if let Some(state) = eta_steps(entries, n, (count - 1) as nat) {
            lemma_eta_step_wf(state, n, (count - 1) as nat);
        }
    }
}

/// The rows that were a pivot in a well-formed state.
pub open spec fn used_rows<S>(state: EtaState<S>, n: nat) -> Set<int> {
    Set::new(|row: int| 0 <= row < n && state.permutation[row] != INDEX_NOT_FOUND)
}

/// After `c` steps, `c` rows were a pivot.
pub proof fn lemma_used_rows_count<S>(state: EtaState<S>, n: nat, c: nat)
    requires
        state.wf_at(n, c),
        c <= n,
        n < usize::MAX,
    ensures
        used_rows(state, n).finite(),
        used_rows(state, n).len() == c,
{
    let steps = set_int_range(0, c as int);
    let pivot_of = |s: int| state.inverse_permutation[s] as int;
    lemma_int_range(0, c as int);
    assert forall|s1: int, s2: int|
        steps.contains(s1) && steps.contains(s2) && #[trigger] pivot_of(s1) == #[trigger] pivot_of(
            s2,
        ) implies s1 == s2 by {
        assert(state.permutation[state.inverse_permutation[s1] as int] == s1);
        assert(state.permutation[state.inverse_permutation[s2] as int] == s2);
    }
    assert forall|row: int| used_rows(state, n).contains(row) implies steps.map(pivot_of).contains(
        row,
    ) by {
        let s = state.permutation[row] as int;
        assert(state.permutation[row] < c);
        assert(steps.contains(s) && pivot_of(s) == row);
    }
    assert forall|row: int| steps.map(pivot_of).contains(row) implies used_rows(state, n).contains(
        row,
    ) by {
        let s = choose|s: int| steps.contains(s) && pivot_of(s) == row;
        assert(state.inverse_permutation[s] < n);
        assert(state.permutation[state.inverse_permutation[s] as int] == s);
    }
    assert(steps.map(pivot_of) =~= used_rows(state, n));
    lemma_map_size(steps, used_rows(state, n), pivot_of);
}

/// After all steps but the last, one row and only one was never a pivot,
/// so that the finished state is well-formed.
pub proof fn lemma_eta_finish_wf<S>(state: EtaState<S>, n: nat)
    requires
        state.wf_at(n, (n - 1) as nat),
        1 <= n < usize::MAX,
    ensures
        eta_finish(state, n, n).wf(n),
        eta_finish(state, n, n).entries == state.entries,
        eta_finish(state, n, n).eta == state.eta,
{
    let c = (n - 1) as nat;
    let rows = set_int_range(0, n as int);
    let used = used_rows(state, n);
    lemma_int_range(0, n as int);
    lemma_used_rows_count(state, n, c);
    // There is a row that was never a pivot.
    if forall|row: int| 0 <= row < n ==> state.permutation[row] != INDEX_NOT_FOUND {
        assert(rows =~= used);
        assert(false);
    }
    let free = choose|row: int| 0 <= row < n && state.permutation[row] == INDEX_NOT_FOUND;
    // There is no other one.
    assert forall|row: int| 0 <= row < n && row != free implies state.permutation[row]
        != INDEX_NOT_FOUND by {
        if state.permutation[row] == INDEX_NOT_FOUND {
            let rest = rows.remove(free).remove(row);
            assert(used.subset_of(rest));
            lemma_len_subset(used, rest);
            assert(false);
        }
    }
    lemma_eta_finish_run(state, n, n, free);
    let finished = eta_finish(state, n, n);
    assert forall|s: int| 0 <= s < n implies (#[trigger] finished.inverse_permutation[s]) < n
        && finished.permutation[finished.inverse_permutation[s] as int] == s by {
        if s < c {
            assert(state.inverse_permutation[s] < n);
            assert(state.permutation[state.inverse_permutation[s] as int] == s);
        }
    }
    assert forall|row: int| 0 <= row < n implies (#[trigger] finished.permutation[row]) < n && (
    finished.permutation[row] == INDEX_NOT_FOUND || (finished.permutation[row] < n
        && finished.inverse_permutation[finished.permutation[row] as int] == row)) by {
        if row != free {
            assert(state.permutation[row] != INDEX_NOT_FOUND);
        }
    }
}

/// The finish makes the one row that was never a pivot the pivot of the
/// last step and leaves everything else as it is.
pub proof fn lemma_eta_finish_run<S>(state: EtaState<S>, n: nat, count: nat, free: int)
    requires
        state.permutation.len() == n,
        state.inverse_permutation.len() == n,
        1 <= n < usize::MAX,
        count <= n,
        0 <= free < n,
        state.permutation[free] == INDEX_NOT_FOUND,
        forall|row: int| 0 <= row < n && row != free ==> state.permutation[row] != INDEX_NOT_FOUND,
    ensures
        eta_finish(state, n, count).entries == state.entries,
        eta_finish(state, n, count).eta == state.eta,
        eta_finish(state, n, count).permutation == (if free < count {
            state.permutation.update(free, (n - 1) as Index)
        } else {
            state.permutation
        }),
        eta_finish(state, n, count).inverse_permutation == (if free < count {
            state.inverse_permutation.update(n - 1, free as Index)
        } else {
            state.inverse_permutation
        }),
    decreases count,
{
    if count > 0 {
        lemma_eta_finish_run(state, n, (count - 1) as nat, free);
    }
}

/// What the factorisation holds is well-formed.
pub proof fn lemma_eta_factorize_wf<S: Numerical>(entries: Seq<S>, n: nat)
    requires
        entries.len() == n * n,
        1 <= n < usize::MAX,
    ensures
        eta_factorize(entries, n) matches Some(state) ==> state.wf(n),
{
    lemma_eta_steps_wf(entries, n, (n - 1) as nat);
    if let Some(state) = eta_steps(entries, n, (n - 1) as nat) {
        lemma_eta_finish_wf(state, n);
    }
}

/// The vector after the first `count` elimination steps: each adds to
/// every entry its multiplier times the entry of the step's pivot row.
pub open spec fn eta_apply<S: Numerical>(state: EtaState<S>, n: nat, v: Seq<S>, count: nat) -> Seq<
    S,
>
    decreases count,
{
    if count == 0 {
        v
    } else {
        let before = eta_apply(state, n, v, (count - 1) as nat);
        let step = count - 1;
        let value = before[state.inverse_permutation[step] as int];
        Seq::new(v.len(), |i: int| before[i].add_spec(state.eta[step * n + i].mul_spec(value)))
    }
}

/// The rows of a matrix in the order of the steps at which they were the
/// pivot.
pub open spec fn rows_in_pivot_order<S>(state: EtaState<S>, n: nat) -> Seq<S> {
    table(n, |i: int, j: int| state.entries[cell(n, state.inverse_permutation[i] as int, j)])
}

/// The solution that the factorisation gives for the right-hand side `v`:
/// the elimination steps applied to `v`, its entries brought into pivot
/// order, and back substitution over the rows in pivot order.
pub open spec fn eta_solve<S: Numerical>(state: EtaState<S>, n: nat, v: Seq<S>) -> Seq<S> {
    let eliminated = eta_apply(state, n, v, (n - 1) as nat);
    let ordered = Seq::new(n, |i: int| eliminated[state.inverse_permutation[i] as int]);
    upper_solve(rows_in_pivot_order(state, n), n, ordered, n)
}

/// A factorisation `P·L·A = U` of a square matrix `A`.
#[derive(Debug, Clone)]
pub struct LUDecomposition<Matrix> where Matrix: MatrixMutRef, Matrix::Scalar: Numerical {
    upper_permuted: Matrix,
    permutation: Vec<Index>,
    inverse_permutation: Vec<Index>,
    eta_data: Vec<Matrix::Scalar>,
}

impl<Matrix> LUDecomposition<Matrix> where Matrix: MatrixMutRef, Matrix::Scalar: Numerical {
    /// The matrix that holds the rows of `U`, each in its own place.
    pub closed spec fn upper_permuted(&self) -> Matrix {
        self.upper_permuted
    }

    /// What the factorisation holds.
    pub closed spec fn state(&self) -> EtaState<Matrix::Scalar> {
        EtaState {
            entries: entries_of(&self.upper_permuted),
            permutation: self.permutation@,
            inverse_permutation: self.inverse_permutation@,
            eta: self.eta_data@,
        }
    }

    /// The factorisation fits one dimension.
    pub open spec fn wf(&self) -> bool {
        &&& self.upper_permuted().valid()
        &&& 1 <= self.upper_permuted().dimension_spec() < usize::MAX
        &&& self.state().entries == entries_of(&self.upper_permuted())
        &&& self.state().wf(self.upper_permuted().dimension_spec())
    }

    /// Factors `matrix` in place, with the row of largest magnitude among
    /// those that were no pivot yet as the pivot of each column. Returns
    /// `None` when a column offers no pivot, which takes a magnitude that
    /// does not compare with zero.
    pub fn calculate(matrix: Matrix) -> (r: Option<LUDecomposition<Matrix>>)
        requires
            matrix.valid(),
            1 <= matrix.dimension_spec(),
            matrix.dimension_spec() * matrix.dimension_spec() <= usize::MAX,
        ensures
            match eta_factorize(entries_of(&matrix), matrix.dimension_spec()) {
                Some(state) => r matches Some(d) && d.wf() && d.upper_permuted().dimension_spec()
                    == matrix.dimension_spec() && d.state() == state,
                None => r is None,
            },
    {
        let dimension = matrix.dimension();
        let ghost n = dimension as nat;
        let ghost d = dimension as int;
        let ghost t0 = entries_of(&matrix);
        let mut work = matrix;
        assert(n * n >= 0 && n * (n - 1) >= 0 && n * (n - 1) <= n * n && n <= n * n)
            by (nonlinear_arith)
            requires
                n >= 1,
        ;
        assert(n < usize::MAX) by (nonlinear_arith)
            requires
                n >= 1,
                n * n <= usize::MAX,
                usize::MAX >= 4,
        ;
        let mut permutation = filled(dimension, INDEX_NOT_FOUND);
        let mut inverse_permutation = filled(dimension, INDEX_NOT_FOUND);
        let mut eta_data = filled(dimension * (dimension - 1), Matrix::Scalar::zero());
        let zero = Matrix::Scalar::zero();
        proof {
            lemma_entries_len(&work);
            lemma_eta_steps_wf(t0, n, 0);
        }
        let mut column: Index = 0;
        while column < dimension - 1
            invariant
                column <= dimension - 1,
                1 <= dimension < usize::MAX,
                n == dimension,
                d == dimension,
                dimension * dimension <= usize::MAX,
                n * (n - 1) <= usize::MAX,
                zero == Matrix::Scalar::zero_spec(),
                t0.len() == n * n,
                t0 == entries_of(&matrix),
                n == matrix.dimension_spec(),
                work.valid(),
                work.dimension_spec() == n,
                eta_steps(t0, n, column as nat) == Some(
                    EtaState {
                        entries: entries_of(&work),
                        permutation: permutation@,
                        inverse_permutation: inverse_permutation@,
                        eta: eta_data@,
                    },
                ),
                (EtaState {
                    entries: entries_of(&work),
                    permutation: permutation@,
                    inverse_permutation: inverse_permutation@,
                    eta: eta_data@,
                }).wf_at(n, column as nat),
            decreases dimension - column,
        {
            let ghost state = EtaState {
                entries: entries_of(&work),
                permutation: permutation@,
                inverse_permutation: inverse_permutation@,
                eta: eta_data@,
            };
            let ghost t = state.entries;
            let mut max_value = Matrix::Scalar::zero();
            let mut pivot_row: Index = INDEX_NOT_FOUND;
            let mut row: Index = 0;
            while row < dimension
                invariant
                    row <= dimension,
                    column < dimension - 1,
                    n == dimension,
                    work.valid(),
                    work.dimension_spec() == n,
                    t == entries_of(&work),
                    permutation@.len() == n,
                    (max_value, pivot_row) == pivot_search(
                        t,
                        n,
                        permutation@,
                        column as int,
                        row as nat,
                    ),
                decreases dimension - row,
            {
                if permutation[row] == INDEX_NOT_FOUND {
                    proof {
                        lemma_entries_of(&work, row as int, column as int);
                    }
                    let row_value = work.at(row, column).abs_trait();
                    if max_value.le(row_value) {
                        max_value = row_value;
                        pivot_row = row;
                    }
                }
                row += 1;
            }
            proof {
                lemma_pivot_search(t, n, permutation@, column as int, n);
            }
            if pivot_row == INDEX_NOT_FOUND {
                proof {
                    assert(eta_step(state, n, column as int) is None);
                    assert(eta_steps(t0, n, (column + 1) as nat) is None);
                    lemma_eta_steps_stay_failed(t0, n, (column + 1) as nat, (n - 1) as nat);
                }
                return None;
            }
            let ghost next = eta_step(state, n, column as int)->0;
            proof {
                lemma_eta_step_wf(state, n, column as nat);
                assert(column * n + n <= n * (n - 1)) by (nonlinear_arith)
                    requires
                        0 <= column < n - 1,
                ;
                assert(column * n >= 0) by (nonlinear_arith)
                    requires
                        column >= 0,
                        n >= 0,
                ;
            }
            permutation[pivot_row] = column;
            inverse_permutation[column] = pivot_row;
            assert(column * dimension <= n * (n - 1));
            let base = column * dimension;
            let ghost eta0 = eta_data@;

            row = 0;
            while row < dimension
                invariant
                    row <= dimension,
                    column < dimension - 1,
                    pivot_row < dimension,
                    n == dimension,
                    d == dimension,
                    dimension * dimension <= usize::MAX,
                    zero == Matrix::Scalar::zero_spec(),
                    base == column * n,
                    base + n <= n * (n - 1),
                    n * (n - 1) <= usize::MAX,
                    work.valid(),
                    work.dimension_spec() == n,
                    t.len() == n * n,
                    t == state.entries,
                    state.wf_at(n, column as nat),
                    n < usize::MAX,
                    next.permutation.len() == n,
                    eta0 == state.eta,
                    eta0.len() == n * (n - 1),
                    next == eta_step(state, n, column as int)->0,
                    eta_step(state, n, column as int) is Some,
                    pivot_row == pivot_search(t, n, state.permutation, column as int, n).1,
                    permutation@ == next.permutation,
                    permutation@.len() == n,
                    permutation@[pivot_row as int] == column,
                    next.entries.len() == n * n,
                    entries_of(&work).len() == n * n,
                    eta_data@.len() == n * (n - 1),
                    forall|p: int|
                        0 <= p < n * n ==> (#[trigger] entries_of(&work)[p]) == (if p / d < row {
                            next.entries[p]
                        } else {
                            t[p]
                        }),
                    forall|p: int|
                        0 <= p < n * (n - 1) ==> (#[trigger] eta_data@[p]) == (if base <= p < base
                            + row {
                            next.eta[p]
                        } else {
                            eta0[p]
                        }),
                decreases dimension - row,
            {
                if permutation[row] == INDEX_NOT_FOUND {
                    proof {
                        lemma_entries_of(&work, row as int, column as int);
                        lemma_entries_of(&work, pivot_row as int, column as int);
                        lemma_cell_div_mod(n, row as int, column as int);
                        lemma_cell_div_mod(n, pivot_row as int, column as int);
                    }
                    let factor = work.at(row, column).neg().div(work.at(pivot_row, column));
                    assert(factor == eta_factor(t, n, pivot_row as int, column as int, row as int));
                    eta_data[base + row] = factor;
                    let ghost before_zero = entries_of(&work);
                    set_entry(&mut work, row, column, zero);
                    proof {
                        assert forall|p: int| 0 <= p < n * n implies (#[trigger] entries_of(&work)[p]) == (if p / d < row || (p / d == row && p % d <= column) {
                            next.entries[p]
                        } else {
                            t[p]
                        }) by {
                            lemma_position_is_cell(n, p);
                            assert(before_zero[p] == (if p / d < row {
                                next.entries[p]
                            } else {
                                t[p]
                            }));
                        }
                    }
                    if !factor.eq(zero) {
                        let mut affected_column: Index = column + 1;
                        while affected_column < dimension
                            invariant
                                column < affected_column <= dimension,
                                row < dimension,
                                pivot_row < dimension,
                                row != pivot_row,
                                n == dimension,
                                d == dimension,
                                work.valid(),
                                work.dimension_spec() == n,
                                t.len() == n * n,
                                t == state.entries,
                                state.wf_at(n, column as nat),
                                n < usize::MAX,
                                next.permutation.len() == n,
                                next == eta_step(state, n, column as int)->0,
                                eta_step(state, n, column as int) is Some,
                                pivot_row == pivot_search(
                                    t,
                                    n,
                                    state.permutation,
                                    column as int,
                                    n,
                                ).1,
                                next.permutation[row as int] == INDEX_NOT_FOUND,
                                next.entries.len() == n * n,
                                entries_of(&work).len() == n * n,
                                factor == eta_factor(
                                    t,
                                    n,
                                    pivot_row as int,
                                    column as int,
                                    row as int,
                                ),
                                !factor.eq_spec(Matrix::Scalar::zero_spec()),
                                forall|p: int|
                                    0 <= p < n * n ==> (#[trigger] entries_of(&work)[p]) == (if p
                                        / d < row || (p / d == row && p % d < affected_column) {
                                        next.entries[p]
                                    } else {
                                        t[p]
                                    }),
                            decreases dimension - affected_column,
                        {
                            let ghost current = entries_of(&work);
                            proof {
                                lemma_entries_of(&work, row as int, affected_column as int);
                                lemma_entries_of(&work, pivot_row as int, affected_column as int);
                                lemma_cell_div_mod(n, row as int, affected_column as int);
                                lemma_cell_div_mod(n, pivot_row as int, affected_column as int);
                                lemma_pivot_row_stays(state, n, column as int, pivot_row as int, affected_column as int);
                            }
                            let fill_in = work.at(row, affected_column).add(
                                factor.mul(work.at(pivot_row, affected_column)),
                            );
                            set_entry(&mut work, row, affected_column, fill_in);
                            proof {
                                assert forall|p: int| 0 <= p < n * n implies (#[trigger] entries_of(&work)[p]) == (if p / d < row || (p / d == row && p % d
                                    < affected_column + 1) {
                                    next.entries[p]
                                } else {
                                    t[p]
                                }) by {
                                    lemma_position_is_cell(n, p);
                                    assert(current[p] == (if p / d < row || (p / d == row && p % d
                                        < affected_column) {
                                        next.entries[p]
                                    } else {
                                        t[p]
                                    }));
                                }
                            }
                            affected_column += 1;
                        }
                    }
                    proof {
                        let current = entries_of(&work);
                        assert forall|p: int| 0 <= p < n * n implies (#[trigger] current[p]) == (
                        if p / d < row + 1 {
                            next.entries[p]
                        } else {
                            t[p]
                        }) by {
                            lemma_position_is_cell(n, p);
                        }
                    }
                } else {
                    proof {
                        let current = entries_of(&work);
                        assert forall|p: int| 0 <= p < n * n implies (#[trigger] current[p]) == (
                        if p / d < row + 1 {
                            next.entries[p]
                        } else {
                            t[p]
                        }) by {
                            lemma_position_is_cell(n, p);
                        }
                    }
                }
                row += 1;
            }
            proof {
                let current = entries_of(&work);
                assert forall|p: int| 0 <= p < n * n implies current[p] == next.entries[p] by {
                    lemma_position_is_cell(n, p);
                }
                assert(current =~= next.entries);
                assert(eta_data@ =~= next.eta);
                assert(inverse_permutation@ == next.inverse_permutation);
            }
            column += 1;
        }
        let ghost state = EtaState {
            entries: entries_of(&work),
            permutation: permutation@,
            inverse_permutation: inverse_permutation@,
            eta: eta_data@,
        };
        let mut row: Index = 0;
        while row < dimension
            invariant
                row <= dimension,
                1 <= dimension,
                n == dimension,
                permutation@.len() == n,
                inverse_permutation@.len() == n,
                state.entries == entries_of(&work),
                state.eta == eta_data@,
                eta_finish(state, n, row as nat) == (EtaState {
                    entries: entries_of(&work),
                    permutation: permutation@,
                    inverse_permutation: inverse_permutation@,
                    eta: eta_data@,
                }),
            decreases dimension - row,
        {
            if permutation[row] == INDEX_NOT_FOUND {
                permutation[row] = dimension - 1;
                inverse_permutation[dimension - 1] = row;
            }
            row += 1;
        }
        proof {
            lemma_eta_finish_wf(state, n);
        }
        Some(LUDecomposition { upper_permuted: work, permutation, inverse_permutation, eta_data })
    }

    /// Solves `A·x = b` in place: `vector` holds `b` before the call and
    /// `x` after it.
    pub fn solve<Column>(&self, vector: &mut Column) where
        Column: ColumnMut<Scalar = Matrix::Scalar>,

        requires
            self.wf(),
            old(vector).valid(),
            old(vector).dimension_spec() == self.upper_permuted().dimension_spec(),
        ensures
            final(vector).valid(),
            final(vector).dimension_spec() == old(vector).dimension_spec(),
            column_entries(final(vector)) == eta_solve(
                self.state(),
                self.upper_permuted().dimension_spec(),
                column_entries(old(vector)),
            ),
    {
        let dimension = self.upper_permuted.dimension();
        let ghost n = dimension as nat;
        let ghost state = self.state();
        let ghost v0 = column_entries(vector);
        assert(n * (n - 1) >= 0) by (nonlinear_arith)
            requires
                n >= 1,
        ;
        assert(v0.len() == n);
        assert(self.eta_data@.len() == self.eta_data.len());
        let mut eta_index: Index = 0;
        while eta_index < dimension - 1
            invariant
                eta_index <= dimension - 1,
                1 <= dimension,
                n == dimension,
                state == self.state(),
                state.wf(n),
                n * (n - 1) <= usize::MAX,
                v0.len() == n,
                vector.valid(),
                vector.dimension_spec() == n,
                column_entries(vector) == eta_apply(state, n, v0, eta_index as nat),
            decreases dimension - eta_index,
        {
            let ghost before = column_entries(vector);
            proof {
                assert(eta_index * n + n <= n * (n - 1)) by (nonlinear_arith)
                    requires
                        0 <= eta_index < n - 1,
                ;
                assert(eta_index * n >= 0) by (nonlinear_arith)
                    requires
                        eta_index >= 0,
                        n >= 0,
                ;
                assert(state.inverse_permutation[eta_index as int] < n);
            }
            let eta_column = self.inverse_permutation[eta_index];
            let vector_value = vector.at(eta_column);
            let base = eta_index * dimension;
            let ghost target = eta_apply(state, n, v0, (eta_index + 1) as nat);
            let mut index: Index = 0;
            while index < dimension
                invariant
                    index <= dimension,
                    n == dimension,
                    state == self.state(),
                    state.eta.len() == n * (n - 1),
                    base == eta_index * n,
                    base + n <= n * (n - 1),
                    n * (n - 1) <= usize::MAX,
                    vector.valid(),
                    vector.dimension_spec() == n,
                    before.len() == n,
                    state.inverse_permutation.len() == n,
                    eta_index < n - 1,
                    state.inverse_permutation[eta_index as int] < n,
                    vector_value == before[state.inverse_permutation[eta_index as int] as int],
                    target == Seq::new(
                        v0.len(),
                        |i: int|
                            before[i].add_spec(
                                state.eta[eta_index * n + i].mul_spec(vector_value),
                            ),
                    ),
                    v0.len() == n,
                    forall|i: int|
                        0 <= i < n ==> (#[trigger] column_entries(vector)[i]) == (if i < index {
                            target[i]
                        } else {
                            before[i]
                        }),
                decreases dimension - index,
            {
                let ghost current = column_entries(vector);
                proof {
                    assert(current[index as int] == before[index as int]);
                }
                let value = vector.at(index).add(self.eta_data[base + index].mul(vector_value));
                set_at(vector, index, value);
                index += 1;
            }
            assert(column_entries(vector) =~= target);
            eta_index += 1;
        }
        let ghost eliminated = column_entries(vector);
        let mut unpermuted: Vec<Matrix::Scalar> = Vec::new();
        let mut index: Index = 0;
        while index < dimension
            invariant
                index <= dimension,
                n == dimension,
                vector.valid(),
                vector.dimension_spec() == n,
                column_entries(vector) == eliminated,
                unpermuted@ == eliminated.subrange(0, index as int),
            decreases dimension - index,
        {
            unpermuted.push(vector.at(index));
            assert(unpermuted@ =~= eliminated.subrange(0, index + 1));
            index += 1;
        }
        assert(unpermuted@ =~= eliminated);
        let ghost ordered = Seq::new(n, |i: int| eliminated[state.inverse_permutation[i] as int]);
        index = 0;
        while index < dimension
            invariant
                index <= dimension,
                n == dimension,
                state == self.state(),
                state.wf(n),
                unpermuted@ == eliminated,
                eliminated.len() == n,
                vector.valid(),
                vector.dimension_spec() == n,
                ordered == Seq::new(n, |i: int| eliminated[state.inverse_permutation[i] as int]),
                forall|i: int| 0 <= i < index ==> (#[trigger] column_entries(vector)[i]) == ordered[i],
            decreases dimension - index,
        {
            let ghost current = column_entries(vector);
            proof {
                assert(state.inverse_permutation[index as int] < n);
            }
            set_at(vector, index, unpermuted[self.inverse_permutation[index]]);
            proof {
                assert forall|i: int| 0 <= i < index + 1 implies (#[trigger] column_entries(
                    vector,
                )[i]) == ordered[i] by {
                    if i < index {
                        assert(current[i] == ordered[i]);
                    }
                }
            }
            index += 1;
        }
        assert(column_entries(vector) =~= ordered);
        let rows = RowPermutedMatrix::new(
            repr_ref(&self.upper_permuted),
            repr_ref(&self.inverse_permutation),
        );
        proof {
            assert forall|r1: int, r2: int|
                0 <= r1 < n && 0 <= r2 < n && #[trigger] state.inverse_permutation[r1]
                    == #[trigger] state.inverse_permutation[r2] implies r1 == r2 by {
                assert(state.permutation[state.inverse_permutation[r1] as int] == r1);
                assert(state.permutation[state.inverse_permutation[r2] as int] == r2);
            }
            assert forall|row: int| 0 <= row < n implies (
            #[trigger] state.inverse_permutation[row]) < n by {}
            assert(rows.valid());
            let shown = entries_of(&rows);
            let target = rows_in_pivot_order(state, n);
            assert(n * n >= 0) by (nonlinear_arith);
            assert forall|p: int| 0 <= p < n * n implies shown[p] == target[p] by {
                lemma_position_is_cell(n, p);
                let i = p / (n as int);
                let j = p % (n as int);
                assert(state.inverse_permutation[i] < n);
                lemma_entries_of(&self.upper_permuted, state.inverse_permutation[i] as int, j);
            }
            assert(shown =~= target);
        }
        solve_upper(&rows, vector);
    }
}

/// The pivot row of an elimination step is not changed by the step.
pub proof fn lemma_pivot_row_stays<S: Numerical>(
    state: EtaState<S>,
    n: nat,
    column: int,
    pivot: int,
    j: int,
)
    requires
        state.wf_at(n, column as nat),
        0 <= column < n,
        0 <= j < n,
        n < usize::MAX,
        pivot == pivot_search(state.entries, n, state.permutation, column, n).1,
        pivot != INDEX_NOT_FOUND,
    ensures
        0 <= pivot < n,
        (eta_step(state, n, column)->0).entries[cell(n, pivot, j)] == state.entries[cell(
            n,
            pivot,
            j,
        )],
{
    lemma_pivot_search(state.entries, n, state.permutation, column, n);
    assert(n * n >= 0) by (nonlinear_arith);
    lemma_cell_bounds(n, pivot, j);
    lemma_cell_div_mod(n, pivot, j);
}

/// Once a column offers no pivot, the factorisation has failed.
pub proof fn lemma_eta_steps_stay_failed<S: Numerical>(entries: Seq<S>, n: nat, k: nat, m: nat)
    requires
        k <= m,
        eta_steps(entries, n, k) is None,
    ensures
        eta_steps(entries, n, m) is None,
    decreases m,
{
    if k < m {
        lemma_eta_steps_stay_failed(entries, n, k, (m - 1) as nat);
    }
}

/// A matrix has as many entries as the square of its dimension.
pub proof fn lemma_entries_len<M: MatrixRef>(matrix: &M)
    ensures
        entries_of(matrix).len() == matrix.dimension_spec() * matrix.dimension_spec(),
{
    let n = matrix.dimension_spec();
    assert(n * n >= 0) by (nonlinear_arith);
}

} // verus!
