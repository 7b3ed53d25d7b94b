//! The product of the factors: in exact arithmetic the lower factor times
//! the upper factor is the matrix that was factored, with its columns in
//! the order of the pivots.

use vstd::prelude::*;
use crate::layout::{cell, column_of, row_of};
use crate::layout::{lemma_cell_bounds, lemma_cell_div_mod};
use crate::lu::{candidate_column, dot_prefix, dot_spec, eliminate, eliminate_column, factorize};
use crate::lu::{lemma_eliminate_column_wf, lemma_eliminate_wf, lemma_record_pivot};
use crate::lu::{lemma_substitute_entry, lemma_substitute_len, pivot_at, pivot_candidate};
use crate::lu::{mutually_inverse, substitute, substitute_at, Elimination, LuFactors, LOWER};
use crate::lu::UPPER;
use crate::scalar::Index;
use crate::scalar::{min_pivot_spec, one_spec, Numerical, OtherNumericalOps};

verus! {

/// Whether `a + b` is `b + a`.
pub open spec fn add_commutes<S: Numerical>(a: S, b: S) -> bool {
    a.add_spec(b) == b.add_spec(a)
}

/// Whether `(a + b) + c` is `a + (b + c)`.
pub open spec fn add_associates<S: Numerical>(a: S, b: S, c: S) -> bool {
    a.add_spec(b).add_spec(c) == a.add_spec(b.add_spec(c))
}

/// Whether zero and one act on `a` as they should: `a + 0 = a`,
/// `0 · a = a · 0 = 0`, `1 · a = a` and `a / 1 = a`.
pub open spec fn units_act_on<S: Numerical>(a: S) -> bool {
    &&& a.add_spec(S::zero_spec()) == a
    &&& S::zero_spec().mul_spec(a) == S::zero_spec()
    &&& a.mul_spec(S::zero_spec()) == S::zero_spec()
    &&& one_spec::<S>().mul_spec(a) == a
    &&& a.div_spec(one_spec::<S>()) == a
}

/// Whether `(a − b) + b` is `a`.
pub open spec fn sub_returns<S: Numerical>(a: S, b: S) -> bool {
    a.sub_spec(b).add_spec(b) == a
}

/// Whether `(a / p) · p` and `p · (a / p)` are `a`, for a `p` that is
/// large enough for a pivot.
pub open spec fn div_returns<S: Numerical>(a: S, p: S) -> bool {
    !p.abs_spec().lt_spec(min_pivot_spec::<S>()) ==> a.div_spec(p).mul_spec(p) == a && p.mul_spec(
        a.div_spec(p),
    ) == a
}

/// Whether `(a · b) · c` is `a · (b · c)`.
pub open spec fn mul_associates<S: Numerical>(a: S, b: S, c: S) -> bool {
    a.mul_spec(b).mul_spec(c) == a.mul_spec(b.mul_spec(c))
}

/// Whether multiplication by `c`, from either side, distributes over
/// `a + b`.
pub open spec fn mul_distributes<S: Numerical>(a: S, b: S, c: S) -> bool {
    &&& a.add_spec(b).mul_spec(c) == a.mul_spec(c).add_spec(b.mul_spec(c))
    &&& c.mul_spec(a.add_spec(b)) == c.mul_spec(a).add_spec(c.mul_spec(b))
}

/// The laws of exact arithmetic that the factorisation rests on: addition
/// commutes and associates, zero and one act as they should, and what is
/// subtracted or divided out can be put back.
pub open spec fn exact_arithmetic<S: Numerical>() -> bool {
    &&& forall|a: S, b: S| #[trigger] add_commutes(a, b)
    &&& forall|a: S, b: S, c: S| #[trigger] add_associates(a, b, c)
    &&& forall|a: S| #[trigger] units_act_on(a)
    &&& forall|a: S, b: S| #[trigger] sub_returns(a, b)
    &&& forall|a: S, p: S| #[trigger] div_returns(a, p)
}

/// The laws of exact arithmetic that the solution of a system rests on:
/// those of the factorisation, and that multiplication associates and
/// distributes over addition.
pub open spec fn exact_products<S: Numerical>() -> bool {
    &&& exact_arithmetic::<S>()
    &&& forall|a: S, b: S, c: S| #[trigger] mul_associates(a, b, c)
    &&& forall|a: S, b: S, c: S| #[trigger] mul_distributes(a, b, c)
}

/// Two dot products with the same products have the same value.
pub proof fn lemma_dot_termwise<S: Numerical>(
    x: Seq<S>,
    y: Seq<S>,
    x2: Seq<S>,
    y2: Seq<S>,
    count: nat,
)
    requires
        forall|i: int| 0 <= i < count ==> x[i].mul_spec(y[i]) == #[trigger] x2[i].mul_spec(y2[i]),
    ensures
        dot_prefix(x, y, count) == dot_prefix(x2, y2, count),
    decreases count,
{
    if count > 0 {
        lemma_dot_termwise(x, y, x2, y2, (count - 1) as nat);
        assert(x[count - 1].mul_spec(y[count - 1]) == x2[count - 1].mul_spec(y2[count - 1]));
    }
}

/// A dot product in which one product of zero is replaced by `v` grows by
/// `v`.
pub proof fn lemma_dot_replace<S: Numerical>(
    x: Seq<S>,
    y: Seq<S>,
    x2: Seq<S>,
    y2: Seq<S>,
    count: nat,
    at: int,
    v: S,
)
    requires
        exact_arithmetic::<S>(),
        0 <= at,
        forall|i: int|
            0 <= i < count && i != at ==> x[i].mul_spec(y[i]) == #[trigger] x2[i].mul_spec(y2[i]),
        at < count ==> x[at].mul_spec(y[at]) == S::zero_spec() && x2[at].mul_spec(y2[at]) == v,
    ensures
        dot_prefix(x2, y2, count) == if count > at {
            dot_prefix(x, y, count).add_spec(v)
        } else {
            dot_prefix(x, y, count)
        },
    decreases count,
{
    if count > 0 {
        let last = count - 1;
        lemma_dot_replace(x, y, x2, y2, last as nat, at, v);
        let before = dot_prefix(x, y, last as nat);
        let term = x[last].mul_spec(y[last]);
        if last == at {
            assert(units_act_on(before));
        } else {
            assert(x[last].mul_spec(y[last]) == x2[last].mul_spec(y2[last]));
            if last > at {
                assert(add_associates(before, v, term));
                assert(add_commutes(v, term));
                assert(add_associates(before, term, v));
            }
        }
    }
}

/// What the eliminations recorded in `lower` take from entry `i` of a
/// column: the dot product of row `i` of the factor with the column, entry
/// `i` itself left out.
pub open spec fn eliminated_part<S: Numerical>(lower: Seq<S>, n: nat, column: Seq<S>, i: int) -> S {
    dot_spec(row_of(lower, n, i), column.update(i, S::zero_spec()))
}

/// Forward substitution over the lower factor, as far as it is filled,
/// takes from every entry of a column what the eliminations recorded so far
/// take from it.
pub proof fn lemma_candidate_entry<S: Numerical>(
    state: Elimination<S>,
    n: nat,
    k: nat,
    a: Seq<S>,
    i: int,
)
    requires
        n <= usize::MAX,
        k <= n,
        state.wf_at(n, k),
        state.triangular_at(n, k),
        a.len() == n,
        0 <= i < n,
        exact_arithmetic::<S>(),
    ensures
        substitute(state.factors.lower, state.factors.permutation, LOWER, a, n).len() == n,
        substitute(state.factors.lower, state.factors.permutation, LOWER, a, n)[i] == a[i].sub_spec(
            eliminated_part(
                state.factors.lower,
                n,
                substitute(state.factors.lower, state.factors.permutation, LOWER, a, n),
                i,
            ),
        ),
{
    let lower = state.factors.lower;
    let p = state.factors.permutation;
    let q = state.factors.inverse_permutation;
    let column = substitute(lower, p, LOWER, a, n);
    let at = q[i] as nat;
    lemma_substitute_len(lower, p, LOWER, a, n);
    lemma_substitute_len(lower, p, LOWER, a, at);
    lemma_substitute_entry(lower, p, q, a, n, i);
    lemma_substitute_entry(lower, p, q, a, at, i);
    let before = substitute(lower, p, LOWER, a, at);
    assert(pivot_at(p, LOWER, at as int) == i);
    assert(substitute(lower, p, LOWER, a, at + 1) == substitute_at(lower, n, i, before));
    let cleared = before.update(i, S::zero_spec());
    let row = row_of(lower, n, i);
    lemma_cell_bounds(n, i, 0);
    assert(row.len() == n);
    assert forall|j: int| 0 <= j < n implies row[j].mul_spec(cleared[j]) == #[trigger] row[j].mul_spec(
        column.update(i, S::zero_spec())[j],
    ) by {
        lemma_cell_bounds(n, i, j);
        assert(row[j] == lower[cell(n, i, j)]);
        if j != i {
            if lower[cell(n, i, j)] == S::zero_spec() {
                assert(units_act_on(cleared[j]));
                assert(units_act_on(column[j]));
            } else {
                lemma_substitute_entry(lower, p, q, a, at, j);
                lemma_substitute_entry(lower, p, q, a, n, j);
            }
        }
    }
    lemma_dot_termwise(row, cleared, row, column.update(i, S::zero_spec()), n);
    lemma_cell_bounds(n, i, i);
    assert(lower[cell(n, i, i)] == one_spec::<S>());
    assert(units_act_on(a[i].sub_spec(eliminated_part(lower, n, column, i))));
}

/// Entry `(i, c)` of the product of the lower and the upper factor.
pub open spec fn factor_product<S: Numerical>(factors: LuFactors<S>, n: nat, i: int, c: int) -> S {
    dot_spec(row_of(factors.lower, n, i), column_of(factors.upper, n, c))
}

/// Whether the product of the factors, as far as they are filled, holds
/// the first `k` columns of the matrix: column `c` of the matrix stands in
/// the column of the product that belongs to the pivot of `c`.
pub open spec fn product_is_matrix<S: Numerical>(
    matrix: Seq<S>,
    n: nat,
    factors: LuFactors<S>,
    k: nat,
) -> bool {
    forall|i: int, c: int|
        0 <= i < n && 0 <= c < k ==> #[trigger] factor_product(
            factors,
            n,
            i,
            factors.permutation[c] as int,
        ) == matrix[cell(n, i, c)]
}

/// The elimination of a column leaves the columns of the product that were
/// there as they are.
proof fn lemma_product_keeps_column<S: Numerical>(
    matrix: Seq<S>,
    n: nat,
    state: Elimination<S>,
    k: nat,
    i: int,
    c: int,
)
    requires
        n <= usize::MAX,
        matrix.len() == n * n,
        k < n,
        state.wf_at(n, k),
        state.triangular_at(n, k),
        exact_arithmetic::<S>(),
        eliminate_column(matrix, n, state, k as int) is Some,
        0 <= i < n,
        0 <= c < k,
    ensures
        factor_product(
            eliminate_column(matrix, n, state, k as int)->0.factors,
            n,
            i,
            state.factors.permutation[c] as int,
        ) == factor_product(state.factors, n, i, state.factors.permutation[c] as int),
        eliminate_column(matrix, n, state, k as int)->0.factors.permutation[c]
            == state.factors.permutation[c],
{
    let next = eliminate_column(matrix, n, state, k as int)->0;
    let p = state.factors.permutation;
    let q = state.factors.inverse_permutation;
    let column = candidate_column(matrix, n, state, k as int);
    let pivot_row = pivot_candidate(column, state.row_used, n);
    lemma_eliminate_column_wf(matrix, n, state, k);
    lemma_record_pivot(p, q, state.row_used, k, pivot_row);
    let jc = p[c] as int;
    assert(q[jc] == c);
    assert(state.row_used[jc]);
    assert(jc != pivot_row);
    let x = row_of(state.factors.lower, n, i);
    let y = column_of(state.factors.upper, n, jc);
    let x2 = row_of(next.factors.lower, n, i);
    let y2 = column_of(next.factors.upper, n, jc);
    lemma_cell_bounds(n, i, 0);
    assert(n * n >= 0) by (nonlinear_arith);
    assert forall|j: int| 0 <= j < n implies x[j].mul_spec(y[j]) == #[trigger] x2[j].mul_spec(
        y2[j],
    ) by {
        lemma_cell_bounds(n, i, j);
        lemma_cell_div_mod(n, i, j);
        lemma_cell_bounds(n, j, jc);
        lemma_cell_div_mod(n, j, jc);
        assert(x[j] == state.factors.lower[cell(n, i, j)]);
        assert(x2[j] == next.factors.lower[cell(n, i, j)]);
        assert(y2[j] == y[j]);
        if j == pivot_row {
            assert(state.factors.upper[cell(n, pivot_row, jc)] == S::zero_spec());
            assert(units_act_on(x[j]));
            assert(units_act_on(x2[j]));
        }
    }
    lemma_dot_termwise(x, y, x2, y2, n);
}

/// The elimination of column `k` puts column `k` of the matrix into the
/// column of the product that belongs to its pivot.
proof fn lemma_product_gains_column<S: Numerical>(
    matrix: Seq<S>,
    n: nat,
    state: Elimination<S>,
    k: nat,
    i: int,
)
    requires
        n <= usize::MAX,
        matrix.len() == n * n,
        k < n,
        state.wf_at(n, k),
        state.triangular_at(n, k),
        exact_arithmetic::<S>(),
        eliminate_column(matrix, n, state, k as int) is Some,
        0 <= i < n,
    ensures
        factor_product(
            eliminate_column(matrix, n, state, k as int)->0.factors,
            n,
            i,
            eliminate_column(matrix, n, state, k as int)->0.factors.permutation[k as int] as int,
        ) == matrix[cell(n, i, k as int)],
{
    let next = eliminate_column(matrix, n, state, k as int)->0;
    let lower = state.factors.lower;
    let upper = state.factors.upper;
    let p = state.factors.permutation;
    let q = state.factors.inverse_permutation;
    let a = column_of(matrix, n, k as int);
    let column = candidate_column(matrix, n, state, k as int);
    let pivot_row = pivot_candidate(column, state.row_used, n);
    let pivot_value = column[pivot_row];
    let row_used = state.row_used.update(pivot_row, true);
    lemma_eliminate_column_wf(matrix, n, state, k);
    lemma_record_pivot(p, q, state.row_used, k, pivot_row);
    assert(next.factors.permutation[k as int] == pivot_row);
    lemma_candidate_entry(state, n, k, a, i);
    let part = eliminated_part(lower, n, column, i);
    assert(column[i] == a[i].sub_spec(part));

    let x = row_of(lower, n, i);
    let y = column.update(i, S::zero_spec());
    let x2 = row_of(next.factors.lower, n, i);
    let y2 = column_of(next.factors.upper, n, pivot_row);
    let at = if row_used[i] {
        i
    } else {
        pivot_row
    };
    let v = column[i];
    lemma_cell_bounds(n, i, 0);
    assert(n * n >= 0) by (nonlinear_arith);
    assert(q[pivot_row] >= k);
    assert forall|j: int| 0 <= j < n implies {
        &&& x[j] == lower[cell(n, i, j)]
        &&& x2[j] == (if j == pivot_row && !row_used[i] {
            column[i].div_spec(pivot_value)
        } else {
            lower[cell(n, i, j)]
        })
        &&& #[trigger] y2[j] == (if row_used[j] {
            column[j]
        } else {
            S::zero_spec()
        })
        &&& (j != i && !state.row_used[j] ==> lower[cell(n, i, j)] == S::zero_spec())
        &&& lower[cell(n, i, i)] == one_spec::<S>()
    } by {
        lemma_cell_bounds(n, i, j);
        lemma_cell_div_mod(n, i, j);
        lemma_cell_bounds(n, j, pivot_row);
        lemma_cell_div_mod(n, j, pivot_row);
        lemma_cell_bounds(n, i, i);
        assert(upper[cell(n, j, pivot_row)] == S::zero_spec());
        assert(state.row_used[j] == (q[j] < k));
    }
    assert forall|j: int| 0 <= j < n && j != at implies x[j].mul_spec(y[j]) == #[trigger] x2[j].mul_spec(
        y2[j],
    ) by {
        assert(y2[j] == (if row_used[j] {
            column[j]
        } else {
            S::zero_spec()
        }));
        assert(units_act_on(column[j]));
        assert(units_act_on(S::zero_spec()));
        assert(units_act_on(one_spec::<S>()));
    }
    assert(y2[at] == (if row_used[at] {
        column[at]
    } else {
        S::zero_spec()
    }));
    assert(units_act_on(column[at]));
    assert(units_act_on(column[i]));
    assert(units_act_on(one_spec::<S>()));
    assert(div_returns(column[i], pivot_value));
    assert(x[at].mul_spec(y[at]) == S::zero_spec());
    assert(x2[at].mul_spec(y2[at]) == v);
    lemma_dot_replace(x, y, x2, y2, n, at, v);
    assert(add_commutes(part, column[i]));
    assert(sub_returns(a[i], part));
}

/// The elimination of a column keeps the product of the factors equal to
/// the matrix, as far as the factors are filled.
pub proof fn lemma_eliminate_column_product<S: Numerical>(
    matrix: Seq<S>,
    n: nat,
    state: Elimination<S>,
    k: nat,
)
    requires
        n <= usize::MAX,
        matrix.len() == n * n,
        k < n,
        state.wf_at(n, k),
        state.triangular_at(n, k),
        exact_arithmetic::<S>(),
        product_is_matrix(matrix, n, state.factors, k),
    ensures
        eliminate_column(matrix, n, state, k as int) matches Some(next) ==> product_is_matrix(
            matrix,
            n,
            next.factors,
            k + 1,
        ),
{
    if let Some(next) = eliminate_column(matrix, n, state, k as int) {
        assert forall|i: int, c: int| 0 <= i < n && 0 <= c < k + 1 implies #[trigger] factor_product(
            next.factors,
            n,
            i,
            next.factors.permutation[c] as int,
        ) == matrix[cell(n, i, c)] by {
            if c < k {
                lemma_product_keeps_column(matrix, n, state, k, i, c);
                assert(factor_product(state.factors, n, i, state.factors.permutation[c] as int)
                    == matrix[cell(n, i, c)]);
            } else {
                lemma_product_gains_column(matrix, n, state, k, i);
            }
        }
    }
}

/// In exact arithmetic the product of the factors, as far as they are
/// filled, holds the columns of the matrix that were eliminated.
pub proof fn lemma_eliminate_product<S: Numerical>(matrix: Seq<S>, n: nat, k: nat)
    requires
        n <= usize::MAX,
        matrix.len() == n * n,
        k <= n,
        exact_arithmetic::<S>(),
    ensures
        eliminate(matrix, n, k) matches Some(state) ==> product_is_matrix(
            matrix,
            n,
            state.factors,
            k,
        ),
    decreases k,
{
    if k > 0 {
        lemma_eliminate_product(matrix, n, (k - 1) as nat);
        lemma_eliminate_wf(matrix, n, (k - 1) as nat);
        if let Some(state) = eliminate(matrix, n, (k - 1) as nat) {
            lemma_eliminate_column_product(matrix, n, state, (k - 1) as nat);
        }
    }
}

/// In exact arithmetic the factors of a matrix multiply to the matrix:
/// entry `(i, c)` of the matrix is the dot product of row `i` of the lower
/// factor with the column of the upper factor that belongs to the pivot of
/// column `c`. With rows and columns taken in pivot order this is
/// `P·A = L·U`.
pub proof fn lemma_factors_multiply_to_matrix<S: Numerical>(
    matrix: Seq<S>,
    n: nat,
    i: int,
    c: int,
)
    requires
        n <= usize::MAX,
        matrix.len() == n * n,
        exact_arithmetic::<S>(),
        factorize(matrix, n) is Some,
        0 <= i < n,
        0 <= c < n,
    ensures
        factor_product(
            factorize(matrix, n)->0,
            n,
            i,
            factorize(matrix, n)->0.permutation[c] as int,
        ) == matrix[cell(n, i, c)],
{
    lemma_eliminate_product(matrix, n, n);
    let state = eliminate(matrix, n, n)->0;
    assert(product_is_matrix(matrix, n, state.factors, n));
}

/// In exact arithmetic forward substitution solves the lower triangular
/// system: the lower factor times what it returns is the right-hand side.
pub proof fn lemma_forward_substitution_solves<S: Numerical>(
    matrix: Seq<S>,
    n: nat,
    b: Seq<S>,
    i: int,
)
    requires
        n <= usize::MAX,
        matrix.len() == n * n,
        exact_arithmetic::<S>(),
        factorize(matrix, n) is Some,
        b.len() == n,
        0 <= i < n,
    ensures
        dot_spec(
            row_of(factorize(matrix, n)->0.lower, n, i),
            substitute(
                factorize(matrix, n)->0.lower,
                factorize(matrix, n)->0.permutation,
                LOWER,
                b,
                n,
            ),
        ) == b[i],
{
    let state = eliminate(matrix, n, n)->0;
    let lower = state.factors.lower;
    lemma_eliminate_wf(matrix, n, n);
    lemma_candidate_entry(state, n, n, b, i);
    let forward = substitute(lower, state.factors.permutation, LOWER, b, n);
    let part = eliminated_part(lower, n, forward, i);
    let row = row_of(lower, n, i);
    lemma_cell_bounds(n, i, 0);
    lemma_cell_bounds(n, i, i);
    assert(row.len() == n);
    assert(row[i] == lower[cell(n, i, i)]);
    assert(lower[cell(n, i, i)] == one_spec::<S>());
    assert(units_act_on(one_spec::<S>()));
    assert(units_act_on(forward[i]));
    lemma_dot_replace(row, forward.update(i, S::zero_spec()), row, forward, n, i, forward[i]);
    assert(add_commutes(part, forward[i]));
    assert(sub_returns(b[i], part));
}

/// Backward substitution settles every unknown at the step of its row:
/// before that step the unknown is as given, after it as that step left it.
pub proof fn lemma_substitute_entry_upper<S: Numerical>(
    upper: Seq<S>,
    permutation: Seq<Index>,
    inverse_permutation: Seq<Index>,
    x: Seq<S>,
    steps: nat,
    j: int,
)
    requires
        mutually_inverse(permutation, inverse_permutation),
        x.len() == permutation.len(),
        steps <= permutation.len(),
        0 <= j < permutation.len(),
    ensures
        permutation.len() - 1 - inverse_permutation[j] >= steps ==> substitute(
            upper,
            permutation,
            UPPER,
            x,
            steps,
        )[j] == x[j],
        permutation.len() - 1 - inverse_permutation[j] < steps ==> substitute(
            upper,
            permutation,
            UPPER,
            x,
            steps,
        )[j] == substitute(
            upper,
            permutation,
            UPPER,
            x,
            (permutation.len() - inverse_permutation[j]) as nat,
        )[j],
    decreases steps,
{
    if steps > 0 {
        lemma_substitute_entry_upper(
            upper,
            permutation,
            inverse_permutation,
            x,
            (steps - 1) as nat,
            j,
        );
        lemma_substitute_len(upper, permutation, UPPER, x, (steps - 1) as nat);
        let k = pivot_at(permutation, UPPER, steps - 1);
        assert(k == permutation[permutation.len() - 1 - (steps - 1)]);
        assert(inverse_permutation[k] == permutation.len() - 1 - (steps - 1));
        assert(permutation[inverse_permutation[j] as int] == j);
    }
}

/// Whether the upper factor holds, on the diagonal place of each of the
/// first `k` pivots, a value that is large enough for a pivot.
pub open spec fn pivots_are_large<S: Numerical>(factors: LuFactors<S>, n: nat, k: nat) -> bool {
    forall|c: int|
        0 <= c < k ==> !(#[trigger] factors.upper[cell(
            n,
            factors.permutation[c] as int,
            factors.permutation[c] as int,
        )]).abs_spec().lt_spec(min_pivot_spec::<S>())
}

/// Every pivot that the elimination records is large enough for a pivot.
pub proof fn lemma_pivots_are_large<S: Numerical>(matrix: Seq<S>, n: nat, k: nat)
    requires
        n <= usize::MAX,
        matrix.len() == n * n,
        k <= n,
    ensures
        eliminate(matrix, n, k) matches Some(state) ==> pivots_are_large(state.factors, n, k),
    decreases k,
{
    if k > 0 {
        let before = (k - 1) as nat;
        lemma_pivots_are_large(matrix, n, before);
        lemma_eliminate_wf(matrix, n, before);
        if let Some(state) = eliminate(matrix, n, before) {
            if let Some(next) = eliminate_column(matrix, n, state, before as int) {
                let p = state.factors.permutation;
                let q = state.factors.inverse_permutation;
                let column = candidate_column(matrix, n, state, before as int);
                let pivot_row = pivot_candidate(column, state.row_used, n);
                lemma_eliminate_column_wf(matrix, n, state, before);
                lemma_record_pivot(p, q, state.row_used, before, pivot_row);
                assert(n * n >= 0) by (nonlinear_arith);
                assert forall|c: int| 0 <= c < k implies !(#[trigger] next.factors.upper[cell(
                    n,
                    next.factors.permutation[c] as int,
                    next.factors.permutation[c] as int,
                )]).abs_spec().lt_spec(min_pivot_spec::<S>()) by {
                    let row = next.factors.permutation[c] as int;
                    lemma_cell_bounds(n, row, row);
                    lemma_cell_div_mod(n, row, row);
                    if c < before {
                        assert(row == p[c]);
                        assert(q[row] == c);
                        assert(state.row_used[row]);
                        assert(!(state.factors.upper[cell(
                            n,
                            p[c] as int,
                            p[c] as int,
                        )]).abs_spec().lt_spec(min_pivot_spec::<S>()));
                    }
                }
            }
        }
    }
}

/// In exact arithmetic backward substitution solves the upper triangular
/// system: the upper factor times what it returns is the right-hand side.
pub proof fn lemma_backward_substitution_solves<S: Numerical>(
    matrix: Seq<S>,
    n: nat,
    y: Seq<S>,
    i: int,
)
    requires
        n <= usize::MAX,
        matrix.len() == n * n,
        exact_arithmetic::<S>(),
        factorize(matrix, n) is Some,
        y.len() == n,
        0 <= i < n,
    ensures
        dot_spec(
            row_of(factorize(matrix, n)->0.upper, n, i),
            substitute(
                factorize(matrix, n)->0.upper,
                factorize(matrix, n)->0.permutation,
                UPPER,
                y,
                n,
            ),
        ) == y[i],
{
    let state = eliminate(matrix, n, n)->0;
    let upper = state.factors.upper;
    let p = state.factors.permutation;
    let q = state.factors.inverse_permutation;
    lemma_eliminate_wf(matrix, n, n);
    lemma_pivots_are_large(matrix, n, n);
    let z = substitute(upper, p, UPPER, y, n);
    let at = (n - 1 - q[i]) as nat;
    lemma_substitute_len(upper, p, UPPER, y, n);
    lemma_substitute_len(upper, p, UPPER, y, at);
    lemma_substitute_entry_upper(upper, p, q, y, n, i);
    lemma_substitute_entry_upper(upper, p, q, y, at, i);
    let before = substitute(upper, p, UPPER, y, at);
    assert(p[q[i] as int] == i);
    assert(pivot_at(p, UPPER, at as int) == i);
    assert(substitute(upper, p, UPPER, y, at + 1) == substitute_at(upper, n, i, before));
    let cleared = before.update(i, S::zero_spec());
    let row = row_of(upper, n, i);
    lemma_cell_bounds(n, i, 0);
    lemma_cell_bounds(n, i, i);
    assert(row.len() == n);
    assert forall|j: int| 0 <= j < n implies row[j].mul_spec(cleared[j]) == #[trigger] row[j].mul_spec(
        z.update(i, S::zero_spec())[j],
    ) by {
        lemma_cell_bounds(n, i, j);
        assert(row[j] == upper[cell(n, i, j)]);
        if j != i {
            if upper[cell(n, i, j)] == S::zero_spec() {
                assert(units_act_on(cleared[j]));
                assert(units_act_on(z[j]));
            } else {
                assert(p[q[j] as int] == j);
                lemma_substitute_entry_upper(upper, p, q, y, at, j);
                lemma_substitute_entry_upper(upper, p, q, y, n, j);
            }
        }
    }
    lemma_dot_termwise(row, cleared, row, z.update(i, S::zero_spec()), n);
    let part = dot_spec(row, z.update(i, S::zero_spec()));
    let pivot = upper[cell(n, i, i)];
    assert(z[i] == y[i].sub_spec(part).div_spec(pivot));
    assert(pivot == upper[cell(n, p[q[i] as int] as int, p[q[i] as int] as int)]);
    assert(!pivot.abs_spec().lt_spec(min_pivot_spec::<S>()));
    assert(div_returns(y[i].sub_spec(part), pivot));
    assert(units_act_on(pivot));
    assert(row[i] == pivot);
    lemma_dot_replace(row, z.update(i, S::zero_spec()), row, z, n, i, y[i].sub_spec(part));
    assert(add_commutes(part, y[i].sub_spec(part)));
    assert(sub_returns(y[i], part));
}

} // verus!
