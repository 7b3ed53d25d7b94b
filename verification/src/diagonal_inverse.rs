//! The factorisation of a diagonal matrix and the inverse power method on
//! it: where the arithmetic treats zero, one and the shifted diagonal
//! entries as exact arithmetic does, the factors are the identity and the
//! matrix itself, and the iteration corrects the estimate once.

use vstd::prelude::*;
use crate::diagonal::{is_diagonal, lemma_spike_normalized, plain_beside_zero, spike};
use crate::inverse_power_method::{direction_settled, first_correction, inverse_run};
use crate::inverse_power_method::{inverse_start, is_inverse_power_result};
use crate::inverse_power_method::{lemma_nearest_diagonal_bounds, lemma_run_from_an_eigenvector};
use crate::inverse_power_method::{nearest_diagonal, relative_sign_from, shift_settled};
use crate::inverse_power_method::{signed_change, starts_at_an_eigenvector};
use crate::layout::{cell, column_of, row_of, table};
use crate::layout::{lemma_cell_bounds, lemma_cell_div_mod, lemma_position_is_cell};
use crate::lu::{candidate_column, dot_prefix, dot_spec, eliminate, eliminate_column};
use crate::lu::{elimination_start, factorize, pivot_at, pivot_candidate, solve_spec};
use crate::lu::{lemma_zero_column_is_singular, vanishes_on_zero, zero_is_plain};
use crate::lu::{substitute, substitute_at, Elimination, LuFactors, LOWER, UPPER};
use crate::power_method::PowerMethod;
use crate::rand_matrix::{similar_matrix, weighted_column};
use crate::scalar::{min_pivot_spec, one_spec, pm_convergence_spec, pm_min_coord_spec};
use crate::scalar::{Index, Numerical, OtherNumericalOps};
use crate::vector::{lowered_diagonal, normalized};

verus! {

/// The pivots in the order of the rows.
pub open spec fn identity_order(n: nat) -> Seq<Index> {
    Seq::new(n, |i: int| i as Index)
}

/// A dot product of which every product is zero is zero.
proof fn lemma_dot_of_zero_products<S: Numerical>(row: Seq<S>, x: Seq<S>, count: nat)
    requires
        count <= row.len(),
        count <= x.len(),
        plain_beside_zero(S::zero_spec()),
        forall|k: int| 0 <= k < count ==> (#[trigger] row[k]).mul_spec(x[k]) == S::zero_spec(),
    ensures
        dot_prefix(row, x, count) == S::zero_spec(),
    decreases count,
{
    if count > 0 {
        lemma_dot_of_zero_products(row, x, (count - 1) as nat);
        assert(row[count - 1].mul_spec(x[count - 1]) == S::zero_spec());
    }
}

/// One substitution step over a diagonal matrix leaves a spike as it is,
/// but for the step of the spike's coordinate, which divides its entry by
/// the diagonal entry.
pub proof fn lemma_substitute_at_spike<S: Numerical>(
    matrix: Seq<S>,
    n: nat,
    k: int,
    j: int,
    c: S,
)
    requires
        matrix.len() == n * n,
        is_diagonal(matrix, n),
        0 <= k < n,
        0 <= j < n,
        plain_beside_zero(S::zero_spec()),
        plain_beside_zero(c),
        plain_beside_zero(matrix[cell(n, k, k)]),
        S::zero_spec().sub_spec(S::zero_spec()) == S::zero_spec(),
        S::zero_spec().div_spec(matrix[cell(n, k, k)]) == S::zero_spec(),
        k == j ==> c.sub_spec(S::zero_spec()) == c,
    ensures
        substitute_at(matrix, n, k, spike(n, j, c)) == spike(
            n,
            j,
            if k == j {
                c.div_spec(matrix[cell(n, j, j)])
            } else {
                c
            },
        ),
{
    let x = spike(n, j, c);
    let cleared = x.update(k, S::zero_spec());
    let row = row_of(matrix, n, k);
    lemma_cell_bounds(n, k, 0);
    assert(row.len() == n);
    assert forall|i: int| 0 <= i < n implies (#[trigger] row[i]).mul_spec(cleared[i])
        == S::zero_spec() by {
        lemma_cell_bounds(n, k, i);
        assert(row[i] == matrix[cell(n, k, i)]);
        if i != k {
            assert(matrix[cell(n, k, i)] == S::zero_spec());
        }
    }
    lemma_dot_of_zero_products(row, cleared, n);
    assert(dot_spec(row, cleared) == S::zero_spec());
    assert(substitute_at(matrix, n, k, x) =~= spike(
        n,
        j,
        if k == j {
            c.div_spec(matrix[cell(n, j, j)])
        } else {
            c
        },
    ));
}

/// Whether the first `steps` substitution steps have come to coordinate
/// `j`: forward substitution takes the coordinates in their order, backward
/// substitution in the reverse order.
pub open spec fn reached(n: nat, triangularity: Index, j: int, steps: nat) -> bool {
    if triangularity == UPPER {
        j >= n - steps
    } else {
        j < steps
    }
}

/// Substitution over a diagonal matrix, with the pivots in the order of the
/// rows, divides the entry of a spike by the diagonal entry of its
/// coordinate and leaves the zeros as they are.
pub proof fn lemma_substitute_spike<S: Numerical>(
    matrix: Seq<S>,
    n: nat,
    triangularity: Index,
    j: int,
    c: S,
    steps: nat,
)
    requires
        n <= usize::MAX,
        matrix.len() == n * n,
        is_diagonal(matrix, n),
        triangularity == UPPER || triangularity == LOWER,
        0 <= j < n,
        steps <= n,
        plain_beside_zero(S::zero_spec()),
        plain_beside_zero(c),
        plain_beside_zero(c.div_spec(matrix[cell(n, j, j)])),
        S::zero_spec().sub_spec(S::zero_spec()) == S::zero_spec(),
        c.sub_spec(S::zero_spec()) == c,
        forall|k: int|
            0 <= k < n ==> plain_beside_zero(#[trigger] matrix[cell(n, k, k)])
                && S::zero_spec().div_spec(matrix[cell(n, k, k)]) == S::zero_spec(),
    ensures
        substitute(matrix, identity_order(n), triangularity, spike(n, j, c), steps) == spike(
            n,
            j,
            if reached(n, triangularity, j, steps) {
                c.div_spec(matrix[cell(n, j, j)])
            } else {
                c
            },
        ),
    decreases steps,
{
    if steps > 0 {
        lemma_substitute_spike(matrix, n, triangularity, j, c, (steps - 1) as nat);
        let k = pivot_at(identity_order(n), triangularity, steps - 1);
        assert(0 <= k < n);
        assert(plain_beside_zero(matrix[cell(n, k, k)]));
        if reached(n, triangularity, j, (steps - 1) as nat) {
            assert(k != j);
            lemma_substitute_at_spike(matrix, n, k, j, c.div_spec(matrix[cell(n, j, j)]));
        } else {
            lemma_substitute_at_spike(matrix, n, k, j, c);
        }
    }
}

/// The identity matrix.
pub open spec fn identity_table<S: Numerical>(n: nat) -> Seq<S> {
    table(
        n,
        |i: int, j: int|
            if i == j {
                one_spec::<S>()
            } else {
                S::zero_spec()
            },
    )
}

/// The first `k` diagonal entries of the matrix on the diagonal, and zero
/// everywhere else.
pub open spec fn leading_diagonal<S: Numerical>(matrix: Seq<S>, n: nat, k: nat) -> Seq<S> {
    table(
        n,
        |i: int, j: int|
            if i == j && i < k {
                matrix[cell(n, i, i)]
            } else {
                S::zero_spec()
            },
    )
}

/// The state of the elimination of a diagonal matrix after `k` columns:
/// nothing is eliminated and no rows are exchanged.
pub open spec fn diagonal_state<S: Numerical>(matrix: Seq<S>, n: nat, k: nat) -> Elimination<S> {
    Elimination {
        factors: LuFactors {
            lower: identity_table(n),
            upper: leading_diagonal(matrix, n, k),
            permutation: identity_order(n),
            inverse_permutation: identity_order(n),
        },
        row_used: Seq::new(n, |i: int| i < k),
    }
}

/// Whether each of the first `k` diagonal entries is large enough for a
/// pivot.
pub open spec fn pivots_suffice<S: Numerical>(matrix: Seq<S>, n: nat, k: nat) -> bool
    decreases k,
{
    k == 0 || (pivots_suffice(matrix, n, (k - 1) as nat) && !matrix[cell(
        n,
        k - 1,
        k - 1,
    )].abs_spec().lt_spec(min_pivot_spec::<S>()))
}

/// What the arithmetic has to know of zero and one: both are plain beside
/// zero, `0 − 0 = 0` and `0 / 1 = 0`.
pub open spec fn units_are_plain<S: Numerical>() -> bool {
    &&& plain_beside_zero(S::zero_spec())
    &&& plain_beside_zero(one_spec::<S>())
    &&& S::zero_spec().sub_spec(S::zero_spec()) == S::zero_spec()
    &&& S::zero_spec().div_spec(one_spec::<S>()) == S::zero_spec()
}

/// What the arithmetic has to know of a diagonal entry `e`: it is plain
/// beside zero, `e − 0 = e`, `e / 1 = e`, `0 / e = 0`, and its magnitude is
/// not less than that of zero.
pub open spec fn entry_is_plain<S: Numerical>(e: S) -> bool {
    &&& plain_beside_zero(e)
    &&& e.sub_spec(S::zero_spec()) == e
    &&& e.div_spec(one_spec::<S>()) == e
    &&& S::zero_spec().div_spec(e) == S::zero_spec()
    &&& !e.abs_spec().lt_spec(S::zero_spec().abs_spec())
}

/// Whether each of the first `k` diagonal entries is plain.
pub open spec fn entries_are_plain<S: Numerical>(matrix: Seq<S>, n: nat, k: nat) -> bool {
    forall|i: int| 0 <= i < k ==> entry_is_plain(#[trigger] matrix[cell(n, i, i)])
}

/// The identity matrix is diagonal, with one on its diagonal.
pub proof fn lemma_identity_table<S: Numerical>(n: nat)
    ensures
        identity_table::<S>(n).len() == n * n,
        is_diagonal(identity_table::<S>(n), n),
        forall|k: int| 0 <= k < n ==> identity_table::<S>(n)[#[trigger] cell(n, k, k)] == one_spec::<S>(),
{
    assert(n * n >= 0) by (nonlinear_arith);
    assert forall|i: int, k: int| 0 <= i < n && 0 <= k < n implies identity_table::<S>(n)[#[trigger] cell(
        n,
        i,
        k,
    )] == (if i == k {
        one_spec::<S>()
    } else {
        S::zero_spec()
    }) by {
        lemma_cell_bounds(n, i, k);
        lemma_cell_div_mod(n, i, k);
    }
}

/// The leading diagonal of a matrix is diagonal, with the entries of the
/// matrix on the first `k` places of its diagonal.
pub proof fn lemma_leading_diagonal<S: Numerical>(matrix: Seq<S>, n: nat, k: nat)
    ensures
        leading_diagonal(matrix, n, k).len() == n * n,
        is_diagonal(leading_diagonal(matrix, n, k), n),
        forall|i: int|
            0 <= i < n && i < k ==> leading_diagonal(matrix, n, k)[#[trigger] cell(n, i, i)]
                == matrix[cell(n, i, i)],
{
    assert(n * n >= 0) by (nonlinear_arith);
    assert forall|i: int, j: int| 0 <= i < n && 0 <= j < n implies leading_diagonal(
        matrix,
        n,
        k,
    )[#[trigger] cell(n, i, j)] == (if i == j && i < k {
        matrix[cell(n, i, i)]
    } else {
        S::zero_spec()
    }) by {
        lemma_cell_bounds(n, i, j);
        lemma_cell_div_mod(n, i, j);
    }
}

/// In a column that is a spike at the first unused row, that row is the
/// pivot: the rows before it are used, and no row after it is larger.
proof fn lemma_pivot_of_spike<S: Numerical>(n: nat, k: int, e: S, count: nat)
    requires
        0 <= k < n,
        count <= n,
        !e.abs_spec().lt_spec(S::zero_spec().abs_spec()),
    ensures
        pivot_candidate(spike(n, k, e), Seq::new(n, |i: int| i < k), count) == if count > k {
            k
        } else {
            0
        },
    decreases count,
{
    if count > 0 {
        lemma_pivot_of_spike(n, k, e, (count - 1) as nat);
    }
}

/// The elimination of the next column of a diagonal matrix: it fails if the
/// diagonal entry is too small for a pivot, and records the entry otherwise.
proof fn lemma_eliminate_diagonal_column<S: Numerical>(matrix: Seq<S>, n: nat, k: nat)
    requires
        n <= usize::MAX,
        matrix.len() == n * n,
        is_diagonal(matrix, n),
        k < n,
        units_are_plain::<S>(),
        entry_is_plain(matrix[cell(n, k as int, k as int)]),
    ensures
        eliminate_column(matrix, n, diagonal_state(matrix, n, k), k as int) == if matrix[cell(
            n,
            k as int,
            k as int,
        )].abs_spec().lt_spec(min_pivot_spec::<S>()) {
            None
        } else {
            Some(diagonal_state(matrix, n, k + 1))
        },
{
    let e = matrix[cell(n, k as int, k as int)];
    let state = diagonal_state(matrix, n, k);
    let lower = identity_table::<S>(n);
    lemma_identity_table::<S>(n);
    assert(column_of(matrix, n, k as int) =~= spike(n, k as int, e));
    assert forall|i: int| 0 <= i < n implies plain_beside_zero(#[trigger] lower[cell(n, i, i)])
        && S::zero_spec().div_spec(lower[cell(n, i, i)]) == S::zero_spec() by {}
    lemma_substitute_spike(lower, n, LOWER, k as int, e, n);
    let column = candidate_column(matrix, n, state, k as int);
    assert(column == spike(n, k as int, e));
    lemma_pivot_of_spike(n, k as int, e, n);
    let pivot_row = pivot_candidate(column, state.row_used, n);
    assert(pivot_row == k);
    if !e.abs_spec().lt_spec(min_pivot_spec::<S>()) {
        let next = eliminate_column(matrix, n, state, k as int)->0;
        let target = diagonal_state(matrix, n, k + 1);
        let row_used = state.row_used.update(k as int, true);
        assert(next.row_used =~= target.row_used);
        assert(next.factors.permutation =~= target.factors.permutation);
        assert(next.factors.inverse_permutation =~= target.factors.inverse_permutation);
        assert(n * n >= 0) by (nonlinear_arith);
        assert forall|p: int| 0 <= p < n * n implies next.factors.lower[p]
            == target.factors.lower[p] by {
            lemma_position_is_cell(n, p);
        }
        assert(next.factors.lower =~= target.factors.lower);
        lemma_leading_diagonal(matrix, n, k);
        assert forall|p: int| 0 <= p < n * n implies next.factors.upper[p]
            == target.factors.upper[p] by {
            lemma_position_is_cell(n, p);
        }
        assert(next.factors.upper =~= target.factors.upper);
        assert(next.factors == target.factors);
        assert(next == target);
    }
}

/// The elimination of a diagonal matrix exchanges no rows and eliminates
/// nothing: after `k` columns the lower factor is the identity and the
/// upper factor holds the first `k` diagonal entries, unless one of them is
/// too small for a pivot, in which case the elimination has failed.
pub proof fn lemma_eliminate_diagonal<S: Numerical>(matrix: Seq<S>, n: nat, k: nat)
    requires
        n <= usize::MAX,
        matrix.len() == n * n,
        is_diagonal(matrix, n),
        k <= n,
        units_are_plain::<S>(),
        entries_are_plain(matrix, n, k),
    ensures
        eliminate(matrix, n, k) == if pivots_suffice(matrix, n, k) {
            Some(diagonal_state(matrix, n, k))
        } else {
            None
        },
    decreases k,
{
    if k == 0 {
        let start = elimination_start::<S>(n);
        let target = diagonal_state(matrix, n, 0);
        assert(start.factors.lower =~= target.factors.lower);
        assert(n * n >= 0) by (nonlinear_arith);
        assert forall|p: int| 0 <= p < n * n implies start.factors.upper[p]
            == target.factors.upper[p] by {
            lemma_position_is_cell(n, p);
        }
        assert(start.factors.upper =~= target.factors.upper);
        assert(start.factors.permutation =~= target.factors.permutation);
        assert(start.factors.inverse_permutation =~= target.factors.inverse_permutation);
        assert(start.row_used =~= target.row_used);
        assert(start.factors == target.factors);
        assert(start == target);
    } else {
        lemma_eliminate_diagonal(matrix, n, (k - 1) as nat);
        if pivots_suffice(matrix, n, (k - 1) as nat) {
            assert(entry_is_plain(matrix[cell(n, k - 1, k - 1)]));
            lemma_eliminate_diagonal_column(matrix, n, (k - 1) as nat);
        }
    }
}

/// A diagonal matrix whose diagonal entries are all large enough for a
/// pivot has the identity as its lower factor and itself as its upper
/// factor; any other diagonal matrix cannot be factored.
pub proof fn lemma_factorize_diagonal<S: Numerical>(matrix: Seq<S>, n: nat)
    requires
        n <= usize::MAX,
        matrix.len() == n * n,
        is_diagonal(matrix, n),
        units_are_plain::<S>(),
        entries_are_plain(matrix, n, n),
    ensures
        factorize(matrix, n) == if pivots_suffice(matrix, n, n) {
            Some(diagonal_state(matrix, n, n).factors)
        } else {
            None
        },
{
    lemma_eliminate_diagonal(matrix, n, n);
}

/// The factors of a diagonal matrix solve for a spike by dividing its entry
/// by the diagonal entry of its coordinate.
pub proof fn lemma_solve_diagonal<S: Numerical>(matrix: Seq<S>, n: nat, j: int, c: S)
    requires
        n <= usize::MAX,
        matrix.len() == n * n,
        is_diagonal(matrix, n),
        0 <= j < n,
        units_are_plain::<S>(),
        entries_are_plain(matrix, n, n),
        plain_beside_zero(c),
        c.sub_spec(S::zero_spec()) == c,
        c.div_spec(one_spec::<S>()) == c,
        plain_beside_zero(c.div_spec(matrix[cell(n, j, j)])),
    ensures
        solve_spec(diagonal_state(matrix, n, n).factors, spike(n, j, c)) == spike(
            n,
            j,
            c.div_spec(matrix[cell(n, j, j)]),
        ),
{
    let factors = diagonal_state(matrix, n, n).factors;
    let x = spike(n, j, c);
    lemma_identity_table::<S>(n);
    lemma_leading_diagonal(matrix, n, n);
    assert forall|k: int| 0 <= k < n implies plain_beside_zero(
        #[trigger] factors.lower[cell(n, k, k)],
    ) && S::zero_spec().div_spec(factors.lower[cell(n, k, k)]) == S::zero_spec() by {}
    lemma_substitute_spike(factors.lower, n, LOWER, j, c, n);
    let forward = substitute(factors.lower, factors.permutation, LOWER, x, n);
    assert(forward == x);
    assert forall|k: int| 0 <= k < n implies plain_beside_zero(
        #[trigger] factors.upper[cell(n, k, k)],
    ) && S::zero_spec().div_spec(factors.upper[cell(n, k, k)]) == S::zero_spec() by {
        assert(entry_is_plain(matrix[cell(n, k, k)]));
    }
    lemma_substitute_spike(factors.upper, n, UPPER, j, c, n);
    let backward = substitute(factors.upper, factors.permutation, UPPER, forward, n);
    assert(backward == spike(n, j, c.div_spec(matrix[cell(n, j, j)])));
    assert(solve_spec(factors, x) =~= backward);
}

/// The vector of which the first `done` coordinates, in the order in which
/// substitution takes them, are divided by the diagonal entries.
pub open spec fn divided<S: Numerical>(
    matrix: Seq<S>,
    n: nat,
    triangularity: Index,
    x: Seq<S>,
    steps: nat,
) -> Seq<S> {
    Seq::new(
        n,
        |k: int|
            if reached(n, triangularity, k, steps) {
                x[k].div_spec(matrix[cell(n, k, k)])
            } else {
                x[k]
            },
    )
}

/// What the arithmetic has to know of a right-hand side `b` and a diagonal
/// entry `e` that it is divided by: `b` and `b / e` are plain beside zero
/// and `b − 0 = b`.
pub open spec fn quotient_is_plain<S: Numerical>(b: S, e: S) -> bool {
    &&& plain_beside_zero(b)
    &&& plain_beside_zero(b.div_spec(e))
    &&& b.sub_spec(S::zero_spec()) == b
}

/// Substitution over a diagonal matrix, with the pivots in the order of the
/// rows, divides every unknown by its diagonal entry.
pub proof fn lemma_substitute_diagonal<S: Numerical>(
    matrix: Seq<S>,
    n: nat,
    triangularity: Index,
    x: Seq<S>,
    steps: nat,
)
    requires
        n <= usize::MAX,
        matrix.len() == n * n,
        is_diagonal(matrix, n),
        triangularity == UPPER || triangularity == LOWER,
        x.len() == n,
        steps <= n,
        plain_beside_zero(S::zero_spec()),
        forall|k: int|
            0 <= k < n ==> plain_beside_zero(#[trigger] matrix[cell(n, k, k)]) && quotient_is_plain(
                x[k],
                matrix[cell(n, k, k)],
            ),
    ensures
        substitute(matrix, identity_order(n), triangularity, x, steps) == divided(
            matrix,
            n,
            triangularity,
            x,
            steps,
        ),
    decreases steps,
{
    if steps == 0 {
        assert(divided(matrix, n, triangularity, x, 0) =~= x);
    } else {
        lemma_substitute_diagonal(matrix, n, triangularity, x, (steps - 1) as nat);
        let k = pivot_at(identity_order(n), triangularity, steps - 1);
        assert(0 <= k < n);
        let before = divided(matrix, n, triangularity, x, (steps - 1) as nat);
        let cleared = before.update(k, S::zero_spec());
        let row = row_of(matrix, n, k);
        lemma_cell_bounds(n, k, 0);
        assert(row.len() == n);
        assert forall|i: int| 0 <= i < n implies (#[trigger] row[i]).mul_spec(cleared[i])
            == S::zero_spec() by {
            lemma_cell_bounds(n, k, i);
            assert(row[i] == matrix[cell(n, k, i)]);
            if i != k {
                assert(matrix[cell(n, k, i)] == S::zero_spec());
                assert(plain_beside_zero(matrix[cell(n, i, i)]));
                assert(quotient_is_plain(x[i], matrix[cell(n, i, i)]));
            } else {
                assert(plain_beside_zero(matrix[cell(n, k, k)]));
            }
        }
        lemma_dot_of_zero_products(row, cleared, n);
        assert(plain_beside_zero(matrix[cell(n, k, k)]));
        assert(quotient_is_plain(x[k], matrix[cell(n, k, k)]));
        assert(substitute_at(matrix, n, k, before) =~= divided(
            matrix,
            n,
            triangularity,
            x,
            steps,
        ));
    }
}

/// The factors of a diagonal matrix solve a system by dividing every entry
/// of the right-hand side by the diagonal entry of its row: the solution
/// that exact arithmetic gives, each unknown rounded once. The arithmetic
/// has to treat every entry `b` of the right-hand side plainly: with `e`
/// for its diagonal entry, `b` and `b / e` are plain beside zero,
/// `b − 0 = b` and `b / 1 = b`.
pub proof fn lemma_solve_diagonal_system<S: Numerical>(matrix: Seq<S>, n: nat, b: Seq<S>)
    requires
        n <= usize::MAX,
        matrix.len() == n * n,
        is_diagonal(matrix, n),
        b.len() == n,
        units_are_plain::<S>(),
        entries_are_plain(matrix, n, n),
        forall|k: int|
            0 <= k < n ==> quotient_is_plain(#[trigger] b[k], matrix[cell(n, k, k)])
                && b[k].div_spec(one_spec::<S>()) == b[k],
    ensures
        solve_spec(diagonal_state(matrix, n, n).factors, b) == Seq::new(
            n,
            |k: int| b[k].div_spec(matrix[cell(n, k, k)]),
        ),
{
    let factors = diagonal_state(matrix, n, n).factors;
    lemma_identity_table::<S>(n);
    lemma_leading_diagonal(matrix, n, n);
    assert forall|k: int| 0 <= k < n implies plain_beside_zero(
        #[trigger] factors.lower[cell(n, k, k)],
    ) && quotient_is_plain(b[k], factors.lower[cell(n, k, k)]) by {
        assert(quotient_is_plain(b[k], matrix[cell(n, k, k)]));
    }
    lemma_substitute_diagonal(factors.lower, n, LOWER, b, n);
    let forward = substitute(factors.lower, factors.permutation, LOWER, b, n);
    assert(forward =~= b) by {
        assert forall|k: int| 0 <= k < n implies forward[k] == b[k] by {
            assert(quotient_is_plain(b[k], matrix[cell(n, k, k)]));
        }
    }
    assert forall|k: int| 0 <= k < n implies plain_beside_zero(
        #[trigger] factors.upper[cell(n, k, k)],
    ) && quotient_is_plain(b[k], factors.upper[cell(n, k, k)]) by {
        assert(entry_is_plain(matrix[cell(n, k, k)]));
        assert(quotient_is_plain(b[k], matrix[cell(n, k, k)]));
    }
    lemma_substitute_diagonal(factors.upper, n, UPPER, b, n);
    let backward = substitute(factors.upper, factors.permutation, UPPER, forward, n);
    assert(solve_spec(factors, b) =~= Seq::new(
        n,
        |k: int| b[k].div_spec(matrix[cell(n, k, k)]),
    ));
}

/// What the arithmetic has to know of an eigenvalue `l` and the diagonal
/// entry `t` of a transformation for the two to cancel: `l` is plain
/// beside zero; the product `l·t` is plain beside zero and
/// `l·t − 0 = l·t`, `l·t / 1 = l·t` and `l·t / t = l`.
pub open spec fn product_cancels<S: Numerical>(l: S, t: S) -> bool {
    &&& plain_beside_zero(l)
    &&& plain_beside_zero(l.mul_spec(t))
    &&& l.mul_spec(t).sub_spec(S::zero_spec()) == l.mul_spec(t)
    &&& l.mul_spec(t).div_spec(one_spec::<S>()) == l.mul_spec(t)
    &&& l.mul_spec(t).div_spec(t) == l
}

/// The matrix `T⁻¹·diag(λ)·T` for a diagonal transformation `T` is
/// `diag(λ)`: entry `(i, j)` is `λ[i]` on the diagonal and zero elsewhere.
pub proof fn lemma_similar_matrix_of_diagonal<S: Numerical>(
    eigenvalues: Seq<S>,
    transformation: Seq<S>,
    n: nat,
    i: int,
    j: int,
)
    requires
        n <= usize::MAX,
        eigenvalues.len() == n,
        transformation.len() == n * n,
        is_diagonal(transformation, n),
        0 <= i < n,
        0 <= j < n,
        units_are_plain::<S>(),
        entries_are_plain(transformation, n, n),
        pivots_suffice(transformation, n, n),
        forall|k: int|
            0 <= k < n ==> product_cancels(#[trigger] eigenvalues[k], transformation[cell(n, k, k)]),
    ensures
        factorize(transformation, n) == Some(diagonal_state(transformation, n, n).factors),
        similar_matrix(
            eigenvalues,
            transformation,
            diagonal_state(transformation, n, n).factors,
            n,
        )[cell(n, i, j)] == (if i == j {
            eigenvalues[i]
        } else {
            S::zero_spec()
        }),
{
    let factors = diagonal_state(transformation, n, n).factors;
    lemma_factorize_diagonal(transformation, n);
    let t = transformation[cell(n, j, j)];
    let c = eigenvalues[j].mul_spec(t);
    let column = weighted_column(eigenvalues, transformation, n, j);
    assert forall|row: int| 0 <= row < n implies column[row] == spike(n, j, c)[row] by {
        assert(product_cancels(eigenvalues[row], transformation[cell(n, row, row)]));
        if row != j {
            assert(transformation[cell(n, row, j)] == S::zero_spec());
        }
    }
    assert(column =~= spike(n, j, c));
    assert(product_cancels(eigenvalues[j], t));
    lemma_solve_diagonal(transformation, n, j, c);
    lemma_cell_bounds(n, i, j);
    lemma_cell_div_mod(n, i, j);
}

/// A diagonal matrix with a shift taken from its diagonal is diagonal.
pub proof fn lemma_lowered_diagonal_is_diagonal<S: Numerical>(matrix: Seq<S>, n: nat, shift: S)
    requires
        matrix.len() == n * n,
        is_diagonal(matrix, n),
    ensures
        lowered_diagonal(matrix, n, shift).len() == n * n,
        is_diagonal(lowered_diagonal(matrix, n, shift), n),
        forall|k: int|
            0 <= k < n ==> lowered_diagonal(matrix, n, shift)[#[trigger] cell(n, k, k)]
                == matrix[cell(n, k, k)].sub_spec(shift),
{
    assert(n * n >= 0) by (nonlinear_arith);
    assert forall|i: int, k: int| 0 <= i < n && 0 <= k < n implies lowered_diagonal(
        matrix,
        n,
        shift,
    )[#[trigger] cell(n, i, k)] == (if i == k {
        matrix[cell(n, i, k)].sub_spec(shift)
    } else {
        matrix[cell(n, i, k)]
    }) by {
        lemma_cell_bounds(n, i, k);
        lemma_cell_div_mod(n, i, k);
    }
}

/// The sign that relates the unit vector of coordinate `j` to itself is
/// one, if zero is not less than itself and `1 · 1` is more than zero.
proof fn lemma_unit_vector_sign<S: Numerical>(n: nat, j: int, from: nat)
    requires
        0 <= j < n,
        from <= j,
        plain_beside_zero(S::zero_spec()),
        !S::zero_spec().lt_spec(S::zero_spec()),
        S::zero_spec().lt_spec(one_spec::<S>().mul_spec(one_spec::<S>())),
    ensures
        relative_sign_from(spike(n, j, one_spec::<S>()), spike(n, j, one_spec::<S>()), from)
            == one_spec::<S>(),
    decreases j - from,
{
    if from < j {
        lemma_unit_vector_sign::<S>(n, j, from + 1);
    }
}

/// The unit vector of coordinate `j` does not differ from itself, if
/// `|1 · 1 − 1|` is zero.
proof fn lemma_unit_vector_change<S: Numerical>(n: nat, j: int, count: nat)
    requires
        0 <= j < n,
        count <= n,
        units_are_plain::<S>(),
        S::zero_spec().abs_spec() == S::zero_spec(),
        one_spec::<S>().mul_spec(one_spec::<S>()).sub_spec(one_spec::<S>()).abs_spec()
            == S::zero_spec(),
    ensures
        signed_change(
            one_spec::<S>(),
            spike(n, j, one_spec::<S>()),
            spike(n, j, one_spec::<S>()),
            count,
        ) == S::zero_spec(),
    decreases count,
{
    if count > 0 {
        lemma_unit_vector_change::<S>(n, j, (count - 1) as nat);
    }
}

/// The shifted diagonal entry nearest to zero: the entry nearest to the
/// estimate, less the estimate.
pub open spec fn nearest_entry<S: Numerical>(matrix: Seq<S>, n: nat, initial: S) -> S {
    matrix[cell(
        n,
        nearest_diagonal(matrix, n, initial, n),
        nearest_diagonal(matrix, n, initial, n),
    )].sub_spec(initial)
}

/// The correction of the estimate on a diagonal matrix: with `e` for the
/// shifted entry, `1 / (1 / e)`.
pub open spec fn diagonal_correction<S: Numerical>(matrix: Seq<S>, n: nat, initial: S) -> S {
    one_spec::<S>().div_spec(one_spec::<S>().div_spec(nearest_entry(matrix, n, initial)))
}

/// What the arithmetic has to know for the inverse power method to be
/// followed through a diagonal matrix from an estimate below the nearest
/// diagonal entry, with `e` for that entry less the estimate, `r` for
/// `1 / e` and `c` for `1 / r`. All of it holds in exact arithmetic when
/// the estimate lies below the nearest diagonal entry, at a distance of
/// `1e-7` or more from every diagonal entry.
///
/// - Of zero and one: they are plain, `|0| = 0`, `1 − 0 = 1`, `1 / 1 = 1`,
///   zero is less than the least pivot and not less than itself,
///   `1 · 1` is more than zero, `|1 · 1 − 1| = 0`, `|1|` is plain beside
///   zero, `0 / |1| = 0`, and zero is less than the tolerance times `|1|`.
/// - Of the matrix shifted by the estimate: every diagonal entry is plain
///   and large enough for a pivot.
/// - Of `r`: it is plain beside zero, as is `|r|`; `|r|` is a
///   well-conditioned coordinate and `|0|` is not; `0 / |r| = 0` and
///   `r / |r| = 1`.
/// - Of `c`: `0 + c = c` and `c / 1 = c`.
/// - Of the matrix shifted by the corrected estimate, unless the estimate
///   counts as settled at once: its entry nearest to the estimate is zero,
///   and the diagonal entries before that one are plain.
pub open spec fn inverse_diagonal_is_plain<S: Numerical>(matrix: Seq<S>, n: nat, initial: S) -> bool {
    let zero = S::zero_spec();
    let one = one_spec::<S>();
    let floor = pm_min_coord_spec::<S>();
    let j = nearest_diagonal(matrix, n, initial, n);
    let shifted = lowered_diagonal(matrix, n, initial);
    let r = one.div_spec(nearest_entry(matrix, n, initial));
    let c = diagonal_correction(matrix, n, initial);
    let corrected = lowered_diagonal(matrix, n, initial.add_spec(c));
    &&& units_are_plain::<S>()
    &&& zero.abs_spec() == zero
    &&& one.sub_spec(zero) == one
    &&& one.div_spec(one) == one
    &&& zero.lt_spec(min_pivot_spec::<S>())
    &&& !zero.lt_spec(zero)
    &&& zero.lt_spec(one.mul_spec(one))
    &&& one.mul_spec(one).sub_spec(one).abs_spec() == zero
    &&& plain_beside_zero(one.abs_spec())
    &&& zero.div_spec(one.abs_spec()) == zero
    &&& zero.lt_spec(pm_convergence_spec::<S>().mul_spec(one.abs_spec().max_spec(one.abs_spec())))
    &&& entries_are_plain(shifted, n, n)
    &&& pivots_suffice(shifted, n, n)
    &&& plain_beside_zero(r)
    &&& plain_beside_zero(r.abs_spec())
    &&& floor.le_spec(r.abs_spec())
    &&& !floor.le_spec(zero)
    &&& zero.div_spec(r.abs_spec()) == zero
    &&& r.div_spec(r.abs_spec()) == one
    &&& zero.add_spec(c) == c
    &&& c.div_spec(S::from_index_spec(1)) == c
    &&& !shift_settled(initial, c) ==> {
        &&& matrix[cell(n, j, j)].sub_spec(initial.add_spec(c)) == zero
        &&& entries_are_plain(corrected, n, j as nat)
    }
}

/// On a diagonal matrix, from an estimate below the nearest diagonal
/// entry, the start vector of the inverse power method is an eigenvector,
/// and the first correction of the estimate is `1 / (1 / e)`.
pub proof fn lemma_diagonal_starts_at_an_eigenvector<S: Numerical>(
    matrix: Seq<S>,
    n: nat,
    initial: S,
)
    requires
        1 <= n <= usize::MAX,
        matrix.len() == n * n,
        is_diagonal(matrix, n),
        inverse_diagonal_is_plain(matrix, n, initial),
    ensures
        starts_at_an_eigenvector(matrix, n, initial),
        first_correction(matrix, n, initial) == diagonal_correction(matrix, n, initial),
        inverse_start(matrix, n, initial).y == spike(
            n,
            nearest_diagonal(matrix, n, initial, n),
            one_spec::<S>(),
        ),
{
    let zero = S::zero_spec();
    let one = one_spec::<S>();
    let j = nearest_diagonal(matrix, n, initial, n);
    let shifted = lowered_diagonal(matrix, n, initial);
    let e = nearest_entry(matrix, n, initial);
    let r = one.div_spec(e);
    lemma_nearest_diagonal_bounds(matrix, n, initial, n);
    lemma_lowered_diagonal_is_diagonal(matrix, n, initial);
    assert(shifted[cell(n, j, j)] == e);
    lemma_factorize_diagonal(shifted, n);
    let factors = diagonal_state(shifted, n, n).factors;
    assert(factorize(shifted, n) == Some(factors));
    let start = inverse_start(matrix, n, initial);
    assert(start.y =~= spike(n, j, one));
    lemma_solve_diagonal(shifted, n, j, one);
    let solved = solve_spec(factors, start.y);
    assert(solved == spike(n, j, r));
    lemma_spike_normalized(n, j, r);
    assert(normalized(solved) == start.y);
    lemma_spike_normalized(n, j, one);
    lemma_unit_vector_sign::<S>(n, j, 0);
    lemma_unit_vector_change::<S>(n, j, n);
    assert(direction_settled(start.y, start.y));
}

/// The inverse power method on a diagonal matrix, from an estimate below
/// the nearest diagonal entry: the first round corrects the estimate by
/// `1 / (1 / e)`, with `e` for the nearest entry less the estimate, and the
/// second round returns the corrected estimate, which in exact arithmetic
/// is the nearest entry. If the correction is small enough for the estimate
/// to count as settled, the first round returns the estimate as it was
/// given. The vector returned is the unit vector of the nearest entry.
pub proof fn lemma_inverse_run_on_a_diagonal_matrix<S: Numerical>(
    matrix: Seq<S>,
    n: nat,
    initial: S,
    rounds: nat,
)
    requires
        1 <= n <= usize::MAX,
        rounds >= 2,
        matrix.len() == n * n,
        is_diagonal(matrix, n),
        inverse_diagonal_is_plain(matrix, n, initial),
    ensures
        inverse_run(matrix, n, inverse_start(matrix, n, initial), rounds) matches Some(last)
            && last.y == spike(n, nearest_diagonal(matrix, n, initial, n), one_spec::<S>())
            && last.shift == (if shift_settled(
            initial,
            diagonal_correction(matrix, n, initial),
        ) {
            initial
        } else {
            initial.add_spec(diagonal_correction(matrix, n, initial))
        }),
{
    let zero = S::zero_spec();
    let one = one_spec::<S>();
    let j = nearest_diagonal(matrix, n, initial, n);
    let c = diagonal_correction(matrix, n, initial);
    lemma_nearest_diagonal_bounds(matrix, n, initial, n);
    lemma_diagonal_starts_at_an_eigenvector(matrix, n, initial);
    if !shift_settled(initial, c) {
        let corrected = lowered_diagonal(matrix, n, initial.add_spec(c));
        lemma_lowered_diagonal_is_diagonal(matrix, n, initial.add_spec(c));
        assert forall|i: int| 0 <= i < n implies corrected[#[trigger] cell(n, i, j)] == zero by {
            if i == j {
                assert(corrected[cell(n, j, j)] == matrix[cell(n, j, j)].sub_spec(
                    initial.add_spec(c),
                ));
            }
        }
        lemma_eliminate_diagonal(corrected, n, j as nat);
        lemma_identity_table::<S>(n);
        assert(n * n >= 0) by (nonlinear_arith);
        assert forall|p: int| 0 <= p < n * n implies vanishes_on_zero(
            #[trigger] identity_table::<S>(n)[p],
        ) by {
            lemma_position_is_cell(n, p);
        }
        assert(zero_is_plain::<S>());
        lemma_zero_column_is_singular(corrected, n, j as nat);
    }
    lemma_run_from_an_eigenvector(matrix, n, initial, rounds);
}

/// What the inverse power method returns for a diagonal matrix and an
/// estimate below the nearest diagonal entry, if the corrected estimate is
/// that entry: the entry, with its unit vector.
pub proof fn lemma_inverse_power_method_on_a_diagonal_matrix<S: Numerical>(
    matrix: Seq<S>,
    n: nat,
    initial: S,
    rounds: nat,
    result: Option<PowerMethod<S>>,
)
    requires
        1 <= n <= usize::MAX,
        rounds >= 2,
        matrix.len() == n * n,
        is_diagonal(matrix, n),
        inverse_diagonal_is_plain(matrix, n, initial),
        !shift_settled(initial, diagonal_correction(matrix, n, initial)),
        initial.add_spec(diagonal_correction(matrix, n, initial)) == matrix[cell(
            n,
            nearest_diagonal(matrix, n, initial, n),
            nearest_diagonal(matrix, n, initial, n),
        )],
        is_inverse_power_result(matrix, n, initial, rounds, result),
    ensures
        result matches Some(found) && found.value == matrix[cell(
            n,
            nearest_diagonal(matrix, n, initial, n),
            nearest_diagonal(matrix, n, initial, n),
        )] && found.vector@ == spike(
            n,
            nearest_diagonal(matrix, n, initial, n),
            one_spec::<S>(),
        ),
{
    lemma_inverse_run_on_a_diagonal_matrix(matrix, n, initial, rounds);
}

} // verus!
