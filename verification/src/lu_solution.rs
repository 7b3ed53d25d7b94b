//! The solution of a system: in exact arithmetic the matrix times what
//! `solve` returns is the right-hand side.

use vstd::prelude::*;
use crate::layout::{cell, column_of, lemma_cell_bounds, row_of};
use crate::lu::{dot_prefix, dot_spec, factorize, lemma_factorize_wf, lemma_substitute_len};
use crate::lu::{eliminate, lemma_zero_column_is_singular, solve_spec, substitute};
use crate::lu::{vanishes_on_zero, zero_is_plain, LOWER, UPPER};
use crate::lu_product::sub_returns;
use crate::lu_product::{add_associates, add_commutes, exact_arithmetic, exact_products};
use crate::lu_product::{lemma_backward_substitution_solves, lemma_factors_multiply_to_matrix};
use crate::lu_product::{lemma_forward_substitution_solves, mul_associates, mul_distributes};
use crate::lu_product::units_act_on;
use crate::scalar::{min_pivot_spec, one_spec, Numerical, OtherNumericalOps};
use crate::vector::apply_spec;

verus! {

/// The first `count` terms, added up from zero in the order of the indices.
pub open spec fn sum_prefix<S: Numerical>(t: Seq<S>, count: nat) -> S
    decreases count,
{
    if count == 0 {
        S::zero_spec()
    } else {
        sum_prefix(t, (count - 1) as nat).add_spec(t[count - 1])
    }
}

/// All terms added up.
pub open spec fn total<S: Numerical>(t: Seq<S>) -> S {
    sum_prefix(t, t.len())
}

/// The products `x[i] · y[i]`.
pub open spec fn products<S: Numerical>(x: Seq<S>, y: Seq<S>) -> Seq<S> {
    Seq::new(x.len(), |i: int| x[i].mul_spec(y[i]))
}

/// A dot product is the sum of its products.
pub proof fn lemma_dot_is_sum<S: Numerical>(x: Seq<S>, y: Seq<S>, count: nat)
    requires
        count <= x.len(),
    ensures
        dot_prefix(x, y, count) == sum_prefix(products(x, y), count),
    decreases count,
{
    if count > 0 {
        lemma_dot_is_sum(x, y, (count - 1) as nat);
    }
}

/// Sums of the same terms are the same.
pub proof fn lemma_sum_termwise<S: Numerical>(s: Seq<S>, t: Seq<S>, count: nat)
    requires
        forall|i: int| 0 <= i < count ==> s[i] == #[trigger] t[i],
    ensures
        sum_prefix(s, count) == sum_prefix(t, count),
    decreases count,
{
    if count > 0 {
        lemma_sum_termwise(s, t, (count - 1) as nat);
        assert(s[count - 1] == t[count - 1]);
    }
}

/// A sum times `w` is the sum of the terms times `w`.
pub proof fn lemma_sum_times<S: Numerical>(t: Seq<S>, w: S, count: nat)
    requires
        exact_products::<S>(),
        count <= t.len(),
    ensures
        sum_prefix(t, count).mul_spec(w) == sum_prefix(
            Seq::new(t.len(), |i: int| t[i].mul_spec(w)),
            count,
        ),
    decreases count,
{
    if count == 0 {
        assert(units_act_on(w));
    } else {
        lemma_sum_times(t, w, (count - 1) as nat);
        assert(mul_distributes(sum_prefix(t, (count - 1) as nat), t[count - 1], w));
    }
}

/// `a` times a sum is the sum of `a` times the terms.
pub proof fn lemma_times_sum<S: Numerical>(a: S, t: Seq<S>, count: nat)
    requires
        exact_products::<S>(),
        count <= t.len(),
    ensures
        a.mul_spec(sum_prefix(t, count)) == sum_prefix(
            Seq::new(t.len(), |i: int| a.mul_spec(t[i])),
            count,
        ),
    decreases count,
{
    if count == 0 {
        assert(units_act_on(a));
    } else {
        lemma_times_sum(a, t, (count - 1) as nat);
        assert(mul_distributes(sum_prefix(t, (count - 1) as nat), t[count - 1], a));
    }
}

/// The sum of the sums of two sequences is the sum of their sums term by
/// term.
pub proof fn lemma_sum_of_sums<S: Numerical>(s: Seq<S>, t: Seq<S>, count: nat)
    requires
        exact_arithmetic::<S>(),
        count <= s.len(),
        s.len() == t.len(),
    ensures
        sum_prefix(Seq::new(s.len(), |i: int| s[i].add_spec(t[i])), count) == sum_prefix(
            s,
            count,
        ).add_spec(sum_prefix(t, count)),
    decreases count,
{
    if count == 0 {
        assert(units_act_on(S::zero_spec()));
    } else {
        lemma_sum_of_sums(s, t, (count - 1) as nat);
        let a = sum_prefix(s, (count - 1) as nat);
        let b = sum_prefix(t, (count - 1) as nat);
        let u = s[count - 1];
        let v = t[count - 1];
        // (a + b) + (u + v) == (a + u) + (b + v)
        assert(add_associates(a.add_spec(b), u, v));
        assert(add_associates(a, b, u));
        assert(add_commutes(b, u));
        assert(add_associates(a, u, b));
        assert(add_associates(a.add_spec(u), b, v));
    }
}

/// A sum from which one term is taken out and added at the end is the sum.
pub proof fn lemma_sum_remove<S: Numerical>(t: Seq<S>, at: int, count: nat)
    requires
        exact_arithmetic::<S>(),
        0 <= at < t.len(),
        count <= t.len(),
    ensures
        count > at ==> sum_prefix(t, count) == sum_prefix(t.remove(at), (count - 1) as nat).add_spec(
            t[at],
        ),
        count <= at ==> sum_prefix(t, count) == sum_prefix(t.remove(at), count),
    decreases count,
{
    if count > 0 {
        let last = count - 1;
        lemma_sum_remove(t, at, last as nat);
        if last > at {
            let before = sum_prefix(t.remove(at), (last - 1) as nat);
            assert(t.remove(at)[last - 1] == t[last]);
            assert(add_associates(before, t[at], t[last]));
            assert(add_commutes(t[at], t[last]));
            assert(add_associates(before, t[last], t[at]));
        } else if last < at {
            assert(t.remove(at)[last] == t[last]);
        }
    }
}

/// A sum of zeros is zero.
pub proof fn lemma_sum_of_zeros<S: Numerical>(t: Seq<S>, count: nat)
    requires
        exact_arithmetic::<S>(),
        forall|i: int| 0 <= i < count ==> (#[trigger] t[i]) == S::zero_spec(),
    ensures
        sum_prefix(t, count) == S::zero_spec(),
    decreases count,
{
    if count > 0 {
        lemma_sum_of_zeros(t, (count - 1) as nat);
        assert(t[count - 1] == S::zero_spec());
        assert(units_act_on(S::zero_spec()));
    }
}

/// The sum over `j` of the terms `f(j, c)` of one `c`.
pub open spec fn sum_over_first<S: Numerical>(f: spec_fn(int, int) -> S, rows: nat, c: int) -> S {
    total(Seq::new(rows, |j: int| f(j, c)))
}

/// The sum over the first `count` values of `c` of the terms `f(j, c)` of
/// one `j`.
pub open spec fn sum_over_second<S: Numerical>(
    f: spec_fn(int, int) -> S,
    cols: nat,
    j: int,
    count: nat,
) -> S {
    sum_prefix(Seq::new(cols, |c: int| f(j, c)), count)
}

/// A double sum can be taken in either order.
pub proof fn lemma_sum_exchange<S: Numerical>(
    f: spec_fn(int, int) -> S,
    rows: nat,
    cols: nat,
    count: nat,
)
    requires
        exact_arithmetic::<S>(),
        count <= cols,
    ensures
        sum_prefix(Seq::new(cols, |c: int| sum_over_first(f, rows, c)), count) == total(
            Seq::new(rows, |j: int| sum_over_second(f, cols, j, count)),
        ),
    decreases count,
{
    if count == 0 {
        lemma_sum_of_zeros(Seq::new(rows, |j: int| sum_over_second(f, cols, j, 0)), rows);
    } else {
        let before = (count - 1) as nat;
        lemma_sum_exchange(f, rows, cols, before);
        let s = Seq::new(rows, |j: int| sum_over_second(f, cols, j, before));
        let t = Seq::new(rows, |j: int| f(j, count - 1));
        lemma_sum_of_sums(s, t, rows);
        assert(Seq::new(rows, |j: int| s[j].add_spec(t[j])) =~= Seq::new(
            rows,
            |j: int| sum_over_second(f, cols, j, count),
        ));
    }
}

/// Whether `p` and `q` arrange the numbers below their length and undo
/// each other.
pub open spec fn arrange(p: Seq<int>, q: Seq<int>) -> bool {
    &&& p.len() == q.len()
    &&& forall|c: int| 0 <= c < p.len() ==> 0 <= #[trigger] p[c] < p.len() && q[p[c]] == c
    &&& forall|m: int| 0 <= m < q.len() ==> 0 <= #[trigger] q[m] < q.len() && p[q[m]] == m
}

/// A sum does not depend on the order of its terms.
pub proof fn lemma_sum_rearranged<S: Numerical>(g: Seq<S>, p: Seq<int>, q: Seq<int>)
    requires
        exact_arithmetic::<S>(),
        arrange(p, q),
        g.len() == p.len(),
    ensures
        total(Seq::new(g.len(), |c: int| g[p[c]])) == total(g),
    decreases g.len(),
{
    let n = g.len();
    if n > 0 {
        let last = n - 1;
        let at = q[last];
        let t = Seq::new(n, |c: int| g[p[c]]);
        assert(p[at] == last);
        lemma_sum_remove(t, at, n);
        let shorter = g.drop_last();
        let p_rest = p.remove(at);
        let q_rest = Seq::new(
            last as nat,
            |m: int|
                if q[m] < at {
                    q[m]
                } else {
                    q[m] - 1
                },
        );
        assert forall|c: int| 0 <= c < p_rest.len() implies 0 <= #[trigger] p_rest[c] < p_rest.len()
            && q_rest[p_rest[c]] == c by {
            if c < at {
                assert(p_rest[c] == p[c]);
                assert(q[p[c]] == c);
            } else {
                assert(p_rest[c] == p[c + 1]);
                assert(q[p[c + 1]] == c + 1);
            }
        }
        assert forall|m: int| 0 <= m < q_rest.len() implies 0 <= #[trigger] q_rest[m] < q_rest.len()
            && p_rest[q_rest[m]] == m by {
            assert(p[q[m]] == m);
        }
        assert(arrange(p_rest, q_rest));
        lemma_sum_rearranged(shorter, p_rest, q_rest);
        assert(t.remove(at) =~= Seq::new(shorter.len(), |c: int| shorter[p_rest[c]]));
        lemma_sum_termwise(shorter, g, last as nat);
    }
}

/// In exact arithmetic the factors solve the system: row `i` of the matrix
/// times what they return for the right-hand side `b` is `b[i]`.
pub proof fn lemma_solution_row<S: Numerical>(matrix: Seq<S>, n: nat, b: Seq<S>, i: int)
    requires
        n <= usize::MAX,
        matrix.len() == n * n,
        exact_products::<S>(),
        factorize(matrix, n) is Some,
        b.len() == n,
        0 <= i < n,
    ensures
        dot_spec(row_of(matrix, n, i), solve_spec(factorize(matrix, n)->0, b)) == b[i],
{
    let factors = factorize(matrix, n)->0;
    let lower = factors.lower;
    let upper = factors.upper;
    let p = factors.permutation;
    let q = factors.inverse_permutation;
    lemma_factorize_wf(matrix, n);
    let y = substitute(lower, p, LOWER, b, n);
    lemma_substitute_len(lower, p, LOWER, b, n);
    let z = substitute(upper, p, UPPER, y, n);
    lemma_substitute_len(upper, p, UPPER, y, n);
    let x = solve_spec(factors, b);
    assert(x.len() == n);
    let row_a = row_of(matrix, n, i);
    let row_l = row_of(lower, n, i);
    lemma_cell_bounds(n, i, 0);
    assert(row_a.len() == n && row_l.len() == n);
    let term = |j: int, c: int|
        lower[cell(n, i, j)].mul_spec(upper[cell(n, j, p[c] as int)].mul_spec(x[c]));

    // Every product of the row with the solution is a sum over the columns
    // of the lower factor.
    let outer = Seq::new(n, |c: int| sum_over_first(term, n, c));
    assert forall|c: int| 0 <= c < n implies products(row_a, x)[c] == #[trigger] outer[c] by {
        lemma_factors_multiply_to_matrix(matrix, n, i, c);
        let col_u = column_of(upper, n, p[c] as int);
        lemma_dot_is_sum(row_l, col_u, n);
        lemma_sum_times(products(row_l, col_u), x[c], n);
        let scaled = Seq::new(n, |j: int| products(row_l, col_u)[j].mul_spec(x[c]));
        let terms = Seq::new(n, |j: int| term(j, c));
        assert forall|j: int| 0 <= j < n implies scaled[j] == #[trigger] terms[j] by {
            lemma_cell_bounds(n, i, j);
            assert(row_l[j] == lower[cell(n, i, j)]);
            assert(mul_associates(
                lower[cell(n, i, j)],
                upper[cell(n, j, p[c] as int)],
                x[c],
            ));
        }
        lemma_sum_termwise(scaled, terms, n);
        lemma_cell_bounds(n, i, c);
        assert(row_a[c] == matrix[cell(n, i, c)]);
    }
    lemma_dot_is_sum(row_a, x, n);
    lemma_sum_termwise(products(row_a, x), outer, n);
    lemma_sum_exchange(term, n, n, n);

    // Every sum over the columns of the matrix is a product of the lower
    // factor with what forward substitution returned.
    let inner = Seq::new(n, |j: int| sum_over_second(term, n, j, n));
    let p_int = Seq::new(n, |c: int| p[c] as int);
    let q_int = Seq::new(n, |m: int| q[m] as int);
    assert(arrange(p_int, q_int));
    assert forall|j: int| 0 <= j < n implies #[trigger] inner[j] == products(row_l, y)[j] by {
        let row_u = row_of(upper, n, j);
        lemma_cell_bounds(n, j, 0);
        assert(row_u.len() == n);
        let g = products(row_u, z);
        let t = Seq::new(n, |c: int| g[p_int[c]]);
        let a = lower[cell(n, i, j)];
        lemma_times_sum(a, t, n);
        let scaled = Seq::new(n, |c: int| a.mul_spec(t[c]));
        let terms = Seq::new(n, |c: int| term(j, c));
        assert forall|c: int| 0 <= c < n implies terms[c] == #[trigger] scaled[c] by {
            lemma_cell_bounds(n, j, p[c] as int);
            assert(row_u[p[c] as int] == upper[cell(n, j, p[c] as int)]);
            assert(x[c] == z[p[c] as int]);
        }
        lemma_sum_termwise(terms, scaled, n);
        lemma_sum_rearranged(g, p_int, q_int);
        lemma_dot_is_sum(row_u, z, n);
        lemma_backward_substitution_solves(matrix, n, y, j);
        lemma_cell_bounds(n, i, j);
        assert(row_l[j] == a);
    }
    lemma_sum_termwise(inner, products(row_l, y), n);
    lemma_dot_is_sum(row_l, y, n);
    lemma_forward_substitution_solves(matrix, n, b, i);
}

/// In exact arithmetic `solve` after `compute` solves the system: the
/// matrix times the solution is the right-hand side.
pub proof fn lemma_solve_after_compute_is_exact<S: Numerical>(matrix: Seq<S>, n: nat, b: Seq<S>)
    requires
        n <= usize::MAX,
        matrix.len() == n * n,
        exact_products::<S>(),
        factorize(matrix, n) is Some,
        b.len() == n,
    ensures
        apply_spec(matrix, n, solve_spec(factorize(matrix, n)->0, b)) == b,
{
    let x = solve_spec(factorize(matrix, n)->0, b);
    assert forall|i: int| 0 <= i < n implies apply_spec(matrix, n, x)[i] == b[i] by {
        lemma_solution_row(matrix, n, b, i);
    }
    assert(apply_spec(matrix, n, x) =~= b);
}

/// In exact arithmetic, where zero is not one, a matrix with a row of
/// zeros cannot be factored: if it could, the system whose right-hand side
/// is one in that row would have a solution, and the row of zeros times the
/// solution would be one.
pub proof fn lemma_zero_row_has_no_factors<S: Numerical>(matrix: Seq<S>, n: nat, r: int)
    requires
        n <= usize::MAX,
        matrix.len() == n * n,
        exact_products::<S>(),
        S::zero_spec() != one_spec::<S>(),
        0 <= r < n,
        forall|c: int| 0 <= c < n ==> matrix[#[trigger] cell(n, r, c)] == S::zero_spec(),
    ensures
        factorize(matrix, n) is None,
{
    if factorize(matrix, n) is Some {
        let b = Seq::new(
            n,
            |i: int|
                if i == r {
                    one_spec::<S>()
                } else {
                    S::zero_spec()
                },
        );
        lemma_solution_row(matrix, n, b, r);
        let x = solve_spec(factorize(matrix, n)->0, b);
        let row = row_of(matrix, n, r);
        lemma_cell_bounds(n, r, 0);
        assert(row.len() == n);
        lemma_dot_is_sum(row, x, n);
        assert forall|c: int| 0 <= c < n implies (#[trigger] products(row, x)[c])
            == S::zero_spec() by {
            lemma_cell_bounds(n, r, c);
            assert(row[c] == matrix[cell(n, r, c)]);
            assert(units_act_on(x[c]));
        }
        lemma_sum_of_zeros(products(row, x), n);
        assert(S::zero_spec() == one_spec::<S>());
    }
}

/// In exact arithmetic, where the magnitude of zero is zero and too small
/// for a pivot, a matrix with a column of zeros cannot be factored.
pub proof fn lemma_zero_column_has_no_factors<S: Numerical>(matrix: Seq<S>, n: nat, k: nat)
    requires
        n <= usize::MAX,
        matrix.len() == n * n,
        exact_arithmetic::<S>(),
        S::zero_spec().abs_spec() == S::zero_spec(),
        S::zero_spec().lt_spec(min_pivot_spec::<S>()),
        k < n,
        forall|i: int| 0 <= i < n ==> matrix[#[trigger] cell(n, i, k as int)] == S::zero_spec(),
    ensures
        factorize(matrix, n) is None,
{
    assert(units_act_on(S::zero_spec()));
    assert(sub_returns(S::zero_spec(), S::zero_spec()));
    assert(units_act_on(S::zero_spec().sub_spec(S::zero_spec())));
    assert(zero_is_plain::<S>());
    if let Some(state) = eliminate(matrix, n, k) {
        assert forall|p: int| 0 <= p < n * n implies vanishes_on_zero(
            #[trigger] state.factors.lower[p],
        ) by {
            assert(units_act_on(state.factors.lower[p]));
        }
    }
    lemma_zero_column_is_singular(matrix, n, k);
}

} // verus!
