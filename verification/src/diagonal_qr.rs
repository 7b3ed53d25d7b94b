//! The QR algorithm on a diagonal matrix: where the arithmetic treats the
//! reflections of its steps as exact arithmetic does, every round leaves
//! the matrix as it is and takes the last diagonal entry of the block as
//! an eigenvalue, so that the diagonal entries come out in ascending order.

use vstd::prelude::*;
use crate::diagonal::{is_diagonal, plain_beside_zero};
use crate::diagonal_inverse::{diagonal_state, entries_are_plain, pivots_suffice};
use crate::diagonal_inverse::{lemma_similar_matrix_of_diagonal, product_cancels};
use crate::diagonal_inverse::units_are_plain;
use crate::layout::{cell, table};
use crate::layout::{lemma_cell_bounds, lemma_cell_div_mod, lemma_position_is_cell};
use crate::qr_algorithm::{ascending, eigenvalues_found, factor_column, factored};
use crate::qr_algorithm::{hessenberg_column, hessenberg_columns, hessenberg_spec, is_qr_result};
use crate::qr_algorithm::{leading_block, pair_at, pair_factor, qr_iteration_spec, qr_run};
use crate::qr_algorithm::{qr_sweep, recombined, reflection_at, reflection_of, rotate_columns};
use crate::qr_algorithm::{square_sum_prefix, subcolumn, Deflation, Reflection};
use crate::rand_matrix::similar_matrix;
use crate::scalar::{subdiagonal_small_spec, Numerical, OtherNumericalOps};
use crate::vector::{lowered_diagonal, raised_diagonal};

verus! {

/// The matrix with the entries of `e` on its diagonal and zero elsewhere.
pub open spec fn diagonal_block<S: Numerical>(e: Seq<S>, m: nat) -> Seq<S> {
    table(
        m,
        |i: int, j: int|
            if i == j {
                e[i]
            } else {
                S::zero_spec()
            },
    )
}

/// The entries of a diagonal block.
pub proof fn lemma_diagonal_block<S: Numerical>(e: Seq<S>, m: nat)
    ensures
        diagonal_block(e, m).len() == m * m,
        forall|i: int, j: int|
            0 <= i < m && 0 <= j < m ==> diagonal_block(e, m)[#[trigger] cell(m, i, j)] == (if i
                == j {
                e[i]
            } else {
                S::zero_spec()
            }),
{
    assert(m * m >= 0) by (nonlinear_arith);
    assert forall|i: int, j: int| 0 <= i < m && 0 <= j < m implies diagonal_block(
        e,
        m,
    )[#[trigger] cell(m, i, j)] == (if i == j {
        e[i]
    } else {
        S::zero_spec()
    }) by {
        lemma_cell_bounds(m, i, j);
        lemma_cell_div_mod(m, i, j);
    }
}

/// The reflection that a QR step makes for the diagonal entry `x` with
/// zero below it.
pub open spec fn pair_reflection<S: Numerical>(x: S) -> Reflection<S> {
    reflection_of(seq![x, S::zero_spec()])
}

/// Whether the QR step turns the pair of `x` and zero: it leaves a pair
/// whose reflection has scale zero as it is.
pub open spec fn turns<S: Numerical>(x: S) -> bool {
    !pair_reflection(x).scale.eq_spec(S::zero_spec())
}

/// The diagonal entry after the step of the factorisation: the length of
/// the pair if the step turns it, and `x` as it was otherwise.
pub open spec fn turned<S: Numerical>(x: S) -> S {
    if turns(x) {
        pair_reflection(x).length
    } else {
        x
    }
}

/// Whether the reflection for `x` leaves the pair of zero and `b` as it
/// is: the multiples of its direction that the two entries gain add
/// nothing. In exact arithmetic the direction is zero in its second
/// coordinate and the pair has nothing along it.
pub open spec fn passes<S: Numerical>(x: S, b: S) -> bool {
    let h = pair_reflection(x);
    let gain = pair_factor(h.direction[0], h.direction[1], S::zero_spec(), b, h.scale);
    &&& S::zero_spec().add_spec(gain.mul_spec(h.direction[0])) == S::zero_spec()
    &&& b.add_spec(gain.mul_spec(h.direction[1])) == b
}

/// Whether the reflection for `x`, applied to the pair of its length and
/// zero, gives `x` and zero again, as in exact arithmetic a reflection
/// applied twice does.
pub open spec fn restores<S: Numerical>(x: S) -> bool {
    let h = pair_reflection(x);
    let gain = pair_factor(h.direction[0], h.direction[1], h.length, S::zero_spec(), h.scale);
    &&& h.length.add_spec(gain.mul_spec(h.direction[0])) == x
    &&& S::zero_spec().add_spec(gain.mul_spec(h.direction[1])) == S::zero_spec()
}

/// The step of the factorisation at column `col` of a diagonal block puts
/// the turned entry on the diagonal and changes nothing else.
pub proof fn lemma_factor_diagonal_column<S: Numerical>(e: Seq<S>, m: nat, col: int)
    requires
        e.len() >= m,
        0 <= col,
        col + 1 < m,
        turns(e[col]) ==> passes(e[col], S::zero_spec()) && passes(e[col], e[col + 1]),
    ensures
        factor_column(diagonal_block(e, m), m, col) == diagonal_block(
            e.update(col, turned(e[col])),
            m,
        ),
        reflection_of(pair_at(diagonal_block(e, m), m, col)) == pair_reflection(e[col]),
{
    let block = diagonal_block(e, m);
    let target = diagonal_block(e.update(col, turned(e[col])), m);
    lemma_diagonal_block(e, m);
    lemma_diagonal_block(e.update(col, turned(e[col])), m);
    assert(pair_at(block, m, col) =~= seq![e[col], S::zero_spec()]);
    let h = pair_reflection(e[col]);
    assert(m * m >= 0) by (nonlinear_arith);
    assert forall|p: int| 0 <= p < m * m implies factor_column(block, m, col)[p] == target[p] by {
        lemma_position_is_cell(m, p);
        let i = p / (m as int);
        let j = p % (m as int);
        lemma_cell_bounds(m, col, j);
        lemma_cell_bounds(m, col + 1, j);
        if turns(e[col]) {
            if j > col && (i == col || i == col + 1) {
                if j == col + 1 {
                    assert(block[cell(m, col + 1, j)] == e[col + 1]);
                } else {
                    assert(block[cell(m, col + 1, j)] == S::zero_spec());
                }
                assert(block[cell(m, col, j)] == S::zero_spec());
            }
        }
    }
    assert(factor_column(block, m, col) =~= target);
}

/// The reflection for `x`, applied from the right to a diagonal block that
/// holds the length of its pair at place `k`, puts `x` there again and
/// changes nothing else.
pub proof fn lemma_recombine_diagonal_column<S: Numerical>(e: Seq<S>, m: nat, k: int, x: S)
    requires
        e.len() >= m,
        0 <= k,
        k + 1 < m,
        e[k] == pair_reflection(x).length,
        restores(x),
        passes(x, S::zero_spec()),
        passes(x, e[k + 1]),
    ensures
        rotate_columns(
            diagonal_block(e, m),
            m,
            k,
            pair_reflection(x).direction[0],
            pair_reflection(x).direction[1],
            pair_reflection(x).scale,
        ) == diagonal_block(e.update(k, x), m),
{
    let block = diagonal_block(e, m);
    let target = diagonal_block(e.update(k, x), m);
    let h = pair_reflection(x);
    let rotated = rotate_columns(block, m, k, h.direction[0], h.direction[1], h.scale);
    lemma_diagonal_block(e, m);
    lemma_diagonal_block(e.update(k, x), m);
    assert(m * m >= 0) by (nonlinear_arith);
    assert forall|p: int| 0 <= p < m * m implies rotated[p] == target[p] by {
        lemma_position_is_cell(m, p);
        let i = p / (m as int);
        let j = p % (m as int);
        lemma_cell_bounds(m, i, k);
        lemma_cell_bounds(m, i, k + 1);
        if j == k || j == k + 1 {
            if i == k {
                assert(block[cell(m, i, k)] == e[k]);
                assert(block[cell(m, i, k + 1)] == S::zero_spec());
            } else if i == k + 1 {
                assert(block[cell(m, i, k)] == S::zero_spec());
                assert(block[cell(m, i, k + 1)] == e[k + 1]);
            } else {
                assert(block[cell(m, i, k)] == S::zero_spec());
                assert(block[cell(m, i, k + 1)] == S::zero_spec());
            }
        }
    }
    assert(rotated =~= target);
}

/// The diagonal after the first `count` steps of the factorisation.
pub open spec fn factored_entries<S: Numerical>(x: Seq<S>, count: nat) -> Seq<S> {
    Seq::new(
        x.len(),
        |k: int|
            if k < count {
                turned(x[k])
            } else {
                x[k]
            },
    )
}

/// The diagonal of a block of `m` rows after the factorisation and the
/// first `count` reflections applied from the right.
pub open spec fn recombined_entries<S: Numerical>(x: Seq<S>, m: nat, count: nat) -> Seq<S> {
    Seq::new(
        x.len(),
        |k: int|
            if count <= k < m - 1 {
                turned(x[k])
            } else {
                x[k]
            },
    )
}

/// What the arithmetic has to know for a QR step to be followed through
/// the diagonal block of the first `m` entries of `x`: every reflection
/// that turns its pair passes the zeros and the next diagonal entry, before
/// and after that entry's own step, and restores its own entry.
pub open spec fn step_is_plain<S: Numerical>(x: Seq<S>, m: nat) -> bool {
    forall|k: int|
        0 <= k < m - 1 && turns(#[trigger] x[k]) ==> {
            &&& passes(x[k], S::zero_spec())
            &&& passes(x[k], x[k + 1])
            &&& passes(x[k], recombined_entries(x, m, k as nat)[k + 1])
            &&& restores(x[k])
        }
}

/// The factorisation of a diagonal block leaves it diagonal, with the
/// turned entries on the diagonal, and uses the reflections of the
/// diagonal entries.
pub proof fn lemma_factored_diagonal<S: Numerical>(x: Seq<S>, m: nat, count: nat)
    requires
        x.len() >= m,
        count + 1 <= m,
        step_is_plain(x, m),
    ensures
        factored(diagonal_block(x, m), m, count) == diagonal_block(factored_entries(x, count), m),
        count + 1 < m ==> reflection_at(diagonal_block(x, m), m, count as int) == pair_reflection(
            x[count as int],
        ),
    decreases count,
{
    let e = factored_entries(x, count);
    if count == 0 {
        assert(e =~= x);
    } else {
        let col = count - 1;
        lemma_factored_diagonal(x, m, col as nat);
        let before = factored_entries(x, col as nat);
        assert(turns(x[col]) ==> passes(x[col], S::zero_spec()) && passes(x[col], x[col + 1]));
        lemma_factor_diagonal_column(before, m, col);
        assert(before.update(col, turned(before[col])) =~= e);
    }
    if count + 1 < m {
        let col = count as int;
        assert(turns(x[col]) ==> passes(x[col], S::zero_spec()) && passes(x[col], x[col + 1]));
        lemma_factor_diagonal_column(e, m, col);
    }
}

/// The reflections of the factorisation, applied from the right to the
/// factored block, restore the diagonal entries one after another.
pub proof fn lemma_recombined_diagonal<S: Numerical>(x: Seq<S>, m: nat, count: nat)
    requires
        x.len() >= m,
        count + 1 <= m,
        step_is_plain(x, m),
    ensures
        recombined(diagonal_block(x, m), m, count) == diagonal_block(
            recombined_entries(x, m, count),
            m,
        ),
    decreases count,
{
    if count == 0 {
        lemma_factored_diagonal(x, m, (m - 1) as nat);
        assert(factored_entries(x, (m - 1) as nat) =~= recombined_entries(x, m, 0));
    } else {
        let k = count - 1;
        lemma_recombined_diagonal(x, m, k as nat);
        lemma_factored_diagonal(x, m, k as nat);
        let e = recombined_entries(x, m, k as nat);
        if turns(x[k]) {
            assert(passes(x[k], e[k + 1]) && restores(x[k]) && passes(x[k], S::zero_spec()));
            lemma_recombine_diagonal_column(e, m, k, x[k]);
            assert(e.update(k, x[k]) =~= recombined_entries(x, m, count));
        } else {
            assert(e =~= recombined_entries(x, m, count));
        }
    }
}

/// A QR step leaves a diagonal block as it is.
pub proof fn lemma_qr_iteration_of_diagonal<S: Numerical>(x: Seq<S>, m: nat)
    requires
        x.len() >= m,
        m >= 1,
        step_is_plain(x, m),
    ensures
        qr_iteration_spec(diagonal_block(x, m), m) == diagonal_block(x, m),
{
    lemma_recombined_diagonal(x, m, (m - 1) as nat);
    let e = recombined_entries(x, m, (m - 1) as nat);
    lemma_diagonal_block(e, m);
    lemma_diagonal_block(x, m);
    assert(m * m >= 0) by (nonlinear_arith);
    assert forall|p: int| 0 <= p < m * m implies diagonal_block(e, m)[p] == diagonal_block(
        x,
        m,
    )[p] by {
        lemma_position_is_cell(m, p);
    }
    assert(diagonal_block(e, m) =~= diagonal_block(x, m));
}

/// The entries of `d` less the last of the first `m`.
pub open spec fn shifted<S: Numerical>(d: Seq<S>, m: nat) -> Seq<S> {
    Seq::new(d.len(), |k: int| d[k].sub_spec(d[m - 1]))
}

/// What the arithmetic has to know for a shifted QR step to be followed
/// through the diagonal block of the first `m` entries of `d`: the step on
/// the shifted entries is plain, and an entry less the shift plus the shift
/// is the entry again.
pub open spec fn sweep_is_plain<S: Numerical>(d: Seq<S>, m: nat) -> bool {
    &&& step_is_plain(shifted(d, m), m)
    &&& forall|k: int| 0 <= k < m ==> (#[trigger] d[k]).sub_spec(d[m - 1]).add_spec(d[m - 1]) == d[k]
}

/// A shifted QR step leaves a diagonal block as it is.
pub proof fn lemma_qr_sweep_of_diagonal<S: Numerical>(d: Seq<S>, m: nat)
    requires
        d.len() >= m,
        m >= 1,
        sweep_is_plain(d, m),
    ensures
        qr_sweep(diagonal_block(d, m), m) == diagonal_block(d, m),
{
    let block = diagonal_block(d, m);
    let x = shifted(d, m);
    lemma_diagonal_block(d, m);
    lemma_diagonal_block(x, m);
    lemma_cell_bounds(m, m - 1, m - 1);
    assert(m * m - 1 == cell(m, m - 1, m - 1)) by (nonlinear_arith)
        requires
            m >= 1,
    ;
    let shift = block[m * m - 1];
    assert(shift == d[m - 1]);
    assert(m * m >= 0) by (nonlinear_arith);
    assert forall|p: int| 0 <= p < m * m implies lowered_diagonal(block, m, shift)[p]
        == diagonal_block(x, m)[p] by {
        lemma_position_is_cell(m, p);
    }
    assert(lowered_diagonal(block, m, shift) =~= diagonal_block(x, m));
    lemma_qr_iteration_of_diagonal(x, m);
    assert forall|p: int| 0 <= p < m * m implies raised_diagonal(diagonal_block(x, m), m, shift)[p]
        == block[p] by {
        lemma_position_is_cell(m, p);
    }
    assert(raised_diagonal(diagonal_block(x, m), m, shift) =~= block);
}

/// The first `m` entries of `d` from the last to the first, behind
/// `values`: the order in which the QR algorithm finds them.
pub open spec fn found_from<S>(d: Seq<S>, m: nat, values: Seq<S>) -> Seq<S>
    decreases m,
{
    if m == 0 {
        values
    } else {
        found_from(d, (m - 1) as nat, values.push(d[m - 1]))
    }
}

/// What is found is what was there, and behind it the first `m` entries of
/// `d` in reverse order.
pub proof fn lemma_found_from<S>(d: Seq<S>, m: nat, values: Seq<S>)
    requires
        m <= d.len(),
    ensures
        found_from(d, m, values) == values + Seq::new(m, |k: int| d[m - 1 - k]),
    decreases m,
{
    if m == 0 {
        assert(values + Seq::new(0, |k: int| d[0 - 1 - k]) =~= values);
    } else {
        lemma_found_from(d, (m - 1) as nat, values.push(d[m - 1]));
        assert(values.push(d[m - 1]) + Seq::new((m - 1) as nat, |k: int| d[m - 1 - 1 - k])
            =~= values + Seq::new(m, |k: int| d[m - 1 - k]));
    }
}

/// Whether a shifted QR step is plain on each of the leading diagonal
/// blocks of two to `m` rows.
pub open spec fn blocks_are_plain<S: Numerical>(d: Seq<S>, m: nat) -> bool {
    forall|b: nat| 2 <= b <= m ==> #[trigger] sweep_is_plain(d, b)
}

/// The QR algorithm on a diagonal block takes one round for each row but
/// the first: every round leaves the block as it is, finds zero below the
/// last diagonal entry and takes that entry as an eigenvalue.
pub proof fn lemma_qr_run_of_diagonal<S: Numerical>(
    d: Seq<S>,
    m: nat,
    values: Seq<S>,
    rounds: nat,
)
    requires
        2 <= m <= d.len(),
        rounds + 1 >= m,
        blocks_are_plain(d, m),
        S::zero_spec().abs_spec().lt_spec(subdiagonal_small_spec::<S>()),
    ensures
        qr_run(Deflation { work: diagonal_block(d, m), dimension: m, values }, rounds) == Some(
            found_from(d, m, values),
        ),
        m >= 3 ==> qr_run(Deflation { work: diagonal_block(d, m), dimension: m, values }, 1)
            is None,
    decreases m,
{
    let block = diagonal_block(d, m);
    assert(sweep_is_plain(d, m));
    lemma_qr_sweep_of_diagonal(d, m);
    lemma_diagonal_block(d, m);
    lemma_cell_bounds(m, m - 1, m - 1);
    lemma_cell_bounds(m, m - 1, m - 2);
    assert(m * m - 1 == cell(m, m - 1, m - 1) && m * m - 2 == cell(m, m - 1, m - 2))
        by (nonlinear_arith)
        requires
            m >= 2,
    ;
    assert(block[m * m - 2] == S::zero_spec());
    assert(block[m * m - 1] == d[m - 1]);
    let next = values.push(d[m - 1]);
    if m == 2 {
        lemma_cell_bounds(m, 0, 0);
        assert(cell(m, 0, 0) == 0) by (nonlinear_arith);
        assert(block[0] == d[0]);
        assert(found_from(d, 2, values) == found_from(d, 1, next));
        assert(found_from(d, 1, next) == found_from(d, 0, next.push(d[0])));
    } else {
        let smaller = (m - 1) as nat;
        lemma_diagonal_block(d, smaller);
        assert(smaller * smaller >= 0) by (nonlinear_arith);
        assert forall|p: int| 0 <= p < smaller * smaller implies leading_block(block, m)[p]
            == diagonal_block(d, smaller)[p] by {
            lemma_position_is_cell(smaller, p);
            lemma_cell_bounds(m, p / (smaller as int), p % (smaller as int));
        }
        assert(leading_block(block, m) =~= diagonal_block(d, smaller));
        assert forall|b: nat| 2 <= b <= smaller implies #[trigger] sweep_is_plain(d, b) by {}
        lemma_qr_run_of_diagonal(d, smaller, next, (rounds - 1) as nat);
        assert(qr_run(
            Deflation { work: diagonal_block(d, smaller), dimension: smaller, values: next },
            0,
        ) is None);
    }
}

/// The squares of zeros add up to zero.
proof fn lemma_square_sum_of_zeros<S: Numerical>(v: Seq<S>, count: nat)
    requires
        count <= v.len(),
        forall|k: int| 0 <= k < v.len() ==> (#[trigger] v[k]) == S::zero_spec(),
        plain_beside_zero(S::zero_spec()),
    ensures
        square_sum_prefix(v, count) == S::zero_spec(),
    decreases count,
{
    if count > 0 {
        lemma_square_sum_of_zeros(v, (count - 1) as nat);
    }
}

/// What the arithmetic has to know of zero for the reduction to Hessenberg
/// form to pass over a column of zeros: zero is plain beside zero, its
/// square root is zero, `0 − 0 = 0` and zero equals itself.
pub open spec fn zero_column_is_skipped<S: Numerical>() -> bool {
    &&& plain_beside_zero(S::zero_spec())
    &&& S::zero_spec().sqrt_spec() == S::zero_spec()
    &&& S::zero_spec().sub_spec(S::zero_spec()) == S::zero_spec()
    &&& S::zero_spec().eq_spec(S::zero_spec())
}

/// The reduction of any number of columns leaves a diagonal matrix as it
/// is.
pub proof fn lemma_hessenberg_columns_of_diagonal<S: Numerical>(
    matrix: Seq<S>,
    n: nat,
    count: nat,
)
    requires
        matrix.len() == n * n,
        is_diagonal(matrix, n),
        count + 2 <= n,
        zero_column_is_skipped::<S>(),
    ensures
        hessenberg_columns(matrix, n, count) == matrix,
    decreases count,
{
    if count > 0 {
        lemma_hessenberg_columns_of_diagonal(matrix, n, (count - 1) as nat);
        let col = count - 1;
        let v = subcolumn(matrix, n, col);
        assert forall|k: int| 0 <= k < v.len() implies (#[trigger] v[k]) == S::zero_spec() by {
            assert(matrix[cell(n, col + 1 + k, col)] == S::zero_spec());
        }
        lemma_square_sum_of_zeros(v, v.len());
        let direction = v.update(0, v[0].sub_spec(square_sum_prefix(v, v.len()).sqrt_spec()));
        assert(direction =~= v);
        assert(hessenberg_column(matrix, n, col) == matrix);
    }
}

/// The reduction to Hessenberg form leaves a diagonal matrix as it is.
pub proof fn lemma_hessenberg_of_diagonal<S: Numerical>(matrix: Seq<S>, n: nat)
    requires
        matrix.len() == n * n,
        is_diagonal(matrix, n),
        zero_column_is_skipped::<S>(),
    ensures
        hessenberg_spec(matrix, n) == matrix,
{
    if n >= 3 {
        lemma_hessenberg_columns_of_diagonal(matrix, n, (n - 2) as nat);
    }
}

/// The diagonal of a matrix.
pub open spec fn diagonal_of<S>(matrix: Seq<S>, n: nat) -> Seq<S> {
    Seq::new(n, |i: int| matrix[cell(n, i, i)])
}

/// What the arithmetic has to know for the QR algorithm to be followed
/// through a diagonal matrix: a column of zeros is skipped by the reduction
/// to Hessenberg form, the magnitude of zero is below the threshold of a
/// subdiagonal entry, and a shifted QR step is plain on each leading block.
pub open spec fn qr_diagonal_is_plain<S: Numerical>(matrix: Seq<S>, n: nat) -> bool {
    &&& zero_column_is_skipped::<S>()
    &&& S::zero_spec().abs_spec().lt_spec(subdiagonal_small_spec::<S>())
    &&& blocks_are_plain(diagonal_of(matrix, n), n)
}

/// The QR algorithm finds the diagonal entries of a diagonal matrix, from
/// the last to the first, in one round for each row but the first.
pub proof fn lemma_eigenvalues_of_diagonal<S: Numerical>(matrix: Seq<S>, n: nat, rounds: nat)
    requires
        n >= 2,
        rounds + 1 >= n,
        matrix.len() == n * n,
        is_diagonal(matrix, n),
        qr_diagonal_is_plain(matrix, n),
    ensures
        eigenvalues_found(matrix, n, rounds) == Some(
            Seq::new(n, |k: int| matrix[cell(n, n - 1 - k, n - 1 - k)]),
        ),
{
    let d = diagonal_of(matrix, n);
    lemma_hessenberg_of_diagonal(matrix, n);
    lemma_diagonal_block(d, n);
    assert(n * n >= 0) by (nonlinear_arith);
    assert forall|p: int| 0 <= p < n * n implies matrix[p] == diagonal_block(d, n)[p] by {
        lemma_position_is_cell(n, p);
    }
    assert(matrix =~= diagonal_block(d, n));
    lemma_qr_run_of_diagonal(d, n, Seq::empty(), rounds);
    lemma_found_from(d, n, Seq::empty());
    assert(Seq::<S>::empty() + Seq::new(n, |k: int| d[n - 1 - k]) =~= Seq::new(
        n,
        |k: int| matrix[cell(n, n - 1 - k, n - 1 - k)],
    ));
}

/// What the QR algorithm returns for a diagonal matrix: its diagonal
/// entries in ascending order.
pub proof fn lemma_qr_algorithm_on_a_diagonal_matrix<S: Numerical>(
    matrix: Seq<S>,
    n: nat,
    rounds: nat,
    result: Option<Vec<S>>,
)
    requires
        n >= 2,
        rounds + 1 >= n,
        matrix.len() == n * n,
        is_diagonal(matrix, n),
        qr_diagonal_is_plain(matrix, n),
        is_qr_result(matrix, n, rounds, result),
    ensures
        result matches Some(values) && values@.len() == n && ascending(values@)
            && values@.to_multiset() == diagonal_of(matrix, n).to_multiset(),
{
    lemma_eigenvalues_of_diagonal(matrix, n, rounds);
    let found = Seq::new(n, |k: int| matrix[cell(n, n - 1 - k, n - 1 - k)]);
    let d = diagonal_of(matrix, n);
    assert(found =~= d.reverse());
    d.lemma_reverse_to_multiset();
}

/// The round trip through a diagonal transformation: of a matrix
/// `T⁻¹·diag(λ)·T` that was made with a diagonal `T`, the QR algorithm
/// returns the eigenvalues `λ` in ascending order.
pub proof fn lemma_round_trip_through_a_diagonal_transformation<S: Numerical>(
    eigenvalues: Seq<S>,
    transformation: Seq<S>,
    n: nat,
    rounds: nat,
    result: Option<Vec<S>>,
)
    requires
        2 <= n <= usize::MAX,
        rounds + 1 >= n,
        eigenvalues.len() == n,
        transformation.len() == n * n,
        is_diagonal(transformation, n),
        units_are_plain::<S>(),
        entries_are_plain(transformation, n, n),
        pivots_suffice(transformation, n, n),
        forall|k: int|
            0 <= k < n ==> product_cancels(#[trigger] eigenvalues[k], transformation[cell(n, k, k)]),
        qr_diagonal_is_plain(diagonal_block(eigenvalues, n), n),
        is_qr_result(
            similar_matrix(
                eigenvalues,
                transformation,
                diagonal_state(transformation, n, n).factors,
                n,
            ),
            n,
            rounds,
            result,
        ),
    ensures
        similar_matrix(
            eigenvalues,
            transformation,
            diagonal_state(transformation, n, n).factors,
            n,
        ) == diagonal_block(eigenvalues, n),
        result matches Some(values) && values@.len() == n && ascending(values@)
            && values@.to_multiset() == eigenvalues.to_multiset(),
{
    let made = similar_matrix(
        eigenvalues,
        transformation,
        diagonal_state(transformation, n, n).factors,
        n,
    );
    let block = diagonal_block(eigenvalues, n);
    lemma_diagonal_block(eigenvalues, n);
    assert(n * n >= 0) by (nonlinear_arith);
    assert forall|p: int| 0 <= p < n * n implies made[p] == block[p] by {
        lemma_position_is_cell(n, p);
        lemma_similar_matrix_of_diagonal(
            eigenvalues,
            transformation,
            n,
            p / (n as int),
            p % (n as int),
        );
    }
    assert(made =~= block);
    assert(is_diagonal(block, n));
    assert(diagonal_of(block, n) =~= eigenvalues);
    lemma_qr_algorithm_on_a_diagonal_matrix(block, n, rounds, result);
}

} // verus!
