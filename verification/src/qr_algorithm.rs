//! Householder reflections, the reduction of a matrix to Hessenberg form
//! and the shifted QR algorithm with deflation.

use vstd::prelude::*;
use vstd::slice::slice_to_vec;
use vstd::seq_lib::to_multiset_insert;
use crate::layout::{cell, cell_index, filled, table};
use crate::layout::{lemma_cell_bounds, lemma_cell_div_mod, lemma_position_is_cell};
use crate::scalar::{subdiagonal_small, subdiagonal_small_spec};
use crate::scalar::{Index, Numerical, OtherNumericalOps, MAX_ITERATIONS};
use crate::vector::{lower_diagonal, lowered_diagonal, raise_diagonal, raised_diagonal};

verus! {

/// The squares of the first `count` entries, added up from zero in the
/// order of the indices.
pub open spec fn square_sum_prefix<S: Numerical>(v: Seq<S>, count: nat) -> S
    decreases count,
{
    if count == 0 {
        S::zero_spec()
    } else {
        square_sum_prefix(v, (count - 1) as nat).add_spec(v[count - 1].mul_spec(v[count - 1]))
    }
}

/// A Householder reflection, given by the direction it reflects along.
pub struct Reflection<S> {
    /// Euclidean length of the vector that the reflection was made for.
    pub length: S,
    /// The vector minus `length` times the first unit vector.
    pub direction: Seq<S>,
    /// The square of the Euclidean length of `direction`.
    pub scale: S,
}

/// The reflection that sends `v` to `length` times the first unit vector.
pub open spec fn reflection_of<S: Numerical>(v: Seq<S>) -> Reflection<S> {
    let length = square_sum_prefix(v, v.len()).sqrt_spec();
    let direction = v.update(0, v[0].sub_spec(length));
    Reflection { length, direction, scale: square_sum_prefix(direction, direction.len()) }
}

/// Computes the reflection for `vector`: writes its direction to the front
/// of `direction` and the squared length of the direction to `scale`, and
/// returns the length of `vector`.
pub fn compute_reflection<S: Numerical>(vector: &[S], direction: &mut [S], scale: &mut S) -> (length:
    S)
    requires
        vector@.len() >= 1,
        old(direction)@.len() >= vector@.len(),
    ensures
        length == reflection_of(vector@).length,
        *final(scale) == reflection_of(vector@).scale,
        final(direction)@ == reflection_of(vector@).direction + old(direction)@.subrange(
            vector@.len() as int,
            old(direction)@.len() as int,
        ),
{
    let dimension = vector.len();
    let ghost target = reflection_of(vector@);
    let mut r = S::zero();
    let mut k: Index = 0;
    while k < dimension
        invariant
            k <= dimension,
            dimension == vector@.len(),
            r == square_sum_prefix(vector@, k as nat),
        decreases dimension - k,
    {
        r = r.add(vector[k].mul(vector[k]));
        k += 1;
    }
    let length = r.sqrt_trait();
    direction[0] = vector[0].sub(length);
    k = 1;
    while k < dimension
        invariant
            1 <= k <= dimension,
            dimension == vector@.len(),
            direction@.len() == old(direction)@.len(),
            direction@.len() >= dimension,
            target == reflection_of(vector@),
            forall|j: int| 0 <= j < k ==> direction@[j] == target.direction[j],
            forall|j: int| k <= j < direction@.len() ==> direction@[j] == old(direction)@[j],
        decreases dimension - k,
    {
        direction[k] = vector[k];
        k += 1;
    }
    *scale = S::zero();
    k = 0;
    while k < dimension
        invariant
            k <= dimension,
            dimension == vector@.len(),
            direction@.len() >= dimension,
            target.direction.len() == dimension,
            forall|j: int| 0 <= j < dimension ==> direction@[j] == target.direction[j],
            *scale == square_sum_prefix(target.direction, k as nat),
        decreases dimension - k,
    {
        *scale = scale.add(direction[k].mul(direction[k]));
        k += 1;
    }
    assert(direction@ =~= target.direction + old(direction)@.subrange(
        vector@.len() as int,
        old(direction)@.len() as int,
    ));
    length
}

/// The part of column `col` below the diagonal, as a vector of its own.
pub open spec fn subcolumn<S>(m: Seq<S>, n: nat, col: int) -> Seq<S> {
    Seq::new((n - col - 1) as nat, |k: int| m[cell(n, col + 1 + k, col)])
}

/// The first `count` products of `direction[k]` with the entry in row
/// `first + k` of column `c`, added up from zero.
pub open spec fn column_dot<S: Numerical>(
    direction: Seq<S>,
    m: Seq<S>,
    n: nat,
    first: int,
    c: int,
    count: nat,
) -> S
    decreases count,
{
    if count == 0 {
        S::zero_spec()
    } else {
        column_dot(direction, m, n, first, c, (count - 1) as nat).add_spec(
            direction[count - 1].mul_spec(m[cell(n, first + count - 1, c)]),
        )
    }
}

/// The first `count` products of `direction[k]` with the entry in column
/// `first + k` of row `r`, added up from zero.
pub open spec fn row_dot<S: Numerical>(
    direction: Seq<S>,
    m: Seq<S>,
    n: nat,
    r: int,
    first: int,
    count: nat,
) -> S
    decreases count,
{
    if count == 0 {
        S::zero_spec()
    } else {
        row_dot(direction, m, n, r, first, (count - 1) as nat).add_spec(
            direction[count - 1].mul_spec(m[cell(n, r, first + count - 1)]),
        )
    }
}

/// The coefficient `−2·sum / scale` of a reflection.
pub open spec fn reflection_factor<S: Numerical>(sum: S, scale: S) -> S {
    S::from_i32_spec(2).neg_spec().mul_spec(sum).div_spec(scale)
}

/// The matrix with `length` just below the diagonal of column `col` and
/// zero in the rows under it.
pub open spec fn clear_below<S: Numerical>(m: Seq<S>, n: nat, col: int, length: S) -> Seq<S> {
    table(
        n,
        |i: int, j: int|
            if j == col && i == col + 1 {
                length
            } else if j == col && i > col + 1 {
                S::zero_spec()
            } else {
                m[cell(n, i, j)]
            },
    )
}

/// The reflection applied from the left to the rows and columns from
/// `first` on: every such column gains its own multiple of the direction.
pub open spec fn reflect_left<S: Numerical>(
    m: Seq<S>,
    n: nat,
    first: int,
    direction: Seq<S>,
    scale: S,
) -> Seq<S> {
    table(
        n,
        |i: int, j: int|
            if i >= first && j >= first {
                m[cell(n, i, j)].add_spec(
                    reflection_factor(
                        column_dot(direction, m, n, first, j, direction.len()),
                        scale,
                    ).mul_spec(direction[i - first]),
                )
            } else {
                m[cell(n, i, j)]
            },
    )
}

/// The reflection applied from the right to the columns from `first` on:
/// every row gains, in those columns, its own multiple of the direction.
pub open spec fn reflect_right<S: Numerical>(
    m: Seq<S>,
    n: nat,
    first: int,
    direction: Seq<S>,
    scale: S,
) -> Seq<S> {
    table(
        n,
        |i: int, j: int|
            if j >= first {
                m[cell(n, i, j)].add_spec(
                    reflection_factor(
                        row_dot(direction, m, n, i, first, direction.len()),
                        scale,
                    ).mul_spec(direction[j - first]),
                )
            } else {
                m[cell(n, i, j)]
            },
    )
}

/// The reduction of column `col`: the similarity transform by the
/// reflection that clears the column below the subdiagonal. A column whose
/// reflection has scale zero is left as it is.
pub open spec fn hessenberg_column<S: Numerical>(m: Seq<S>, n: nat, col: int) -> Seq<S> {
    let h = reflection_of(subcolumn(m, n, col));
    if h.scale.eq_spec(S::zero_spec()) {
        m
    } else {
        reflect_right(
            reflect_left(clear_below(m, n, col, h.length), n, col + 1, h.direction, h.scale),
            n,
            col + 1,
            h.direction,
            h.scale,
        )
    }
}

/// The matrix after the reduction of its first `count` columns.
pub open spec fn hessenberg_columns<S: Numerical>(m: Seq<S>, n: nat, count: nat) -> Seq<S>
    decreases count,
{
    if count == 0 {
        m
    } else {
        hessenberg_column(hessenberg_columns(m, n, (count - 1) as nat), n, count - 1)
    }
}

/// The Hessenberg form of an `n`-square matrix: all but the last two
/// columns reduced, which leaves a matrix of fewer than three rows as it is.
pub open spec fn hessenberg_spec<S: Numerical>(m: Seq<S>, n: nat) -> Seq<S> {
    if n < 3 {
        m
    } else {
        hessenberg_columns(m, n, (n - 2) as nat)
    }
}

/// Writes `length` below the diagonal of column `col` and zero under it.
fn clear_column_below<S: Numerical>(matrix: &mut [S], dimension: Index, col: Index, length: S)
    requires
        col + 1 < dimension,
        old(matrix)@.len() == dimension * dimension,
    ensures
        final(matrix)@ == clear_below(old(matrix)@, dimension as nat, col as int, length),
{
    let ghost n = dimension as nat;
    let ghost d = dimension as int;
    let ghost m0 = matrix@;
    assert(matrix@.len() == matrix.len());
    let position = cell_index(dimension, col + 1, col);
    matrix[position] = length;
    proof {
        lemma_cell_div_mod(n, col + 1, col as int);
        assert forall|p: int| 0 <= p < n * n implies (#[trigger] matrix@[p]) == (if p % d == col
            && p / d == col + 1 {
            length
        } else {
            m0[p]
        }) by {
            lemma_position_is_cell(n, p);
        }
    }
    let mut r: Index = col + 2;
    while r < dimension
        invariant
            col + 2 <= r <= dimension,
            d == dimension,
            n == dimension,
            dimension * dimension <= usize::MAX,
            m0.len() == n * n,
            matrix@.len() == n * n,
            forall|p: int|
                0 <= p < n * n ==> (#[trigger] matrix@[p]) == (if p % d == col && p / d == col
                    + 1 {
                    length
                } else if p % d == col && col + 1 < p / d < r {
                    S::zero_spec()
                } else {
                    m0[p]
                }),
        decreases dimension - r,
    {
        let position = cell_index(dimension, r, col);
        matrix[position] = S::zero();
        proof {
            lemma_cell_div_mod(n, r as int, col as int);
            assert forall|p: int| 0 <= p < n * n implies (#[trigger] matrix@[p]) == (if p % d
                == col && p / d == col + 1 {
                length
            } else if p % d == col && col + 1 < p / d < r + 1 {
                S::zero_spec()
            } else {
                m0[p]
            }) by {
                lemma_position_is_cell(n, p);
            }
        }
        r += 1;
    }
    proof {
        let target = clear_below(m0, n, col as int, length);
        assert forall|p: int| 0 <= p < n * n implies matrix@[p] == target[p] by {
            lemma_position_is_cell(n, p);
        }
        assert(matrix@ =~= target);
    }
}

/// Applies a reflection from the left, in place.
fn reflect_left_in_place<S: Numerical>(
    matrix: &mut [S],
    dimension: Index,
    first: Index,
    direction: &[S],
    scale: S,
)
    requires
        first + direction@.len() == dimension,
        old(matrix)@.len() == dimension * dimension,
    ensures
        final(matrix)@ == reflect_left(
            old(matrix)@,
            dimension as nat,
            first as int,
            direction@,
            scale,
        ),
{
    let ghost n = dimension as nat;
    let ghost d = dimension as int;
    let ghost m0 = matrix@;
    let ghost target = reflect_left(m0, n, first as int, direction@, scale);
    let two = S::from_i32(2);
    assert(matrix@.len() == matrix.len());
    proof {
        assert(n * n >= 0) by (nonlinear_arith);
        assert forall|p: int| 0 <= p < n * n implies (#[trigger] matrix@[p]) == (if p % d < first {
            target[p]
        } else {
            m0[p]
        }) by {
            lemma_position_is_cell(n, p);
        }
    }
    let mut c: Index = first;
    while c < dimension
        invariant
            first <= c <= dimension,
            first + direction@.len() == dimension,
            d == dimension,
            n == dimension,
            dimension * dimension <= usize::MAX,
            two == S::from_i32_spec(2),
            m0.len() == n * n,
            matrix@.len() == n * n,
            target.len() == n * n,
            target == reflect_left(m0, n, first as int, direction@, scale),
            forall|p: int|
                0 <= p < n * n ==> (#[trigger] matrix@[p]) == (if p % d < c {
                    target[p]
                } else {
                    m0[p]
                }),
        decreases dimension - c,
    {
        let mut sum = S::zero();
        let mut k: Index = first;
        while k < dimension
            invariant
                first <= k <= dimension,
                c < dimension,
                first + direction@.len() == dimension,
                d == dimension,
                n == dimension,
                dimension * dimension <= usize::MAX,
                m0.len() == n * n,
                matrix@.len() == n * n,
                forall|p: int|
                    0 <= p < n * n ==> (#[trigger] matrix@[p]) == (if p % d < c {
                        target[p]
                    } else {
                        m0[p]
                    }),
                sum == column_dot(direction@, m0, n, first as int, c as int, (k - first) as nat),
            decreases dimension - k,
        {
            let position = cell_index(dimension, k, c);
            proof {
                lemma_cell_div_mod(n, k as int, c as int);
            }
            sum = sum.add(direction[k - first].mul(matrix[position]));
            k += 1;
        }
        let coefficient = two.neg().mul(sum).div(scale);
        let mut r: Index = first;
        while r < dimension
            invariant
                first <= r <= dimension,
                first <= c < dimension,
                first + direction@.len() == dimension,
                d == dimension,
                n == dimension,
                dimension * dimension <= usize::MAX,
                m0.len() == n * n,
                matrix@.len() == n * n,
                target == reflect_left(m0, n, first as int, direction@, scale),
                coefficient == reflection_factor(
                    column_dot(direction@, m0, n, first as int, c as int, direction@.len()),
                    scale,
                ),
                forall|p: int|
                    0 <= p < n * n ==> (#[trigger] matrix@[p]) == (if p % d < c || (p % d == c
                        && first <= p / d < r) {
                        target[p]
                    } else {
                        m0[p]
                    }),
            decreases dimension - r,
        {
            let position = cell_index(dimension, r, c);
            proof {
                lemma_cell_div_mod(n, r as int, c as int);
            }
            matrix[position] = matrix[position].add(coefficient.mul(direction[r - first]));
            proof {
                assert forall|p: int| 0 <= p < n * n implies (#[trigger] matrix@[p]) == (if p % d
                    < c || (p % d == c && first <= p / d < r + 1) {
                    target[p]
                } else {
                    m0[p]
                }) by {
                    lemma_position_is_cell(n, p);
                }
            }
            r += 1;
        }
        proof {
            assert forall|p: int| 0 <= p < n * n implies (#[trigger] matrix@[p]) == (if p % d < c
                + 1 {
                target[p]
            } else {
                m0[p]
            }) by {
                lemma_position_is_cell(n, p);
            }
        }
        c += 1;
    }
    proof {
        assert forall|p: int| 0 <= p < n * n implies matrix@[p] == target[p] by {
            lemma_position_is_cell(n, p);
        }
        assert(n * n >= 0) by (nonlinear_arith);
        assert(matrix@ =~= target);
    }
}

/// Applies a reflection from the right, in place.
fn reflect_right_in_place<S: Numerical>(
    matrix: &mut [S],
    dimension: Index,
    first: Index,
    direction: &[S],
    scale: S,
)
    requires
        first + direction@.len() == dimension,
        old(matrix)@.len() == dimension * dimension,
    ensures
        final(matrix)@ == reflect_right(
            old(matrix)@,
            dimension as nat,
            first as int,
            direction@,
            scale,
        ),
{
    let ghost n = dimension as nat;
    let ghost d = dimension as int;
    let ghost m0 = matrix@;
    let ghost target = reflect_right(m0, n, first as int, direction@, scale);
    let two = S::from_i32(2);
    assert(matrix@.len() == matrix.len());
    let mut r: Index = 0;
    while r < dimension
        invariant
            r <= dimension,
            first + direction@.len() == dimension,
            d == dimension,
            n == dimension,
            dimension * dimension <= usize::MAX,
            two == S::from_i32_spec(2),
            m0.len() == n * n,
            matrix@.len() == n * n,
            target == reflect_right(m0, n, first as int, direction@, scale),
            forall|p: int|
                0 <= p < n * n ==> (#[trigger] matrix@[p]) == (if p / d < r {
                    target[p]
                } else {
                    m0[p]
                }),
        decreases dimension - r,
    {
        let mut sum = S::zero();
        let mut k: Index = first;
        while k < dimension
            invariant
                first <= k <= dimension,
                r < dimension,
                first + direction@.len() == dimension,
                d == dimension,
                n == dimension,
                dimension * dimension <= usize::MAX,
                m0.len() == n * n,
                matrix@.len() == n * n,
                forall|p: int|
                    0 <= p < n * n ==> (#[trigger] matrix@[p]) == (if p / d < r {
                        target[p]
                    } else {
                        m0[p]
                    }),
                sum == row_dot(direction@, m0, n, r as int, first as int, (k - first) as nat),
            decreases dimension - k,
        {
            let position = cell_index(dimension, r, k);
            proof {
                lemma_cell_div_mod(n, r as int, k as int);
            }
            sum = sum.add(direction[k - first].mul(matrix[position]));
            k += 1;
        }
        let coefficient = two.neg().mul(sum).div(scale);
        let mut c: Index = first;
        while c < dimension
            invariant
                first <= c <= dimension,
                r < dimension,
                first + direction@.len() == dimension,
                d == dimension,
                n == dimension,
                dimension * dimension <= usize::MAX,
                m0.len() == n * n,
                matrix@.len() == n * n,
                target == reflect_right(m0, n, first as int, direction@, scale),
                coefficient == reflection_factor(
                    row_dot(direction@, m0, n, r as int, first as int, direction@.len()),
                    scale,
                ),
                forall|p: int|
                    0 <= p < n * n ==> (#[trigger] matrix@[p]) == (if p / d < r || (p / d == r
                        && first <= p % d < c) {
                        target[p]
                    } else {
                        m0[p]
                    }),
            decreases dimension - c,
        {
            let position = cell_index(dimension, r, c);
            proof {
                lemma_cell_div_mod(n, r as int, c as int);
            }
            matrix[position] = matrix[position].add(coefficient.mul(direction[c - first]));
            proof {
                assert forall|p: int| 0 <= p < n * n implies (#[trigger] matrix@[p]) == (if p / d
                    < r || (p / d == r && first <= p % d < c + 1) {
                    target[p]
                } else {
                    m0[p]
                }) by {
                    lemma_position_is_cell(n, p);
                }
            }
            c += 1;
        }
        proof {
            assert forall|p: int| 0 <= p < n * n implies (#[trigger] matrix@[p]) == (if p / d < r
                + 1 {
                target[p]
            } else {
                m0[p]
            }) by {
                lemma_position_is_cell(n, p);
            }
        }
        r += 1;
    }
    proof {
        assert forall|p: int| 0 <= p < n * n implies matrix@[p] == target[p] by {
            lemma_position_is_cell(n, p);
        }
        assert(n * n >= 0) by (nonlinear_arith);
        assert(matrix@ =~= target);
    }
}

/// Reduces the `dimension`-square `matrix` to Hessenberg form in place, by
/// one similarity transform `A ← H·A·H` with a Householder reflection `H`
/// for each of its columns but the last two. A matrix of fewer than three
/// rows is left as it is.
pub fn hessenberg_form<S: Numerical>(matrix: &mut [S], dimension: Index)
    requires
        old(matrix)@.len() == dimension * dimension,
    ensures
        final(matrix)@ == hessenberg_spec(old(matrix)@, dimension as nat),
        final(matrix)@.len() == old(matrix)@.len(),
        dimension < 3 ==> final(matrix)@ == old(matrix)@,
{
    if dimension < 3 {
        return ;
    }
    let ghost n = dimension as nat;
    assert(matrix@.len() == matrix.len());
    let mut col: Index = 0;
    while col < dimension - 2
        invariant
            col <= dimension - 2,
            dimension >= 3,
            n == dimension,
            dimension * dimension <= usize::MAX,
            matrix@.len() == n * n,
            matrix@ == hessenberg_columns(old(matrix)@, n, col as nat),
        decreases dimension - col,
    {
        let ghost m0 = matrix@;
        let mut working_column: Vec<S> = Vec::new();
        let mut k: Index = col + 1;
        while k < dimension
            invariant
                col + 1 <= k <= dimension,
                n == dimension,
                dimension * dimension <= usize::MAX,
                matrix@ == m0,
                matrix@.len() == n * n,
                working_column@ == Seq::new(
                    (k - col - 1) as nat,
                    |i: int| m0[cell(n, col + 1 + i, col as int)],
                ),
            decreases dimension - k,
        {
            working_column.push(matrix[cell_index(dimension, k, col)]);
            assert(working_column@ =~= Seq::new(
                (k + 1 - col - 1) as nat,
                |i: int| m0[cell(n, col + 1 + i, col as int)],
            ));
            k += 1;
        }
        assert(working_column@ =~= subcolumn(m0, n, col as int));
        let mut direction = filled(dimension - col - 1, S::zero());
        let mut scale = S::zero();
        let length = compute_reflection(
            working_column.as_slice(),
            direction.as_mut_slice(),
            &mut scale,
        );
        assert(direction@ =~= reflection_of(subcolumn(m0, n, col as int)).direction);
        if !scale.eq(S::zero()) {
            clear_column_below(matrix, dimension, col, length);
            reflect_left_in_place(matrix, dimension, col + 1, direction.as_slice(), scale);
            reflect_right_in_place(matrix, dimension, col + 1, direction.as_slice(), scale);
        }
        proof {
            lemma_hessenberg_column_len(m0, n, col as int);
        }
        col += 1;
    }
}

/// The reduction of column `col` leaves every column before it as it is.
pub proof fn lemma_hessenberg_column_keeps_left<S: Numerical>(
    m: Seq<S>,
    n: nat,
    col: int,
    i: int,
    j: int,
)
    requires
        m.len() == n * n,
        0 <= i < n,
        0 <= j < col < n,
    ensures
        hessenberg_column(m, n, col)[cell(n, i, j)] == m[cell(n, i, j)],
{
    assert(n * n >= 0) by (nonlinear_arith);
    lemma_cell_bounds(n, i, j);
    lemma_cell_div_mod(n, i, j);
}

/// The reduction of column `col` leaves zero below its subdiagonal, unless
/// its reflection has scale zero.
pub proof fn lemma_hessenberg_column_clears<S: Numerical>(m: Seq<S>, n: nat, col: int, i: int)
    requires
        m.len() == n * n,
        0 <= col,
        col + 2 <= i < n,
        !reflection_of(subcolumn(m, n, col)).scale.eq_spec(S::zero_spec()),
    ensures
        hessenberg_column(m, n, col)[cell(n, i, col)] == S::zero_spec(),
{
    assert(n * n >= 0) by (nonlinear_arith);
    lemma_cell_bounds(n, i, col);
    lemma_cell_div_mod(n, i, col);
}

/// The reduction of any number of columns keeps the size of the matrix.
pub proof fn lemma_hessenberg_columns_len<S: Numerical>(m: Seq<S>, n: nat, count: nat)
    requires
        m.len() == n * n,
    ensures
        hessenberg_columns(m, n, count).len() == n * n,
    decreases count,
{
    if count > 0 {
        lemma_hessenberg_columns_len(m, n, (count - 1) as nat);
        lemma_hessenberg_column_len(hessenberg_columns(m, n, (count - 1) as nat), n, count - 1);
    }
}

/// Once column `col` is reduced, the reduction of later columns does not
/// touch it: below its subdiagonal it stays zero, unless its reflection
/// had scale zero.
pub proof fn lemma_hessenberg_columns_zero_below<S: Numerical>(
    m: Seq<S>,
    n: nat,
    count: nat,
    col: int,
    i: int,
)
    requires
        m.len() == n * n,
        0 <= col < count <= n,
        col + 2 <= i < n,
        !reflection_of(subcolumn(hessenberg_columns(m, n, col as nat), n, col)).scale.eq_spec(
            S::zero_spec(),
        ),
    ensures
        hessenberg_columns(m, n, count)[cell(n, i, col)] == S::zero_spec(),
    decreases count,
{
    let before = hessenberg_columns(m, n, (count - 1) as nat);
    lemma_hessenberg_columns_len(m, n, (count - 1) as nat);
    if count - 1 == col {
        lemma_hessenberg_column_clears(before, n, col, i);
    } else {
        lemma_hessenberg_columns_zero_below(m, n, (count - 1) as nat, col, i);
        lemma_hessenberg_column_keeps_left(before, n, count - 1, i, col);
    }
}

/// The Hessenberg form is zero below the subdiagonal in every column that
/// was reduced with a reflection of scale other than zero.
pub proof fn lemma_hessenberg_form_zero_below<S: Numerical>(m: Seq<S>, n: nat, col: int, i: int)
    requires
        m.len() == n * n,
        0 <= col,
        col + 2 <= i < n,
        !reflection_of(subcolumn(hessenberg_columns(m, n, col as nat), n, col)).scale.eq_spec(
            S::zero_spec(),
        ),
    ensures
        hessenberg_spec(m, n)[cell(n, i, col)] == S::zero_spec(),
{
    lemma_hessenberg_columns_zero_below(m, n, (n - 2) as nat, col, i);
}

/// Once column `col` is reduced, the reduction of later columns leaves
/// every entry of it as it is.
pub proof fn lemma_hessenberg_columns_keep_column<S: Numerical>(
    m: Seq<S>,
    n: nat,
    count: nat,
    col: int,
    i: int,
)
    requires
        m.len() == n * n,
        0 <= col < count <= n,
        0 <= i < n,
    ensures
        hessenberg_columns(m, n, count)[cell(n, i, col)] == hessenberg_columns(
            m,
            n,
            (col + 1) as nat,
        )[cell(n, i, col)],
    decreases count,
{
    if count - 1 > col {
        let before = hessenberg_columns(m, n, (count - 1) as nat);
        lemma_hessenberg_columns_len(m, n, (count - 1) as nat);
        lemma_hessenberg_columns_keep_column(m, n, (count - 1) as nat, col, i);
        lemma_hessenberg_column_keeps_left(before, n, count - 1, i, col);
    }
}

/// What the arithmetic has to know of squares for a sum of them to be zero
/// only where every term is: if the sum of the first `count` squares and
/// the square of the next entry is zero, then so are that sum and that
/// entry. Exact arithmetic has this of every vector; floating point has it
/// until a square underflows.
pub open spec fn square_adds_something<S: Numerical>(d: Seq<S>, count: nat) -> bool {
    square_sum_prefix(d, count).add_spec(d[count as int].mul_spec(d[count as int])).eq_spec(
        S::zero_spec(),
    ) ==> square_sum_prefix(d, count).eq_spec(S::zero_spec()) && d[count as int].eq_spec(
        S::zero_spec(),
    )
}

/// A vector whose first `count` squares add up to zero is zero in each of
/// its first `count` entries, if each of those squares adds something.
pub proof fn lemma_zero_square_sum<S: Numerical>(d: Seq<S>, count: nat, k: int)
    requires
        count <= d.len(),
        0 <= k < count,
        forall|c: nat| c < count ==> #[trigger] square_adds_something(d, c),
        square_sum_prefix(d, count).eq_spec(S::zero_spec()),
    ensures
        d[k].eq_spec(S::zero_spec()),
    decreases count,
{
    assert(square_adds_something(d, (count - 1) as nat));
    if k < count - 1 {
        lemma_zero_square_sum(d, (count - 1) as nat, k);
    }
}

/// The direction of the reflection by which column `col` is reduced, once
/// the columns before it are.
pub open spec fn direction_at<S: Numerical>(m: Seq<S>, n: nat, col: int) -> Seq<S> {
    reflection_of(subcolumn(hessenberg_columns(m, n, col as nat), n, col)).direction
}

/// A column that the reduction skips, because its reflection has scale
/// zero, holds zero below the subdiagonal in the Hessenberg form, if every
/// square of the reflection's direction adds something.
pub proof fn lemma_hessenberg_form_skipped_column<S: Numerical>(
    m: Seq<S>,
    n: nat,
    col: int,
    i: int,
)
    requires
        m.len() == n * n,
        0 <= col,
        col + 2 <= i < n,
        reflection_of(subcolumn(hessenberg_columns(m, n, col as nat), n, col)).scale.eq_spec(
            S::zero_spec(),
        ),
        forall|c: nat|
            c < n - col - 1 ==> #[trigger] square_adds_something(direction_at(m, n, col), c),
    ensures
        hessenberg_spec(m, n)[cell(n, i, col)].eq_spec(S::zero_spec()),
{
    let before = hessenberg_columns(m, n, col as nat);
    let direction = direction_at(m, n, col);
    lemma_hessenberg_columns_len(m, n, col as nat);
    lemma_hessenberg_columns_keep_column(m, n, (n - 2) as nat, col, i);
    assert(hessenberg_columns(m, n, (col + 1) as nat) == before);
    assert(direction.len() == n - col - 1);
    lemma_zero_square_sum(direction, direction.len(), i - col - 1);
    assert(direction[i - col - 1] == before[cell(n, i, col)]);
}

/// The Hessenberg form is zero below the subdiagonal in every column, if
/// zero equals itself and every square of a skipped column's direction
/// adds something.
pub proof fn lemma_hessenberg_form_is_hessenberg<S: Numerical>(m: Seq<S>, n: nat, col: int, i: int)
    requires
        m.len() == n * n,
        0 <= col,
        col + 2 <= i < n,
        S::zero_spec().eq_spec(S::zero_spec()),
        forall|c: nat|
            c < n - col - 1 ==> #[trigger] square_adds_something(direction_at(m, n, col), c),
    ensures
        hessenberg_spec(m, n)[cell(n, i, col)].eq_spec(S::zero_spec()),
{
    if reflection_of(subcolumn(hessenberg_columns(m, n, col as nat), n, col)).scale.eq_spec(
        S::zero_spec(),
    ) {
        lemma_hessenberg_form_skipped_column(m, n, col, i);
    } else {
        lemma_hessenberg_form_zero_below(m, n, col, i);
    }
}

/// The reduction of a column keeps the size of the matrix.
pub proof fn lemma_hessenberg_column_len<S: Numerical>(m: Seq<S>, n: nat, col: int)
    requires
        m.len() == n * n,
    ensures
        hessenberg_column(m, n, col).len() == n * n,
{
    assert(n * n >= 0) by (nonlinear_arith);
}

/// The coefficient `−2·(d0·a + d1·b) / scale` of a reflection of two
/// coordinates.
pub open spec fn pair_factor<S: Numerical>(d0: S, d1: S, a: S, b: S, scale: S) -> S {
    S::from_i32_spec(2).neg_spec().mul_spec(d0.mul_spec(a).add_spec(d1.mul_spec(b))).div_spec(
        scale,
    )
}

/// The diagonal entry of column `col` and the entry below it.
pub open spec fn pair_at<S>(m: Seq<S>, n: nat, col: int) -> Seq<S> {
    seq![m[cell(n, col, col)], m[cell(n, col + 1, col)]]
}

/// A reflection of rows `col` and `col + 1`, applied from the left: the
/// diagonal entry becomes `length`, the entry below it zero, and in every
/// later column the two rows gain a multiple of the direction.
pub open spec fn rotate_rows<S: Numerical>(
    m: Seq<S>,
    n: nat,
    col: int,
    length: S,
    d0: S,
    d1: S,
    scale: S,
) -> Seq<S> {
    table(
        n,
        |i: int, j: int|
            if j == col && i == col {
                length
            } else if j == col && i == col + 1 {
                S::zero_spec()
            } else if j > col && i == col {
                m[cell(n, col, j)].add_spec(
                    pair_factor(d0, d1, m[cell(n, col, j)], m[cell(n, col + 1, j)], scale).mul_spec(
                        d0,
                    ),
                )
            } else if j > col && i == col + 1 {
                m[cell(n, col + 1, j)].add_spec(
                    pair_factor(d0, d1, m[cell(n, col, j)], m[cell(n, col + 1, j)], scale).mul_spec(
                        d1,
                    ),
                )
            } else {
                m[cell(n, i, j)]
            },
    )
}

/// A reflection of columns `k` and `k + 1`, applied from the right: in
/// every row the two columns gain a multiple of the direction.
pub open spec fn rotate_columns<S: Numerical>(
    m: Seq<S>,
    n: nat,
    k: int,
    d0: S,
    d1: S,
    scale: S,
) -> Seq<S> {
    table(
        n,
        |i: int, j: int|
            if j == k {
                m[cell(n, i, k)].add_spec(
                    pair_factor(d0, d1, m[cell(n, i, k)], m[cell(n, i, k + 1)], scale).mul_spec(d0),
                )
            } else if j == k + 1 {
                m[cell(n, i, k + 1)].add_spec(
                    pair_factor(d0, d1, m[cell(n, i, k)], m[cell(n, i, k + 1)], scale).mul_spec(d1),
                )
            } else {
                m[cell(n, i, j)]
            },
    )
}

/// The step of the factorisation at column `col`: the reflection that
/// clears the subdiagonal entry, applied from the left. A reflection of
/// scale zero leaves the matrix as it is.
pub open spec fn factor_column<S: Numerical>(m: Seq<S>, n: nat, col: int) -> Seq<S> {
    let h = reflection_of(pair_at(m, n, col));
    if h.scale.eq_spec(S::zero_spec()) {
        m
    } else {
        rotate_rows(m, n, col, h.length, h.direction[0], h.direction[1], h.scale)
    }
}

/// The matrix after the factorisation steps at its first `count` columns.
/// After all but the last column it is the factor `R` of `A = Q·R`.
pub open spec fn factored<S: Numerical>(m: Seq<S>, n: nat, count: nat) -> Seq<S>
    decreases count,
{
    if count == 0 {
        m
    } else {
        factor_column(factored(m, n, (count - 1) as nat), n, count - 1)
    }
}

/// The reflection that the factorisation of `m` uses at column `col`.
pub open spec fn reflection_at<S: Numerical>(m: Seq<S>, n: nat, col: int) -> Reflection<S> {
    reflection_of(pair_at(factored(m, n, col as nat), n, col))
}

/// The factor `R` with the first `count` reflections of the factorisation
/// applied from the right, those of scale zero left out. After all of them
/// it is the product `R·Q`.
pub open spec fn recombined<S: Numerical>(m: Seq<S>, n: nat, count: nat) -> Seq<S>
    decreases count,
{
    if count == 0 {
        factored(m, n, (n - 1) as nat)
    } else {
        let before = recombined(m, n, (count - 1) as nat);
        let h = reflection_at(m, n, count - 1);
        if h.scale.eq_spec(S::zero_spec()) {
            before
        } else {
            rotate_columns(before, n, count - 1, h.direction[0], h.direction[1], h.scale)
        }
    }
}

/// One QR step on a Hessenberg matrix: `A = Q·R` turned into `R·Q`.
pub open spec fn qr_iteration_spec<S: Numerical>(m: Seq<S>, n: nat) -> Seq<S> {
    recombined(m, n, (n - 1) as nat)
}

/// Every step of a QR iteration keeps the size of the matrix.
pub proof fn lemma_qr_iteration_len<S: Numerical>(m: Seq<S>, n: nat, count: nat)
    requires
        m.len() == n * n,
    ensures
        factored(m, n, count).len() == n * n,
        recombined(m, n, count).len() == n * n,
    decreases count,
{
    assert(n * n >= 0) by (nonlinear_arith);
    if count > 0 {
        lemma_qr_iteration_len(m, n, (count - 1) as nat);
    } else {
        lemma_factored_len(m, n, (n - 1) as nat);
    }
}

/// Every step of the factorisation keeps the size of the matrix.
pub proof fn lemma_factored_len<S: Numerical>(m: Seq<S>, n: nat, count: nat)
    requires
        m.len() == n * n,
    ensures
        factored(m, n, count).len() == n * n,
    decreases count,
{
    assert(n * n >= 0) by (nonlinear_arith);
    if count > 0 {
        lemma_factored_len(m, n, (count - 1) as nat);
    }
}

/// Applies a reflection of rows `col` and `col + 1` from the left, in place.
fn rotate_rows_in_place<S: Numerical>(
    matrix: &mut [S],
    dimension: Index,
    col: Index,
    length: S,
    d0: S,
    d1: S,
    scale: S,
)
    requires
        col + 1 < dimension,
        old(matrix)@.len() == dimension * dimension,
    ensures
        final(matrix)@ == rotate_rows(
            old(matrix)@,
            dimension as nat,
            col as int,
            length,
            d0,
            d1,
            scale,
        ),
{
    let ghost n = dimension as nat;
    let ghost d = dimension as int;
    let ghost m0 = matrix@;
    let ghost target = rotate_rows(m0, n, col as int, length, d0, d1, scale);
    let two = S::from_i32(2);
    assert(matrix@.len() == matrix.len());
    let upper_position = cell_index(dimension, col, col);
    let lower_position = cell_index(dimension, col + 1, col);
    matrix[upper_position] = length;
    matrix[lower_position] = S::zero();
    proof {
        assert(n * n >= 0) by (nonlinear_arith);
        lemma_cell_div_mod(n, col as int, col as int);
        lemma_cell_div_mod(n, col + 1, col as int);
        assert forall|p: int| 0 <= p < n * n implies (#[trigger] matrix@[p]) == (if (p / d == col
            || p / d == col + 1) && p % d < col + 1 {
            target[p]
        } else {
            m0[p]
        }) by {
            lemma_position_is_cell(n, p);
        }
    }
    let mut c: Index = col + 1;
    while c < dimension
        invariant
            col + 1 <= c <= dimension,
            d == dimension,
            n == dimension,
            dimension * dimension <= usize::MAX,
            two == S::from_i32_spec(2),
            m0.len() == n * n,
            matrix@.len() == n * n,
            target.len() == n * n,
            target == rotate_rows(m0, n, col as int, length, d0, d1, scale),
            forall|p: int|
                0 <= p < n * n ==> (#[trigger] matrix@[p]) == (if (p / d == col || p / d == col
                    + 1) && p % d < c {
                    target[p]
                } else {
                    m0[p]
                }),
        decreases dimension - c,
    {
        let upper_position = cell_index(dimension, col, c);
        let lower_position = cell_index(dimension, col + 1, c);
        proof {
            lemma_cell_div_mod(n, col as int, c as int);
            lemma_cell_div_mod(n, col + 1, c as int);
        }
        let a = matrix[upper_position];
        let b = matrix[lower_position];
        let coefficient = two.neg().mul(d0.mul(a).add(d1.mul(b))).div(scale);
        matrix[upper_position] = a.add(coefficient.mul(d0));
        matrix[lower_position] = b.add(coefficient.mul(d1));
        proof {
            assert forall|p: int| 0 <= p < n * n implies (#[trigger] matrix@[p]) == (if (p / d
                == col || p / d == col + 1) && p % d < c + 1 {
                target[p]
            } else {
                m0[p]
            }) by {
                lemma_position_is_cell(n, p);
            }
        }
        c += 1;
    }
    proof {
        assert forall|p: int| 0 <= p < n * n implies matrix@[p] == target[p] by {
            lemma_position_is_cell(n, p);
        }
        assert(matrix@ =~= target);
    }
}

/// Applies a reflection of columns `k` and `k + 1` from the right, in place.
fn rotate_columns_in_place<S: Numerical>(
    matrix: &mut [S],
    dimension: Index,
    k: Index,
    d0: S,
    d1: S,
    scale: S,
)
    requires
        k + 1 < dimension,
        old(matrix)@.len() == dimension * dimension,
    ensures
        final(matrix)@ == rotate_columns(old(matrix)@, dimension as nat, k as int, d0, d1, scale),
{
    let ghost n = dimension as nat;
    let ghost d = dimension as int;
    let ghost m0 = matrix@;
    let ghost target = rotate_columns(m0, n, k as int, d0, d1, scale);
    let two = S::from_i32(2);
    assert(matrix@.len() == matrix.len());
    assert(n * n >= 0) by (nonlinear_arith);
    let mut r: Index = 0;
    while r < dimension
        invariant
            r <= dimension,
            k + 1 < dimension,
            d == dimension,
            n == dimension,
            dimension * dimension <= usize::MAX,
            two == S::from_i32_spec(2),
            m0.len() == n * n,
            matrix@.len() == n * n,
            target.len() == n * n,
            target == rotate_columns(m0, n, k as int, d0, d1, scale),
            forall|p: int|
                0 <= p < n * n ==> (#[trigger] matrix@[p]) == (if p / d < r {
                    target[p]
                } else {
                    m0[p]
                }),
        decreases dimension - r,
    {
        let left_position = cell_index(dimension, r, k);
        let right_position = cell_index(dimension, r, k + 1);
        proof {
            lemma_cell_div_mod(n, r as int, k as int);
            lemma_cell_div_mod(n, r as int, k + 1);
        }
        let a = matrix[left_position];
        let b = matrix[right_position];
        let coefficient = two.neg().mul(d0.mul(a).add(d1.mul(b))).div(scale);
        matrix[left_position] = a.add(coefficient.mul(d0));
        matrix[right_position] = b.add(coefficient.mul(d1));
        proof {
            assert forall|p: int| 0 <= p < n * n implies (#[trigger] matrix@[p]) == (if p / d < r
                + 1 {
                target[p]
            } else {
                m0[p]
            }) by {
                lemma_position_is_cell(n, p);
            }
        }
        r += 1;
    }
    proof {
        assert forall|p: int| 0 <= p < n * n implies matrix@[p] == target[p] by {
            lemma_position_is_cell(n, p);
        }
        assert(matrix@ =~= target);
    }
}

/// One QR step, in place, on a `dimension`-square matrix in Hessenberg
/// form: factors `A = Q·R` by one reflection per subdiagonal entry and
/// replaces `A` by `R·Q`. A reflection of scale zero is skipped in both
/// halves.
pub fn qr_iteration<S: Numerical>(matrix: &mut [S], dimension: Index)
    requires
        dimension >= 1,
        old(matrix)@.len() == dimension * dimension,
    ensures
        final(matrix)@ == qr_iteration_spec(old(matrix)@, dimension as nat),
        final(matrix)@.len() == old(matrix)@.len(),
{
    let ghost n = dimension as nat;
    let ghost m0 = matrix@;
    assert(matrix@.len() == matrix.len());
    let mut reflections: Vec<S> = Vec::new();
    let mut scales: Vec<S> = Vec::new();
    let mut col: Index = 0;
    while col < dimension - 1
        invariant
            col <= dimension - 1,
            dimension >= 1,
            n == dimension,
            dimension * dimension <= usize::MAX,
            m0.len() == n * n,
            matrix@.len() == n * n,
            matrix@ == factored(m0, n, col as nat),
            reflections@.len() == 2 * col,
            scales@.len() == col,
            forall|c: int|
                0 <= c < col ==> {
                    &&& reflections@[2 * c] == (#[trigger] reflection_at(m0, n, c)).direction[0]
                    &&& reflections@[2 * c + 1] == reflection_at(m0, n, c).direction[1]
                    &&& scales@[c] == reflection_at(m0, n, c).scale
                },
        decreases dimension - col,
    {
        let mut work_vector: Vec<S> = Vec::new();
        work_vector.push(matrix[cell_index(dimension, col, col)]);
        work_vector.push(matrix[cell_index(dimension, col + 1, col)]);
        assert(work_vector@ =~= pair_at(matrix@, n, col as int));
        let mut direction = filled(2, S::zero());
        let mut scale = S::zero();
        let length = compute_reflection(
            work_vector.as_slice(),
            direction.as_mut_slice(),
            &mut scale,
        );
        let ghost h = reflection_at(m0, n, col as int);
        assert(direction@ =~= h.direction);
        let d0 = direction[0];
        let d1 = direction[1];
        reflections.push(d0);
        reflections.push(d1);
        scales.push(scale);
        if !scale.eq(S::zero()) {
            rotate_rows_in_place(matrix, dimension, col, length, d0, d1, scale);
        }
        proof {
            lemma_factored_len(m0, n, (col + 1) as nat);
        }
        col += 1;
    }
    let mut k: Index = 0;
    while k < dimension - 1
        invariant
            k <= dimension - 1,
            dimension >= 1,
            n == dimension,
            dimension * dimension <= usize::MAX,
            m0.len() == n * n,
            matrix@.len() == n * n,
            matrix@ == recombined(m0, n, k as nat),
            reflections@.len() == 2 * (dimension - 1),
            scales@.len() == dimension - 1,
            forall|c: int|
                0 <= c < dimension - 1 ==> {
                    &&& reflections@[2 * c] == (#[trigger] reflection_at(m0, n, c)).direction[0]
                    &&& reflections@[2 * c + 1] == reflection_at(m0, n, c).direction[1]
                    &&& scales@[c] == reflection_at(m0, n, c).scale
                },
        decreases dimension - k,
    {
        let scale = scales[k];
        let ghost h = reflection_at(m0, n, k as int);
        assert(scale == h.scale);
        if !scale.eq(S::zero()) {
            let d0 = reflections[2 * k];
            let d1 = reflections[2 * k + 1];
            rotate_columns_in_place(matrix, dimension, k, d0, d1, scale);
        }
        proof {
            lemma_qr_iteration_len(m0, n, (k + 1) as nat);
        }
        k += 1;
    }
}

/// Whether every entry is at most every later one.
pub open spec fn ascending<S: Numerical>(v: Seq<S>) -> bool {
    forall|i: int, j: int| 0 <= i < j < v.len() ==> v[i].total_le_spec(v[j])
}

/// The entries of `values` in ascending order.
pub fn sort_ascending<S: Numerical>(values: &Vec<S>) -> (r: Vec<S>)
    ensures
        ascending(r@),
        r@.to_multiset() == values@.to_multiset(),
        r@.len() == values@.len(),
{
    let mut sorted: Vec<S> = Vec::new();
    let mut taken: Index = 0;
    assert(values@.subrange(0, 0) =~= Seq::<S>::empty());
    while taken < values.len()
        invariant
            taken <= values@.len(),
            ascending(sorted@),
            sorted@.len() == taken,
            sorted@.to_multiset() == values@.subrange(0, taken as int).to_multiset(),
        decreases values@.len() - taken,
    {
        let x = values[taken];
        let mut position: Index = 0;
        while position < sorted.len() && sorted[position].total_le(x)
            invariant
                position <= sorted@.len(),
                forall|j: int| 0 <= j < position ==> sorted@[j].total_le_spec(x),
            decreases sorted@.len() - position,
        {
            position += 1;
        }
        proof {
            let before = sorted@;
            let after = before.insert(position as int, x);
            assert forall|i: int, j: int| 0 <= i < j < after.len() implies after[i].total_le_spec(
                after[j],
            ) by {
                if i == position {
                    // `x` against a later entry, which the entry at `position` precedes.
                    S::total_le_is_total(before[position as int], x);
                    if j - 1 > position {
                        S::total_le_is_transitive(x, before[position as int], before[j - 1]);
                    }
                } else if j == position {
                    assert(before[i].total_le_spec(x));
                } else {
                    let i0 = if i < position { i } else { i - 1 };
                    let j0 = if j < position { j } else { j - 1 };
                    assert(before[i0].total_le_spec(before[j0]));
                }
            }
            to_multiset_insert(before, position as int, x);
            assert(values@.subrange(0, taken + 1) =~= values@.subrange(0, taken as int).push(x));
            vstd::seq_lib::to_multiset_build(values@.subrange(0, taken as int), x);
        }
        sorted.insert(position, x);
        taken += 1;
    }
    assert(values@.subrange(0, taken as int) =~= values@);
    sorted
}

/// The leading block of an `n`-square matrix: without its last row and
/// column.
pub open spec fn leading_block<S>(m: Seq<S>, n: nat) -> Seq<S> {
    table((n - 1) as nat, |i: int, j: int| m[cell(n, i, j)])
}

/// A copy of the leading block of `matrix`.
fn leading_block_of<S: Numerical>(matrix: &Vec<S>, dimension: Index) -> (r: Vec<S>)
    requires
        dimension >= 1,
        matrix@.len() == dimension * dimension,
    ensures
        r@ == leading_block(matrix@, dimension as nat),
        r@.len() == (dimension - 1) * (dimension - 1),
{
    let ghost n = dimension as nat;
    let ghost target = leading_block(matrix@, n);
    let smaller = dimension - 1;
    let ghost s = smaller as nat;
    assert(matrix@.len() == matrix.len());
    assert(s * s >= 0 && s * s <= n * n) by (nonlinear_arith)
        requires
            s + 1 == n,
    ;
    let mut block: Vec<S> = Vec::new();
    let mut r: Index = 0;
    while r < smaller
        invariant
            r <= smaller,
            smaller + 1 == dimension,
            s == smaller,
            n == dimension,
            dimension * dimension <= usize::MAX,
            matrix@.len() == dimension * dimension,
            target == leading_block(matrix@, n),
            target.len() == s * s,
            block@.len() == s * r,
            forall|p: int| 0 <= p < block@.len() ==> block@[p] == target[p],
        decreases smaller - r,
    {
        let mut c: Index = 0;
        while c < smaller
            invariant
                c <= smaller,
                r < smaller,
                smaller + 1 == dimension,
                s == smaller,
                n == dimension,
                dimension * dimension <= usize::MAX,
                matrix@.len() == dimension * dimension,
                target == leading_block(matrix@, n),
                target.len() == s * s,
                block@.len() == s * r + c,
                forall|p: int| 0 <= p < block@.len() ==> block@[p] == target[p],
            decreases smaller - c,
        {
            proof {
                lemma_cell_bounds(s, r as int, c as int);
                lemma_cell_div_mod(s, r as int, c as int);
            }
            block.push(matrix[cell_index(dimension, r, c)]);
            c += 1;
        }
        assert(s * (r + 1) == s * r + s) by (nonlinear_arith);
        r += 1;
    }
    assert(block@ =~= target);
    block
}

/// What one round of the QR algorithm hands to the next.
pub struct Deflation<S> {
    /// The block that is still worked on, stored row after row.
    pub work: Seq<S>,
    /// Number of rows of that block.
    pub dimension: nat,
    /// The eigenvalues found so far, in the order in which they were found.
    pub values: Seq<S>,
}

/// One shifted QR step: the last diagonal entry is subtracted from the
/// diagonal before the step and added back after it.
pub open spec fn qr_sweep<S: Numerical>(m: Seq<S>, n: nat) -> Seq<S> {
    let shift = m[n * n - 1];
    raised_diagonal(qr_iteration_spec(lowered_diagonal(m, n, shift), n), n, shift)
}

/// The eigenvalues in the order in which the next `rounds` rounds find
/// them, or `None` if those rounds do not find them all. A round makes one
/// shifted QR step. If the last subdiagonal entry is then smaller in
/// magnitude than `1e-8`, the last diagonal entry is an eigenvalue and the
/// block loses its last row and column; a block of two rows gives its other
/// diagonal entry as well and ends the iteration.
pub open spec fn qr_run<S: Numerical>(state: Deflation<S>, rounds: nat) -> Option<Seq<S>>
    decreases rounds,
{
    if rounds == 0 {
        None
    } else {
        let n = state.dimension;
        let swept = qr_sweep(state.work, n);
        if swept[n * n - 2].abs_spec().lt_spec(subdiagonal_small_spec::<S>()) {
            let values = state.values.push(swept[n * n - 1]);
            if n == 2 {
                Some(values.push(swept[0]))
            } else {
                qr_run(
                    Deflation { work: leading_block(swept, n), dimension: (n - 1) as nat, values },
                    (rounds - 1) as nat,
                )
            }
        } else {
            qr_run(
                Deflation { work: swept, dimension: n, values: state.values },
                (rounds - 1) as nat,
            )
        }
    }
}

/// The eigenvalues of an `n`-square matrix in the order in which the QR
/// algorithm finds them within `rounds` rounds, starting from the
/// Hessenberg form of the matrix.
pub open spec fn eigenvalues_found<S: Numerical>(matrix: Seq<S>, n: nat, rounds: nat) -> Option<
    Seq<S>,
> {
    qr_run(
        Deflation { work: hessenberg_spec(matrix, n), dimension: n, values: Seq::empty() },
        rounds,
    )
}

/// A result that the QR algorithm finds within some number of rounds is
/// the result within any larger number of rounds.
pub proof fn lemma_qr_run_extends<S: Numerical>(state: Deflation<S>, rounds: nat, more: nat)
    requires
        qr_run(state, rounds) is Some,
        rounds <= more,
    ensures
        qr_run(state, more) == qr_run(state, rounds),
    decreases rounds,
{
    let n = state.dimension;
    let swept = qr_sweep(state.work, n);
    if swept[n * n - 2].abs_spec().lt_spec(subdiagonal_small_spec::<S>()) {
        let values = state.values.push(swept[n * n - 1]);
        if n != 2 {
            lemma_qr_run_extends(
                Deflation { work: leading_block(swept, n), dimension: (n - 1) as nat, values },
                (rounds - 1) as nat,
                (more - 1) as nat,
            );
        }
    } else {
        lemma_qr_run_extends(
            Deflation { work: swept, dimension: n, values: state.values },
            (rounds - 1) as nat,
            (more - 1) as nat,
        );
    }
}

/// Every result of the QR algorithm on a block of `n >= 2` rows holds one
/// eigenvalue for each row, besides the values that were found before.
pub proof fn lemma_qr_run_count<S: Numerical>(state: Deflation<S>, rounds: nat)
    requires
        state.dimension >= 2,
    ensures
        qr_run(state, rounds) matches Some(values) ==> values.len() == state.values.len()
            + state.dimension,
    decreases rounds,
{
    if rounds > 0 {
        let n = state.dimension;
        let swept = qr_sweep(state.work, n);
        if swept[n * n - 2].abs_spec().lt_spec(subdiagonal_small_spec::<S>()) {
            let values = state.values.push(swept[n * n - 1]);
            if n != 2 {
                lemma_qr_run_count(
                    Deflation { work: leading_block(swept, n), dimension: (n - 1) as nat, values },
                    (rounds - 1) as nat,
                );
            }
        } else {
            lemma_qr_run_count(
                Deflation { work: swept, dimension: n, values: state.values },
                (rounds - 1) as nat,
            );
        }
    }
}

/// Whether a shifted QR step leaves the last subdiagonal entry of the
/// block too large for the last diagonal entry to count as an eigenvalue.
pub open spec fn stays_coupled<S: Numerical>(work: Seq<S>, n: nat) -> bool {
    !qr_sweep(work, n)[n * n - 2].abs_spec().lt_spec(subdiagonal_small_spec::<S>())
}

/// The QR algorithm does not end on a block that two shifted QR steps
/// bring back to itself without uncoupling its last row, whatever the
/// number of rounds: so it is with a block that one step leaves as it is,
/// and with a rotation, which one step turns into its inverse.
pub proof fn lemma_qr_run_on_a_cycle<S: Numerical>(state: Deflation<S>, rounds: nat)
    requires
        qr_sweep(qr_sweep(state.work, state.dimension), state.dimension) == state.work,
        stays_coupled(state.work, state.dimension),
        stays_coupled(qr_sweep(state.work, state.dimension), state.dimension),
    ensures
        qr_run(state, rounds) is None,
    decreases rounds,
{
    if rounds > 0 {
        let n = state.dimension;
        let next = Deflation { work: qr_sweep(state.work, n), dimension: n, values: state.values };
        lemma_qr_run_on_a_cycle(next, (rounds - 1) as nat);
    }
}

/// Whether `result` is what the QR algorithm returns for the given matrix
/// within `rounds` rounds: all `n` eigenvalues that were found, in
/// ascending order, or nothing if they were not all found.
pub open spec fn is_qr_result<S: Numerical>(
    matrix: Seq<S>,
    n: nat,
    rounds: nat,
    result: Option<Vec<S>>,
) -> bool {
    match eigenvalues_found(matrix, n, rounds) {
        Some(found) => result matches Some(values) && ascending(values@) && values@.to_multiset()
            == found.to_multiset() && values@.len() == n,
        None => result is None,
    }
}

/// The QR algorithm with a bound on the number of rounds.
///
/// Works on a copy of `matrix`, which it first reduces to Hessenberg form.
/// Returns `None` when the first `max_iterations` rounds do not deflate the
/// matrix down to its last two rows.
pub fn qr_algorithm_with_cap<S: Numerical>(
    matrix: &[S],
    dimension: Index,
    max_iterations: Index,
) -> (r: Option<Vec<S>>)
    requires
        dimension >= 2,
        matrix@.len() == dimension * dimension,
    ensures
        is_qr_result(matrix@, dimension as nat, max_iterations as nat, r),
{
    let ghost n = dimension as nat;
    let mut work_matrix = slice_to_vec(matrix);
    let mut work_dimension = dimension;
    let mut values: Vec<S> = Vec::new();
    hessenberg_form(work_matrix.as_mut_slice(), dimension);
    let small = subdiagonal_small::<S>();
    let mut round: Index = 0;
    while round < max_iterations
        invariant
            round <= max_iterations,
            n == dimension,
            2 <= work_dimension <= dimension,
            work_matrix@.len() == work_dimension * work_dimension,
            values@.len() + work_dimension == dimension,
            small == subdiagonal_small_spec::<S>(),
            eigenvalues_found(matrix@, n, max_iterations as nat) == qr_run(
                Deflation {
                    work: work_matrix@,
                    dimension: work_dimension as nat,
                    values: values@,
                },
                (max_iterations - round) as nat,
            ),
        decreases max_iterations - round,
    {
        assert(work_matrix@.len() == work_matrix.len());
        assert(work_dimension * work_dimension >= 4) by (nonlinear_arith)
            requires
                work_dimension >= 2,
        ;
        let last = work_dimension * work_dimension - 1;
        let shift = work_matrix[last];
        let ghost before = work_matrix@;
        lower_diagonal(work_matrix.as_mut_slice(), work_dimension, shift);
        proof {
            assert(work_dimension * work_dimension >= 0) by (nonlinear_arith);
        }
        qr_iteration(work_matrix.as_mut_slice(), work_dimension);
        raise_diagonal(work_matrix.as_mut_slice(), work_dimension, shift);
        assert(work_matrix@ == qr_sweep(before, work_dimension as nat));
        if work_matrix[last - 1].abs_trait().lt(small) {
            values.push(work_matrix[last]);
            if work_dimension == 2 {
                values.push(work_matrix[0]);
                let sorted = sort_ascending(&values);
                return Some(sorted);
            }
            work_matrix = leading_block_of(&work_matrix, work_dimension);
            work_dimension -= 1;
        }
        round += 1;
    }
    None
}

/// The QR algorithm: all eigenvalues of the `dimension`-square `matrix`,
/// in ascending order. Returns `None` when they have not all been found
/// after `MAX_ITERATIONS` rounds.
pub fn qr_algorithm<S: Numerical>(matrix: &[S], dimension: Index) -> (r: Option<Vec<S>>)
    requires
        dimension >= 2,
        matrix@.len() == dimension * dimension,
    ensures
        is_qr_result(matrix@, dimension as nat, MAX_ITERATIONS as nat, r),
{
    qr_algorithm_with_cap(matrix, dimension, MAX_ITERATIONS)
}

} // verus!
