//! Operations on vectors of scalars that the iterative methods share.

use vstd::prelude::*;
use vstd::slice::slice_subrange;
use crate::layout::{cell, cell_index, row_of, row_start, table};
use crate::layout::{lemma_cell_div_mod, lemma_position_is_cell};
use crate::lu::{dot_product, dot_spec};
use crate::scalar::{Index, Numerical, OtherNumericalOps};

verus! {

/// The magnitudes of the first `count` entries, added up from zero in the
/// order of the indices.
pub open spec fn abs_sum_prefix<S: Numerical>(v: Seq<S>, count: nat) -> S
    decreases count,
{
    if count == 0 {
        S::zero_spec()
    } else {
        abs_sum_prefix(v, (count - 1) as nat).add_spec(v[count - 1].abs_spec())
    }
}

/// The running maximum `if v > m { v } else { m }` of two scalars.
pub open spec fn larger<S: Numerical>(v: S, m: S) -> S {
    if m.lt_spec(v) {
        v
    } else {
        m
    }
}

/// The largest magnitude among the first `count` entries, found from zero
/// in the order of the indices.
pub open spec fn abs_max_prefix<S: Numerical>(v: Seq<S>, count: nat) -> S
    decreases count,
{
    if count == 0 {
        S::zero_spec()
    } else {
        larger(abs_max_prefix(v, (count - 1) as nat), v[count - 1].abs_spec())
    }
}

/// The one-norm: the sum of the magnitudes of all entries.
pub open spec fn norm_one_spec<S: Numerical>(v: Seq<S>) -> S {
    abs_sum_prefix(v, v.len())
}

/// Every entry divided by `divisor`.
pub open spec fn scaled<S: Numerical>(v: Seq<S>, divisor: S) -> Seq<S> {
    Seq::new(v.len(), |i: int| v[i].div_spec(divisor))
}

/// The vector divided by its one-norm.
pub open spec fn normalized<S: Numerical>(v: Seq<S>) -> Seq<S> {
    scaled(v, norm_one_spec(v))
}

/// The product of an `n`-square matrix, stored row after row, with a vector.
pub open spec fn apply_spec<S: Numerical>(matrix: Seq<S>, n: nat, v: Seq<S>) -> Seq<S> {
    Seq::new(n, |i: int| dot_spec(row_of(matrix, n, i), v))
}

/// The one-norm of `v`.
pub fn norm_one<S: Numerical>(v: &[S]) -> (r: S)
    ensures
        r == norm_one_spec(v@),
{
    let mut r = S::zero();
    let mut i: Index = 0;
    while i < v.len()
        invariant
            i <= v@.len(),
            r == abs_sum_prefix(v@, i as nat),
        decreases v@.len() - i,
    {
        r = r.add(v[i].abs_trait());
        i += 1;
    }
    r
}

/// A copy of `v` with every entry divided by `divisor`.
pub fn divide_all<S: Numerical>(v: &[S], divisor: S) -> (r: Vec<S>)
    ensures
        r@ == scaled(v@, divisor),
{
    let mut r: Vec<S> = Vec::new();
    let mut i: Index = 0;
    while i < v.len()
        invariant
            i <= v@.len(),
            r@ == Seq::new(i as nat, |j: int| v@[j].div_spec(divisor)),
        decreases v@.len() - i,
    {
        r.push(v[i].div(divisor));
        assert(r@ =~= Seq::new((i + 1) as nat, |j: int| v@[j].div_spec(divisor)));
        i += 1;
    }
    r
}

/// A copy of `v` divided by its one-norm.
pub fn normalize<S: Numerical>(v: &[S]) -> (r: Vec<S>)
    ensures
        r@ == normalized(v@),
{
    let norm = norm_one(v);
    divide_all(v, norm)
}

/// The product of the `dimension`-square `matrix` with `v`.
pub fn apply<S: Numerical>(matrix: &[S], dimension: Index, v: &[S]) -> (r: Vec<S>)
    requires
        matrix@.len() == dimension * dimension,
        v@.len() == dimension,
    ensures
        r@ == apply_spec(matrix@, dimension as nat, v@),
{
    let ghost n = dimension as nat;
    assert(matrix@.len() == matrix.len());
    let mut r: Vec<S> = Vec::new();
    let mut i: Index = 0;
    while i < dimension
        invariant
            i <= dimension,
            n == dimension,
            matrix@.len() == dimension * dimension,
            dimension * dimension <= usize::MAX,
            v@.len() == dimension,
            r@ == Seq::new(i as nat, |j: int| dot_spec(row_of(matrix@, n, j), v@)),
        decreases dimension - i,
    {
        let start = row_start(dimension, i);
        r.push(dot_product(slice_subrange(matrix, start, start + dimension), v));
        assert(r@ =~= Seq::new((i + 1) as nat, |j: int| dot_spec(row_of(matrix@, n, j), v@)));
        i += 1;
    }
    r
}

/// The matrix `A − s·I`: `shift` subtracted from every diagonal entry.
pub open spec fn lowered_diagonal<S: Numerical>(matrix: Seq<S>, n: nat, shift: S) -> Seq<S> {
    table(
        n,
        |i: int, j: int|
            if i == j {
                matrix[cell(n, i, j)].sub_spec(shift)
            } else {
                matrix[cell(n, i, j)]
            },
    )
}

/// The matrix `A + s·I`: `shift` added to every diagonal entry.
pub open spec fn raised_diagonal<S: Numerical>(matrix: Seq<S>, n: nat, shift: S) -> Seq<S> {
    table(
        n,
        |i: int, j: int|
            if i == j {
                matrix[cell(n, i, j)].add_spec(shift)
            } else {
                matrix[cell(n, i, j)]
            },
    )
}

/// The magnitudes of the first `count` entries of column `column` of an
/// `n`-square table, added up from zero in the order of the rows.
pub open spec fn column_abs_sum_prefix<S: Numerical>(t: Seq<S>, n: nat, column: int, count: nat) -> S
    decreases count,
{
    if count == 0 {
        S::zero_spec()
    } else {
        column_abs_sum_prefix(t, n, column, (count - 1) as nat).add_spec(
            t[cell(n, count - 1, column)].abs_spec(),
        )
    }
}

/// The magnitudes of the first `count` entries of row `row` of an
/// `n`-square table, added up from zero in the order of the columns.
pub open spec fn row_abs_sum_prefix<S: Numerical>(t: Seq<S>, n: nat, row: int, count: nat) -> S
    decreases count,
{
    if count == 0 {
        S::zero_spec()
    } else {
        row_abs_sum_prefix(t, n, row, (count - 1) as nat).add_spec(
            t[cell(n, row, count - 1)].abs_spec(),
        )
    }
}

/// The largest column sum among the first `count` columns of an `n`-square
/// table, found from zero in the order of the columns.
pub open spec fn table_norm_one_prefix<S: Numerical>(t: Seq<S>, n: nat, count: nat) -> S
    decreases count,
{
    if count == 0 {
        S::zero_spec()
    } else {
        larger(
            table_norm_one_prefix(t, n, (count - 1) as nat),
            column_abs_sum_prefix(t, n, count - 1, n),
        )
    }
}

/// The largest row sum among the first `count` rows of an `n`-square
/// table, found from zero in the order of the rows.
pub open spec fn table_norm_inf_prefix<S: Numerical>(t: Seq<S>, n: nat, count: nat) -> S
    decreases count,
{
    if count == 0 {
        S::zero_spec()
    } else {
        larger(
            table_norm_inf_prefix(t, n, (count - 1) as nat),
            row_abs_sum_prefix(t, n, count - 1, n),
        )
    }
}

/// The first `count` products of an entry of column `i` with the entry of
/// `v` in the same row, added up from zero.
pub open spec fn column_dot_prefix<S: Numerical>(t: Seq<S>, n: nat, i: int, v: Seq<S>, count: nat) -> S
    decreases count,
{
    if count == 0 {
        S::zero_spec()
    } else {
        column_dot_prefix(t, n, i, v, (count - 1) as nat).add_spec(
            t[cell(n, count - 1, i)].mul_spec(v[count - 1]),
        )
    }
}

/// The product of the transpose of an `n`-square table with a vector.
pub open spec fn transpose_apply_spec<S: Numerical>(t: Seq<S>, n: nat, v: Seq<S>) -> Seq<S> {
    Seq::new(n, |i: int| column_dot_prefix(t, n, i, v, n))
}

/// The first `count` products of an entry of column `i` with the entry of
/// column `j` in the same row, added up from zero.
pub open spec fn columns_dot_prefix<S: Numerical>(t: Seq<S>, n: nat, i: int, j: int, count: nat) -> S
    decreases count,
{
    if count == 0 {
        S::zero_spec()
    } else {
        columns_dot_prefix(t, n, i, j, (count - 1) as nat).add_spec(
            t[cell(n, count - 1, i)].mul_spec(t[cell(n, count - 1, j)]),
        )
    }
}

/// The product of the transpose of an `n`-square table with the table.
pub open spec fn gram_spec<S: Numerical>(t: Seq<S>, n: nat) -> Seq<S> {
    table(n, |i: int, j: int| columns_dot_prefix(t, n, i, j, n))
}

/// The largest sum of the magnitudes of a column of the table.
pub fn table_norm_one<S: Numerical>(t: &[S], dimension: Index) -> (r: S)
    requires
        t@.len() == dimension * dimension,
    ensures
        r == table_norm_one_prefix(t@, dimension as nat, dimension as nat),
{
    let ghost n = dimension as nat;
    assert(t@.len() == t.len());
    let mut best = S::zero();
    let mut j: Index = 0;
    while j < dimension
        invariant
            j <= dimension,
            n == dimension,
            t@.len() == dimension * dimension,
            dimension * dimension <= usize::MAX,
            best == table_norm_one_prefix(t@, n, j as nat),
        decreases dimension - j,
    {
        let mut sum = S::zero();
        let mut i: Index = 0;
        while i < dimension
            invariant
                i <= dimension,
                j < dimension,
                n == dimension,
                t@.len() == dimension * dimension,
                dimension * dimension <= usize::MAX,
                sum == column_abs_sum_prefix(t@, n, j as int, i as nat),
            decreases dimension - i,
        {
            sum = sum.add(t[cell_index(dimension, i, j)].abs_trait());
            i += 1;
        }
        if sum.lt(best) {
        } else {
            best = sum;
        }
        j += 1;
    }
    best
}

/// The largest sum of the magnitudes of a row of the table.
pub fn table_norm_inf<S: Numerical>(t: &[S], dimension: Index) -> (r: S)
    requires
        t@.len() == dimension * dimension,
    ensures
        r == table_norm_inf_prefix(t@, dimension as nat, dimension as nat),
{
    let ghost n = dimension as nat;
    assert(t@.len() == t.len());
    let mut best = S::zero();
    let mut i: Index = 0;
    while i < dimension
        invariant
            i <= dimension,
            n == dimension,
            t@.len() == dimension * dimension,
            dimension * dimension <= usize::MAX,
            best == table_norm_inf_prefix(t@, n, i as nat),
        decreases dimension - i,
    {
        let mut sum = S::zero();
        let mut j: Index = 0;
        while j < dimension
            invariant
                j <= dimension,
                i < dimension,
                n == dimension,
                t@.len() == dimension * dimension,
                dimension * dimension <= usize::MAX,
                sum == row_abs_sum_prefix(t@, n, i as int, j as nat),
            decreases dimension - j,
        {
            sum = sum.add(t[cell_index(dimension, i, j)].abs_trait());
            j += 1;
        }
        if sum.lt(best) {
        } else {
            best = sum;
        }
        i += 1;
    }
    best
}

/// The product of the transpose of the table with `v`.
pub fn transpose_apply<S: Numerical>(t: &[S], dimension: Index, v: &[S]) -> (r: Vec<S>)
    requires
        t@.len() == dimension * dimension,
        v@.len() == dimension,
    ensures
        r@ == transpose_apply_spec(t@, dimension as nat, v@),
{
    let ghost n = dimension as nat;
    assert(t@.len() == t.len());
    let mut r: Vec<S> = Vec::new();
    let mut i: Index = 0;
    while i < dimension
        invariant
            i <= dimension,
            n == dimension,
            t@.len() == dimension * dimension,
            dimension * dimension <= usize::MAX,
            v@.len() == dimension,
            r@ == Seq::new(i as nat, |c: int| column_dot_prefix(t@, n, c, v@, n)),
        decreases dimension - i,
    {
        let mut sum = S::zero();
        let mut k: Index = 0;
        while k < dimension
            invariant
                k <= dimension,
                i < dimension,
                n == dimension,
                t@.len() == dimension * dimension,
                dimension * dimension <= usize::MAX,
                v@.len() == dimension,
                sum == column_dot_prefix(t@, n, i as int, v@, k as nat),
            decreases dimension - k,
        {
            sum = sum.add(t[cell_index(dimension, k, i)].mul(v[k]));
            k += 1;
        }
        r.push(sum);
        assert(r@ =~= Seq::new((i + 1) as nat, |c: int| column_dot_prefix(t@, n, c, v@, n)));
        i += 1;
    }
    r
}

/// The product of the transpose of the table with the table.
pub fn gram<S: Numerical>(t: &[S], dimension: Index) -> (r: Vec<S>)
    requires
        t@.len() == dimension * dimension,
    ensures
        r@ == gram_spec(t@, dimension as nat),
        r@.len() == dimension * dimension,
{
    let ghost n = dimension as nat;
    let ghost target = gram_spec(t@, n);
    assert(t@.len() == t.len());
    assert(n * n >= 0) by (nonlinear_arith);
    let mut r: Vec<S> = Vec::new();
    let mut i: Index = 0;
    while i < dimension
        invariant
            i <= dimension,
            n == dimension,
            t@.len() == dimension * dimension,
            dimension * dimension <= usize::MAX,
            target == gram_spec(t@, n),
            target.len() == n * n,
            r@.len() == dimension * i,
            forall|p: int| 0 <= p < r@.len() ==> r@[p] == target[p],
        decreases dimension - i,
    {
        let mut j: Index = 0;
        while j < dimension
            invariant
                j <= dimension,
                i < dimension,
                n == dimension,
                t@.len() == dimension * dimension,
                dimension * dimension <= usize::MAX,
                target == gram_spec(t@, n),
                target.len() == n * n,
                r@.len() == dimension * i + j,
                forall|p: int| 0 <= p < r@.len() ==> r@[p] == target[p],
            decreases dimension - j,
        {
            let mut sum = S::zero();
            let mut k: Index = 0;
            while k < dimension
                invariant
                    k <= dimension,
                    i < dimension,
                    j < dimension,
                    n == dimension,
                    t@.len() == dimension * dimension,
                    dimension * dimension <= usize::MAX,
                    sum == columns_dot_prefix(t@, n, i as int, j as int, k as nat),
                decreases dimension - k,
            {
                sum = sum.add(t[cell_index(dimension, k, i)].mul(t[cell_index(dimension, k, j)]));
                k += 1;
            }
            proof {
                crate::layout::lemma_cell_bounds(n, i as int, j as int);
                lemma_cell_div_mod(n, i as int, j as int);
            }
            r.push(sum);
            j += 1;
        }
        assert(dimension * (i + 1) == dimension * i + dimension) by (nonlinear_arith);
        i += 1;
    }
    assert(r@ =~= target);
    r
}

/// Subtracts `shift` from every diagonal entry, in place.
pub fn lower_diagonal<S: Numerical>(matrix: &mut [S], dimension: Index, shift: S)
    requires
        old(matrix)@.len() == dimension * dimension,
    ensures
        final(matrix)@ == lowered_diagonal(old(matrix)@, dimension as nat, shift),
{
    let ghost n = dimension as nat;
    let ghost d = dimension as int;
    let ghost m0 = matrix@;
    assert(matrix@.len() == matrix.len());
    let mut k: Index = 0;
    while k < dimension
        invariant
            k <= dimension,
            d == dimension,
            n == dimension,
            dimension * dimension <= usize::MAX,
            m0.len() == n * n,
            matrix@.len() == n * n,
            forall|c: int|
                0 <= c < n * n ==> (#[trigger] matrix@[c]) == (if c / d == c % d && c / d < k {
                    m0[c].sub_spec(shift)
                } else {
                    m0[c]
                }),
        decreases dimension - k,
    {
        let position = cell_index(dimension, k, k);
        proof {
            lemma_cell_div_mod(n, k as int, k as int);
        }
        matrix[position] = matrix[position].sub(shift);
        proof {
            assert forall|c: int| 0 <= c < n * n implies (#[trigger] matrix@[c]) == (if c / d == c
                % d && c / d < k + 1 {
                m0[c].sub_spec(shift)
            } else {
                m0[c]
            }) by {
                lemma_position_is_cell(n, c);
            }
        }
        k += 1;
    }
    proof {
        let target = lowered_diagonal(m0, n, shift);
        assert forall|c: int| 0 <= c < n * n implies matrix@[c] == target[c] by {
            lemma_position_is_cell(n, c);
        }
        assert(matrix@ =~= target);
    }
}

/// Adds `shift` to every diagonal entry, in place.
pub fn raise_diagonal<S: Numerical>(matrix: &mut [S], dimension: Index, shift: S)
    requires
        old(matrix)@.len() == dimension * dimension,
    ensures
        final(matrix)@ == raised_diagonal(old(matrix)@, dimension as nat, shift),
{
    let ghost n = dimension as nat;
    let ghost d = dimension as int;
    let ghost m0 = matrix@;
    assert(matrix@.len() == matrix.len());
    let mut k: Index = 0;
    while k < dimension
        invariant
            k <= dimension,
            d == dimension,
            n == dimension,
            dimension * dimension <= usize::MAX,
            m0.len() == n * n,
            matrix@.len() == n * n,
            forall|c: int|
                0 <= c < n * n ==> (#[trigger] matrix@[c]) == (if c / d == c % d && c / d < k {
                    m0[c].add_spec(shift)
                } else {
                    m0[c]
                }),
        decreases dimension - k,
    {
        let position = cell_index(dimension, k, k);
        proof {
            lemma_cell_div_mod(n, k as int, k as int);
        }
        matrix[position] = matrix[position].add(shift);
        proof {
            assert forall|c: int| 0 <= c < n * n implies (#[trigger] matrix@[c]) == (if c / d == c
                % d && c / d < k + 1 {
                m0[c].add_spec(shift)
            } else {
                m0[c]
            }) by {
                lemma_position_is_cell(n, c);
            }
        }
        k += 1;
    }
    proof {
        let target = raised_diagonal(m0, n, shift);
        assert forall|c: int| 0 <= c < n * n implies matrix@[c] == target[c] by {
            lemma_position_is_cell(n, c);
        }
        assert(matrix@ =~= target);
    }
}

} // verus!
