//! Row-major storage of a square matrix in one flat buffer.

use vstd::prelude::*;
use vstd::arithmetic::div_mod::lemma_fundamental_div_mod_converse;
use crate::scalar::Index;

verus! {

/// Position of entry `(row, column)` of a `dimension`-square matrix.
pub open spec fn cell(dimension: nat, row: int, column: int) -> int {
    dimension * row + column
}

/// Row `row` of a matrix, as a sequence of its own.
pub open spec fn row_of<S>(matrix: Seq<S>, dimension: nat, row: int) -> Seq<S> {
    matrix.subrange(cell(dimension, row, 0), cell(dimension, row, 0) + dimension)
}

/// Column `column` of a matrix, as a sequence of its own.
pub open spec fn column_of<S>(matrix: Seq<S>, dimension: nat, column: int) -> Seq<S> {
    Seq::new(dimension, |row: int| matrix[cell(dimension, row, column)])
}

/// The flat buffer whose entry `(row, column)` is `entry(row, column)`.
pub open spec fn table<S>(dimension: nat, entry: spec_fn(int, int) -> S) -> Seq<S> {
    Seq::new(
        dimension * dimension,
        |position: int| entry(position / (dimension as int), position % (dimension as int)),
    )
}

/// Every entry has a position of its own inside the buffer, and a row is a
/// contiguous part of it.
pub proof fn lemma_cell_bounds(dimension: nat, row: int, column: int)
    requires
        0 <= row < dimension,
        0 <= column < dimension,
    ensures
        0 <= dimension * row,
        dimension * row + dimension <= dimension * dimension,
        0 <= cell(dimension, row, column) < dimension * dimension,
{
    assert(0 <= dimension * row && dimension * row + dimension <= dimension * dimension)
        by (nonlinear_arith)
        requires
            0 <= row < dimension,
    ;
}

/// A position determines its row and its column.
pub proof fn lemma_cell_div_mod(dimension: nat, row: int, column: int)
    requires
        0 <= row < dimension,
        0 <= column < dimension,
    ensures
        cell(dimension, row, column) / (dimension as int) == row,
        cell(dimension, row, column) % (dimension as int) == column,
{
    assert(dimension * row == row * dimension) by (nonlinear_arith);
    lemma_fundamental_div_mod_converse(
        cell(dimension, row, column),
        dimension as int,
        row,
        column,
    );
}

/// Every position inside the buffer is the position of one entry.
pub proof fn lemma_position_is_cell(dimension: nat, position: int)
    requires
        0 <= position < dimension * dimension,
    ensures
        0 <= position / (dimension as int) < dimension,
        0 <= position % (dimension as int) < dimension,
        cell(dimension, position / (dimension as int), position % (dimension as int)) == position,
{
    let d = dimension as int;
    assert(d > 0) by (nonlinear_arith)
        requires
            0 <= d,
            0 <= position < d * d,
    ;
    vstd::arithmetic::div_mod::lemma_fundamental_div_mod(position, d);
    vstd::arithmetic::div_mod::lemma_mod_bound(position, d);
    let q = position / d;
    assert(0 <= q < d) by (nonlinear_arith)
        requires
            0 <= position < d * d,
            position == d * q + position % d,
            0 <= position % d < d,
            d > 0,
    ;
}

/// Position of entry `(row, column)`, computed without overflow.
pub fn cell_index(dimension: Index, row: Index, column: Index) -> (r: Index)
    requires
        row < dimension,
        column < dimension,
        dimension * dimension <= usize::MAX,
    ensures
        r == cell(dimension as nat, row as int, column as int),
        r < dimension * dimension,
{
    proof {
        lemma_cell_bounds(dimension as nat, row as int, column as int);
    }
    dimension * row + column
}

/// Position at which row `row` begins, computed without overflow.
pub fn row_start(dimension: Index, row: Index) -> (r: Index)
    requires
        row < dimension,
        dimension * dimension <= usize::MAX,
    ensures
        r == cell(dimension as nat, row as int, 0),
        r + dimension <= dimension * dimension,
{
    proof {
        lemma_cell_bounds(dimension as nat, row as int, 0);
    }
    dimension * row
}

/// A vector of `count` copies of `value`.
pub fn filled<T: Copy>(count: Index, value: T) -> (r: Vec<T>)
    ensures
        r@ == Seq::new(count as nat, |i: int| value),
{
    let mut v: Vec<T> = Vec::new();
    let mut i: Index = 0;
    while i < count
        invariant
            i <= count,
            v@ == Seq::new(i as nat, |j: int| value),
        decreases count - i,
    {
        v.push(value);
        assert(v@ =~= Seq::new((i + 1) as nat, |j: int| value));
        i += 1;
    }
    v
}

} // verus!
