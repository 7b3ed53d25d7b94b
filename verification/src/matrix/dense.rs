//! Dense storage of a square matrix.

use vstd::prelude::*;
use crate::scalar::Index;
use super::traits::{MatrixFuncInitializer, MatrixMutRef, MatrixRef};
use super::transpose::MatrixTranspose;

verus! {

/// Position of entry `(row, column)` in column-major storage.
pub open spec fn column_major(dimension: nat, row: int, column: int) -> int {
    row + column * dimension
}

/// Every entry of a `dimension`-square matrix has its own position below
/// `dimension * dimension`.
pub proof fn lemma_column_major_bounds(dimension: nat, row: int, column: int)
    requires
        0 <= row < dimension,
        0 <= column < dimension,
    ensures
        0 <= column * dimension,
        column * dimension + dimension <= dimension * dimension,
        0 <= column_major(dimension, row, column) < dimension * dimension,
{
    assert(0 <= column * dimension && column * dimension + dimension <= dimension * dimension)
        by (nonlinear_arith)
        requires
            0 <= column < dimension,
    ;
}

/// Two entries share a position only if they are the same entry.
pub proof fn lemma_column_major_injective(dimension: nat, r1: int, c1: int, r2: int, c2: int)
    requires
        0 <= r1 < dimension,
        0 <= c1 < dimension,
        0 <= r2 < dimension,
        0 <= c2 < dimension,
        column_major(dimension, r1, c1) == column_major(dimension, r2, c2),
    ensures
        r1 == r2,
        c1 == c2,
{
    assert(c1 == c2) by (nonlinear_arith)
        requires
            0 <= r1 < dimension,
            0 <= r2 < dimension,
            r1 + c1 * dimension == r2 + c2 * dimension,
    ;
}

/// A dense matrix stored column after column.
#[derive(Clone, Debug)]
pub struct DenseColMatrix<Scalar> {
    data: Vec<Scalar>,
    dimension: Index,
}

impl<Scalar> DenseColMatrix<Scalar> {
    /// The stored entries, column after column.
    pub closed spec fn data(&self) -> Seq<Scalar> {
        self.data@
    }

    /// The stored dimension.
    pub closed spec fn stored_dimension(&self) -> Index {
        self.dimension
    }

    fn data_index(&self, row: Index, column: Index) -> (r: Index)
        requires
            self.data().len() == self.stored_dimension() * self.stored_dimension(),
            row < self.stored_dimension(),
            column < self.stored_dimension(),
        ensures
            r == column_major(self.stored_dimension() as nat, row as int, column as int),
            r < self.data().len(),
    {
        proof {
            lemma_column_major_bounds(self.dimension as nat, row as int, column as int);
            assert(self.data@.len() == self.data.len());
        }
        row + column * self.dimension
    }

    /// A matrix of the given dimension over `data`, which lists the entries
    /// column after column.
    pub fn new(dimension: Index, data: Vec<Scalar>) -> (r: Self)
        ensures
            r.data() == data@,
            r.stored_dimension() == dimension,
    {
        Self { dimension, data }
    }
}

impl<Scalar: Copy> MatrixRef for DenseColMatrix<Scalar> {
    type Scalar = Scalar;

    /// There are exactly `dimension * dimension` stored entries.
    open spec fn valid(&self) -> bool {
        self.data().len() == self.stored_dimension() * self.stored_dimension()
    }

    open spec fn dimension_spec(&self) -> nat {
        self.stored_dimension() as nat
    }

    open spec fn at_spec(&self, row: int, column: int) -> Scalar {
        self.data()[column_major(self.stored_dimension() as nat, row, column)]
    }

    fn dimension(&self) -> (r: Index) {
        self.dimension
    }

    fn at(&self, row: Index, column: Index) -> (r: Scalar) {
        self.data[self.data_index(row, column)]
    }
}

impl<Scalar: Copy> MatrixMutRef for DenseColMatrix<Scalar> {
    fn at_mut(&mut self, row: Index, column: Index) -> (r: &mut Scalar) {
        let data_index = self.data_index(row, column);
        proof {
            assert forall|i: int, j: int|
                0 <= i < self.dimension && 0 <= j < self.dimension && !(i == row && j
                    == column) implies 0 <= #[trigger] column_major(self.dimension as nat, i, j)
                < self.data@.len() && column_major(self.dimension as nat, i, j) != data_index by {
                lemma_column_major_bounds(self.dimension as nat, i, j);
                if column_major(self.dimension as nat, i, j) == data_index {
                    lemma_column_major_injective(
                        self.dimension as nat,
                        i,
                        j,
                        row as int,
                        column as int,
                    );
                }
            }
        }
        &mut self.data[data_index]
    }
}

impl<Scalar: Copy> MatrixFuncInitializer for DenseColMatrix<Scalar> {
    fn new_func<F: Fn(Index, Index) -> Scalar>(dimension: Index, fill: F) -> (r: Self) {
        let ghost n = dimension as nat;
        let mut data: Vec<Scalar> = Vec::new();
        let mut column: Index = 0;
        while column < dimension
            invariant
                column <= dimension,
                n == dimension,
                dimension * dimension <= usize::MAX,
                data@.len() == column * dimension,
                forall|i: Index, j: Index|
                    i < dimension && j < dimension ==> call_requires(fill, (i, j)),
                forall|i: Index, j: Index|
                    i < dimension && j < column ==> call_ensures(
                        fill,
                        (i, j),
                        data@[#[trigger] column_major(n, i as int, j as int)],
                    ),
            decreases dimension - column,
        {
            let mut row: Index = 0;
            while row < dimension
                invariant
                    row <= dimension,
                    column < dimension,
                    n == dimension,
                    dimension * dimension <= usize::MAX,
                    data@.len() == column * dimension + row,
                    forall|i: Index, j: Index|
                        i < dimension && j < dimension ==> call_requires(fill, (i, j)),
                    forall|i: Index, j: Index|
                        i < dimension && (j < column || (j == column && i < row)) ==> call_ensures(
                            fill,
                            (i, j),
                            data@[#[trigger] column_major(n, i as int, j as int)],
                        ),
                decreases dimension - row,
            {
                let value = fill(row, column);
                let ghost before = data@;
                data.push(value);
                proof {
                    assert forall|i: Index, j: Index|
                        i < dimension && (j < column || (j == column && i < row + 1)) implies call_ensures(
                        fill,
                        (i, j),
                        data@[#[trigger] column_major(n, i as int, j as int)],
                    ) by {
                        lemma_column_major_bounds(n, i as int, j as int);
                        if j < column {
                            assert(j * n + n <= column * n) by (nonlinear_arith)
                                requires
                                    0 <= j < column,
                                    n >= 0,
                            ;
                            assert(data@[column_major(n, i as int, j as int)]
                                == before[column_major(n, i as int, j as int)]);
                        } else if i < row {
                            assert(data@[column_major(n, i as int, j as int)]
                                == before[column_major(n, i as int, j as int)]);
                        }
                    }
                }
                row += 1;
            }
            assert((column + 1) * dimension == column * dimension + dimension)
                by (nonlinear_arith);
            column += 1;
        }
        DenseColMatrix::new(dimension, data)
    }
}

/// A dense matrix stored row after row.
pub type DenseRowMatrix<Scalar> = MatrixTranspose<DenseColMatrix<Scalar>>;

impl<Scalar> DenseRowMatrix<Scalar> {
    /// A matrix of the given dimension over `data`, which lists the entries
    /// row after row.
    pub fn new(dimension: Index, data: Vec<Scalar>) -> (r: Self)
        ensures
            r.matrix().data() == data@,
            r.matrix().stored_dimension() == dimension,
    {
        Self::from(DenseColMatrix::new(dimension, data))
    }
}

} // verus!
