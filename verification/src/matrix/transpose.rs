//! A matrix read with rows and columns exchanged.

use vstd::prelude::*;
use crate::scalar::Index;
use crate::matrix::column::{column_entries, dot, ColumnOf};
use crate::function::{accepts2, gives2};
use crate::lu::dot_prefix;
use crate::representation::repr_ref;
use crate::scalar::Numerical;
use super::traits::{MatrixFuncInitializer, MatrixMutRef, MatrixRef};

verus! {

/// Presents entry `(j, i)` of the matrix as entry `(i, j)`, without copying.
#[derive(Clone, Debug)]
pub struct MatrixTranspose<Matrix> {
    matrix: Matrix,
}

impl<Matrix> MatrixTranspose<Matrix> {
    /// The matrix underneath.
    pub closed spec fn matrix(&self) -> Matrix {
        self.matrix
    }

    /// The transpose of `matrix`.
    pub fn from(matrix: Matrix) -> (r: Self)
        ensures
            r.matrix() == matrix,
    {
        MatrixTranspose { matrix }
    }
}

impl<Matrix> MatrixRef for MatrixTranspose<Matrix> where Matrix: MatrixRef {
    type Scalar = Matrix::Scalar;

    open spec fn valid(&self) -> bool {
        self.matrix().valid()
    }

    open spec fn dimension_spec(&self) -> nat {
        self.matrix().dimension_spec()
    }

    open spec fn at_spec(&self, row: int, column: int) -> Matrix::Scalar {
        self.matrix().at_spec(column, row)
    }

    fn dimension(&self) -> (r: Index) {
        self.matrix.dimension()
    }

    fn at(&self, row: Index, column: Index) -> (r: Matrix::Scalar) {
        self.matrix.at(column, row)
    }
}

impl<Matrix> MatrixMutRef for MatrixTranspose<Matrix> where Matrix: MatrixMutRef {
    fn at_mut(&mut self, row: Index, column: Index) -> (r: &mut Matrix::Scalar) {
        self.matrix.at_mut(column, row)
    }
}

impl<Matrix> MatrixFuncInitializer for MatrixTranspose<Matrix> where Matrix: MatrixFuncInitializer {
    fn new_func<F: Fn(Index, Index) -> Matrix::Scalar>(dimension: Index, fill: F) -> (r: Self) {
        let fill_ref = &fill;
        let exchanged = |row: Index, column: Index| -> (v: Matrix::Scalar)
            requires
                accepts2(fill_ref, column, row),
            ensures
                gives2(fill_ref, column, row, v),
            { fill_ref(column, row) };
        let inner = Matrix::new_func(dimension, exchanged);
        proof {
            assert forall|i: Index, j: Index| i < dimension && j < dimension implies call_ensures(
                fill,
                (i, j),
                #[trigger] inner.at_spec(j as int, i as int),
            ) by {
                assert(call_ensures(exchanged, (j, i), inner.at_spec(j as int, i as int)));
            }
        }
        Self::from(inner)
    }
}

/// Column `column` of a matrix, from the first row down.
pub open spec fn column_entries_of<M: MatrixRef>(matrix: &M, column: int) -> Seq<M::Scalar> {
    Seq::new(matrix.dimension_spec(), |k: int| matrix.at_spec(k, column))
}

/// The product of the transpose of a matrix with the matrix.
pub trait MatrixSymmetricSquare: MatrixRef + Sized where Self::Scalar: Numerical {
    /// The matrix whose entry `(i, j)` is the dot product of columns `i`
    /// and `j`.
    fn symmetric_square<OutMatrix>(&self) -> (r: OutMatrix) where
        OutMatrix: MatrixFuncInitializer + MatrixRef<Scalar = Self::Scalar>,

        requires
            self.valid(),
            self.dimension_spec() * self.dimension_spec() <= usize::MAX,
        ensures
            r.valid(),
            r.dimension_spec() == self.dimension_spec(),
            forall|i: int, j: int|
                0 <= i < self.dimension_spec() && 0 <= j < self.dimension_spec()
                    ==> #[trigger] r.at_spec(i, j) == dot_prefix(
                    column_entries_of(self, i),
                    column_entries_of(self, j),
                    self.dimension_spec(),
                ),
    ;
}

impl<T> MatrixSymmetricSquare for T where T: MatrixRef, T::Scalar: Numerical {
    fn symmetric_square<OutMatrix>(&self) -> (r: OutMatrix) where
        OutMatrix: MatrixFuncInitializer + MatrixRef<Scalar = Self::Scalar>,
     {
        let dimension = self.dimension();
        let entry = |i: Index, j: Index| -> (v: T::Scalar)
            requires
                i < dimension,
                j < dimension,
            ensures
                v == dot_prefix(
                    column_entries_of(self, i as int),
                    column_entries_of(self, j as int),
                    self.dimension_spec(),
                ),
            {
                let left = ColumnOf::new(repr_ref::<T>(self), i);
                let right = ColumnOf::new(repr_ref::<T>(self), j);
                assert(column_entries(&left) =~= column_entries_of(self, i as int));
                assert(column_entries(&right) =~= column_entries_of(self, j as int));
                dot(&left, &right)
            };
        let r = OutMatrix::new_func(dimension, entry);
        proof {
            assert forall|i: int, j: int| 0 <= i < dimension && 0 <= j < dimension implies #[trigger] r.at_spec(
                i,
                j,
            ) == dot_prefix(
                column_entries_of(self, i),
                column_entries_of(self, j),
                self.dimension_spec(),
            ) by {
                assert(call_ensures(
                    entry,
                    (i as Index, j as Index),
                    r.at_spec(i as Index as int, j as Index as int),
                ));
            }
        }
        r
    }
}

} // verus!
