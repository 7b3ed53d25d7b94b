//! A matrix read through a permutation of its rows.

use vstd::prelude::*;
use crate::scalar::Index;
use super::permutation::Permutation;
use super::traits::{MatrixMutRef, MatrixRef};

verus! {

/// Presents row `permute(i)` of the matrix as row `i`, without copying.
#[derive(Clone, Debug)]
pub struct RowPermutedMatrix<Matrix, Perm> {
    matrix: Matrix,
    row_permutation: Perm,
}

impl<Matrix, Perm> RowPermutedMatrix<Matrix, Perm> {
    /// The matrix underneath.
    pub closed spec fn matrix(&self) -> Matrix {
        self.matrix
    }

    /// The permutation applied to row indices.
    pub closed spec fn row_permutation(&self) -> Perm {
        self.row_permutation
    }

    /// The matrix whose row `i` is row `row_permutation.permute(i)` of
    /// `matrix`.
    pub fn new(matrix: Matrix, row_permutation: Perm) -> (r: RowPermutedMatrix<Matrix, Perm>)
        ensures
            r.matrix() == matrix,
            r.row_permutation() == row_permutation,
    {
        RowPermutedMatrix { matrix, row_permutation }
    }
}

impl<Matrix, Perm> MatrixRef for RowPermutedMatrix<Matrix, Perm> where
    Matrix: MatrixRef,
    Perm: Permutation,
 {
    type Scalar = Matrix::Scalar;

    /// The matrix is valid and the permutation sends the row indices to row
    /// indices, no two of them to the same.
    open spec fn valid(&self) -> bool {
        &&& self.matrix().valid()
        &&& forall|row: int|
            0 <= row < self.matrix().dimension_spec() ==> #[trigger] self.row_permutation().accepts(
                row,
            ) && 0 <= self.row_permutation().permute_spec(row) < self.matrix().dimension_spec()
        &&& forall|r1: int, r2: int|
            0 <= r1 < self.matrix().dimension_spec() && 0 <= r2 < self.matrix().dimension_spec()
                && #[trigger] self.row_permutation().permute_spec(r1)
                == #[trigger] self.row_permutation().permute_spec(r2) ==> r1 == r2
    }

    open spec fn dimension_spec(&self) -> nat {
        self.matrix().dimension_spec()
    }

    open spec fn at_spec(&self, row: int, column: int) -> Matrix::Scalar {
        self.matrix().at_spec(self.row_permutation().permute_spec(row), column)
    }

    fn dimension(&self) -> (r: Index) {
        self.matrix.dimension()
    }

    fn at(&self, row: Index, column: Index) -> (r: Matrix::Scalar) {
        assert(self.row_permutation().accepts(row as int));
        self.matrix.at(self.row_permutation.permute(row), column)
    }
}

impl<Matrix, Perm> MatrixMutRef for RowPermutedMatrix<Matrix, Perm> where
    Matrix: MatrixMutRef,
    Perm: Permutation,
 {
    fn at_mut(&mut self, row: Index, column: Index) -> (r: &mut Matrix::Scalar) {
        assert(self.row_permutation().accepts(row as int));
        let permuted = self.row_permutation.permute(row);
        let ghost permutation = self.row_permutation;
        let ghost n = self.matrix.dimension_spec();
        proof {
            assert forall|other: int| 0 <= other < n implies 0 <= (
            #[trigger] permutation.permute_spec(other)) < n && (other != row
                ==> permutation.permute_spec(other) != permuted) by {
                assert(permutation.accepts(other));
                if permutation.permute_spec(other) == permutation.permute_spec(row as int) {
                    assert(other == row);
                }
            }
        }
        self.matrix.at_mut(permuted, column)
    }
}

} // verus!
