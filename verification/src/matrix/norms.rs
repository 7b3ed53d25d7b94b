//! The one-norm and the maximum norm of columns and matrices.

use vstd::prelude::*;
use crate::scalar::{Index, Numerical, OtherNumericalOps};
use crate::vector::{abs_max_prefix, abs_sum_prefix, larger};
use super::column::{column_entries, ColumnRef};
use super::traits::MatrixRef;

verus! {

/// The magnitudes of the first `count` entries of a column, added up from
/// zero in the order of the indices.
pub open spec fn abs_sum<C: ColumnRef>(column: &C, count: nat) -> C::Scalar where
    C::Scalar: Numerical,
 {
    abs_sum_prefix(column_entries(column), count)
}

/// The largest magnitude among the first `count` entries of a column,
/// found from zero in the order of the indices.
pub open spec fn abs_max<C: ColumnRef>(column: &C, count: nat) -> C::Scalar where
    C::Scalar: Numerical,
 {
    abs_max_prefix(column_entries(column), count)
}

/// Norms of a column.
pub trait NormedColumn: ColumnRef + Sized where Self::Scalar: Numerical {
    /// The sum of the magnitudes of all entries.
    fn norm_one(&self) -> (r: Self::Scalar)
        requires
            self.valid(),
        ensures
            r == abs_sum(self, self.dimension_spec()),
    ;

    /// The largest magnitude of an entry.
    fn norm_inf(&self) -> (r: Self::Scalar)
        requires
            self.valid(),
        ensures
            r == abs_max(self, self.dimension_spec()),
    ;
}

impl<T> NormedColumn for T where T: ColumnRef, T::Scalar: Numerical {
    fn norm_one(&self) -> (r: Self::Scalar) {
        let dimension = self.dimension();
        let mut sum = Self::Scalar::zero();
        let mut i: Index = 0;
        while i < dimension
            invariant
                self.valid(),
                dimension == self.dimension_spec(),
                i <= dimension,
                sum == abs_sum(self, i as nat),
            decreases dimension - i,
        {
            sum = sum.add(self.at(i).abs_trait());
            i += 1;
        }
        sum
    }

    fn norm_inf(&self) -> (r: Self::Scalar) {
        let dimension = self.dimension();
        let mut best = Self::Scalar::zero();
        let mut i: Index = 0;
        while i < dimension
            invariant
                self.valid(),
                dimension == self.dimension_spec(),
                i <= dimension,
                best == abs_max(self, i as nat),
            decreases dimension - i,
        {
            let m = self.at(i).abs_trait();
            if m.lt(best) {
            } else {
                best = m;
            }
            i += 1;
        }
        best
    }
}

/// The magnitudes of the first `count` entries of column `column`, added
/// up from zero in the order of the rows.
pub open spec fn column_abs_sum<M: MatrixRef>(matrix: &M, column: int, count: nat) -> M::Scalar where
    M::Scalar: Numerical,

    decreases count,
{
    if count == 0 {
        M::Scalar::zero_spec()
    } else {
        column_abs_sum(matrix, column, (count - 1) as nat).add_spec(
            matrix.at_spec(count - 1, column).abs_spec(),
        )
    }
}

/// The magnitudes of the first `count` entries of row `row`, added up from
/// zero in the order of the columns.
pub open spec fn row_abs_sum<M: MatrixRef>(matrix: &M, row: int, count: nat) -> M::Scalar where
    M::Scalar: Numerical,

    decreases count,
{
    if count == 0 {
        M::Scalar::zero_spec()
    } else {
        row_abs_sum(matrix, row, (count - 1) as nat).add_spec(
            matrix.at_spec(row, count - 1).abs_spec(),
        )
    }
}

/// The largest column sum among the first `count` columns, found from zero
/// in the order of the columns.
pub open spec fn largest_column_sum<M: MatrixRef>(matrix: &M, count: nat) -> M::Scalar where
    M::Scalar: Numerical,

    decreases count,
{
    if count == 0 {
        M::Scalar::zero_spec()
    } else {
        larger(
            largest_column_sum(matrix, (count - 1) as nat),
            column_abs_sum(matrix, count - 1, matrix.dimension_spec()),
        )
    }
}

/// The largest row sum among the first `count` rows, found from zero in
/// the order of the rows.
pub open spec fn largest_row_sum<M: MatrixRef>(matrix: &M, count: nat) -> M::Scalar where
    M::Scalar: Numerical,

    decreases count,
{
    if count == 0 {
        M::Scalar::zero_spec()
    } else {
        larger(
            largest_row_sum(matrix, (count - 1) as nat),
            row_abs_sum(matrix, count - 1, matrix.dimension_spec()),
        )
    }
}

/// Norms of a matrix.
pub trait NormedMatrix: MatrixRef + Sized where Self::Scalar: Numerical {
    /// The largest sum of the magnitudes of a column.
    fn norm_one(&self) -> (r: Self::Scalar)
        requires
            self.valid(),
        ensures
            r == largest_column_sum(self, self.dimension_spec()),
    ;

    /// The largest sum of the magnitudes of a row.
    fn norm_inf(&self) -> (r: Self::Scalar)
        requires
            self.valid(),
        ensures
            r == largest_row_sum(self, self.dimension_spec()),
    ;
}

impl<T> NormedMatrix for T where T: MatrixRef, T::Scalar: Numerical {
    fn norm_one(&self) -> (r: Self::Scalar) {
        let dimension = self.dimension();
        let mut best = Self::Scalar::zero();
        let mut j: Index = 0;
        while j < dimension
            invariant
                self.valid(),
                dimension == self.dimension_spec(),
                j <= dimension,
                best == largest_column_sum(self, j as nat),
            decreases dimension - j,
        {
            let mut sum = Self::Scalar::zero();
            let mut i: Index = 0;
            while i < dimension
                invariant
                    self.valid(),
                    dimension == self.dimension_spec(),
                    j < dimension,
                    i <= dimension,
                    sum == column_abs_sum(self, j as int, i as nat),
                decreases dimension - i,
            {
                sum = sum.add(self.at(i, j).abs_trait());
                i += 1;
            }
            if sum.lt(best) {
            } else {
                best = sum;
            }
            j += 1;
        }
        best
    }

    fn norm_inf(&self) -> (r: Self::Scalar) {
        let dimension = self.dimension();
        let mut best = Self::Scalar::zero();
        let mut i: Index = 0;
        while i < dimension
            invariant
                self.valid(),
                dimension == self.dimension_spec(),
                i <= dimension,
                best == largest_row_sum(self, i as nat),
            decreases dimension - i,
        {
            let mut sum = Self::Scalar::zero();
            let mut j: Index = 0;
            while j < dimension
                invariant
                    self.valid(),
                    dimension == self.dimension_spec(),
                    i < dimension,
                    j <= dimension,
                    sum == row_abs_sum(self, i as int, j as nat),
                decreases dimension - j,
            {
                sum = sum.add(self.at(i, j).abs_trait());
                j += 1;
            }
            if sum.lt(best) {
            } else {
                best = sum;
            }
            i += 1;
        }
        best
    }
}

} // verus!
