//! Columns: read and write access to a vector of scalars.

use vstd::prelude::*;
use crate::function::{evaluate, is_single_valued, value_at};
use crate::lu::dot_prefix;
use crate::scalar::{Index, Numerical, OtherNumericalOps};
use crate::representation::{repr_ref, Holds, HoldsMut, Representation};
use super::traits::{MatrixMutRef, MatrixRef};
use super::transpose::MatrixTranspose;

verus! {

/// A column that can be read entry by entry.
pub trait ColumnRef {
    type Scalar;

    /// Well-formedness of the value; every method asks for it.
    spec fn valid(&self) -> bool;

    /// Number of entries.
    spec fn dimension_spec(&self) -> nat;

    /// The entry at `index`.
    spec fn at_spec(&self, index: int) -> Self::Scalar;

    fn dimension(&self) -> (r: Index)
        requires
            self.valid(),
        ensures
            r == self.dimension_spec(),
    ;

    fn at(&self, index: Index) -> (r: Self::Scalar)
        requires
            self.valid(),
            index < self.dimension_spec(),
        ensures
            r == self.at_spec(index as int),
    ;
}

/// A column whose entries can be overwritten in place.
pub trait ColumnMut: ColumnRef {
    /// A reference to the entry at `index`. What is written through it
    /// becomes that entry; every other entry stays.
    fn at_mut(&mut self, index: Index) -> (r: &mut Self::Scalar)
        requires
            old(self).valid(),
            index < old(self).dimension_spec(),
        ensures
            *r == old(self).at_spec(index as int),
            final(self).valid(),
            final(self).dimension_spec() == old(self).dimension_spec(),
            final(self).at_spec(index as int) == *final(r),
            forall|i: int|
                0 <= i < old(self).dimension_spec() && i != index
                    ==> #[trigger] final(self).at_spec(i) == old(self).at_spec(i),
    ;
}

/// A column that can be made from a function of the index.
pub trait ColumnFuncInitializer: Sized + ColumnRef {
    /// The column of the given dimension whose entry at `i` is `fill(i)`.
    fn new_func<F: Fn(Index) -> Self::Scalar>(dimension: Index, fill: F) -> (r: Self)
        requires
            forall|i: Index| i < dimension ==> call_requires(fill, (i,)),
        ensures
            r.valid(),
            r.dimension_spec() == dimension,
            forall|i: Index| i < dimension ==> call_ensures(fill, (i,), #[trigger] r.at_spec(i as int)),
    ;

    /// The column of the given dimension whose entries are all `fill`.
    fn new_fill(dimension: Index, fill: Self::Scalar) -> (r: Self) where Self::Scalar: Copy
        ensures
            r.valid(),
            r.dimension_spec() == dimension,
            forall|i: int| 0 <= i < dimension ==> #[trigger] r.at_spec(i) == fill,
    {
        let constant = |i: Index| -> (v: Self::Scalar)
            ensures
                v == fill,
            { fill };
        let r = Self::new_func(dimension, constant);
        proof {
            assert forall|i: int| 0 <= i < dimension implies #[trigger] r.at_spec(i) == fill by {
                assert(call_ensures(constant, (i as Index,), r.at_spec(i as Index as int)));
            }
        }
        r
    }

    /// A copy of `column`.
    fn from_column<C: ColumnRef<Scalar = Self::Scalar>>(column: &C) -> (r: Self)
        requires
            column.valid(),
        ensures
            r.valid(),
            r.dimension_spec() == column.dimension_spec(),
            forall|i: int|
                0 <= i < column.dimension_spec() ==> #[trigger] r.at_spec(i) == column.at_spec(i),
    {
        let dimension = column.dimension();
        let entry = |i: Index| -> (v: Self::Scalar)
            requires
                i < dimension,
            ensures
                v == column.at_spec(i as int),
            { column.at(i) };
        let r = Self::new_func(dimension, entry);
        proof {
            assert forall|i: int| 0 <= i < dimension implies #[trigger] r.at_spec(i)
                == column.at_spec(i) by {
                assert(call_ensures(entry, (i as Index,), r.at_spec(i as Index as int)));
            }
        }
        r
    }
}

impl<Scalar: Copy> ColumnFuncInitializer for Vec<Scalar> {
    fn new_func<F: Fn(Index) -> Scalar>(dimension: Index, fill: F) -> (r: Self) {
        let mut data: Vec<Scalar> = Vec::new();
        let mut i: Index = 0;
        while i < dimension
            invariant
                i <= dimension,
                data@.len() == i,
                forall|j: Index| j < dimension ==> call_requires(fill, (j,)),
                forall|j: Index| j < i ==> call_ensures(fill, (j,), #[trigger] data@[j as int]),
            decreases dimension - i,
        {
            let value = fill(i);
            data.push(value);
            i += 1;
        }
        data
    }
}

/// A column given by a function of the index.
#[verifier::reject_recursive_types(Scalar)]
#[verifier::reject_recursive_types(F)]
pub struct ColumnFunc<Scalar, F> where F: Fn(Index) -> Scalar {
    dimension: Index,
    function: F,
}

impl<Scalar, F> ColumnFunc<Scalar, F> where F: Fn(Index) -> Scalar {
    /// The stored dimension.
    pub closed spec fn stored_dimension(&self) -> Index {
        self.dimension
    }

    /// The function that gives the entries.
    pub closed spec fn function(&self) -> F {
        self.function
    }

    /// The column of the given dimension whose entry at `i` is
    /// `function(i)`, computed whenever it is read.
    pub fn new(dimension: Index, function: F) -> (r: Self)
        ensures
            r.stored_dimension() == dimension,
            r.function() == function,
    {
        Self { dimension, function }
    }
}

impl<Scalar, F> ColumnRef for ColumnFunc<Scalar, F> where F: Fn(Index) -> Scalar {
    type Scalar = Scalar;

    /// The function accepts every index below the dimension and gives one
    /// result for each.
    open spec fn valid(&self) -> bool {
        &&& is_single_valued(&self.function())
        &&& forall|i: Index| i < self.stored_dimension() ==> call_requires(self.function(), (i,))
    }

    open spec fn dimension_spec(&self) -> nat {
        self.stored_dimension() as nat
    }

    open spec fn at_spec(&self, index: int) -> Scalar {
        value_at(&self.function(), index as Index)
    }

    fn dimension(&self) -> (r: Index) {
        self.dimension
    }

    fn at(&self, index: Index) -> (r: Scalar) {
        evaluate(&self.function, index)
    }
}

/// The entries of a column, in order.
pub open spec fn column_entries<C: ColumnRef>(column: &C) -> Seq<C::Scalar> {
    Seq::new(column.dimension_spec(), |i: int| column.at_spec(i))
}

impl<Scalar: Copy> ColumnRef for Vec<Scalar> {
    type Scalar = Scalar;

    open spec fn valid(&self) -> bool {
        true
    }

    open spec fn dimension_spec(&self) -> nat {
        self@.len()
    }

    open spec fn at_spec(&self, index: int) -> Scalar {
        self@[index]
    }

    fn dimension(&self) -> (r: Index) {
        self.len()
    }

    fn at(&self, index: Index) -> (r: Scalar) {
        self[index]
    }
}

impl<Scalar: Copy> ColumnMut for Vec<Scalar> {
    fn at_mut(&mut self, index: Index) -> (r: &mut Scalar) {
        &mut self[index]
    }
}

/// One column of a matrix, presented as a column.
pub struct ColumnOf<Matrix> where Matrix: MatrixRef {
    matrix: Matrix,
    column: Index,
}

impl<Matrix> ColumnOf<Matrix> where Matrix: MatrixRef {
    /// The matrix underneath.
    pub closed spec fn matrix(&self) -> Matrix {
        self.matrix
    }

    /// The number of the column that is presented.
    pub closed spec fn column(&self) -> Index {
        self.column
    }

    /// Column number `column` of `matrix`.
    pub fn new(matrix: Matrix, column: Index) -> (r: Self)
        ensures
            r.matrix() == matrix,
            r.column() == column,
    {
        Self { matrix, column }
    }
}

impl<Matrix> ColumnRef for ColumnOf<Matrix> where Matrix: MatrixRef {
    type Scalar = Matrix::Scalar;

    /// The matrix is valid and has the column.
    open spec fn valid(&self) -> bool {
        self.matrix().valid() && self.column() < self.matrix().dimension_spec()
    }

    open spec fn dimension_spec(&self) -> nat {
        self.matrix().dimension_spec()
    }

    open spec fn at_spec(&self, index: int) -> Matrix::Scalar {
        self.matrix().at_spec(index, self.column() as int)
    }

    fn dimension(&self) -> (r: Index) {
        self.matrix.dimension()
    }

    fn at(&self, index: Index) -> (r: Matrix::Scalar) {
        self.matrix.at(index, self.column)
    }
}

impl<Matrix> ColumnMut for ColumnOf<Matrix> where Matrix: MatrixMutRef {
    fn at_mut(&mut self, index: Index) -> (r: &mut Matrix::Scalar) {
        self.matrix.at_mut(index, self.column)
    }
}

impl<Stored, Impl> ColumnRef for Representation<Stored, Impl> where
    Stored: Holds<Impl>,
    Impl: ColumnRef,
 {
    type Scalar = Impl::Scalar;

    open spec fn valid(&self) -> bool {
        Holds::<Impl>::held(&self.stored()).valid()
    }

    open spec fn dimension_spec(&self) -> nat {
        Holds::<Impl>::held(&self.stored()).dimension_spec()
    }

    open spec fn at_spec(&self, index: int) -> Impl::Scalar {
        Holds::<Impl>::held(&self.stored()).at_spec(index)
    }

    fn dimension(&self) -> (r: Index) {
        self.represent().dimension()
    }

    fn at(&self, index: Index) -> (r: Impl::Scalar) {
        self.represent().at(index)
    }
}

impl<Stored, Impl> ColumnMut for Representation<Stored, Impl> where
    Stored: HoldsMut<Impl>,
    Impl: ColumnMut,
 {
    fn at_mut(&mut self, index: Index) -> (r: &mut Impl::Scalar) {
        self.represent_mut().at_mut(index)
    }
}

/// Overwrites the entry at `index` with `value`.
pub fn set_at<C: ColumnMut>(column: &mut C, index: Index, value: C::Scalar)
    requires
        old(column).valid(),
        index < old(column).dimension_spec(),
    ensures
        final(column).valid(),
        final(column).dimension_spec() == old(column).dimension_spec(),
        column_entries(final(column)) == column_entries(old(column)).update(index as int, value),
{
    let ghost before = column_entries(column);
    let ghost at_before = |i: int| column.at_spec(i);
    *column.at_mut(index) = value;
    proof {
        let target = before.update(index as int, value);
        assert forall|i: int| 0 <= i < target.len() implies column_entries(column)[i]
            == target[i] by {
            if i != index {
                assert(column.at_spec(i) == at_before(i));
            }
        }
        assert(column_entries(column) =~= target);
    }
}

/// The dot product of two columns over as many entries as the first has.
pub fn dot<Rhs, Lhs>(rhs: &Rhs, lhs: &Lhs) -> (r: Rhs::Scalar) where
    Rhs: ColumnRef,
    Lhs: ColumnRef<Scalar = Rhs::Scalar>,
    Rhs::Scalar: Numerical,

    requires
        rhs.valid(),
        lhs.valid(),
        rhs.dimension_spec() <= lhs.dimension_spec(),
    ensures
        r == dot_prefix(column_entries(rhs), column_entries(lhs), rhs.dimension_spec()),
{
    let dimension = rhs.dimension();
    let mut sum = Rhs::Scalar::zero();
    let mut i: Index = 0;
    while i < dimension
        invariant
            rhs.valid(),
            lhs.valid(),
            dimension == rhs.dimension_spec(),
            dimension <= lhs.dimension_spec(),
            i <= dimension,
            sum == dot_prefix(column_entries(rhs), column_entries(lhs), i as nat),
        decreases dimension - i,
    {
        sum = sum.add(rhs.at(i).mul(lhs.at(i)));
        i += 1;
    }
    sum
}

/// Row `row` of a matrix, from the first column on.
pub open spec fn row_entries_of<M: MatrixRef>(matrix: &M, row: int) -> Seq<M::Scalar> {
    Seq::new(matrix.dimension_spec(), |k: int| matrix.at_spec(row, k))
}

/// The product of a matrix with a column: entry `i` is the dot product of
/// row `i` with the column.
pub fn apply<Matrix, ColumnIn, ColumnOut>(matrix: &Matrix, column: &ColumnIn) -> (r: ColumnOut) where
    Matrix: MatrixRef,
    Matrix::Scalar: Numerical,
    ColumnIn: ColumnRef<Scalar = Matrix::Scalar>,
    ColumnOut: ColumnFuncInitializer + ColumnRef<Scalar = Matrix::Scalar>,

    requires
        matrix.valid(),
        column.valid(),
        matrix.dimension_spec() <= column.dimension_spec(),
    ensures
        r.valid(),
        r.dimension_spec() == matrix.dimension_spec(),
        forall|i: int|
            0 <= i < matrix.dimension_spec() ==> #[trigger] r.at_spec(i) == dot_prefix(
                row_entries_of(matrix, i),
                column_entries(column),
                matrix.dimension_spec(),
            ),
{
    let dimension = matrix.dimension();
    let entry = |i: Index| -> (v: Matrix::Scalar)
        requires
            i < dimension,
        ensures
            v == dot_prefix(
                row_entries_of(matrix, i as int),
                column_entries(column),
                matrix.dimension_spec(),
            ),
        {
            let row = ColumnOf::new(MatrixTranspose::from(repr_ref::<Matrix>(matrix)), i);
            assert(column_entries(&row) =~= row_entries_of(matrix, i as int));
            dot(&row, column)
        };
    let r = ColumnOut::new_func(dimension, entry);
    proof {
        assert forall|i: int| 0 <= i < dimension implies #[trigger] r.at_spec(i) == dot_prefix(
            row_entries_of(matrix, i),
            column_entries(column),
            matrix.dimension_spec(),
        ) by {
            assert(call_ensures(entry, (i as Index,), r.at_spec(i as Index as int)));
        }
    }
    r
}

} // verus!
