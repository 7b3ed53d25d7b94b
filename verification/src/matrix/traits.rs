//! Read and write access to a square matrix.

use vstd::prelude::*;
use crate::layout::{cell, table};
use crate::layout::{lemma_cell_bounds, lemma_cell_div_mod, lemma_position_is_cell};
use crate::function::{evaluate2, is_single_valued2, value_at2};
use crate::scalar::Index;
use crate::representation::{Holds, HoldsMut, Representation};

verus! {

/// A square matrix that can be read entry by entry.
pub trait MatrixRef {
    type Scalar;

    /// Well-formedness of the value; every method asks for it.
    spec fn valid(&self) -> bool;

    /// Number of rows, which is the number of columns.
    spec fn dimension_spec(&self) -> nat;

    /// The entry in `row` and `column`.
    spec fn at_spec(&self, row: int, column: int) -> Self::Scalar;

    fn dimension(&self) -> (r: Index)
        requires
            self.valid(),
        ensures
            r == self.dimension_spec(),
    ;

    fn at(&self, row: Index, column: Index) -> (r: Self::Scalar)
        requires
            self.valid(),
            row < self.dimension_spec(),
            column < self.dimension_spec(),
        ensures
            r == self.at_spec(row as int, column as int),
    ;
}

/// A square matrix whose entries can be overwritten in place.
pub trait MatrixMutRef: MatrixRef {
    /// A reference to the entry in `row` and `column`. What is written
    /// through it becomes that entry; every other entry stays.
    fn at_mut(&mut self, row: Index, column: Index) -> (r: &mut Self::Scalar)
        requires
            old(self).valid(),
            row < old(self).dimension_spec(),
            column < old(self).dimension_spec(),
        ensures
            *r == old(self).at_spec(row as int, column as int),
            final(self).valid(),
            final(self).dimension_spec() == old(self).dimension_spec(),
            final(self).at_spec(row as int, column as int) == *final(r),
            forall|i: int, j: int|
                0 <= i < old(self).dimension_spec() && 0 <= j < old(self).dimension_spec()
                    && !(i == row && j == column)
                    ==> #[trigger] final(self).at_spec(i, j) == old(self).at_spec(i, j),
    ;
}

/// A square matrix that can be made from a function of row and column.
pub trait MatrixFuncInitializer: Sized + MatrixRef {
    /// The matrix of the given dimension whose entry `(i, j)` is
    /// `fill(i, j)`.
    fn new_func<F: Fn(Index, Index) -> Self::Scalar>(dimension: Index, fill: F) -> (r: Self)
        requires
            dimension * dimension <= usize::MAX,
            forall|i: Index, j: Index| i < dimension && j < dimension ==> call_requires(fill, (i, j)),
        ensures
            r.valid(),
            r.dimension_spec() == dimension,
            forall|i: Index, j: Index|
                i < dimension && j < dimension ==> call_ensures(
                    fill,
                    (i, j),
                    #[trigger] r.at_spec(i as int, j as int),
                ),
    ;

    /// The matrix of the given dimension whose entries are all `fill`.
    fn new_fill(dimension: Index, fill: Self::Scalar) -> (r: Self) where Self::Scalar: Copy
        requires
            dimension * dimension <= usize::MAX,
        ensures
            r.valid(),
            r.dimension_spec() == dimension,
            forall|i: int, j: int|
                0 <= i < dimension && 0 <= j < dimension ==> #[trigger] r.at_spec(i, j) == fill,
    {
        let constant = |i: Index, j: Index| -> (v: Self::Scalar)
            ensures
                v == fill,
            { fill };
        let r = Self::new_func(dimension, constant);
        proof {
            assert forall|i: int, j: int| 0 <= i < dimension && 0 <= j < dimension implies #[trigger] r.at_spec(
                i,
                j,
            ) == fill by {
                assert(call_ensures(
                    constant,
                    (i as Index, j as Index),
                    r.at_spec(i as Index as int, j as Index as int),
                ));
            }
        }
        r
    }

    /// A copy of `matrix`.
    fn from_matrix<M: MatrixRef<Scalar = Self::Scalar>>(matrix: &M) -> (r: Self)
        requires
            matrix.valid(),
            matrix.dimension_spec() * matrix.dimension_spec() <= usize::MAX,
        ensures
            r.valid(),
            r.dimension_spec() == matrix.dimension_spec(),
            forall|i: int, j: int|
                0 <= i < matrix.dimension_spec() && 0 <= j < matrix.dimension_spec()
                    ==> #[trigger] r.at_spec(i, j) == matrix.at_spec(i, j),
    {
        let dimension = matrix.dimension();
        let entry = |i: Index, j: Index| -> (v: Self::Scalar)
            requires
                i < dimension,
                j < dimension,
            ensures
                v == matrix.at_spec(i as int, j as int),
            { matrix.at(i, j) };
        let r = Self::new_func(dimension, entry);
        proof {
            assert forall|i: int, j: int| 0 <= i < dimension && 0 <= j < dimension implies #[trigger] r.at_spec(
                i,
                j,
            ) == matrix.at_spec(i, j) by {
                assert(call_ensures(
                    entry,
                    (i as Index, j as Index),
                    r.at_spec(i as Index as int, j as Index as int),
                ));
            }
        }
        r
    }
}

/// A square matrix given by a function of row and column.
#[verifier::reject_recursive_types(Scalar)]
#[verifier::reject_recursive_types(F)]
pub struct MatrixFunc<Scalar, F> where F: Fn(Index, Index) -> Scalar {
    dimension: Index,
    function: F,
}

impl<Scalar, F> MatrixFunc<Scalar, F> where F: Fn(Index, Index) -> Scalar {
    /// The stored dimension.
    pub closed spec fn stored_dimension(&self) -> Index {
        self.dimension
    }

    /// The function that gives the entries.
    pub closed spec fn function(&self) -> F {
        self.function
    }

    /// The matrix of the given dimension whose entry `(i, j)` is
    /// `function(i, j)`, computed whenever it is read.
    pub fn new(dimension: Index, function: F) -> (r: Self)
        ensures
            r.stored_dimension() == dimension,
            r.function() == function,
    {
        Self { dimension, function }
    }
}

impl<Scalar, F> MatrixRef for MatrixFunc<Scalar, F> where F: Fn(Index, Index) -> Scalar {
    type Scalar = Scalar;

    /// The function accepts every pair of indices below the dimension and
    /// gives one result for each.
    open spec fn valid(&self) -> bool {
        &&& is_single_valued2(&self.function())
        &&& forall|i: Index, j: Index|
            i < self.stored_dimension() && j < self.stored_dimension() ==> call_requires(
                self.function(),
                (i, j),
            )
    }

    open spec fn dimension_spec(&self) -> nat {
        self.stored_dimension() as nat
    }

    open spec fn at_spec(&self, row: int, column: int) -> Scalar {
        value_at2(&self.function(), row as Index, column as Index)
    }

    fn dimension(&self) -> (r: Index) {
        self.dimension
    }

    fn at(&self, row: Index, column: Index) -> (r: Scalar) {
        evaluate2(&self.function, row, column)
    }
}

impl<Stored, Impl> MatrixRef for Representation<Stored, Impl> where
    Stored: Holds<Impl>,
    Impl: MatrixRef,
 {
    type Scalar = Impl::Scalar;

    open spec fn valid(&self) -> bool {
        Holds::<Impl>::held(&self.stored()).valid()
    }

    open spec fn dimension_spec(&self) -> nat {
        Holds::<Impl>::held(&self.stored()).dimension_spec()
    }

    open spec fn at_spec(&self, row: int, column: int) -> Impl::Scalar {
        Holds::<Impl>::held(&self.stored()).at_spec(row, column)
    }

    fn dimension(&self) -> (r: Index) {
        self.represent().dimension()
    }

    fn at(&self, row: Index, column: Index) -> (r: Impl::Scalar) {
        self.represent().at(row, column)
    }
}

impl<Stored, Impl> MatrixMutRef for Representation<Stored, Impl> where
    Stored: HoldsMut<Impl>,
    Impl: MatrixMutRef,
 {
    fn at_mut(&mut self, row: Index, column: Index) -> (r: &mut Impl::Scalar) {
        self.represent_mut().at_mut(row, column)
    }
}

impl<Impl> MatrixFuncInitializer for Representation<Impl, Impl> where Impl: MatrixFuncInitializer {
    fn new_func<F: Fn(Index, Index) -> Impl::Scalar>(dimension: Index, fill: F) -> (r: Self) {
        let inner = Impl::new_func(dimension, fill);
        let ghost shown = inner;
        let r: Self = Representation::from(inner);
        assert(Holds::<Impl>::held(&r.stored()) == shown);
        r
    }
}

/// The entries of a matrix, row after row.
pub open spec fn entries_of<M: MatrixRef>(matrix: &M) -> Seq<M::Scalar> {
    table(matrix.dimension_spec(), |i: int, j: int| matrix.at_spec(i, j))
}

/// The entries of a matrix determine each of them.
pub proof fn lemma_entries_of<M: MatrixRef>(matrix: &M, row: int, column: int)
    requires
        0 <= row < matrix.dimension_spec(),
        0 <= column < matrix.dimension_spec(),
    ensures
        entries_of(matrix).len() == matrix.dimension_spec() * matrix.dimension_spec(),
        0 <= cell(matrix.dimension_spec(), row, column) < entries_of(matrix).len(),
        entries_of(matrix)[cell(matrix.dimension_spec(), row, column)] == matrix.at_spec(
            row,
            column,
        ),
{
    let n = matrix.dimension_spec();
    assert(n * n >= 0) by (nonlinear_arith);
    lemma_cell_bounds(n, row, column);
    lemma_cell_div_mod(n, row, column);
}

/// Overwrites the entry in `row` and `column` with `value`.
pub fn set_entry<M: MatrixMutRef>(matrix: &mut M, row: Index, column: Index, value: M::Scalar)
    requires
        old(matrix).valid(),
        row < old(matrix).dimension_spec(),
        column < old(matrix).dimension_spec(),
    ensures
        final(matrix).valid(),
        final(matrix).dimension_spec() == old(matrix).dimension_spec(),
        entries_of(final(matrix)) == entries_of(old(matrix)).update(
            cell(old(matrix).dimension_spec(), row as int, column as int),
            value,
        ),
{
    let ghost n = matrix.dimension_spec();
    let ghost before = entries_of(matrix);
    let ghost d = n as int;
    let ghost at_before = |i: int, j: int| matrix.at_spec(i, j);
    *matrix.at_mut(row, column) = value;
    proof {
        assert(n * n >= 0) by (nonlinear_arith);
        lemma_cell_bounds(n, row as int, column as int);
        lemma_cell_div_mod(n, row as int, column as int);
        let target = before.update(cell(n, row as int, column as int), value);
        assert forall|p: int| 0 <= p < n * n implies entries_of(matrix)[p] == target[p] by {
            lemma_position_is_cell(n, p);
            let i = p / d;
            let j = p % d;
            if !(i == row && j == column) {
                assert(matrix.at_spec(i, j) == at_before(i, j));
            }
        }
        assert(entries_of(matrix) =~= target);
    }
}

} // verus!
