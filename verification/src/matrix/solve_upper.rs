//! Back substitution over an upper triangular matrix.

use vstd::prelude::*;
use crate::layout::cell;
use crate::scalar::{Index, Numerical};
use super::column::{column_entries, set_at, ColumnMut};
use super::traits::{entries_of, lemma_entries_of, MatrixRef};

verus! {

/// One step of back substitution: unknown `i` is divided by the diagonal
/// entry, and its multiple by the entry above the diagonal is taken off
/// every unknown before it.
pub open spec fn upper_step<S: Numerical>(m: Seq<S>, n: nat, i: int, v: Seq<S>) -> Seq<S> {
    let solved = v[i].div_spec(m[cell(n, i, i)]);
    Seq::new(
        v.len(),
        |j: int|
            if j == i {
                solved
            } else if j < i {
                v[j].sub_spec(m[cell(n, j, i)].mul_spec(solved))
            } else {
                v[j]
            },
    )
}

/// The first `steps` steps of back substitution, from the last unknown
/// upwards.
pub open spec fn upper_solve<S: Numerical>(m: Seq<S>, n: nat, v: Seq<S>, steps: nat) -> Seq<S>
    decreases steps,
{
    if steps == 0 {
        v
    } else {
        upper_step(m, n, n - steps, upper_solve(m, n, v, (steps - 1) as nat))
    }
}

/// Solves `U·x = b` in place for an upper triangular `U`: `vector` holds
/// `b` before the call and `x` after it. Entries of `matrix` below the
/// diagonal are not read.
pub fn solve_upper<Matrix, Column>(matrix: &Matrix, vector: &mut Column) where
    Matrix: MatrixRef,
    Matrix::Scalar: Numerical,
    Column: ColumnMut<Scalar = Matrix::Scalar>,

    requires
        matrix.valid(),
        old(vector).valid(),
        old(vector).dimension_spec() == matrix.dimension_spec(),
    ensures
        final(vector).valid(),
        final(vector).dimension_spec() == old(vector).dimension_spec(),
        column_entries(final(vector)) == upper_solve(
            entries_of(matrix),
            matrix.dimension_spec(),
            column_entries(old(vector)),
            matrix.dimension_spec(),
        ),
{
    let dimension = matrix.dimension();
    let ghost n = dimension as nat;
    let ghost m = entries_of(matrix);
    let ghost v0 = column_entries(vector);
    let mut i: Index = dimension;
    while i > 0
        invariant
            i <= dimension,
            n == dimension,
            matrix.valid(),
            matrix.dimension_spec() == n,
            m == entries_of(matrix),
            vector.valid(),
            vector.dimension_spec() == n,
            column_entries(vector) == upper_solve(m, n, v0, (dimension - i) as nat),
        decreases i,
    {
        i -= 1;
        let ghost before = column_entries(vector);
        proof {
            lemma_entries_of(matrix, i as int, i as int);
        }
        let solved = vector.at(i).div(matrix.at(i, i));
        set_at(vector, i, solved);
        let ghost target = upper_step(m, n, i as int, before);
        let mut j: Index = i;
        while j > 0
            invariant
                j <= i < dimension,
                n == dimension,
                matrix.valid(),
                matrix.dimension_spec() == n,
                m == entries_of(matrix),
                vector.valid(),
                vector.dimension_spec() == n,
                before.len() == n,
                target == upper_step(m, n, i as int, before),
                solved == before[i as int].div_spec(m[cell(n, i as int, i as int)]),
                forall|t: int|
                    0 <= t < n ==> (#[trigger] column_entries(vector)[t]) == (if t >= j {
                        target[t]
                    } else {
                        before[t]
                    }),
            decreases j,
        {
            j -= 1;
            let ghost current = column_entries(vector);
            proof {
                lemma_entries_of(matrix, j as int, i as int);
                assert(current[j as int] == before[j as int]);
                assert(current[i as int] == target[i as int]);
            }
            let value = vector.at(j).sub(matrix.at(j, i).mul(vector.at(i)));
            set_at(vector, j, value);
        }
        assert(column_entries(vector) =~= target);
    }
}

} // verus!
