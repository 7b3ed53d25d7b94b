//! QR factorisation of a square matrix by Householder reflections, and the
//! solve that uses it.

use vstd::prelude::*;
use crate::layout::{cell, filled, table};
use crate::layout::{lemma_cell_bounds, lemma_cell_div_mod, lemma_position_is_cell};
use crate::matrix::column::{column_entries, set_at, ColumnMut};
use crate::matrix::solve_upper::{solve_upper, upper_solve};
use crate::matrix::traits::{entries_of, lemma_entries_of, set_entry, MatrixMutRef, MatrixRef};
use crate::qr_algorithm::{column_dot, compute_reflection, reflection_of};
use crate::scalar::{Index, Numerical, OtherNumericalOps};
use crate::vector::{divide_all, scaled};

verus! {

/// The square root of `value`.
pub fn sqrt<S: Numerical>(value: S) -> (r: S)
    ensures
        r == value.sqrt_spec(),
{
    value.sqrt_trait()
}

/// The part of column `c` from the diagonal down, as a vector of its own.
pub open spec fn column_tail<S>(t: Seq<S>, n: nat, c: int) -> Seq<S> {
    Seq::new((n - c) as nat, |k: int| t[cell(n, c + k, c)])
}

/// The direction of the reflection for column `c`, scaled to unit length.
pub open spec fn unit_direction<S: Numerical>(t: Seq<S>, n: nat, c: int) -> Seq<S> {
    let h = reflection_of(column_tail(t, n, c));
    scaled(h.direction, h.scale.sqrt_spec())
}

/// The matrix after the reflection for column `c`: the diagonal entry of
/// the column becomes the length of its tail, the entries below it are
/// exchanged for what `vectors` held in their place, and every later column
/// has twice its component along the direction taken off.
pub open spec fn reflect_matrix<S: Numerical>(t: Seq<S>, vectors: Seq<S>, n: nat, c: int) -> Seq<
    S,
> {
    let w = unit_direction(t, n, c);
    table(
        n,
        |i: int, j: int|
            if j == c && i == c {
                reflection_of(column_tail(t, n, c)).length
            } else if j == c && i > c {
                vectors[c * n + i]
            } else if j > c && i >= c {
                t[cell(n, i, j)].sub_spec(
                    w[i - c].mul_spec(column_dot(w, t, n, c, j, w.len())).mul_spec(
                        S::from_i32_spec(2),
                    ),
                )
            } else {
                t[cell(n, i, j)]
            },
    )
}

/// The stored directions after the reflection for column `c`: the unit
/// direction stands in the slots `c·n + c` to `c·n + n − 1`.
pub open spec fn reflect_vectors<S: Numerical>(t: Seq<S>, vectors: Seq<S>, n: nat, c: int) -> Seq<
    S,
> {
    let w = unit_direction(t, n, c);
    Seq::new(
        vectors.len(),
        |p: int|
            if c * n + c <= p < c * n + n {
                w[p - c * n - c]
            } else {
                vectors[p]
            },
    )
}

/// The matrix and the stored directions after the reflections for the
/// first `count` columns, starting from directions that are all zero.
pub open spec fn reflected<S: Numerical>(t: Seq<S>, n: nat, count: nat) -> (Seq<S>, Seq<S>)
    decreases count,
{
    if count == 0 {
        (t, Seq::new((n * (n - 1)) as nat, |p: int| S::zero_spec()))
    } else {
        let (before, vectors) = reflected(t, n, (count - 1) as nat);
        (
            reflect_matrix(before, vectors, n, count - 1),
            reflect_vectors(before, vectors, n, count - 1),
        )
    }
}

/// Every reflection keeps the sizes of the matrix and of the directions.
pub proof fn lemma_reflected_len<S: Numerical>(t: Seq<S>, n: nat, count: nat)
    requires
        t.len() == n * n,
        n >= 1,
    ensures
        reflected(t, n, count).0.len() == n * n,
        reflected(t, n, count).1.len() == n * (n - 1),
    decreases count,
{
    assert(n * n >= 0 && n * (n - 1) >= 0) by (nonlinear_arith)
        requires
            n >= 1,
    ;
    if count > 0 {
        lemma_reflected_len(t, n, (count - 1) as nat);
    }
}

/// One reflection of a vector: twice its component along the stored unit
/// direction number `h` is taken off the entries from `h` on.
pub open spec fn reflect_column<S: Numerical>(vectors: Seq<S>, n: nat, h: int, v: Seq<S>) -> Seq<
    S,
> {
    let w = vectors.subrange(h * n + h, h * n + n);
    let along = tail_dot(w, v, h, w.len());
    Seq::new(
        v.len(),
        |i: int|
            if i >= h {
                v[i].sub_spec(w[i - h].mul_spec(along).mul_spec(S::from_i32_spec(2)))
            } else {
                v[i]
            },
    )
}

/// The first `count` products of `w[k]` with `v[first + k]`, added up from
/// zero.
pub open spec fn tail_dot<S: Numerical>(w: Seq<S>, v: Seq<S>, first: int, count: nat) -> S
    decreases count,
{
    if count == 0 {
        S::zero_spec()
    } else {
        tail_dot(w, v, first, (count - 1) as nat).add_spec(
            w[count - 1].mul_spec(v[first + count - 1]),
        )
    }
}

/// The vector after the first `count` stored reflections.
pub open spec fn reflect_columns<S: Numerical>(vectors: Seq<S>, n: nat, v: Seq<S>, count: nat) -> Seq<
    S,
>
    decreases count,
{
    if count == 0 {
        v
    } else {
        reflect_column(vectors, n, count - 1, reflect_columns(vectors, n, v, (count - 1) as nat))
    }
}

/// A factorisation `A = Q·R`: the factor `R` on and above the diagonal of
/// `upper`, and `Q` as the product of the reflections along the stored
/// unit directions.
#[derive(Debug, Clone)]
pub struct QRDecomposition<Matrix> where Matrix: MatrixMutRef, Matrix::Scalar: Numerical {
    upper: Matrix,
    hausdorf_vectors: Vec<Matrix::Scalar>,
}

impl<Matrix> QRDecomposition<Matrix> where Matrix: MatrixMutRef, Matrix::Scalar: Numerical {
    /// The matrix that holds the factor `R`.
    pub closed spec fn upper(&self) -> Matrix {
        self.upper
    }

    /// The unit directions of the reflections, the one for column `c` from
    /// slot `c·n + c` on.
    pub closed spec fn vectors(&self) -> Seq<Matrix::Scalar> {
        self.hausdorf_vectors@
    }

    /// The factorisation fits one dimension.
    pub open spec fn wf(&self) -> bool {
        &&& self.upper().valid()
        &&& self.upper().dimension_spec() >= 1
        &&& self.vectors().len() == self.upper().dimension_spec() * (self.upper().dimension_spec()
            - 1)
    }

    /// Factors `matrix` in place, column after column but the last.
    pub fn calculate(matrix: Matrix) -> (r: QRDecomposition<Matrix>)
        requires
            matrix.valid(),
            matrix.dimension_spec() >= 1,
            matrix.dimension_spec() * (matrix.dimension_spec() - 1) <= usize::MAX,
        ensures
            r.wf(),
            r.upper().dimension_spec() == matrix.dimension_spec(),
            (entries_of(&r.upper()), r.vectors()) == reflected(
                entries_of(&matrix),
                matrix.dimension_spec(),
                (matrix.dimension_spec() - 1) as nat,
            ),
    {
        let mut matrix = matrix;
        let dimension = matrix.dimension();
        let ghost n = dimension as nat;
        let ghost d = dimension as int;
        let ghost t0 = entries_of(&matrix);
        let two = Matrix::Scalar::from_i32(2);
        assert(n * n >= 0 && n * (n - 1) >= 0) by (nonlinear_arith)
            requires
                n >= 1,
        ;
        let mut hausdorf_vectors = filled(dimension * (dimension - 1), Matrix::Scalar::zero());
        let mut column: Index = 0;
        while column < dimension - 1
            invariant
                column <= dimension - 1,
                dimension >= 1,
                n == dimension,
                d == dimension,
                dimension * (dimension - 1) <= usize::MAX,
                two == Matrix::Scalar::from_i32_spec(2),
                matrix.valid(),
                matrix.dimension_spec() == n,
                t0.len() == n * n,
                hausdorf_vectors@.len() == n * (n - 1),
                (entries_of(&matrix), hausdorf_vectors@) == reflected(t0, n, column as nat),
            decreases dimension - column,
        {
            let ghost t = entries_of(&matrix);
            let ghost vectors = hausdorf_vectors@;
            let ghost target = reflect_matrix(t, vectors, n, column as int);
            let ghost w = unit_direction(t, n, column as int);
            proof {
                lemma_reflected_len(t0, n, column as nat);
                assert(column * n + n <= n * (n - 1)) by (nonlinear_arith)
                    requires
                        0 <= column < n - 1,
                ;
                assert(column * n >= 0) by (nonlinear_arith)
                    requires
                        column >= 0,
                        n >= 0,
                ;
            }
            let base = column * dimension;

            let mut tail: Vec<Matrix::Scalar> = Vec::new();
            let mut row: Index = column;
            while row < dimension
                invariant
                    column <= row <= dimension,
                    column < dimension,
                    n == dimension,
                    matrix.valid(),
                    matrix.dimension_spec() == n,
                    t == entries_of(&matrix),
                    tail@ == Seq::new(
                        (row - column) as nat,
                        |k: int| t[cell(n, column + k, column as int)],
                    ),
                decreases dimension - row,
            {
                proof {
                    lemma_entries_of(&matrix, row as int, column as int);
                }
                tail.push(matrix.at(row, column));
                assert(tail@ =~= Seq::new(
                    (row + 1 - column) as nat,
                    |k: int| t[cell(n, column + k, column as int)],
                ));
                row += 1;
            }
            assert(tail@ =~= column_tail(t, n, column as int));
            let mut direction = filled(dimension - column, Matrix::Scalar::zero());
            let mut scale = Matrix::Scalar::zero();
            let length = compute_reflection(
                tail.as_slice(),
                direction.as_mut_slice(),
                &mut scale,
            );
            assert(direction@ =~= reflection_of(column_tail(t, n, column as int)).direction);
            let unit = divide_all(direction.as_slice(), sqrt(scale));
            assert(unit@ == w);

            // The column itself: the length on the diagonal, and below it what the
            // slots of the direction held.
            row = column;
            while row < dimension
                invariant
                    column <= row <= dimension,
                    column < dimension - 1,
                    n == dimension,
                    d == dimension,
                    base == column * n,
                    base + n <= n * (n - 1),
                    dimension * (dimension - 1) <= usize::MAX,
                    matrix.valid(),
                    matrix.dimension_spec() == n,
                    t.len() == n * n,
                    target.len() == n * n,
                    target == reflect_matrix(t, vectors, n, column as int),
                    hausdorf_vectors@ == vectors,
                    vectors.len() == n * (n - 1),
                    length == reflection_of(column_tail(t, n, column as int)).length,
                    entries_of(&matrix).len() == n * n,
                    forall|p: int|
                        0 <= p < n * n ==> (#[trigger] entries_of(&matrix)[p]) == (if p % d
                            == column && column <= p / d < row {
                            target[p]
                        } else {
                            t[p]
                        }),
                decreases dimension - row,
            {
                let ghost current = entries_of(&matrix);
                let value = if row == column {
                    length
                } else {
                    hausdorf_vectors[base + row]
                };
                set_entry(&mut matrix, row, column, value);
                proof {
                    lemma_cell_bounds(n, row as int, column as int);
                    lemma_cell_div_mod(n, row as int, column as int);
                    assert forall|p: int| 0 <= p < n * n implies (#[trigger] entries_of(
                        &matrix,
                    )[p]) == (if p % d == column && column <= p / d < row + 1 {
                        target[p]
                    } else {
                        t[p]
                    }) by {
                        lemma_position_is_cell(n, p);
                        assert(current[p] == (if p % d == column && column <= p / d < row {
                            target[p]
                        } else {
                            t[p]
                        }));
                    }
                }
                row += 1;
            }

            // The slots of the direction.
            let mut k: Index = 0;
            while k < dimension - column
                invariant
                    k <= dimension - column,
                    column < dimension - 1,
                    n == dimension,
                    base == column * n,
                    base + n <= n * (n - 1),
                    n * (n - 1) <= usize::MAX,
                    unit@ == w,
                    w.len() == n - column,
                    vectors.len() == n * (n - 1),
                    hausdorf_vectors@.len() == n * (n - 1),
                    forall|p: int|
                        0 <= p < n * (n - 1) ==> (#[trigger] hausdorf_vectors@[p]) == (if base
                            + column <= p < base + column + k {
                            w[p - base - column]
                        } else {
                            vectors[p]
                        }),
                decreases dimension - column - k,
            {
                hausdorf_vectors[base + column + k] = unit[k];
                k += 1;
            }
            assert(hausdorf_vectors@ =~= reflect_vectors(t, vectors, n, column as int));

            // The later columns.
            proof {
                let current = entries_of(&matrix);
                assert forall|p: int| 0 <= p < n * n implies (#[trigger] current[p]) == (if column
                    <= p / d && column <= p % d < column + 1 {
                    target[p]
                } else {
                    t[p]
                }) by {
                    lemma_position_is_cell(n, p);
                }
            }
            let mut affected_column: Index = column + 1;
            while affected_column < dimension
                invariant
                    column < affected_column <= dimension,
                    n == dimension,
                    d == dimension,
                    two == Matrix::Scalar::from_i32_spec(2),
                    matrix.valid(),
                    matrix.dimension_spec() == n,
                    t.len() == n * n,
                    target.len() == n * n,
                    target == reflect_matrix(t, vectors, n, column as int),
                    unit@ == w,
                    w == unit_direction(t, n, column as int),
                    w.len() == n - column,
                    entries_of(&matrix).len() == n * n,
                    forall|p: int|
                        0 <= p < n * n ==> (#[trigger] entries_of(&matrix)[p]) == (if column <= p
                            / d && column <= p % d < affected_column {
                            target[p]
                        } else {
                            t[p]
                        }),
                decreases dimension - affected_column,
            {
                let mut dot_product = Matrix::Scalar::zero();
                let mut i: Index = column;
                while i < dimension
                    invariant
                        column <= i <= dimension,
                        column < affected_column < dimension,
                        n == dimension,
                        d == dimension,
                        matrix.valid(),
                        matrix.dimension_spec() == n,
                        t.len() == n * n,
                        unit@ == w,
                        w.len() == n - column,
                        entries_of(&matrix).len() == n * n,
                        forall|p: int|
                            0 <= p < n * n ==> (#[trigger] entries_of(&matrix)[p]) == (if column
                                <= p / d && column <= p % d < affected_column {
                                target[p]
                            } else {
                                t[p]
                            }),
                        dot_product == column_dot(
                            w,
                            t,
                            n,
                            column as int,
                            affected_column as int,
                            (i - column) as nat,
                        ),
                    decreases dimension - i,
                {
                    proof {
                        lemma_entries_of(&matrix, i as int, affected_column as int);
                        lemma_cell_div_mod(n, i as int, affected_column as int);
                    }
                    dot_product = dot_product.add(unit[i - column].mul(matrix.at(i, affected_column)));
                    i += 1;
                }
                row = column;
                while row < dimension
                    invariant
                        column <= row <= dimension,
                        column < affected_column < dimension,
                        n == dimension,
                        d == dimension,
                        two == Matrix::Scalar::from_i32_spec(2),
                        matrix.valid(),
                        matrix.dimension_spec() == n,
                        t.len() == n * n,
                        target.len() == n * n,
                        target == reflect_matrix(t, vectors, n, column as int),
                        unit@ == w,
                        w == unit_direction(t, n, column as int),
                        w.len() == n - column,
                        entries_of(&matrix).len() == n * n,
                        dot_product == column_dot(
                            w,
                            t,
                            n,
                            column as int,
                            affected_column as int,
                            w.len(),
                        ),
                        forall|p: int|
                            0 <= p < n * n ==> (#[trigger] entries_of(&matrix)[p]) == (if column
                                <= p / d && (column <= p % d < affected_column || (p % d
                                == affected_column && p / d < row)) {
                                target[p]
                            } else {
                                t[p]
                            }),
                    decreases dimension - row,
                {
                    let ghost current = entries_of(&matrix);
                    proof {
                        lemma_entries_of(&matrix, row as int, affected_column as int);
                        lemma_cell_div_mod(n, row as int, affected_column as int);
                    }
                    let value = matrix.at(row, affected_column).sub(
                        unit[row - column].mul(dot_product).mul(two),
                    );
                    set_entry(&mut matrix, row, affected_column, value);
                    proof {
                        assert forall|p: int| 0 <= p < n * n implies (#[trigger] entries_of(
                            &matrix,
                        )[p]) == (if column <= p / d && (column <= p % d < affected_column || (p
                            % d == affected_column && p / d < row + 1)) {
                            target[p]
                        } else {
                            t[p]
                        }) by {
                            lemma_position_is_cell(n, p);
                            assert(current[p] == (if column <= p / d && (column <= p % d
                                < affected_column || (p % d == affected_column && p / d < row)) {
                                target[p]
                            } else {
                                t[p]
                            }));
                        }
                    }
                    row += 1;
                }
                proof {
                    let current = entries_of(&matrix);
                    assert forall|p: int| 0 <= p < n * n implies (#[trigger] current[p]) == (
                    if column <= p / d && column <= p % d < affected_column + 1 {
                        target[p]
                    } else {
                        t[p]
                    }) by {
                        lemma_position_is_cell(n, p);
                    }
                }
                affected_column += 1;
            }
            proof {
                let current = entries_of(&matrix);
                assert forall|p: int| 0 <= p < n * n implies current[p] == target[p] by {
                    lemma_position_is_cell(n, p);
                }
                assert(current =~= target);
            }
            column += 1;
        }
        Self { upper: matrix, hausdorf_vectors }
    }

    /// Solves `A·x = b` in place: applies the reflections to `vector`, then
    /// solves with the factor `R` by back substitution.
    pub fn solve<Column>(&self, vector: &mut Column) where
        Column: ColumnMut<Scalar = Matrix::Scalar>,

        requires
            self.wf(),
            old(vector).valid(),
            old(vector).dimension_spec() == self.upper().dimension_spec(),
        ensures
            final(vector).valid(),
            final(vector).dimension_spec() == old(vector).dimension_spec(),
            column_entries(final(vector)) == upper_solve(
                entries_of(&self.upper()),
                self.upper().dimension_spec(),
                reflect_columns(
                    self.vectors(),
                    self.upper().dimension_spec(),
                    column_entries(old(vector)),
                    (self.upper().dimension_spec() - 1) as nat,
                ),
                self.upper().dimension_spec(),
            ),
    {
        let dimension = self.upper.dimension();
        let ghost n = dimension as nat;
        let ghost v0 = column_entries(vector);
        let ghost vectors = self.hausdorf_vectors@;
        let two = Matrix::Scalar::from_i32(2);
        assert(vectors.len() == self.hausdorf_vectors.len());
        let mut hausdorf_index: Index = 0;
        while hausdorf_index < dimension - 1
            invariant
                hausdorf_index <= dimension - 1,
                dimension >= 1,
                n == dimension,
                two == Matrix::Scalar::from_i32_spec(2),
                vectors == self.hausdorf_vectors@,
                vectors.len() == n * (n - 1),
                n * (n - 1) <= usize::MAX,
                vector.valid(),
                vector.dimension_spec() == n,
                column_entries(vector) == reflect_columns(vectors, n, v0, hausdorf_index as nat),
            decreases dimension - hausdorf_index,
        {
            let ghost before = column_entries(vector);
            let ghost target = reflect_column(vectors, n, hausdorf_index as int, before);
            proof {
                assert(hausdorf_index * n + n <= n * (n - 1)) by (nonlinear_arith)
                    requires
                        0 <= hausdorf_index < n - 1,
                ;
                assert(hausdorf_index * n >= 0) by (nonlinear_arith)
                    requires
                        hausdorf_index >= 0,
                        n >= 0,
                ;
            }
            let base = hausdorf_index * dimension;
            let ghost w = vectors.subrange(base + hausdorf_index, base + n);
            let mut dot_product = Matrix::Scalar::zero();
            let mut i: Index = hausdorf_index;
            while i < dimension
                invariant
                    hausdorf_index <= i <= dimension,
                    n == dimension,
                    base + n <= n * (n - 1),
                    n * (n - 1) <= usize::MAX,
                    vectors == self.hausdorf_vectors@,
                    vectors.len() == n * (n - 1),
                    w == vectors.subrange(base + hausdorf_index, base + n),
                    vector.valid(),
                    vector.dimension_spec() == n,
                    column_entries(vector) == before,
                    dot_product == tail_dot(
                        w,
                        before,
                        hausdorf_index as int,
                        (i - hausdorf_index) as nat,
                    ),
                decreases dimension - i,
            {
                dot_product = dot_product.add(self.hausdorf_vectors[base + i].mul(vector.at(i)));
                i += 1;
            }
            let mut row: Index = hausdorf_index;
            while row < dimension
                invariant
                    hausdorf_index <= row <= dimension,
                    n == dimension,
                    base + n <= n * (n - 1),
                    n * (n - 1) <= usize::MAX,
                    two == Matrix::Scalar::from_i32_spec(2),
                    vectors == self.hausdorf_vectors@,
                    vectors.len() == n * (n - 1),
                    w == vectors.subrange(base + hausdorf_index, base + n),
                    vector.valid(),
                    vector.dimension_spec() == n,
                    before.len() == n,
                    target == reflect_column(vectors, n, hausdorf_index as int, before),
                    base == hausdorf_index * n,
                    dot_product == tail_dot(w, before, hausdorf_index as int, w.len()),
                    forall|t: int|
                        0 <= t < n ==> (#[trigger] column_entries(vector)[t]) == (if hausdorf_index
                            <= t < row {
                            target[t]
                        } else {
                            before[t]
                        }),
                decreases dimension - row,
            {
                let ghost current = column_entries(vector);
                proof {
                    assert(current[row as int] == before[row as int]);
                }
                let value = vector.at(row).sub(
                    self.hausdorf_vectors[base + row].mul(dot_product).mul(two),
                );
                set_at(vector, row, value);
                row += 1;
            }
            assert(column_entries(vector) =~= target);
            hausdorf_index += 1;
        }
        solve_upper(&self.upper, vector);
    }
}

} // verus!
