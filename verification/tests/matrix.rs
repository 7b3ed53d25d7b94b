use numerical_methods::matrix::column::{dot, set_at, ColumnMut, ColumnOf, ColumnRef};
use numerical_methods::matrix::dense::{DenseColMatrix, DenseRowMatrix};
use numerical_methods::matrix::norms::{NormedColumn, NormedMatrix};
use numerical_methods::matrix::permutation::Permutation;
use numerical_methods::matrix::row_permuted::RowPermutedMatrix;
use numerical_methods::matrix::solve_upper::solve_upper;
use numerical_methods::matrix::traits::{set_entry, MatrixMutRef, MatrixRef};
use numerical_methods::matrix::transpose::MatrixTranspose;
use numerical_methods::qr_decomposition::{sqrt, QRDecomposition};
use numerical_methods::representation::{repr_mut, repr_ref, Representation};
use numerical_methods::scalar::{Index, Numerical, OtherNumericalOps};

#[derive(Clone, Copy, Debug, PartialEq)]
struct Real(f64);

impl OtherNumericalOps for Real {
    fn abs_spec(self) -> Self {
        Real(self.0.abs())
    }

    fn sqrt_spec(self) -> Self {
        Real(self.0.sqrt())
    }

    fn zero_spec() -> Self {
        Real(0.0)
    }

    fn abs_trait(&self) -> Self {
        self.abs_spec()
    }

    fn sqrt_trait(&self) -> Self {
        self.sqrt_spec()
    }

    fn zero() -> Self {
        Self::zero_spec()
    }
}

impl Numerical for Real {
    fn add_spec(self, rhs: Self) -> Self {
        Real(self.0 + rhs.0)
    }

    fn sub_spec(self, rhs: Self) -> Self {
        Real(self.0 - rhs.0)
    }

    fn mul_spec(self, rhs: Self) -> Self {
        Real(self.0 * rhs.0)
    }

    fn div_spec(self, rhs: Self) -> Self {
        Real(self.0 / rhs.0)
    }

    fn neg_spec(self) -> Self {
        Real(-self.0)
    }

    fn lt_spec(self, rhs: Self) -> bool {
        self.0 < rhs.0
    }

    fn le_spec(self, rhs: Self) -> bool {
        self.0 <= rhs.0
    }

    fn eq_spec(self, rhs: Self) -> bool {
        self.0 == rhs.0
    }

    fn max_spec(self, rhs: Self) -> Self {
        Real(self.0.max(rhs.0))
    }

    fn from_i32_spec(value: i32) -> Self {
        Real(f64::from(value))
    }

    fn from_index_spec(value: Index) -> Self {
        Real(value as f64)
    }

    fn total_le_spec(self, rhs: Self) -> bool {
        self.0.total_cmp(&rhs.0) != std::cmp::Ordering::Greater
    }

    fn add(self, rhs: Self) -> Self {
        self.add_spec(rhs)
    }

    fn sub(self, rhs: Self) -> Self {
        self.sub_spec(rhs)
    }

    fn mul(self, rhs: Self) -> Self {
        self.mul_spec(rhs)
    }

    fn div(self, rhs: Self) -> Self {
        self.div_spec(rhs)
    }

    fn neg(self) -> Self {
        self.neg_spec()
    }

    fn lt(self, rhs: Self) -> bool {
        self.lt_spec(rhs)
    }

    fn le(self, rhs: Self) -> bool {
        self.le_spec(rhs)
    }

    fn eq(self, rhs: Self) -> bool {
        self.eq_spec(rhs)
    }

    fn max(self, rhs: Self) -> Self {
        self.max_spec(rhs)
    }

    fn from_i32(value: i32) -> Self {
        Self::from_i32_spec(value)
    }

    fn from_index(value: Index) -> Self {
        Self::from_index_spec(value)
    }

    fn total_le(self, rhs: Self) -> bool {
        self.total_le_spec(rhs)
    }

    fn total_le_is_total(_a: Self, _b: Self) {}

    fn total_le_is_transitive(_a: Self, _b: Self, _c: Self) {}
}

fn reals(values: &[f64]) -> Vec<Real> {
    values.iter().map(|v| Real(*v)).collect()
}

fn floats(values: &[Real]) -> Vec<f64> {
    values.iter().map(|v| v.0).collect()
}

fn multiply(matrix: &[f64], n: usize, x: &[f64]) -> Vec<f64> {
    (0..n).map(|i| (0..n).map(|j| matrix[i * n + j] * x[j]).sum()).collect()
}

#[test]
fn a_column_major_matrix_lists_its_columns() {
    let matrix = DenseColMatrix::new(2, reals(&[1.0, 2.0, 3.0, 4.0]));
    assert_eq!(matrix.dimension(), 2);
    assert_eq!(matrix.at(0, 0), Real(1.0));
    assert_eq!(matrix.at(1, 0), Real(2.0));
    assert_eq!(matrix.at(0, 1), Real(3.0));
    assert_eq!(matrix.at(1, 1), Real(4.0));
}

#[test]
fn a_row_major_matrix_lists_its_rows() {
    let matrix = DenseRowMatrix::new(2, reals(&[1.0, 2.0, 3.0, 4.0]));
    assert_eq!(matrix.dimension(), 2);
    assert_eq!(matrix.at(0, 0), Real(1.0));
    assert_eq!(matrix.at(0, 1), Real(2.0));
    assert_eq!(matrix.at(1, 0), Real(3.0));
    assert_eq!(matrix.at(1, 1), Real(4.0));
}

#[test]
fn at_mut_writes_one_entry() {
    let mut matrix = DenseRowMatrix::new(2, reals(&[1.0, 2.0, 3.0, 4.0]));
    *matrix.at_mut(0, 1) = Real(9.0);
    assert_eq!(matrix.at(0, 0), Real(1.0));
    assert_eq!(matrix.at(0, 1), Real(9.0));
    assert_eq!(matrix.at(1, 0), Real(3.0));
    assert_eq!(matrix.at(1, 1), Real(4.0));
    set_entry(&mut matrix, 1, 0, Real(-3.0));
    assert_eq!(matrix.at(1, 0), Real(-3.0));
    assert_eq!(matrix.at(0, 1), Real(9.0));
}

#[test]
fn a_transpose_exchanges_rows_and_columns() {
    let matrix = MatrixTranspose::from(DenseRowMatrix::new(2, reals(&[1.0, 2.0, 3.0, 4.0])));
    assert_eq!(matrix.dimension(), 2);
    assert_eq!(matrix.at(0, 1), Real(3.0));
    assert_eq!(matrix.at(1, 0), Real(2.0));
}

#[test]
fn a_vector_of_indices_is_a_permutation() {
    let permutation: Vec<Index> = vec![2, 0, 1];
    assert_eq!(permutation.permute(0), 2);
    assert_eq!(permutation.permute(1), 0);
    assert_eq!(permutation.permute(2), 1);
    assert_eq!(repr_ref(&permutation).permute(0), 2);
}

#[test]
fn a_row_permuted_matrix_reads_and_writes_the_permuted_row() {
    let matrix = DenseRowMatrix::new(3, reals(&[1.0, 2.0, 3.0, 4.0, 5.0, 6.0, 7.0, 8.0, 9.0]));
    let permutation: Vec<Index> = vec![2, 0, 1];
    let mut permuted = RowPermutedMatrix::new(matrix, permutation);
    assert_eq!(permuted.dimension(), 3);
    assert_eq!(permuted.at(0, 0), Real(7.0));
    assert_eq!(permuted.at(1, 2), Real(3.0));
    assert_eq!(permuted.at(2, 1), Real(5.0));
    *permuted.at_mut(0, 0) = Real(70.0);
    assert_eq!(permuted.at(0, 0), Real(70.0));
    assert_eq!(permuted.at(1, 0), Real(1.0));
}

#[test]
fn a_representation_shows_what_it_stores() {
    let mut vector = reals(&[1.0, 2.0]);
    {
        let shown = repr_ref(&vector);
        assert_eq!(shown.represent().len(), 2);
        assert_eq!(shown.dimension(), 2);
        assert_eq!(shown.at(1), Real(2.0));
    }
    {
        let mut shown = repr_mut(&mut vector);
        *shown.at_mut(0) = Real(5.0);
        shown.represent_mut().push(Real(7.0));
    }
    assert_eq!(floats(&vector), vec![5.0, 2.0, 7.0]);
    let owned: Representation<Vec<Real>, Vec<Real>> = Representation::from(vector);
    assert_eq!(owned.represent().len(), 3);
}

#[test]
fn a_column_of_a_matrix_is_a_column() {
    let matrix = DenseRowMatrix::new(2, reals(&[1.0, 2.0, 3.0, 4.0]));
    let mut column = ColumnOf::new(matrix, 1);
    assert_eq!(column.dimension(), 2);
    assert_eq!(column.at(0), Real(2.0));
    assert_eq!(column.at(1), Real(4.0));
    set_at(&mut column, 0, Real(-2.0));
    assert_eq!(column.at(0), Real(-2.0));
    assert_eq!(column.at(1), Real(4.0));
}

#[test]
fn dot_multiplies_entry_by_entry() {
    assert_eq!(dot(&reals(&[1.0, 2.0, 3.0]), &reals(&[4.0, 5.0, 6.0])), Real(32.0));
}

#[test]
fn norms_of_a_column() {
    let column = reals(&[1.0, -4.0, 2.5]);
    assert_eq!(NormedColumn::norm_one(&column), Real(7.5));
    assert_eq!(NormedColumn::norm_inf(&column), Real(4.0));
    let empty: Vec<Real> = Vec::new();
    assert_eq!(NormedColumn::norm_one(&empty), Real(0.0));
    assert_eq!(NormedColumn::norm_inf(&empty), Real(0.0));
}

#[test]
fn norms_of_a_matrix() {
    let matrix = DenseRowMatrix::new(2, reals(&[1.0, -2.0, 3.0, 4.0]));
    // Column sums 4 and 6, row sums 3 and 7.
    assert_eq!(NormedMatrix::norm_one(&matrix), Real(6.0));
    assert_eq!(NormedMatrix::norm_inf(&matrix), Real(7.0));
}

#[test]
fn solve_upper_substitutes_backwards() {
    let matrix = DenseRowMatrix::new(3, reals(&[2.0, 1.0, -1.0, 0.0, 4.0, 2.0, 0.0, 0.0, 5.0]));
    let mut vector = reals(&[1.0, 14.0, 15.0]);
    solve_upper(&matrix, &mut vector);
    assert_eq!(floats(&vector), vec![1.0, 2.0, 3.0]);
}

#[test]
fn sqrt_is_the_square_root() {
    assert_eq!(sqrt(Real(6.25)), Real(2.5));
}

#[test]
fn qr_decomposition_solves_well_conditioned_systems() {
    let cases: Vec<(Vec<f64>, Vec<f64>)> = vec![
        (vec![0.0, 2.0, 3.0, 1.0, 2.0, 4.0, 4.0, 5.0, 6.0], vec![1.0, 2.0, 3.0]),
        (vec![8.0, 1.0, 1.0, 1.0, 10.0, 1.0, 1.0, 1.0, 12.0], vec![1.0, 1.0, 1.0]),
        (vec![8.0, 9.0, 10.0, 11.0, 10.0, 7.0, 10.0, 11.0, 12.0], vec![16.0, -22.0, 8.0]),
    ];
    for (entries, answer) in cases {
        let b = multiply(&entries, 3, &answer);
        let decomposition = QRDecomposition::calculate(DenseRowMatrix::new(3, reals(&entries)));
        let mut x = reals(&b);
        decomposition.solve(&mut x);
        for (found, expected) in x.iter().zip(&answer) {
            assert!((found.0 - expected).abs() < 1e-9 * expected.abs().max(1.0), "{} is not close to {}", found.0, expected);
        }
    }
}

#[test]
fn qr_decomposition_of_a_one_by_one_matrix() {
    let decomposition = QRDecomposition::calculate(DenseRowMatrix::new(1, reals(&[4.0])));
    let mut x = reals(&[10.0]);
    decomposition.solve(&mut x);
    assert_eq!(floats(&x), vec![2.5]);
}
