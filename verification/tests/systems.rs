use numerical_methods::lu_decomposition::{ColumnEtaMatrix, LUDecomposition, INDEX_NOT_FOUND};
use numerical_methods::matrix::column::{apply, ColumnFunc, ColumnFuncInitializer, ColumnRef};
use numerical_methods::matrix::dense::{DenseColMatrix, DenseRowMatrix};
use numerical_methods::matrix::traits::{MatrixFunc, MatrixFuncInitializer, MatrixRef};
use numerical_methods::matrix::transpose::{MatrixSymmetricSquare, MatrixTranspose};
use numerical_methods::newton_method_n::{
    newton_method_n, newton_method_n_interpolated, newton_method_n_staged,
};
use numerical_methods::representation::Representation;
use numerical_methods::scalar::{Index, Numerical, OtherNumericalOps};

#[derive(Clone, Copy, Debug, PartialEq)]
struct Real(f64);

impl OtherNumericalOps for Real {
    fn abs_spec(self) -> Self {
        Real(self.0.abs())
    }

    fn sqrt_spec(self) -> Self {
        Real(self.0.sqrt())
    }

    fn zero_spec() -> Self {
        Real(0.0)
    }

    fn abs_trait(&self) -> Self {
        self.abs_spec()
    }

    fn sqrt_trait(&self) -> Self {
        self.sqrt_spec()
    }

    fn zero() -> Self {
        Self::zero_spec()
    }
}

impl Numerical for Real {
    fn add_spec(self, rhs: Self) -> Self {
        Real(self.0 + rhs.0)
    }

    fn sub_spec(self, rhs: Self) -> Self {
        Real(self.0 - rhs.0)
    }

    fn mul_spec(self, rhs: Self) -> Self {
        Real(self.0 * rhs.0)
    }

    fn div_spec(self, rhs: Self) -> Self {
        Real(self.0 / rhs.0)
    }

    fn neg_spec(self) -> Self {
        Real(-self.0)
    }

    fn lt_spec(self, rhs: Self) -> bool {
        self.0 < rhs.0
    }

    fn le_spec(self, rhs: Self) -> bool {
        self.0 <= rhs.0
    }

    fn eq_spec(self, rhs: Self) -> bool {
        self.0 == rhs.0
    }

    fn max_spec(self, rhs: Self) -> Self {
        Real(self.0.max(rhs.0))
    }

    fn from_i32_spec(value: i32) -> Self {
        Real(f64::from(value))
    }

    fn from_index_spec(value: Index) -> Self {
        Real(value as f64)
    }

    fn total_le_spec(self, rhs: Self) -> bool {
        self.0.total_cmp(&rhs.0) != std::cmp::Ordering::Greater
    }

    fn add(self, rhs: Self) -> Self {
        self.add_spec(rhs)
    }

    fn sub(self, rhs: Self) -> Self {
        self.sub_spec(rhs)
    }

    fn mul(self, rhs: Self) -> Self {
        self.mul_spec(rhs)
    }

    fn div(self, rhs: Self) -> Self {
        self.div_spec(rhs)
    }

    fn neg(self) -> Self {
        self.neg_spec()
    }

    fn lt(self, rhs: Self) -> bool {
        self.lt_spec(rhs)
    }

    fn le(self, rhs: Self) -> bool {
        self.le_spec(rhs)
    }

    fn eq(self, rhs: Self) -> bool {
        self.eq_spec(rhs)
    }

    fn max(self, rhs: Self) -> Self {
        self.max_spec(rhs)
    }

    fn from_i32(value: i32) -> Self {
        Self::from_i32_spec(value)
    }

    fn from_index(value: Index) -> Self {
        Self::from_index_spec(value)
    }

    fn total_le(self, rhs: Self) -> bool {
        self.total_le_spec(rhs)
    }

    fn total_le_is_total(_a: Self, _b: Self) {}

    fn total_le_is_transitive(_a: Self, _b: Self, _c: Self) {}
}

fn reals(values: &[f64]) -> Vec<Real> {
    values.iter().map(|v| Real(*v)).collect()
}

fn floats(values: &[Real]) -> Vec<f64> {
    values.iter().map(|v| v.0).collect()
}

fn multiply(matrix: &[f64], n: usize, x: &[f64]) -> Vec<f64> {
    (0..n).map(|i| (0..n).map(|j| matrix[i * n + j] * x[j]).sum()).collect()
}

fn rows(matrix: &impl MatrixRef<Scalar = Real>) -> Vec<f64> {
    let n = matrix.dimension();
    (0..n * n).map(|p| matrix.at(p / n, p % n).0).collect()
}

#[test]
fn a_column_from_a_function() {
    let column: Vec<Real> = Vec::new_func(3, |i| Real(i as f64 * 2.0));
    assert_eq!(floats(&column), vec![0.0, 2.0, 4.0]);
    let filled: Vec<Real> = Vec::new_fill(2, Real(7.0));
    assert_eq!(floats(&filled), vec![7.0, 7.0]);
    let copied: Vec<Real> = Vec::from_column(&column);
    assert_eq!(floats(&copied), vec![0.0, 2.0, 4.0]);
    let lazy = ColumnFunc::new(3, |i: Index| Real(1.0 + i as f64));
    assert_eq!(lazy.dimension(), 3);
    assert_eq!(lazy.at(2), Real(3.0));
}

#[test]
fn a_matrix_from_a_function() {
    let dense: DenseColMatrix<Real> = DenseColMatrix::new_func(2, |i, j| Real((10 * i + j) as f64));
    assert_eq!(rows(&dense), vec![0.0, 1.0, 10.0, 11.0]);
    let by_rows: DenseRowMatrix<Real> = DenseRowMatrix::new_func(2, |i, j| Real((10 * i + j) as f64));
    assert_eq!(rows(&by_rows), vec![0.0, 1.0, 10.0, 11.0]);
    let filled: DenseRowMatrix<Real> = DenseRowMatrix::new_fill(2, Real(3.0));
    assert_eq!(rows(&filled), vec![3.0, 3.0, 3.0, 3.0]);
    let lazy = MatrixFunc::new(2, |i: Index, j: Index| Real(if i == j { 1.0 } else { 0.0 }));
    assert_eq!(lazy.dimension(), 2);
    let copied: DenseRowMatrix<Real> = DenseRowMatrix::from_matrix(&lazy);
    assert_eq!(rows(&copied), vec![1.0, 0.0, 0.0, 1.0]);
    let owned: Representation<DenseRowMatrix<Real>, DenseRowMatrix<Real>> =
        Representation::new_func(2, |i, j| Real((i + 2 * j) as f64));
    assert_eq!(rows(&owned), vec![0.0, 2.0, 1.0, 3.0]);
}

#[test]
fn apply_multiplies_a_matrix_with_a_column() {
    let matrix = DenseRowMatrix::new(2, reals(&[1.0, 2.0, 3.0, 4.0]));
    let product: Vec<Real> = apply(&matrix, &reals(&[5.0, 6.0]));
    assert_eq!(floats(&product), vec![17.0, 39.0]);
    let transposed: Vec<Real> = apply(&MatrixTranspose::from(matrix), &reals(&[5.0, 6.0]));
    assert_eq!(floats(&transposed), vec![23.0, 34.0]);
}

#[test]
fn symmetric_square_is_the_transpose_times_the_matrix() {
    let matrix = DenseRowMatrix::new(2, reals(&[1.0, 2.0, 3.0, 4.0]));
    let square: DenseRowMatrix<Real> = matrix.symmetric_square();
    assert_eq!(rows(&square), vec![10.0, 14.0, 14.0, 20.0]);
}

#[test]
fn a_column_of_multipliers_starts_without_a_column() {
    let eta = ColumnEtaMatrix::<Real>::new(3);
    assert_eq!(eta.column, INDEX_NOT_FOUND);
    assert_eq!(floats(&eta.eta_vector), vec![0.0, 0.0, 0.0]);
}

#[test]
fn the_factorisation_with_multipliers_solves_well_conditioned_systems() {
    let cases: Vec<(Vec<f64>, Vec<f64>)> = vec![
        (vec![0.0, 2.0, 3.0, 1.0, 2.0, 4.0, 4.0, 5.0, 6.0], vec![1.0, 2.0, 3.0]),
        (vec![8.0, 1.0, 1.0, 1.0, 10.0, 1.0, 1.0, 1.0, 12.0], vec![1.0, 1.0, 1.0]),
        (
            vec![-8.0, 9.0, 10.0, 11.0, -10.0, 7.0, 10.0, 11.0, -12.0],
            vec![444.0 / 307.0, 358.0 / 307.0, 340.0 / 307.0],
        ),
        (vec![8.0, 9.0, 10.0, 11.0, 10.0, 7.0, 10.0, 11.0, 12.0], vec![16.0, -22.0, 8.0]),
    ];
    for (entries, answer) in cases {
        let b = multiply(&entries, 3, &answer);
        let decomposition = LUDecomposition::calculate(DenseRowMatrix::new(3, reals(&entries)))
            .expect("every column has a pivot");
        let mut x = reals(&b);
        decomposition.solve(&mut x);
        for (found, expected) in x.iter().zip(&answer) {
            assert!((found.0 - expected).abs() < 1e-9 * expected.abs().max(1.0), "{} is not close to {}", found.0, expected);
        }
    }
}

#[test]
fn the_factorisation_with_multipliers_of_a_small_matrix_is_exact() {
    let decomposition = LUDecomposition::calculate(DenseRowMatrix::new(2, reals(&[2.0, 1.0, 4.0, 3.0])))
        .expect("every column has a pivot");
    let mut x = reals(&[4.0, 10.0]);
    decomposition.solve(&mut x);
    assert_eq!(floats(&x), vec![1.0, 2.0]);
    let single = LUDecomposition::calculate(DenseRowMatrix::new(1, reals(&[4.0]))).expect("no column to eliminate");
    let mut x = reals(&[6.0]);
    single.solve(&mut x);
    assert_eq!(floats(&x), vec![1.5]);
}

#[test]
fn the_factorisation_with_multipliers_finds_no_pivot_among_nan() {
    let entries = reals(&[f64::NAN, 1.0, f64::NAN, 1.0]);
    assert!(LUDecomposition::calculate(DenseRowMatrix::new(2, entries)).is_none());
}

fn task_fn(v: &Vec<Real>) -> Vec<Real> {
    let (x, y) = (v[0].0, v[1].0);
    reals(&[-x + (y + 0.5).sin() - 1.0, (x - 2.0).cos() + y])
}

fn task_fnprime(v: &Vec<Real>) -> DenseRowMatrix<Real> {
    let (x, y) = (v[0].0, v[1].0);
    DenseRowMatrix::new(2, reals(&[-1.0, (y + 0.5).cos(), -(x - 2.0).sin(), 1.0]))
}

fn task_fi(lambda: Real, v: &Vec<Real>) -> Vec<Real> {
    let (x, y) = (v[0].0, v[1].0);
    reals(&[-x + lambda.0 * (y + 0.5).sin() - 1.0, lambda.0 * (x - 2.0).cos() + y])
}

fn task_fiprime(lambda: Real, v: &Vec<Real>) -> DenseRowMatrix<Real> {
    let (x, y) = (v[0].0, v[1].0);
    DenseRowMatrix::new(
        2,
        reals(&[-1.0, lambda.0 * (y + 0.5).cos(), -lambda.0 * (x - 2.0).sin(), 1.0]),
    )
}

#[test]
fn newton_method_n_solves_a_system_of_two_equations() {
    let root = newton_method_n(&task_fn, &task_fnprime, reals(&[0.0, 0.0]), Real(1e-4), 100)
        .expect("converges");
    let residual = task_fn(&root);
    assert!(residual[0].0.abs() < 1e-6 && residual[1].0.abs() < 1e-6);
}

#[test]
fn newton_method_n_solves_a_linear_system_in_two_rounds() {
    let f = |v: &Vec<Real>| reals(&[2.0 * v[0].0 + v[1].0 - 4.0, v[0].0 + 3.0 * v[1].0 - 7.0]);
    let fprime = |_: &Vec<Real>| DenseRowMatrix::new(2, reals(&[2.0, 1.0, 1.0, 3.0]));
    assert!(newton_method_n(&f, &fprime, reals(&[0.0, 0.0]), Real(1e-9), 0).is_none());
    assert!(newton_method_n(&f, &fprime, reals(&[0.0, 0.0]), Real(1e-9), 1).is_none());
    let root = newton_method_n(&f, &fprime, reals(&[0.0, 0.0]), Real(1e-9), 2).expect("exact after one round");
    assert!((root[0].0 - 1.0).abs() < 1e-12 && (root[1].0 - 2.0).abs() < 1e-12);
}

#[test]
fn newton_method_n_interpolated_follows_the_parameter() {
    let root = newton_method_n_interpolated(&task_fi, &task_fiprime, 2, 10, Real(1e-4), 100)
        .expect("converges");
    let residual = task_fn(&root);
    assert!(residual[0].0.abs() < 1e-6 && residual[1].0.abs() < 1e-6);
}

#[test]
fn newton_method_n_staged_passes_through_every_stage() {
    // Stage k asks for x = k and y = 2k; every stage is linear.
    let f = |stage: u32, v: &Vec<Real>| reals(&[v[0].0 - stage as f64, v[1].0 - 2.0 * stage as f64]);
    let fprime = |_: u32, _: &Vec<Real>| DenseRowMatrix::new(2, reals(&[1.0, 0.0, 0.0, 1.0]));
    let root = newton_method_n_staged(&f, &fprime, 2, 3, Real(1e-9), 5).expect("converges");
    assert_eq!(floats(&root), vec![3.0, 6.0]);
    let start = newton_method_n_staged(&f, &fprime, 2, 0, Real(1e-9), 5).expect("no stage to run");
    assert_eq!(floats(&start), vec![0.0, 0.0]);
    assert!(newton_method_n_staged(&f, &fprime, 2, 3, Real(1e-9), 1).is_none());
}
