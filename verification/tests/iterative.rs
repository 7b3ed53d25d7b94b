use numerical_methods::iterative_methods::{simple_iterative_solve, zeidel_iterative_solve};
use numerical_methods::matrix::dense::DenseRowMatrix;
use numerical_methods::scalar::{Index, Numerical, OtherNumericalOps};
use numerical_methods::vector::{
    apply, divide_all, gram, lower_diagonal, norm_one, normalize, raise_diagonal, table_norm_inf,
    table_norm_one, transpose_apply,
};

#[derive(Clone, Copy, Debug, PartialEq)]
struct Real(f64);

impl OtherNumericalOps for Real {
    fn abs_spec(self) -> Self {
        Real(self.0.abs())
    }

    fn sqrt_spec(self) -> Self {
        Real(self.0.sqrt())
    }

    fn zero_spec() -> Self {
        Real(0.0)
    }

    fn abs_trait(&self) -> Self {
        self.abs_spec()
    }

    fn sqrt_trait(&self) -> Self {
        self.sqrt_spec()
    }

    fn zero() -> Self {
        Self::zero_spec()
    }
}

impl Numerical for Real {
    fn add_spec(self, rhs: Self) -> Self {
        Real(self.0 + rhs.0)
    }

    fn sub_spec(self, rhs: Self) -> Self {
        Real(self.0 - rhs.0)
    }

    fn mul_spec(self, rhs: Self) -> Self {
        Real(self.0 * rhs.0)
    }

    fn div_spec(self, rhs: Self) -> Self {
        Real(self.0 / rhs.0)
    }

    fn neg_spec(self) -> Self {
        Real(-self.0)
    }

    fn lt_spec(self, rhs: Self) -> bool {
        self.0 < rhs.0
    }

    fn le_spec(self, rhs: Self) -> bool {
        self.0 <= rhs.0
    }

    fn eq_spec(self, rhs: Self) -> bool {
        self.0 == rhs.0
    }

    fn max_spec(self, rhs: Self) -> Self {
        Real(self.0.max(rhs.0))
    }

    fn from_i32_spec(value: i32) -> Self {
        Real(f64::from(value))
    }

    fn from_index_spec(value: Index) -> Self {
        Real(value as f64)
    }

    fn total_le_spec(self, rhs: Self) -> bool {
        self.0.total_cmp(&rhs.0) != std::cmp::Ordering::Greater
    }

    fn add(self, rhs: Self) -> Self {
        self.add_spec(rhs)
    }

    fn sub(self, rhs: Self) -> Self {
        self.sub_spec(rhs)
    }

    fn mul(self, rhs: Self) -> Self {
        self.mul_spec(rhs)
    }

    fn div(self, rhs: Self) -> Self {
        self.div_spec(rhs)
    }

    fn neg(self) -> Self {
        self.neg_spec()
    }

    fn lt(self, rhs: Self) -> bool {
        self.lt_spec(rhs)
    }

    fn le(self, rhs: Self) -> bool {
        self.le_spec(rhs)
    }

    fn eq(self, rhs: Self) -> bool {
        self.eq_spec(rhs)
    }

    fn max(self, rhs: Self) -> Self {
        self.max_spec(rhs)
    }

    fn from_i32(value: i32) -> Self {
        Self::from_i32_spec(value)
    }

    fn from_index(value: Index) -> Self {
        Self::from_index_spec(value)
    }

    fn total_le(self, rhs: Self) -> bool {
        self.total_le_spec(rhs)
    }

    fn total_le_is_total(_a: Self, _b: Self) {}

    fn total_le_is_transitive(_a: Self, _b: Self, _c: Self) {}
}

fn reals(values: &[f64]) -> Vec<Real> {
    values.iter().map(|v| Real(*v)).collect()
}

fn floats(values: &[Real]) -> Vec<f64> {
    values.iter().map(|v| v.0).collect()
}

fn assert_close(found: &[f64], expected: &[f64], tolerance: f64) {
    assert_eq!(found.len(), expected.len());
    for (f, e) in found.iter().zip(expected) {
        assert!((f - e).abs() <= tolerance, "{f} is not close to {e}");
    }
}

#[test]
fn vector_helpers() {
    assert_eq!(norm_one(&reals(&[1.0, -2.0, 3.5])), Real(6.5));
    assert_eq!(floats(&divide_all(&reals(&[1.0, -2.0]), Real(4.0))), vec![0.25, -0.5]);
    assert_eq!(floats(&normalize(&reals(&[1.0, -3.0]))), vec![0.25, -0.75]);
    let matrix = reals(&[1.0, 2.0, 3.0, 4.0]);
    assert_eq!(floats(&apply(&matrix, 2, &reals(&[5.0, 6.0]))), vec![17.0, 39.0]);
    assert_eq!(floats(&transpose_apply(&matrix, 2, &reals(&[5.0, 6.0]))), vec![23.0, 34.0]);
    assert_eq!(floats(&gram(&matrix, 2)), vec![10.0, 14.0, 14.0, 20.0]);
    assert_eq!(table_norm_one(&reals(&[1.0, -2.0, 3.0, 4.0]), 2), Real(6.0));
    assert_eq!(table_norm_inf(&reals(&[1.0, -2.0, 3.0, 4.0]), 2), Real(7.0));
}

#[test]
fn the_diagonal_is_shifted_down_and_up() {
    let mut matrix = reals(&[1.0, 2.0, 3.0, 4.0]);
    lower_diagonal(&mut matrix, 2, Real(0.5));
    assert_eq!(floats(&matrix), vec![0.5, 2.0, 3.0, 3.5]);
    raise_diagonal(&mut matrix, 2, Real(1.5));
    assert_eq!(floats(&matrix), vec![2.0, 2.0, 3.0, 5.0]);
}

#[test]
fn simple_iteration_solves_a_diagonally_dominant_system() {
    let matrix = DenseRowMatrix::new(3, reals(&[8.0, 1.0, 1.0, 1.0, 10.0, 1.0, 1.0, 1.0, 12.0]));
    let vector = reals(&[10.0, 12.0, 14.0]);
    for accuracy in [1e-2, 1e-4, 1e-6, 1e-10] {
        let (answer, steps): (Vec<Real>, Index) =
            simple_iterative_solve(&matrix, &vector, Real(accuracy)).expect("converges");
        assert!(steps > 0);
        assert_close(&floats(&answer), &[1.0, 1.0, 1.0], accuracy);
    }
}

#[test]
fn seidel_solves_a_diagonally_dominant_system() {
    let matrix = DenseRowMatrix::new(3, reals(&[8.0, 1.0, 1.0, 1.0, 10.0, 1.0, 1.0, 1.0, 12.0]));
    let vector = reals(&[10.0, 12.0, 14.0]);
    for accuracy in [1e-2, 1e-4, 1e-6, 1e-10] {
        let (answer, steps): (Vec<Real>, Index) =
            zeidel_iterative_solve(&matrix, &vector, Real(accuracy)).expect("converges");
        assert!(steps > 0);
        assert_close(&floats(&answer), &[1.0, 1.0, 1.0], accuracy);
    }
}

#[test]
fn seidel_takes_fewer_steps_than_simple_iteration() {
    let matrix = DenseRowMatrix::new(3, reals(&[8.0, 1.0, 1.0, 1.0, 10.0, 1.0, 1.0, 1.0, 12.0]));
    let vector = reals(&[10.0, 12.0, 14.0]);
    let (_, simple): (Vec<Real>, Index) =
        simple_iterative_solve(&matrix, &vector, Real(1e-8)).expect("converges");
    let (_, seidel): (Vec<Real>, Index) =
        zeidel_iterative_solve(&matrix, &vector, Real(1e-8)).expect("converges");
    assert!(seidel < simple, "{seidel} steps against {simple}");
}

#[test]
fn both_methods_pass_to_the_normal_equations_when_no_norm_is_below_one() {
    let entries = [0.0, 2.0, 3.0, 1.0, 2.0, 4.0, 4.0, 5.0, 6.0];
    let matrix = DenseRowMatrix::new(3, reals(&entries));
    let vector = reals(&[13.0, 17.0, 32.0]);
    let (answer, _): (Vec<Real>, Index) =
        zeidel_iterative_solve(&matrix, &vector, Real(1e-8)).expect("converges");
    assert_close(&floats(&answer), &[1.0, 2.0, 3.0], 1e-4);
    let (answer, _): (Vec<Real>, Index) =
        simple_iterative_solve(&matrix, &vector, Real(1e-8)).expect("converges");
    assert_close(&floats(&answer), &[1.0, 2.0, 3.0], 1e-4);
}

#[test]
fn an_accuracy_that_compares_with_nothing_ends_the_iteration_at_once() {
    let matrix = DenseRowMatrix::new(2, reals(&[4.0, 1.0, 1.0, 4.0]));
    let vector = reals(&[5.0, 5.0]);
    let (answer, steps): (Vec<Real>, Index) =
        simple_iterative_solve(&matrix, &vector, Real(f64::NAN)).expect("no step is taken");
    assert_eq!(steps, 0);
    // The first iterate is the right-hand side over the one-norm of the matrix.
    assert_eq!(floats(&answer), vec![1.0, 1.0]);
}

#[test]
fn seidel_gives_up_on_a_matrix_with_a_zero_column() {
    let matrix = DenseRowMatrix::new(2, reals(&[0.0, 1.0, 0.0, 2.0]));
    let vector = reals(&[1.0, 2.0]);
    let result: Option<(Vec<Real>, Index)> = zeidel_iterative_solve(&matrix, &vector, Real(1e-6));
    assert!(result.is_none());
}
