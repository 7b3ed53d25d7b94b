use numerical_methods::lu::{dot_product, LUDecomposition};
use numerical_methods::scalar::{
    min_pivot, pm_convergence, pm_min_coord, subdiagonal_small, Index, Numerical,
    OtherNumericalOps, MAX_ITERATIONS,
};

#[derive(Clone, Copy, Debug, PartialEq)]
struct Real(f64);

impl OtherNumericalOps for Real {
    fn abs_spec(self) -> Self {
        Real(self.0.abs())
    }

    fn sqrt_spec(self) -> Self {
        Real(self.0.sqrt())
    }

    fn zero_spec() -> Self {
        Real(0.0)
    }

    fn abs_trait(&self) -> Self {
        self.abs_spec()
    }

    fn sqrt_trait(&self) -> Self {
        self.sqrt_spec()
    }

    fn zero() -> Self {
        Self::zero_spec()
    }
}

impl Numerical for Real {
    fn add_spec(self, rhs: Self) -> Self {
        Real(self.0 + rhs.0)
    }

    fn sub_spec(self, rhs: Self) -> Self {
        Real(self.0 - rhs.0)
    }

    fn mul_spec(self, rhs: Self) -> Self {
        Real(self.0 * rhs.0)
    }

    fn div_spec(self, rhs: Self) -> Self {
        Real(self.0 / rhs.0)
    }

    fn neg_spec(self) -> Self {
        Real(-self.0)
    }

    fn lt_spec(self, rhs: Self) -> bool {
        self.0 < rhs.0
    }

    fn le_spec(self, rhs: Self) -> bool {
        self.0 <= rhs.0
    }

    fn eq_spec(self, rhs: Self) -> bool {
        self.0 == rhs.0
    }

    fn max_spec(self, rhs: Self) -> Self {
        Real(self.0.max(rhs.0))
    }

    fn from_i32_spec(value: i32) -> Self {
        Real(f64::from(value))
    }

    fn from_index_spec(value: Index) -> Self {
        Real(value as f64)
    }

    fn total_le_spec(self, rhs: Self) -> bool {
        self.0.total_cmp(&rhs.0) != std::cmp::Ordering::Greater
    }

    fn add(self, rhs: Self) -> Self {
        self.add_spec(rhs)
    }

    fn sub(self, rhs: Self) -> Self {
        self.sub_spec(rhs)
    }

    fn mul(self, rhs: Self) -> Self {
        self.mul_spec(rhs)
    }

    fn div(self, rhs: Self) -> Self {
        self.div_spec(rhs)
    }

    fn neg(self) -> Self {
        self.neg_spec()
    }

    fn lt(self, rhs: Self) -> bool {
        self.lt_spec(rhs)
    }

    fn le(self, rhs: Self) -> bool {
        self.le_spec(rhs)
    }

    fn eq(self, rhs: Self) -> bool {
        self.eq_spec(rhs)
    }

    fn max(self, rhs: Self) -> Self {
        self.max_spec(rhs)
    }

    fn from_i32(value: i32) -> Self {
        Self::from_i32_spec(value)
    }

    fn from_index(value: Index) -> Self {
        Self::from_index_spec(value)
    }

    fn total_le(self, rhs: Self) -> bool {
        self.total_le_spec(rhs)
    }

    fn total_le_is_total(_a: Self, _b: Self) {}

    fn total_le_is_transitive(_a: Self, _b: Self, _c: Self) {}
}

fn reals(values: &[f64]) -> Vec<Real> {
    values.iter().map(|v| Real(*v)).collect()
}

fn floats(values: &[Real]) -> Vec<f64> {
    values.iter().map(|v| v.0).collect()
}


fn multiply(matrix: &[f64], n: usize, x: &[f64]) -> Vec<f64> {
    (0..n).map(|i| (0..n).map(|j| matrix[i * n + j] * x[j]).sum()).collect()
}

fn assert_close(found: &[f64], expected: &[f64], tolerance: f64) {
    assert_eq!(found.len(), expected.len());
    for (f, e) in found.iter().zip(expected) {
        assert!((f - e).abs() <= tolerance * e.abs().max(1.0), "{f} is not close to {e}");
    }
}

#[test]
fn tolerances_have_their_exact_values() {
    assert_eq!(min_pivot::<Real>(), Real(1e-7));
    assert_eq!(pm_min_coord::<Real>(), Real(1e-8));
    assert_eq!(pm_convergence::<Real>(), Real(1e-6));
    assert_eq!(subdiagonal_small::<Real>(), Real(1e-8));
    assert_eq!(MAX_ITERATIONS, 1_000_000);
}

#[test]
fn dot_product_adds_the_products_from_zero() {
    let x = reals(&[1.0, 2.0, 3.0]);
    let y = reals(&[4.0, 5.0, 6.0]);
    assert_eq!(dot_product(&x, &y), Real(32.0));
    assert_eq!(dot_product::<Real>(&[], &[]), Real(0.0));
    // The sum starts at positive zero, so a single negative zero does not survive.
    let z = dot_product(&reals(&[-0.0]), &reals(&[1.0]));
    assert!(z.0 == 0.0 && z.0.is_sign_positive());
}

#[test]
fn dot_product_keeps_the_order_of_the_additions() {
    // (1e16 + 1) + -1e16 loses the one; 1e16 + (1 + -1e16) would not differ here,
    // but ((0 + 1) + 1e16) + -1e16 == 0 while (0 + 1e16) + -1e16 + 1 == 1.
    let x = reals(&[1.0, 1e16, -1e16]);
    let ones = reals(&[1.0, 1.0, 1.0]);
    assert_eq!(dot_product(&x, &ones), Real(0.0));
    let x = reals(&[1e16, -1e16, 1.0]);
    assert_eq!(dot_product(&x, &ones), Real(1.0));
}

#[test]
fn solve_reproduces_the_solution_of_a_system_that_needs_pivoting() {
    let matrix = reals(&[0.0, 2.0, 3.0, 1.0, 2.0, 4.0, 4.0, 5.0, 6.0]);
    let lu = LUDecomposition::compute(&matrix, 3).expect("the matrix is invertible");
    let mut x = reals(&[13.0, 17.0, 32.0]);
    lu.solve(&mut x);
    assert_close(&floats(&x), &[1.0, 2.0, 3.0], 1e-9);
}

#[test]
fn solve_reproduces_solutions_of_well_conditioned_systems() {
    let cases: Vec<(Vec<f64>, Vec<f64>)> = vec![
        (vec![8.0, 1.0, 1.0, 1.0, 10.0, 1.0, 1.0, 1.0, 12.0], vec![1.0, 1.0, 1.0]),
        (
            vec![-8.0, 1.0, 1.0, 1.0, -10.0, 1.0, 1.0, 1.0, -12.0],
            vec![375.0 / 232.0, 349.0 / 232.0, 331.0 / 232.0],
        ),
        (
            vec![-8.0, 9.0, 10.0, 11.0, -10.0, 7.0, 10.0, 11.0, -12.0],
            vec![444.0 / 307.0, 358.0 / 307.0, 340.0 / 307.0],
        ),
        (vec![8.0, 9.0, 10.0, 11.0, 10.0, 7.0, 10.0, 11.0, 12.0], vec![16.0, -22.0, 8.0]),
    ];
    for (matrix, answer) in cases {
        let b = multiply(&matrix, 3, &answer);
        let lu = LUDecomposition::compute(&reals(&matrix), 3).expect("the matrix is invertible");
        let mut x = reals(&b);
        lu.solve(&mut x);
        assert_close(&floats(&x), &answer, 1e-9);
    }
}

#[test]
fn solve_of_a_larger_system_is_accurate() {
    let n = 6;
    let mut matrix = vec![0.0; n * n];
    for i in 0..n {
        for j in 0..n {
            matrix[i * n + j] = if i == j { 10.0 + i as f64 } else { 1.0 / (1.0 + i as f64 + 2.0 * j as f64) };
        }
    }
    let answer: Vec<f64> = (0..n).map(|i| 1.0 - 0.5 * i as f64).collect();
    let b = multiply(&matrix, n, &answer);
    let lu = LUDecomposition::compute(&reals(&matrix), n).expect("the matrix is invertible");
    let mut x = reals(&b);
    lu.solve(&mut x);
    assert_close(&floats(&x), &answer, 1e-9);
}

#[test]
fn a_factorisation_serves_many_right_hand_sides() {
    let matrix = [2.0, 1.0, 1.0, 3.0];
    let lu = LUDecomposition::compute(&reals(&matrix), 2).expect("the matrix is invertible");
    for answer in [[1.0, 0.0], [0.0, 1.0], [-2.0, 5.0], [0.25, 0.125]] {
        let mut x = reals(&multiply(&matrix, 2, &answer));
        lu.solve(&mut x);
        assert_close(&floats(&x), &answer, 1e-12);
    }
}

#[test]
fn solve_with_a_permutation_matrix_undoes_the_permutation() {
    // Rows 0 -> 2, 1 -> 0, 2 -> 1: all arithmetic is exact.
    let matrix = reals(&[0.0, 1.0, 0.0, 0.0, 0.0, 1.0, 1.0, 0.0, 0.0]);
    let lu = LUDecomposition::compute(&matrix, 3).expect("a permutation is invertible");
    let mut x = reals(&[20.0, 30.0, 10.0]);
    lu.solve(&mut x);
    assert_eq!(floats(&x), vec![10.0, 20.0, 30.0]);
}

#[test]
fn compute_fails_for_a_zero_row_or_column() {
    assert!(LUDecomposition::compute(&reals(&[0.0, 0.0, 0.0, 1.0]), 2).is_none());
    assert!(LUDecomposition::compute(&reals(&[1.0, 2.0, 0.0, 0.0]), 2).is_none());
    assert!(LUDecomposition::compute(&reals(&[1.0, 0.0, 3.0, 0.0]), 2).is_none());
    assert!(LUDecomposition::compute(&reals(&[1.0, 2.0, 3.0, 0.0, 0.0, 0.0, 4.0, 5.0, 6.0]), 3).is_none());
    assert!(LUDecomposition::compute(&reals(&[1.0, 0.0, 3.0, 4.0, 0.0, 6.0, 7.0, 0.0, 9.0]), 3).is_none());
}

#[test]
fn compute_fails_for_dependent_rows() {
    assert!(LUDecomposition::compute(&reals(&[1.0, 2.0, 2.0, 4.0]), 2).is_none());
}

#[test]
fn compute_rejects_a_pivot_below_the_tolerance_only() {
    assert!(LUDecomposition::compute(&reals(&[0.99e-7]), 1).is_none());
    assert!(LUDecomposition::compute(&reals(&[1e-7]), 1).is_some());
    assert!(LUDecomposition::compute(&reals(&[-1e-7]), 1).is_some());
    assert!(LUDecomposition::compute(&reals(&[-0.5e-7]), 1).is_none());
}

#[test]
fn compute_accepts_the_empty_matrix() {
    let lu = LUDecomposition::<Real>::compute(&Vec::new(), 0).expect("nothing to pivot on");
    let mut x: Vec<Real> = Vec::new();
    lu.solve(&mut x);
    assert!(x.is_empty());
}

#[test]
fn new_zero_of_dimension_zero_solves_the_empty_system() {
    let lu = LUDecomposition::<Real>::new_zero(0);
    let mut x: Vec<Real> = Vec::new();
    lu.solve(&mut x);
    assert!(x.is_empty());
}

#[test]
fn new_zero_divides_by_its_zero_diagonal() {
    let lu = LUDecomposition::<Real>::new_zero(1);
    let mut x = reals(&[1.0]);
    lu.solve(&mut x);
    assert!(x[0].0.is_nan() || x[0].0.is_infinite());
}

#[test]
fn the_first_of_equally_large_candidates_is_the_pivot() {
    // Both rows offer magnitude 2 in the first column. With row 0 as the pivot the
    // multiplier of row 1 is -1 and the solution below is exact.
    let matrix = reals(&[2.0, 1.0, -2.0, 3.0]);
    let lu = LUDecomposition::compute(&matrix, 2).expect("the matrix is invertible");
    let mut x = reals(&[3.0, 1.0]);
    lu.solve(&mut x);
    assert_eq!(floats(&x), vec![1.0, 1.0]);
}

#[test]
fn the_pivots_form_a_permutation_and_the_factors_are_triangular() {
    let n = 4;
    let matrix = [
        0.5, -2.0, 3.0, 1.0, 4.0, 1.0, -1.0, 2.0, -3.0, 0.25, 2.0, 0.0, 1.0, 6.0, -2.0, 5.0,
    ];
    let lu = LUDecomposition::compute(&reals(&matrix), n).expect("the matrix is invertible");
    let p = lu.permutation();
    let q = lu.inverse_permutation();
    for i in 0..n {
        assert!(p[i] < n && q[i] < n);
        assert_eq!(q[p[i]], i);
        assert_eq!(p[q[i]], i);
    }
    let lower = lu.lower();
    let upper = lu.upper();
    for a in 0..n {
        for b in 0..n {
            let position = n * p[a] + p[b];
            if a == b {
                assert_eq!(lower[position], Real(1.0));
            }
            if a < b {
                assert_eq!(lower[position], Real(0.0));
            }
            if a > b {
                assert_eq!(upper[position], Real(0.0));
            }
        }
    }
    // The product of the factors gives the matrix back, with the columns of the
    // product in pivot order.
    for i in 0..n {
        for k in 0..n {
            let entry: f64 = (0..n).map(|m| lower[n * i + m].0 * upper[n * m + p[k]].0).sum();
            assert!((entry - matrix[n * i + k]).abs() < 1e-12, "entry ({i}, {k})");
        }
    }
}

#[test]
fn a_copy_of_a_factorisation_solves_like_the_factorisation() {
    let lu = LUDecomposition::compute(&reals(&[2.0, 1.0, 1.0, 3.0]), 2).expect("invertible");
    let copy = lu.clone();
    let mut x = reals(&[3.0, 5.0]);
    let mut y = reals(&[3.0, 5.0]);
    lu.solve(&mut x);
    copy.solve(&mut y);
    assert_eq!(floats(&x), floats(&y));
    assert_eq!(floats(copy.lower()), floats(lu.lower()));
}

#[test]
fn compute_of_a_diagonal_matrix_keeps_the_rows_and_eliminates_nothing() {
    let matrix = reals(&[4.0, 0.0, 0.0, 0.0, -0.5, 0.0, 0.0, 0.0, 2.0]);
    let lu = LUDecomposition::compute(&matrix, 3).expect("not singular");
    assert_eq!(floats(lu.lower()), vec![1.0, 0.0, 0.0, 0.0, 1.0, 0.0, 0.0, 0.0, 1.0]);
    assert_eq!(floats(lu.upper()), vec![4.0, 0.0, 0.0, 0.0, -0.5, 0.0, 0.0, 0.0, 2.0]);
    assert_eq!(lu.permutation().to_vec(), vec![0, 1, 2]);
    assert_eq!(lu.inverse_permutation().to_vec(), vec![0, 1, 2]);
    let mut x = reals(&[0.0, 1.0, 0.0]);
    lu.solve(&mut x);
    assert_eq!(floats(&x), vec![0.0, -2.0, 0.0]);
}

#[test]
fn compute_of_a_diagonal_matrix_fails_at_an_entry_below_the_least_pivot() {
    let matrix = reals(&[4.0, 0.0, 0.0, 0.0, 9e-8, 0.0, 0.0, 0.0, 2.0]);
    assert!(LUDecomposition::compute(&matrix, 3).is_none());
    let matrix = reals(&[4.0, 0.0, 0.0, 0.0, 1e-7, 0.0, 0.0, 0.0, 2.0]);
    assert!(LUDecomposition::compute(&matrix, 3).is_some());
}

#[test]
fn solve_of_a_diagonal_system_divides_by_the_diagonal() {
    let diagonal = [4.0, -0.5, 3.0, 1e-3];
    let right = [1.0, 7.0, -2.0, 0.3];
    let n = diagonal.len();
    let mut matrix = vec![0.0; n * n];
    for i in 0..n {
        matrix[i * n + i] = diagonal[i];
    }
    let lu = LUDecomposition::compute(&reals(&matrix), n).expect("not singular");
    let mut x = reals(&right);
    lu.solve(&mut x);
    for i in 0..n {
        assert_eq!(x[i].0, right[i] / diagonal[i]);
        assert!((diagonal[i] * x[i].0 - right[i]).abs() <= 1e-9 * right[i].abs());
    }
}
