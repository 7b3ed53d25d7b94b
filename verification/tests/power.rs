use numerical_methods::inverse_power_method::{
    inverse_power_method, inverse_power_method_with_cap, InverseIteration,
};
use numerical_methods::lu::LUDecomposition;
use numerical_methods::power_method::{power_method, power_method_with_cap};
use numerical_methods::scalar::{Index, Numerical, OtherNumericalOps};
use numerical_methods::vector::{apply, lower_diagonal, normalize};

#[derive(Clone, Copy, Debug, PartialEq)]
struct Real(f64);

impl OtherNumericalOps for Real {
    fn abs_spec(self) -> Self {
        Real(self.0.abs())
    }

    fn sqrt_spec(self) -> Self {
        Real(self.0.sqrt())
    }

    fn zero_spec() -> Self {
        Real(0.0)
    }

    fn abs_trait(&self) -> Self {
        self.abs_spec()
    }

    fn sqrt_trait(&self) -> Self {
        self.sqrt_spec()
    }

    fn zero() -> Self {
        Self::zero_spec()
    }
}

impl Numerical for Real {
    fn add_spec(self, rhs: Self) -> Self {
        Real(self.0 + rhs.0)
    }

    fn sub_spec(self, rhs: Self) -> Self {
        Real(self.0 - rhs.0)
    }

    fn mul_spec(self, rhs: Self) -> Self {
        Real(self.0 * rhs.0)
    }

    fn div_spec(self, rhs: Self) -> Self {
        Real(self.0 / rhs.0)
    }

    fn neg_spec(self) -> Self {
        Real(-self.0)
    }

    fn lt_spec(self, rhs: Self) -> bool {
        self.0 < rhs.0
    }

    fn le_spec(self, rhs: Self) -> bool {
        self.0 <= rhs.0
    }

    fn eq_spec(self, rhs: Self) -> bool {
        self.0 == rhs.0
    }

    fn max_spec(self, rhs: Self) -> Self {
        Real(self.0.max(rhs.0))
    }

    fn from_i32_spec(value: i32) -> Self {
        Real(f64::from(value))
    }

    fn from_index_spec(value: Index) -> Self {
        Real(value as f64)
    }

    fn total_le_spec(self, rhs: Self) -> bool {
        self.0.total_cmp(&rhs.0) != std::cmp::Ordering::Greater
    }

    fn add(self, rhs: Self) -> Self {
        self.add_spec(rhs)
    }

    fn sub(self, rhs: Self) -> Self {
        self.sub_spec(rhs)
    }

    fn mul(self, rhs: Self) -> Self {
        self.mul_spec(rhs)
    }

    fn div(self, rhs: Self) -> Self {
        self.div_spec(rhs)
    }

    fn neg(self) -> Self {
        self.neg_spec()
    }

    fn lt(self, rhs: Self) -> bool {
        self.lt_spec(rhs)
    }

    fn le(self, rhs: Self) -> bool {
        self.le_spec(rhs)
    }

    fn eq(self, rhs: Self) -> bool {
        self.eq_spec(rhs)
    }

    fn max(self, rhs: Self) -> Self {
        self.max_spec(rhs)
    }

    fn from_i32(value: i32) -> Self {
        Self::from_i32_spec(value)
    }

    fn from_index(value: Index) -> Self {
        Self::from_index_spec(value)
    }

    fn total_le(self, rhs: Self) -> bool {
        self.total_le_spec(rhs)
    }

    fn total_le_is_total(_a: Self, _b: Self) {}

    fn total_le_is_transitive(_a: Self, _b: Self, _c: Self) {}
}

fn reals(values: &[f64]) -> Vec<Real> {
    values.iter().map(|v| Real(*v)).collect()
}

fn floats(values: &[Real]) -> Vec<f64> {
    values.iter().map(|v| v.0).collect()
}


#[test]
fn power_method_finds_the_dominant_eigenvalue_of_a_diagonal_matrix() {
    let found = power_method(&reals(&[2.0, 0.0, 0.0, 1.0]), 2).expect("converges");
    assert_eq!(found.value, Real(2.0));
    assert_eq!(floats(&found.vector), vec![1.0, 0.0]);
}

#[test]
fn power_method_needs_two_rounds_on_a_diagonal_matrix() {
    let matrix = reals(&[2.0, 0.0, 0.0, 1.0]);
    assert!(power_method_with_cap(&matrix, 2, 0).is_none());
    assert!(power_method_with_cap(&matrix, 2, 1).is_none());
    let found = power_method_with_cap(&matrix, 2, 2).expect("the second round settles");
    assert_eq!(found.value, Real(2.0));
}

#[test]
fn power_method_converges_on_a_symmetric_matrix() {
    // Eigenvalues 1 and 3, the latter with eigenvector (1, 1).
    let found = power_method(&reals(&[2.0, 1.0, 1.0, 2.0]), 2).expect("converges");
    assert!((found.value.0 - 3.0).abs() < 1e-5);
    assert!((found.vector[0].0 - 0.5).abs() < 1e-5);
    assert!((found.vector[1].0 - 0.5).abs() < 1e-5);
    let norm: f64 = found.vector.iter().map(|v| v.0.abs()).sum();
    assert!((norm - 1.0).abs() < 1e-12);
}

#[test]
fn power_method_finds_a_negative_dominant_eigenvalue() {
    let found = power_method(&reals(&[-5.0, 0.0, 0.0, 0.0, 2.0, 0.0, 0.0, 0.0, 1.0]), 3).expect("converges");
    assert_eq!(found.value, Real(-5.0));
}

#[test]
fn power_method_on_a_one_by_one_matrix() {
    let found = power_method(&reals(&[7.0]), 1).expect("converges");
    assert_eq!(found.value, Real(7.0));
    assert_eq!(floats(&found.vector), vec![1.0]);
}

#[test]
fn power_method_reports_no_convergence_for_eigenvalues_of_equal_magnitude() {
    // Eigenvalues 1 and -1: the iterate alternates between the two unit vectors.
    assert!(power_method(&reals(&[0.0, 1.0, 1.0, 0.0]), 2).is_none());
}

#[test]
fn power_method_reports_no_convergence_for_a_rotation() {
    assert!(power_method_with_cap(&reals(&[0.0, -1.0, 1.0, 0.0]), 2, 5000).is_none());
}

#[test]
fn power_method_reports_no_convergence_for_the_zero_matrix() {
    assert!(power_method_with_cap(&reals(&[0.0, 0.0, 0.0, 0.0]), 2, 1000).is_none());
}

#[test]
fn inverse_power_method_finds_the_eigenvalue_next_to_the_estimate() {
    let found = inverse_power_method(&reals(&[2.0, 0.0, 0.0, 1.0]), 2, Real(0.9)).expect("converges");
    assert!((found.value.0 - 1.0).abs() <= 1e-6, "{}", found.value.0);
    assert_eq!(floats(&found.vector), vec![0.0, 1.0]);
}

#[test]
fn inverse_power_method_finds_the_eigenvalue_next_to_the_estimate_in_the_first_place() {
    let found = inverse_power_method(&reals(&[1.0, 0.0, 0.0, 2.0]), 2, Real(0.9)).expect("converges");
    assert!((found.value.0 - 1.0).abs() <= 1e-6, "{}", found.value.0);
    assert_eq!(floats(&found.vector), vec![1.0, 0.0]);
}

#[test]
fn inverse_power_method_finds_the_nearest_eigenvalue_of_a_diagonal_matrix() {
    let diagonal = [3.0, -1.5, 2.0, 0.25];
    let mut matrix = vec![0.0; 16];
    for i in 0..4 {
        matrix[4 * i + i] = diagonal[i];
    }
    for (i, eigenvalue) in diagonal.iter().enumerate() {
        for offset in [-0.2, -0.05, 0.03, 0.2] {
            let found = inverse_power_method(&reals(&matrix), 4, Real(eigenvalue + offset))
                .expect("converges");
            assert!(
                (found.value.0 - eigenvalue).abs() <= 1e-6,
                "{} from {}",
                found.value.0,
                eigenvalue + offset
            );
            for k in 0..4 {
                assert_eq!(found.vector[k].0.abs(), if k == i { 1.0 } else { 0.0 });
            }
        }
    }
}

#[test]
fn inverse_power_method_follows_an_iterate_that_changes_sign_in_a_later_coordinate() {
    // The shift 1.1 lies above the eigenvalue 1, so every solve turns the iterate
    // (0, 1) around; its first coordinate has no sign to tell.
    let found = inverse_power_method(&reals(&[2.0, 0.0, 0.0, 1.0]), 2, Real(1.1)).expect("converges");
    assert!((found.value.0 - 1.0).abs() <= 1e-6, "{}", found.value.0);
    assert_eq!(found.vector[0].0, 0.0);
    assert_eq!(found.vector[1].0.abs(), 1.0);
}

#[test]
fn inverse_power_method_follows_a_correction_that_lowers_the_shift() {
    let found = inverse_power_method(&reals(&[2.0, 0.0, 0.0, 1.0]), 2, Real(2.2)).expect("converges");
    assert!((found.value.0 - 2.0).abs() < 1e-6, "{}", found.value.0);
    assert!((found.vector[0].0.abs() - 1.0).abs() < 1e-6);
}

#[test]
fn inverse_power_method_starts_at_the_nearest_diagonal_entry() {
    let matrix = reals(&[3.0, 1.0, 2.0, 4.0]);
    let low = InverseIteration::start(&matrix, 2, Real(1.7));
    assert_eq!(low.dimension(), 2);
    assert_eq!(low.shift(), Real(1.7));
    assert!(!low.is_frozen());
    assert_eq!(floats(&low.into_result().vector), vec![1.0, 0.0]);
    let high = InverseIteration::start(&matrix, 2, Real(5.4));
    assert_eq!(floats(&high.into_result().vector), vec![0.0, 1.0]);
    // Of two entries at the same distance the first is taken.
    let middle = InverseIteration::start(&matrix, 2, Real(3.5));
    assert_eq!(floats(&middle.into_result().vector), vec![1.0, 0.0]);
}

#[test]
fn inverse_power_method_round_by_round() {
    let matrix = reals(&[2.0, 0.0, 0.0, 1.0]);
    let iteration = InverseIteration::start(&matrix, 2, Real(0.9));
    // The first round solves with diag(1.1, 0.1) and moves the estimate to 1.
    let (iteration, outcome) = iteration.round(&matrix);
    assert_eq!(outcome, Some(false));
    assert!(!iteration.is_frozen());
    assert!((iteration.shift().0 - 1.0).abs() <= 1e-15);
    // The matrix shifted by that cannot be factored: the estimate freezes, and the
    // iterate, which has not moved, ends the iteration.
    let (iteration, outcome) = iteration.round(&matrix);
    assert_eq!(outcome, Some(true));
    assert!(iteration.is_frozen());
    let found = iteration.into_result();
    assert!((found.value.0 - 1.0).abs() <= 1e-15);
    assert_eq!(floats(&found.vector), vec![0.0, 1.0]);
}

#[test]
fn inverse_power_method_round_without_factors() {
    let matrix = reals(&[2.0, 0.0, 0.0, 1.0]);
    let (iteration, outcome) = InverseIteration::start(&matrix, 2, Real(1.0)).round(&matrix);
    assert_eq!(outcome, None);
    assert!(iteration.is_frozen());
    assert_eq!(iteration.shift(), Real(1.0));
}

#[test]
fn inverse_power_method_on_a_matrix_without_an_eigenvector_on_an_axis() {
    // Eigenvalues 2 and 5, eigenvectors (1, -1) and (1, 2).
    let matrix = reals(&[3.0, 1.0, 2.0, 4.0]);
    let low = inverse_power_method(&matrix, 2, Real(1.7)).expect("converges");
    assert!((low.value.0 - 2.0).abs() < 1e-5, "{}", low.value.0);
    assert!((low.vector[0].0 + low.vector[1].0).abs() < 1e-5);
    let high = inverse_power_method(&matrix, 2, Real(5.4)).expect("converges");
    assert!((high.value.0 - 5.0).abs() < 1e-5, "{}", high.value.0);
    assert!((2.0 * high.vector[0].0 - high.vector[1].0).abs() < 1e-5);
}

#[test]
fn inverse_power_method_converges_on_a_symmetric_matrix() {
    // Eigenvalues 1 and 3.
    let matrix = reals(&[2.0, 1.0, 1.0, 2.0]);
    let low = inverse_power_method(&matrix, 2, Real(0.8)).expect("converges");
    assert!((low.value.0 - 1.0).abs() < 1e-5, "{}", low.value.0);
    let high = inverse_power_method(&matrix, 2, Real(3.3)).expect("converges");
    assert!((high.value.0 - 3.0).abs() < 1e-5, "{}", high.value.0);
    let norm: f64 = high.vector.iter().map(|v| v.0.abs()).sum();
    assert!((norm - 1.0).abs() < 1e-12);
}

#[test]
fn inverse_power_method_gives_up_when_the_first_shift_is_an_eigenvalue() {
    // A - 1·I has a zero row, so there is never a factorisation to solve with.
    assert!(inverse_power_method(&reals(&[2.0, 0.0, 0.0, 1.0]), 2, Real(1.0)).is_none());
}

#[test]
fn inverse_power_method_reports_no_convergence_within_a_small_cap() {
    let matrix = reals(&[2.0, 0.0, 0.0, 1.0]);
    assert!(inverse_power_method_with_cap(&matrix, 2, Real(0.9), 0).is_none());
    assert!(inverse_power_method_with_cap(&matrix, 2, Real(0.9), 1).is_none());
}

#[test]
fn inverse_power_method_reports_no_convergence_for_eigenvalues_of_equal_distance() {
    // Eigenvalues 1 and -1, estimate 0: the iterate alternates and the shift stays.
    assert!(inverse_power_method(&reals(&[0.0, 1.0, 1.0, 0.0]), 2, Real(0.0)).is_none());
}

#[test]
fn inverse_power_method_finds_the_nearest_eigenvalue_of_every_small_matrix_of_two_rows() {
    // All matrices of two rows with entries from -3 to 3 and two real
    // eigenvalues at least 0.5 apart, from estimates up to four tenths of the
    // way to the other eigenvalue, on either side.
    let mut tried: usize = 0;
    for a in -3i32..=3 {
        for b in -3i32..=3 {
            for c in -3i32..=3 {
                for d in -3i32..=3 {
                    let trace = (a + d) as f64;
                    let determinant = (a * d - b * c) as f64;
                    let discriminant = trace * trace - 4.0 * determinant;
                    if discriminant <= 0.0 {
                        continue;
                    }
                    let low = (trace - discriminant.sqrt()) / 2.0;
                    let high = (trace + discriminant.sqrt()) / 2.0;
                    let gap = high - low;
                    if gap < 0.5 {
                        continue;
                    }
                    let matrix = reals(&[a as f64, b as f64, c as f64, d as f64]);
                    for eigenvalue in [low, high] {
                        for part in [-0.4, -0.25, -0.1, 0.1, 0.25, 0.4] {
                            let estimate = eigenvalue + part * gap;
                            let found = inverse_power_method(&matrix, 2, Real(estimate))
                                .expect("converges");
                            assert!(
                                (found.value.0 - eigenvalue).abs()
                                    <= 1e-4 * eigenvalue.abs().max(1.0),
                                "{} from {} in {:?}",
                                found.value.0,
                                estimate,
                                (a, b, c, d)
                            );
                            tried += 1;
                        }
                    }
                }
            }
        }
    }
    assert_eq!(tried, 19584);
}

#[test]
fn inverse_power_method_settles_off_the_eigenvalues_where_an_eigenvector_has_a_zero() {
    // The eigenvalues are 0, 1 and 2, and the eigenvector of 0 is (1, -1, 0).
    // Its third coordinate fades round by round and is well-conditioned all
    // the while, so that the mean of the ratios is that of twice `0 - s` and
    // once `1 - s`: the corrections end at a third.
    let matrix = reals(&[0.0, 0.0, 0.0, 1.0, 1.0, 0.0, 1.0, 1.0, 2.0]);
    let found = inverse_power_method(&matrix, 3, Real(0.1)).expect("converges");
    assert!((found.value.0 - 1.0 / 3.0).abs() <= 1e-5, "{}", found.value.0);
    assert!((found.vector[0].0.abs() - 0.5).abs() <= 1e-5);
    assert!((found.vector[1].0.abs() - 0.5).abs() <= 1e-5);
    assert!(found.vector[2].0.abs() <= 1e-5);
}

#[test]
fn inverse_power_method_on_a_diagonal_matrix_is_the_run_from_an_eigenvector() {
    let matrix = reals(&[2.0, 0.0, 0.0, 1.0]);
    let initial = 0.9;
    let start = reals(&[0.0, 1.0]);

    // The first round: the solution for the start vector is well-conditioned
    // in the second coordinate alone and, normalised, the start vector again.
    let mut shifted = matrix.clone();
    lower_diagonal(&mut shifted, 2, Real(initial));
    let factors = LUDecomposition::compute(&shifted, 2).expect("not singular");
    let mut solved = start.clone();
    factors.solve(&mut solved);
    assert!(solved[0].0.abs() < 1e-8);
    assert!((solved[1].0 - 10.0).abs() < 1e-12);
    assert_eq!(floats(&normalize(&solved)), floats(&start));
    let correction = 1.0 / solved[1].0;
    assert_eq!(0.0 + correction, correction);
    assert_eq!(correction / 1.0, correction);

    // The correction is too large for the estimate to have settled, and the
    // matrix shifted by the corrected estimate cannot be factored.
    assert!(correction.abs() >= 1e-6 * initial.abs().max((initial + correction).abs()));
    let mut shifted = matrix.clone();
    lower_diagonal(&mut shifted, 2, Real(initial + correction));
    assert!(LUDecomposition::compute(&shifted, 2).is_none());

    // So the second round returns the corrected estimate with the start vector.
    let found = inverse_power_method(&matrix, 2, Real(initial)).expect("converges");
    assert_eq!(found.value.0, initial + correction);
    assert_eq!(found.value.0, 1.0);
    assert_eq!(floats(&found.vector), floats(&start));
    assert!(inverse_power_method_with_cap(&matrix, 2, Real(initial), 1).is_none());
    assert!(inverse_power_method_with_cap(&matrix, 2, Real(initial), 2).is_some());
}

#[test]
fn power_method_finds_the_dominant_eigenvalue_in_the_second_place() {
    let found = power_method(&reals(&[1.0, 0.0, 0.0, 2.0]), 2).expect("converges");
    assert_eq!(found.value, Real(2.0));
    assert_eq!(floats(&found.vector), vec![0.0, 1.0]);
}

#[test]
fn power_method_finds_the_entry_of_largest_magnitude_of_a_diagonal_matrix() {
    let found = power_method(&reals(&[1.0, 0.0, 0.0, 0.0, -3.0, 0.0, 0.0, 0.0, 2.0]), 3)
        .expect("converges");
    assert_eq!(found.value, Real(-3.0));
    assert_eq!(floats(&found.vector), vec![0.0, 1.0, 0.0]);
    let found = power_method(&reals(&[1.0, 0.0, 0.0, 0.0, 3.0, 0.0, 0.0, 0.0, 4.0]), 3)
        .expect("converges");
    assert_eq!(found.value, Real(4.0));
    assert_eq!(floats(&found.vector), vec![0.0, 0.0, 1.0]);
}

#[test]
fn power_method_starts_at_the_first_of_the_largest_diagonal_entries() {
    // Both diagonal entries have magnitude 2; one round from the first unit
    // vector gives the estimate 2 in the first coordinate and 1/0 in none.
    let matrix = reals(&[2.0, 0.0, 0.0, -2.0]);
    let found = power_method(&matrix, 2).expect("converges");
    assert_eq!(found.value, Real(2.0));
    assert_eq!(floats(&found.vector), vec![1.0, 0.0]);
    let matrix = reals(&[-2.0, 0.0, 0.0, 2.0]);
    let found = power_method(&matrix, 2).expect("converges");
    assert_eq!(found.value, Real(-2.0));
    assert_eq!(floats(&found.vector), vec![1.0, 0.0]);
}

#[test]
fn power_method_leaves_the_start_for_the_dominant_eigenvector() {
    // Eigenvalues 5 and -1; the largest diagonal entry is the second, and the
    // eigenvector of 5 is (1, 2).
    let found = power_method(&reals(&[1.0, 2.0, 4.0, 3.0]), 2).expect("converges");
    assert!((found.value.0 - 5.0).abs() < 1e-4, "{}", found.value.0);
    assert!((found.vector[0].0 - 1.0 / 3.0).abs() < 1e-5);
    assert!((found.vector[1].0 - 2.0 / 3.0).abs() < 1e-5);
}

#[test]
fn power_method_on_a_diagonal_matrix_is_the_run_from_an_eigenvector() {
    let matrix = reals(&[1.0, 0.0, 0.0, 2.0]);
    let start = reals(&[0.0, 1.0]);

    // The first round has an estimate in the second coordinate alone.
    let z = normalize(&start);
    assert_eq!(floats(&z), vec![0.0, 1.0]);
    let first = apply(&matrix, 2, &z);
    assert_eq!(floats(&first), vec![0.0, 2.0]);
    assert!(z[0].0.abs() < 1e-8 && z[1].0.abs() >= 1e-8);
    let estimate = first[1].0 / z[1].0;
    assert_eq!(0.0 + estimate, estimate);
    assert_eq!(estimate / 1.0, estimate);

    // The second round finds the same estimates again, and they count as
    // settled against themselves.
    let z = normalize(&first);
    assert_eq!(floats(&z), vec![0.0, 1.0]);
    let second = apply(&matrix, 2, &z);
    assert_eq!(floats(&second), vec![0.0, 2.0]);
    assert_eq!(second[1].0 / z[1].0, estimate);
    assert!((estimate - estimate).abs() < 1e-6 * estimate.abs());

    let found = power_method(&matrix, 2).expect("converges");
    assert_eq!(found.value.0, estimate);
    assert_eq!(found.value.0, 2.0);
    assert_eq!(floats(&found.vector), vec![0.0, 1.0]);
    assert!(power_method_with_cap(&matrix, 2, 1).is_none());
    assert!(power_method_with_cap(&matrix, 2, 2).is_some());
}

fn plain_beside_zero(x: f64) -> bool {
    0.0 + x == x && x + 0.0 == x && 0.0 * x == 0.0 && x * 0.0 == 0.0
}

fn largest_diagonal(diagonal: &[f64]) -> usize {
    let mut largest: usize = 0;
    for i in 1..diagonal.len() {
        if diagonal[largest].abs() < diagonal[i].abs() {
            largest = i;
        }
    }
    largest
}

fn diagonal_is_plain(diagonal: &[f64]) -> bool {
    let floor = 1.0 / 100_000_000.0;
    let tolerance = 1.0 / 1_000_000.0;
    let d = diagonal[largest_diagonal(diagonal)];
    let s = d / d.abs();
    let t = d * s;
    0.0f64.abs() == 0.0
        && plain_beside_zero(0.0)
        && 0.0 < floor
        && 1.0f64.abs() == 1.0
        && 1.0 / 1.0 == 1.0
        && 0.0 / 1.0 == 0.0
        && plain_beside_zero(1.0)
        && !(1.0 < floor)
        && diagonal.iter().all(|entry| plain_beside_zero(*entry))
        && d * 1.0 == d
        && d / 1.0 == d
        && plain_beside_zero(d.abs())
        && 0.0 / d.abs() == 0.0
        && plain_beside_zero(s)
        && !(s.abs() < floor)
        && plain_beside_zero(t)
        && plain_beside_zero(t.abs())
        && t / s == d
        && 0.0 / t.abs() == 0.0
        && plain_beside_zero((d - d).abs())
        && plain_beside_zero((0.0 - d).abs())
        && (d - d).abs() < tolerance * d.abs().max(d.abs())
        && !((0.0 - d).abs() < tolerance * 0.0f64.max(d.abs()))
}

#[test]
fn power_method_returns_the_dominant_entry_of_a_diagonal_matrix() {
    let diagonals: Vec<Vec<f64>> = vec![
        vec![1.0, 2.0],
        vec![2.0, 1.0],
        vec![-5.0, 2.0, 1.0],
        vec![1.0, -3.0, 2.0],
        vec![0.5, -0.25, 0.125, 0.75],
        vec![3.0, -7.0, 7.0],
        vec![1e-3, 1e3, 0.0],
        vec![0.1, 0.2, 0.3, 0.7, 0.6],
        vec![9.0],
    ];
    for diagonal in diagonals {
        let n = diagonal.len();
        assert!(diagonal_is_plain(&diagonal), "{:?}", diagonal);
        let mut matrix = vec![0.0; n * n];
        for i in 0..n {
            matrix[i * n + i] = diagonal[i];
        }
        let j = largest_diagonal(&diagonal);
        let d = diagonal[j];
        let t = d * (d / d.abs());
        let mut vector = vec![0.0; n];
        vector[j] = t / t.abs();
        let found = power_method(&reals(&matrix), n).expect("converges");
        assert_eq!(found.value.0, d, "{:?}", diagonal);
        assert_eq!(floats(&found.vector), vector, "{:?}", diagonal);
        assert!(power_method_with_cap(&reals(&matrix), n, 1).is_none());
        assert!(power_method_with_cap(&reals(&matrix), n, 2).is_some());
    }
}

fn entry_is_plain(e: f64) -> bool {
    plain_beside_zero(e)
        && e - 0.0 == e
        && e / 1.0 == e
        && 0.0 / e == 0.0
        && !(e.abs() < 0.0f64.abs())
}

fn nearest_diagonal(diagonal: &[f64], initial: f64) -> usize {
    let mut nearest: usize = 0;
    for i in 1..diagonal.len() {
        if (diagonal[i] - initial).abs() < (diagonal[nearest] - initial).abs() {
            nearest = i;
        }
    }
    nearest
}

fn inverse_diagonal_is_plain(diagonal: &[f64], initial: f64) -> bool {
    let floor = 1.0 / 100_000_000.0;
    let tolerance = 1.0 / 1_000_000.0;
    let least_pivot = 1.0 / 10_000_000.0;
    let j = nearest_diagonal(diagonal, initial);
    let e = diagonal[j] - initial;
    let r = 1.0 / e;
    let c = 1.0 / r;
    let settled = c.abs() < tolerance * initial.abs().max((initial + c).abs());
    plain_beside_zero(0.0)
        && plain_beside_zero(1.0)
        && 0.0 - 0.0 == 0.0
        && 0.0 / 1.0 == 0.0
        && 0.0f64.abs() == 0.0
        && 1.0 - 0.0 == 1.0
        && 1.0 / 1.0 == 1.0
        && 0.0 < least_pivot
        && !(0.0 < 0.0)
        && 0.0 < 1.0 * 1.0
        && (1.0f64 * 1.0 - 1.0).abs() == 0.0
        && plain_beside_zero(1.0f64.abs())
        && 0.0 / 1.0f64.abs() == 0.0
        && 0.0 < tolerance * 1.0f64.abs().max(1.0f64.abs())
        && diagonal.iter().all(|d| entry_is_plain(d - initial))
        && diagonal.iter().all(|d| !((d - initial).abs() < least_pivot))
        && plain_beside_zero(r)
        && plain_beside_zero(r.abs())
        && floor <= r.abs()
        && !(floor <= 0.0)
        && 0.0 / r.abs() == 0.0
        && r / r.abs() == 1.0
        && 0.0 + c == c
        && c / 1.0 == c
        && (settled
            || (diagonal[j] - (initial + c) == 0.0
                && diagonal[..j].iter().all(|d| entry_is_plain(d - (initial + c)))))
}

#[test]
fn inverse_power_method_returns_the_nearest_entry_of_a_diagonal_matrix() {
    let cases: Vec<(Vec<f64>, f64)> = vec![
        (vec![2.0, 1.0], 0.9),
        (vec![1.0, 2.0], 0.9),
        (vec![3.0, 1.0, 2.0], 1.75),
        (vec![4.0, -2.0, 7.0], -2.5),
        (vec![4.0, -2.0, 7.0], 6.5),
        (vec![0.5, 8.0, -3.0, 1.5], 1.25),
        (vec![5.0], 4.0),
    ];
    for (diagonal, initial) in cases {
        let n = diagonal.len();
        assert!(inverse_diagonal_is_plain(&diagonal, initial), "{:?} {}", diagonal, initial);
        let mut matrix = vec![0.0; n * n];
        for i in 0..n {
            matrix[i * n + i] = diagonal[i];
        }
        let j = nearest_diagonal(&diagonal, initial);
        let correction = 1.0 / (1.0 / (diagonal[j] - initial));
        let mut vector = vec![0.0; n];
        vector[j] = 1.0;
        let found = inverse_power_method(&reals(&matrix), n, Real(initial)).expect("converges");
        assert_eq!(found.value.0, initial + correction, "{:?} {}", diagonal, initial);
        assert_eq!(found.value.0, diagonal[j], "{:?} {}", diagonal, initial);
        assert_eq!(floats(&found.vector), vector, "{:?} {}", diagonal, initial);
    }
}

#[test]
fn power_method_goes_round_in_a_cycle_on_an_exchange_of_coordinates() {
    // The iterate alternates between the two unit vectors, and the only
    // estimate of either round is zero, which never counts as settled.
    let matrix = reals(&[0.0, 1.0, 1.0, 0.0]);
    let first = apply(&matrix, 2, &normalize(&reals(&[1.0, 0.0])));
    let second = apply(&matrix, 2, &normalize(&first));
    let third = apply(&matrix, 2, &normalize(&second));
    assert_eq!(floats(&first), vec![0.0, 1.0]);
    assert_eq!(floats(&second), vec![1.0, 0.0]);
    assert_eq!(floats(&third), floats(&first));
    assert!(!(0.0 < 1e-6 * 0.0));
    for cap in [0usize, 1, 2, 3, 10, 1001] {
        assert!(power_method_with_cap(&matrix, 2, cap).is_none());
    }
}
