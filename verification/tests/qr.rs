use numerical_methods::inverse_power_method::inverse_power_method;
use numerical_methods::lu::LUDecomposition;
use numerical_methods::qr_algorithm::{
    compute_reflection, hessenberg_form, qr_algorithm, qr_algorithm_with_cap, qr_iteration,
    sort_ascending,
};
use numerical_methods::rand_matrix::{
    draw_eigenvalues, generate_matrix, generate_matrix_from, is_separated, similar_matrix_of,
    spread, transformation_from, transformation_magnitude, values_magnitude, values_separation,
};
use numerical_methods::scalar::{Index, Numerical, OtherNumericalOps};

#[derive(Clone, Copy, Debug, PartialEq)]
struct Real(f64);

impl OtherNumericalOps for Real {
    fn abs_spec(self) -> Self {
        Real(self.0.abs())
    }

    fn sqrt_spec(self) -> Self {
        Real(self.0.sqrt())
    }

    fn zero_spec() -> Self {
        Real(0.0)
    }

    fn abs_trait(&self) -> Self {
        self.abs_spec()
    }

    fn sqrt_trait(&self) -> Self {
        self.sqrt_spec()
    }

    fn zero() -> Self {
        Self::zero_spec()
    }
}

impl Numerical for Real {
    fn add_spec(self, rhs: Self) -> Self {
        Real(self.0 + rhs.0)
    }

    fn sub_spec(self, rhs: Self) -> Self {
        Real(self.0 - rhs.0)
    }

    fn mul_spec(self, rhs: Self) -> Self {
        Real(self.0 * rhs.0)
    }

    fn div_spec(self, rhs: Self) -> Self {
        Real(self.0 / rhs.0)
    }

    fn neg_spec(self) -> Self {
        Real(-self.0)
    }

    fn lt_spec(self, rhs: Self) -> bool {
        self.0 < rhs.0
    }

    fn le_spec(self, rhs: Self) -> bool {
        self.0 <= rhs.0
    }

    fn eq_spec(self, rhs: Self) -> bool {
        self.0 == rhs.0
    }

    fn max_spec(self, rhs: Self) -> Self {
        Real(self.0.max(rhs.0))
    }

    fn from_i32_spec(value: i32) -> Self {
        Real(f64::from(value))
    }

    fn from_index_spec(value: Index) -> Self {
        Real(value as f64)
    }

    fn total_le_spec(self, rhs: Self) -> bool {
        self.0.total_cmp(&rhs.0) != std::cmp::Ordering::Greater
    }

    fn add(self, rhs: Self) -> Self {
        self.add_spec(rhs)
    }

    fn sub(self, rhs: Self) -> Self {
        self.sub_spec(rhs)
    }

    fn mul(self, rhs: Self) -> Self {
        self.mul_spec(rhs)
    }

    fn div(self, rhs: Self) -> Self {
        self.div_spec(rhs)
    }

    fn neg(self) -> Self {
        self.neg_spec()
    }

    fn lt(self, rhs: Self) -> bool {
        self.lt_spec(rhs)
    }

    fn le(self, rhs: Self) -> bool {
        self.le_spec(rhs)
    }

    fn eq(self, rhs: Self) -> bool {
        self.eq_spec(rhs)
    }

    fn max(self, rhs: Self) -> Self {
        self.max_spec(rhs)
    }

    fn from_i32(value: i32) -> Self {
        Self::from_i32_spec(value)
    }

    fn from_index(value: Index) -> Self {
        Self::from_index_spec(value)
    }

    fn total_le(self, rhs: Self) -> bool {
        self.total_le_spec(rhs)
    }

    fn total_le_is_total(_a: Self, _b: Self) {}

    fn total_le_is_transitive(_a: Self, _b: Self, _c: Self) {}
}

fn reals(values: &[f64]) -> Vec<Real> {
    values.iter().map(|v| Real(*v)).collect()
}

fn floats(values: &[Real]) -> Vec<f64> {
    values.iter().map(|v| v.0).collect()
}


fn trace(matrix: &[f64], n: usize) -> f64 {
    (0..n).map(|i| matrix[i * n + i]).sum()
}

fn determinant3(m: &[f64]) -> f64 {
    m[0] * (m[4] * m[8] - m[5] * m[7]) - m[1] * (m[3] * m[8] - m[5] * m[6])
        + m[2] * (m[3] * m[7] - m[4] * m[6])
}

fn sum_of_principal_minors3(m: &[f64]) -> f64 {
    (m[0] * m[4] - m[1] * m[3]) + (m[0] * m[8] - m[2] * m[6]) + (m[4] * m[8] - m[5] * m[7])
}

#[test]
fn compute_reflection_of_three_four() {
    let mut direction = reals(&[9.0, 9.0, 9.0]);
    let mut scale = Real(9.0);
    let length = compute_reflection(&reals(&[3.0, 4.0]), &mut direction, &mut scale);
    assert_eq!(length, Real(5.0));
    assert_eq!(floats(&direction), vec![-2.0, 4.0, 9.0]);
    assert_eq!(scale, Real(20.0));
}

#[test]
fn compute_reflection_of_a_multiple_of_the_first_unit_vector_has_scale_zero() {
    let mut direction = reals(&[1.0, 1.0]);
    let mut scale = Real(1.0);
    let length = compute_reflection(&reals(&[2.0, 0.0]), &mut direction, &mut scale);
    assert_eq!(length, Real(2.0));
    assert_eq!(floats(&direction), vec![0.0, 0.0]);
    assert_eq!(scale, Real(0.0));
}

#[test]
fn hessenberg_form_leaves_small_matrices_alone() {
    let mut empty: Vec<Real> = Vec::new();
    hessenberg_form(&mut empty, 0);
    assert!(empty.is_empty());
    let mut one = reals(&[5.0]);
    hessenberg_form(&mut one, 1);
    assert_eq!(floats(&one), vec![5.0]);
    let mut two = reals(&[1.0, 2.0, 3.0, 4.0]);
    hessenberg_form(&mut two, 2);
    assert_eq!(floats(&two), vec![1.0, 2.0, 3.0, 4.0]);
}

#[test]
fn hessenberg_form_clears_the_entries_below_the_subdiagonal() {
    let n = 4;
    let mut matrix = reals(&[
        4.0, 1.0, -2.0, 2.0, 1.0, 2.0, 0.0, 1.0, -2.0, 0.0, 3.0, -2.0, 2.0, 1.0, -2.0, -1.0,
    ]);
    hessenberg_form(&mut matrix, n);
    for col in 0..n - 2 {
        for row in col + 2..n {
            assert_eq!(matrix[row * n + col], Real(0.0));
        }
    }
}

#[test]
fn hessenberg_form_skips_a_column_that_is_already_clear() {
    let mut matrix = reals(&[1.0, 2.0, 3.0, 4.0, 5.0, 6.0, 0.0, 7.0, 8.0]);
    hessenberg_form(&mut matrix, 3);
    assert_eq!(floats(&matrix), vec![1.0, 2.0, 3.0, 4.0, 5.0, 6.0, 0.0, 7.0, 8.0]);
}

#[test]
fn hessenberg_form_keeps_the_characteristic_polynomial() {
    let given = [2.0, -1.0, 3.0, 0.5, 4.0, -2.0, 1.5, 1.0, -3.0];
    let mut matrix = reals(&given);
    hessenberg_form(&mut matrix, 3);
    let reduced = floats(&matrix);
    assert_eq!(reduced[6], 0.0);
    assert!((trace(&reduced, 3) - trace(&given, 3)).abs() < 1e-12);
    assert!((sum_of_principal_minors3(&reduced) - sum_of_principal_minors3(&given)).abs() < 1e-12);
    assert!((determinant3(&reduced) - determinant3(&given)).abs() < 1e-12);
}

#[test]
fn hessenberg_form_keeps_the_eigenvalues() {
    // Symmetric, so all eigenvalues are real.
    let given = [
        4.0, 1.0, -2.0, 2.0, 1.0, 2.0, 0.0, 1.0, -2.0, 0.0, 3.0, -2.0, 2.0, 1.0, -2.0, -1.0,
    ];
    let before = qr_algorithm(&reals(&given), 4).expect("converges");
    let mut matrix = reals(&given);
    hessenberg_form(&mut matrix, 4);
    let after = qr_algorithm(&matrix, 4).expect("converges");
    for (b, a) in before.iter().zip(&after) {
        assert!((b.0 - a.0).abs() < 1e-6, "{} and {}", b.0, a.0);
    }
    let sum: f64 = after.iter().map(|v| v.0).sum();
    assert!((sum - 8.0).abs() < 1e-6);
}

#[test]
fn qr_iteration_of_a_rotation_is_its_inverse() {
    let mut matrix = reals(&[0.0, -1.0, 1.0, 0.0]);
    qr_iteration(&mut matrix, 2);
    assert_eq!(floats(&matrix), vec![0.0, 1.0, -1.0, 0.0]);
}

#[test]
fn qr_iteration_leaves_a_positive_diagonal_alone() {
    let mut matrix = reals(&[3.0, 0.0, 0.0, 0.0, 1.0, 0.0, 0.0, 0.0, 2.0]);
    qr_iteration(&mut matrix, 3);
    assert_eq!(floats(&matrix), vec![3.0, 0.0, 0.0, 0.0, 1.0, 0.0, 0.0, 0.0, 2.0]);
    let mut single = reals(&[4.0]);
    qr_iteration(&mut single, 1);
    assert_eq!(floats(&single), vec![4.0]);
}

#[test]
fn qr_algorithm_sorts_the_diagonal_of_a_diagonal_matrix() {
    let matrix = reals(&[3.0, 0.0, 0.0, 0.0, 1.0, 0.0, 0.0, 0.0, 2.0]);
    let values = qr_algorithm(&matrix, 3).expect("converges");
    assert_eq!(floats(&values), vec![1.0, 2.0, 3.0]);
}

#[test]
fn qr_algorithm_of_a_diagonal_matrix_takes_one_round_per_deflation() {
    let matrix = reals(&[3.0, 0.0, 0.0, 0.0, 1.0, 0.0, 0.0, 0.0, 2.0]);
    assert!(qr_algorithm_with_cap(&matrix, 3, 0).is_none());
    assert!(qr_algorithm_with_cap(&matrix, 3, 1).is_none());
    let values = qr_algorithm_with_cap(&matrix, 3, 2).expect("two rounds deflate three rows");
    assert_eq!(floats(&values), vec![1.0, 2.0, 3.0]);
}

#[test]
fn qr_algorithm_finds_the_eigenvalues_of_a_symmetric_matrix() {
    // Eigenvalues (5 ± √5) / 2.
    let values = qr_algorithm(&reals(&[2.0, 1.0, 1.0, 3.0]), 2).expect("converges");
    assert_eq!(values.len(), 2);
    assert!((values[0].0 - (5.0 - 5.0f64.sqrt()) / 2.0).abs() < 1e-6);
    assert!((values[1].0 - (5.0 + 5.0f64.sqrt()) / 2.0).abs() < 1e-6);
}

#[test]
fn qr_algorithm_reports_no_convergence_when_the_shift_makes_the_step_an_exchange() {
    // With the shift 2 the step turns [[0, 1], [1, 0]] into itself.
    assert!(qr_algorithm_with_cap(&reals(&[2.0, 1.0, 1.0, 2.0]), 2, 1000).is_none());
}

#[test]
fn qr_algorithm_of_a_triangular_matrix_with_a_repeated_eigenvalue() {
    let values = qr_algorithm(&reals(&[1.0, 1.0, 0.0, 1.0]), 2).expect("already deflated");
    assert_eq!(floats(&values), vec![1.0, 1.0]);
}

#[test]
fn qr_algorithm_reports_no_convergence_for_complex_eigenvalues() {
    assert!(qr_algorithm(&reals(&[0.0, -1.0, 1.0, 0.0]), 2).is_none());
}

#[test]
fn qr_algorithm_reports_no_convergence_for_a_block_with_complex_eigenvalues() {
    let matrix = reals(&[0.0, -1.0, 0.0, 1.0, 0.0, 0.0, 0.0, 0.0, 2.0]);
    assert!(qr_algorithm_with_cap(&matrix, 3, 2000).is_none());
}

#[test]
fn sort_ascending_orders_all_values() {
    let sorted = sort_ascending(&reals(&[3.0, -1.0, 2.0, 0.0, -0.0, 2.0, f64::INFINITY, -7.5]));
    let found = floats(&sorted);
    assert_eq!(found, vec![-7.5, -1.0, -0.0, 0.0, 2.0, 2.0, 3.0, f64::INFINITY]);
    assert!(found[2].is_sign_negative() && found[3].is_sign_positive());
    assert!(sort_ascending::<Real>(&Vec::new()).is_empty());
}

#[test]
fn sort_ascending_puts_nan_last() {
    let sorted = sort_ascending(&reals(&[f64::NAN, 1.0, -1.0]));
    assert_eq!(sorted[0], Real(-1.0));
    assert_eq!(sorted[1], Real(1.0));
    assert!(sorted[2].0.is_nan());
}

#[test]
fn generation_constants() {
    assert_eq!(values_separation::<Real>(), Real(0.5));
    assert_eq!(values_magnitude::<Real>(4), Real(20.0));
    assert_eq!(transformation_magnitude::<Real>(), Real(5.0));
}

#[test]
fn spread_maps_the_unit_interval_onto_the_magnitude() {
    assert_eq!(spread(Real(0.0), Real(5.0)), Real(-5.0));
    assert_eq!(spread(Real(0.5), Real(5.0)), Real(0.0));
    assert_eq!(spread(Real(0.75), Real(20.0)), Real(10.0));
}

#[test]
fn is_separated_compares_with_the_values_taken_so_far() {
    let values = reals(&[1.0, 3.0, 100.0]);
    assert!(is_separated(&values, 0, Real(1.0)));
    assert!(is_separated(&values, 2, Real(2.0)));
    assert!(is_separated(&values, 2, Real(1.5)));
    assert!(!is_separated(&values, 2, Real(1.25)));
    assert!(!is_separated(&values, 2, Real(3.4)));
    assert!(is_separated(&values, 2, Real(100.0)));
    assert!(!is_separated(&values, 3, Real(100.0)));
}

#[test]
fn similar_matrix_of_the_identity_is_the_diagonal_matrix() {
    let identity = reals(&[1.0, 0.0, 0.0, 1.0]);
    let lu = LUDecomposition::compute(&identity, 2).expect("the identity is invertible");
    let matrix = similar_matrix_of(&reals(&[3.0, -2.0]), &identity, &lu, 2);
    assert_eq!(floats(&matrix), vec![3.0, 0.0, 0.0, -2.0]);
}

#[test]
fn generate_matrix_from_rejects_a_singular_transformation() {
    let singular = reals(&[1.0, 2.0, 2.0, 4.0]);
    assert!(generate_matrix_from(2, reals(&[1.0, 2.0]), &singular).is_none());
}

#[test]
fn qr_algorithm_recovers_the_eigenvalues_of_a_generated_matrix() {
    let n = 5;
    let eigenvalues = [-7.5, -2.0, 0.25, 3.0, 11.0];
    // A fixed transformation with entries in [-5, 5).
    let mut state: u64 = 0x2545_f491_4f6c_dd1d;
    let mut transformation = Vec::new();
    for _ in 0..n * n {
        state = state.wrapping_mul(6364136223846793005).wrapping_add(1442695040888963407);
        let unit = (state >> 11) as f64 / (1u64 << 53) as f64;
        transformation.push(spread(Real(unit), transformation_magnitude::<Real>()));
    }
    let generated = generate_matrix_from(n, reals(&eigenvalues), &transformation)
        .expect("the transformation is invertible");
    assert_eq!(floats(&generated.eigenvalues), eigenvalues.to_vec());
    let values = qr_algorithm(&generated.matrix, n).expect("converges");
    assert_eq!(values.len(), n);
    for (found, expected) in values.iter().zip(&eigenvalues) {
        assert!((found.0 - expected).abs() < 1e-4, "{} is not close to {}", found.0, expected);
    }
}

#[test]
fn inverse_power_method_mostly_finds_the_eigenvalue_nearest_to_the_estimate_of_a_generated_matrix() {
    let mut state: u64 = 0x1234_5678_9abc_def1;
    let mut unit = move || {
        state = state.wrapping_mul(6364136223846793005).wrapping_add(1442695040888963407);
        (state >> 11) as f64 / (1u64 << 53) as f64
    };
    let mut tried = 0;
    let mut nearest = 0;
    let mut elsewhere = 0;
    for n in [2usize, 3, 4, 5] {
        for _ in 0..6 {
            let mut eigenvalues: Vec<Real> = Vec::new();
            while eigenvalues.len() < n {
                let candidate = spread(Real(unit()), values_magnitude::<Real>(n));
                if is_separated(&eigenvalues, eigenvalues.len(), candidate) {
                    eigenvalues.push(candidate);
                }
            }
            let generated = loop {
                let transformation: Vec<Real> = (0..n * n)
                    .map(|_| spread(Real(unit()), transformation_magnitude::<Real>()))
                    .collect();
                if let Some(g) = generate_matrix_from(n, eigenvalues.clone(), &transformation) {
                    break g;
                }
            };
            for eigenvalue in &eigenvalues {
                let estimate = eigenvalue.0 + (unit() - 0.5) * 0.1;
                tried += 1;
                if let Some(found) = inverse_power_method(&generated.matrix, n, Real(estimate)) {
                    // Whatever is returned is an eigenvalue of the matrix.
                    assert!(
                        eigenvalues.iter().any(|known| (found.value.0 - known.0).abs()
                            <= 1e-4 * known.0.abs().max(1.0)),
                        "{} from {}",
                        found.value.0,
                        estimate
                    );
                    if (found.value.0 - eigenvalue.0).abs() <= 1e-4 * eigenvalue.0.abs().max(1.0) {
                        nearest += 1;
                    } else {
                        elsewhere += 1;
                    }
                }
            }
        }
    }
    // The corrections of the shift are not bounded by the distance between the
    // eigenvalues: now and then the iteration settles on another eigenvalue.
    assert_eq!(tried, 84);
    assert!(nearest >= 80, "{nearest} of {tried}");
    assert!(elsewhere <= 2, "{elsewhere} of {tried}");
}

fn unit_draws(seed: u64, count: usize) -> Vec<Real> {
    let mut state = seed;
    (0..count)
        .map(|_| {
            state = state.wrapping_mul(6364136223846793005).wrapping_add(1442695040888963407);
            Real((state >> 11) as f64 / (1u64 << 53) as f64)
        })
        .collect()
}

#[test]
fn draw_eigenvalues_passes_over_a_draw_too_close_to_one_taken() {
    // Over the magnitude 10 the draws are 0, 0.4, -0.4, 8 and -10.
    let (values, used) =
        draw_eigenvalues(2, &reals(&[0.5, 0.52, 0.48, 0.9, 0.0])).expect("enough draws");
    assert_eq!(used, 4);
    assert_eq!(values.len(), 2);
    assert_eq!(values[0].0, 0.0);
    assert!((values[1].0 - 8.0).abs() < 1e-12);
}

#[test]
fn draw_eigenvalues_takes_a_draw_just_beyond_the_separation() {
    // Over the magnitude 10 the second draw of the second stream is a little
    // more than 0.5.
    let (values, used) = draw_eigenvalues(1, &reals(&[0.5, 0.55])).expect("enough draws");
    assert_eq!((floats(&values), used), (vec![0.0], 1));
    let (values, used) = draw_eigenvalues(2, &reals(&[0.5, 0.525, 0.0])).expect("enough draws");
    assert_eq!(used, 2);
    assert_eq!(values[0].0, 0.0);
    assert!((values[1].0 - 0.5).abs() < 1e-12);
}

#[test]
fn draw_eigenvalues_needs_enough_draws() {
    assert!(draw_eigenvalues(2, &reals(&[0.5, 0.52, 0.48])).is_none());
    assert!(draw_eigenvalues(1, &reals(&[])).is_none());
    let (values, used) = draw_eigenvalues(0, &reals(&[0.3])).expect("nothing to draw");
    assert_eq!((values.len(), used), (0, 0));
}

#[test]
fn transformation_from_spreads_the_draws_over_five() {
    let t = transformation_from(&reals(&[0.9, 0.0, 0.5, 0.75, 1.0, 0.25]), 1, 2);
    assert_eq!(floats(&t), vec![-5.0, 0.0, 2.5, 5.0]);
}

#[test]
fn generate_matrix_uses_the_stream_from_its_front() {
    // Eigenvalues 0 and 8 from the first four draws; then a transformation of
    // zeros, which cannot be factored, and one with 2.5 on its diagonal.
    let draws = reals(&[
        0.5, 0.52, 0.48, 0.9, 0.5, 0.5, 0.5, 0.5, 0.75, 0.5, 0.5, 0.75, 0.1, 0.2,
    ]);
    let generated = generate_matrix(2, &draws).expect("enough draws");
    assert_eq!(generated.eigenvalues.len(), 2);
    assert_eq!(generated.eigenvalues[0].0, 0.0);
    assert!((generated.eigenvalues[1].0 - 8.0).abs() < 1e-12);
    let matrix = floats(&generated.matrix);
    assert_eq!(matrix.len(), 4);
    assert_eq!(matrix[0], 0.0);
    assert_eq!(matrix[1], 0.0);
    assert_eq!(matrix[2], 0.0);
    assert!((matrix[3] - 8.0).abs() < 1e-12);
}

#[test]
fn generate_matrix_needs_a_whole_transformation() {
    let draws = reals(&[0.5, 0.9, 0.75, 0.5, 0.5]);
    assert!(generate_matrix(2, &draws).is_none());
    let draws = reals(&[0.5, 0.9, 0.5, 0.5, 0.5, 0.5, 0.75, 0.5, 0.5]);
    assert!(generate_matrix(2, &draws).is_none());
    assert!(generate_matrix(2, &reals(&[0.5])).is_none());
}

#[test]
fn generate_matrix_agrees_with_its_parts() {
    let draws = unit_draws(7, 400);
    let n = 4;
    let generated = generate_matrix(n, &draws).expect("enough draws");
    let (eigenvalues, used) = draw_eigenvalues(n, &draws).expect("enough draws");
    assert_eq!(floats(&generated.eigenvalues), floats(&eigenvalues));
    let mut at = used;
    let expected = loop {
        let transformation = transformation_from(&draws, at, n);
        if let Some(g) = generate_matrix_from(n, eigenvalues.clone(), &transformation) {
            break g;
        }
        at += n * n;
    };
    assert_eq!(floats(&generated.matrix), floats(&expected.matrix));
}

#[test]
fn generate_matrix_separates_and_bounds_its_eigenvalues() {
    for n in 1usize..=8 {
        let draws = unit_draws(1000 + n as u64, 2000);
        let generated = generate_matrix(n, &draws).expect("enough draws");
        let values = floats(&generated.eigenvalues);
        assert_eq!(values.len(), n);
        assert_eq!(generated.matrix.len(), n * n);
        for k in 0..n {
            assert!(values[k].abs() <= 5.0 * n as f64);
            for l in 0..k {
                assert!((values[k] - values[l]).abs() >= 0.5);
            }
        }
    }
}

#[test]
fn qr_algorithm_recovers_the_eigenvalues_of_a_matrix_made_from_a_stream() {
    for n in 2usize..=6 {
        let draws = unit_draws(31 * n as u64, 2000);
        let generated = generate_matrix(n, &draws).expect("enough draws");
        let mut expected = floats(&generated.eigenvalues);
        expected.sort_by(|a, b| a.partial_cmp(b).expect("no NaN"));
        let found = floats(&qr_algorithm(&generated.matrix, n).expect("converges"));
        for k in 0..n {
            assert!((found[k] - expected[k]).abs() <= 1e-4, "{} {}", found[k], expected[k]);
        }
    }
}

struct Pair {
    length: f64,
    first: f64,
    second: f64,
    scale: f64,
}

fn pair_reflection(x: f64) -> Pair {
    let length = (0.0 + x * x + 0.0 * 0.0).sqrt();
    let first = x - length;
    let second = 0.0;
    Pair { length, first, second, scale: 0.0 + first * first + second * second }
}

fn turns(x: f64) -> bool {
    !(pair_reflection(x).scale == 0.0)
}

fn turned(x: f64) -> f64 {
    if turns(x) {
        pair_reflection(x).length
    } else {
        x
    }
}

fn pair_gain(h: &Pair, a: f64, b: f64) -> f64 {
    -2.0 * (h.first * a + h.second * b) / h.scale
}

fn passes(x: f64, b: f64) -> bool {
    let h = pair_reflection(x);
    let gain = pair_gain(&h, 0.0, b);
    0.0 + gain * h.first == 0.0 && b + gain * h.second == b
}

fn restores(x: f64) -> bool {
    let h = pair_reflection(x);
    let gain = pair_gain(&h, h.length, 0.0);
    h.length + gain * h.first == x && 0.0 + gain * h.second == 0.0
}

fn sweep_is_plain(d: &[f64], m: usize) -> bool {
    let x: Vec<f64> = d.iter().map(|entry| entry - d[m - 1]).collect();
    (0..m - 1).all(|k| {
        let next = if k + 1 < m - 1 { turned(x[k + 1]) } else { x[k + 1] };
        !turns(x[k])
            || (passes(x[k], 0.0) && passes(x[k], x[k + 1]) && passes(x[k], next) && restores(x[k]))
    }) && (0..m).all(|k| d[k] - d[m - 1] + d[m - 1] == d[k])
}

fn qr_diagonal_is_plain(d: &[f64]) -> bool {
    let threshold = 1.0 / 100_000_000.0;
    0.0 + 0.0 == 0.0
        && 0.0 * 0.0 == 0.0
        && 0.0f64.sqrt() == 0.0
        && 0.0 - 0.0 == 0.0
        && 0.0f64.abs() < threshold
        && (2..=d.len()).all(|m| sweep_is_plain(d, m))
}

#[test]
fn qr_algorithm_returns_the_diagonal_of_a_diagonal_matrix_in_ascending_order() {
    let diagonals: Vec<Vec<f64>> = vec![
        vec![3.0, 1.0, 2.0],
        vec![1.0, 2.0],
        vec![2.0, 1.0],
        vec![-5.0, 2.0, 1.0, 7.0],
        vec![0.5, -0.25, 0.125, 0.75, 0.0],
        vec![4.0, 4.0, -4.0],
        vec![10.0, 9.0, 8.0, 7.0, 6.0, 5.0],
    ];
    for diagonal in diagonals {
        let n = diagonal.len();
        assert!(qr_diagonal_is_plain(&diagonal), "{:?}", diagonal);
        let mut matrix = vec![0.0; n * n];
        for i in 0..n {
            matrix[i * n + i] = diagonal[i];
        }
        let mut expected = diagonal.clone();
        expected.sort_by(|a, b| a.partial_cmp(b).expect("no NaN"));
        let found = qr_algorithm(&reals(&matrix), n).expect("converges");
        assert_eq!(floats(&found), expected, "{:?}", diagonal);
        assert!(qr_algorithm_with_cap(&reals(&matrix), n, n - 1).is_some());
        if n >= 3 {
            assert!(qr_algorithm_with_cap(&reals(&matrix), n, n - 2).is_none());
        }
        let mut reduced = reals(&matrix);
        hessenberg_form(&mut reduced, n);
        assert_eq!(floats(&reduced), matrix);
    }
}

#[test]
fn qr_algorithm_recovers_the_eigenvalues_through_a_diagonal_transformation() {
    let eigenvalues = [3.0, -1.5, 0.25, 7.0];
    let scales = [2.0, -0.5, 4.0, 1.25];
    let n = eigenvalues.len();
    let mut transformation = vec![0.0; n * n];
    for i in 0..n {
        transformation[i * n + i] = scales[i];
        assert_eq!(eigenvalues[i] * scales[i] / scales[i], eigenvalues[i]);
    }
    let generated = generate_matrix_from(n, reals(&eigenvalues), &reals(&transformation))
        .expect("not singular");
    let mut expected = vec![0.0; n * n];
    for i in 0..n {
        expected[i * n + i] = eigenvalues[i];
    }
    assert_eq!(floats(&generated.matrix), expected);
    assert!(qr_diagonal_is_plain(&eigenvalues));
    let found = qr_algorithm(&generated.matrix, n).expect("converges");
    assert_eq!(floats(&found), vec![-1.5, 0.25, 3.0, 7.0]);
}
