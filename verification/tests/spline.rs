use numerical_methods::points::{calc_error, points_eq};
use numerical_methods::polynomial::poly_at;
use numerical_methods::scalar::{Index, Numerical, OtherNumericalOps};
use numerical_methods::spline::{system_matrix_of, system_values_of, Spline};

#[derive(Clone, Copy, Debug, PartialEq)]
struct Real(f64);

impl OtherNumericalOps for Real {
    fn abs_spec(self) -> Self {
        Real(self.0.abs())
    }

    fn sqrt_spec(self) -> Self {
        Real(self.0.sqrt())
    }

    fn zero_spec() -> Self {
        Real(0.0)
    }

    fn abs_trait(&self) -> Self {
        self.abs_spec()
    }

    fn sqrt_trait(&self) -> Self {
        self.sqrt_spec()
    }

    fn zero() -> Self {
        Self::zero_spec()
    }
}

impl Numerical for Real {
    fn add_spec(self, rhs: Self) -> Self {
        Real(self.0 + rhs.0)
    }

    fn sub_spec(self, rhs: Self) -> Self {
        Real(self.0 - rhs.0)
    }

    fn mul_spec(self, rhs: Self) -> Self {
        Real(self.0 * rhs.0)
    }

    fn div_spec(self, rhs: Self) -> Self {
        Real(self.0 / rhs.0)
    }

    fn neg_spec(self) -> Self {
        Real(-self.0)
    }

    fn lt_spec(self, rhs: Self) -> bool {
        self.0 < rhs.0
    }

    fn le_spec(self, rhs: Self) -> bool {
        self.0 <= rhs.0
    }

    fn eq_spec(self, rhs: Self) -> bool {
        self.0 == rhs.0
    }

    fn max_spec(self, rhs: Self) -> Self {
        Real(self.0.max(rhs.0))
    }

    fn from_i32_spec(value: i32) -> Self {
        Real(f64::from(value))
    }

    fn from_index_spec(value: Index) -> Self {
        Real(value as f64)
    }

    fn total_le_spec(self, rhs: Self) -> bool {
        self.0.total_cmp(&rhs.0) != std::cmp::Ordering::Greater
    }

    fn add(self, rhs: Self) -> Self {
        self.add_spec(rhs)
    }

    fn sub(self, rhs: Self) -> Self {
        self.sub_spec(rhs)
    }

    fn mul(self, rhs: Self) -> Self {
        self.mul_spec(rhs)
    }

    fn div(self, rhs: Self) -> Self {
        self.div_spec(rhs)
    }

    fn neg(self) -> Self {
        self.neg_spec()
    }

    fn lt(self, rhs: Self) -> bool {
        self.lt_spec(rhs)
    }

    fn le(self, rhs: Self) -> bool {
        self.le_spec(rhs)
    }

    fn eq(self, rhs: Self) -> bool {
        self.eq_spec(rhs)
    }

    fn max(self, rhs: Self) -> Self {
        self.max_spec(rhs)
    }

    fn from_i32(value: i32) -> Self {
        Self::from_i32_spec(value)
    }

    fn from_index(value: Index) -> Self {
        Self::from_index_spec(value)
    }

    fn total_le(self, rhs: Self) -> bool {
        self.total_le_spec(rhs)
    }

    fn total_le_is_total(_a: Self, _b: Self) {}

    fn total_le_is_transitive(_a: Self, _b: Self, _c: Self) {}
}

fn reals(values: &[f64]) -> Vec<Real> {
    values.iter().map(|v| Real(*v)).collect()
}

fn floats(values: &[Real]) -> Vec<f64> {
    values.iter().map(|v| v.0).collect()
}

/// The system as nested loops write it into a buffer of zeros.
fn written_system(order: usize, points: &[f64], f: impl Fn(f64) -> f64) -> (Vec<f64>, Vec<f64>) {
    let mut factorial = vec![0.0; order + 1];
    factorial[0] = 1.0;
    for n in 1..=order {
        factorial[n] = (n as f64) * factorial[n - 1];
    }
    let k = points.len() - 1;
    let rowlen = (order + 1) * k;
    let mut coefs = vec![0.0; rowlen];
    let mut matrix = vec![0.0; rowlen * rowlen];
    for j in 0..k {
        let mut xjn = 1.0;
        for n in 0..=order {
            matrix[(2 * j) * rowlen + (order + 1) * j + n] = xjn;
            xjn *= points[j];
        }
        coefs[2 * j] = f(points[j]);
        let mut xjn = 1.0;
        for n in 0..=order {
            matrix[(2 * j + 1) * rowlen + (order + 1) * j + n] = xjn;
            xjn *= points[j + 1];
        }
        coefs[2 * j + 1] = f(points[j + 1]);
    }
    if order == 2 {
        matrix[2 * k * rowlen + 1] = 1.0;
        let mut x0n = 1.0;
        for n in 2..=order {
            x0n *= points[0];
            matrix[2 * k * rowlen + n] = x0n * (n as f64);
        }
    } else if order == 3 {
        matrix[2 * k * rowlen + 2] = 1.0;
        matrix[(2 * k + 1) * rowlen + (order + 1) * (k - 1) + 2] = 1.0;
        let mut x0n = 1.0;
        let mut xkn = 1.0;
        for n in 3..=order {
            x0n *= points[0];
            xkn *= points[k];
            matrix[2 * k * rowlen + n] = x0n * factorial[n] / factorial[n - 2];
            matrix[(2 * k + 1) * rowlen + (order + 1) * (k - 1) + n] =
                xkn * factorial[n] / factorial[n - 2];
        }
    }
    for i in 1..=(order - 1) {
        for j in 0..k - 1 {
            let row = (2 * k + order - 1) + j * (order - 1) + i - 1;
            matrix[row * rowlen + j * (order + 1) + i] = factorial[i];
            matrix[row * rowlen + (j + 1) * (order + 1) + i] = -factorial[i];
            let mut xjn = 1.0;
            for n in (i + 1)..=order {
                xjn *= points[j + 1];
                matrix[row * rowlen + j * (order + 1) + n] = xjn * factorial[n] / factorial[n - i];
                matrix[row * rowlen + (j + 1) * (order + 1) + n] =
                    -xjn * factorial[n] / factorial[n - i];
            }
        }
    }
    (matrix, coefs)
}

fn example(x: f64) -> f64 {
    (0.5 * x + 0.2).tan() - x * x
}

#[test]
fn the_system_is_the_one_that_nested_loops_write() {
    for order in 1..=3 {
        for points in [vec![-1.0, 1.0], vec![-1.0, 0.0, 1.0], vec![-1.5, -0.25, 0.5, 0.75, 2.0]] {
            let (matrix, values) = written_system(order, &points, example);
            let found = system_matrix_of(order, &reals(&points));
            assert_eq!(found.len(), matrix.len());
            for (position, (f, e)) in found.iter().zip(&matrix).enumerate() {
                assert!(f.0 == *e, "order {order}, position {position}: {} against {e}", f.0);
            }
            let found = system_values_of(order, &reals(&points), &|x: Real| Real(example(x.0)));
            assert_eq!(floats(&found), values);
        }
    }
}

#[test]
fn points_eq_divides_the_interval_evenly() {
    assert_eq!(floats(&points_eq(Real(-1.0), Real(1.0), 4)), vec![-1.0, -0.5, 0.0, 0.5, 1.0]);
    assert_eq!(floats(&points_eq(Real(2.0), Real(5.0), 1)), vec![2.0, 5.0]);
    assert!(points_eq(Real(2.0), Real(5.0), 0)[0].0.is_nan());
}

#[test]
fn calc_error_is_the_largest_distance_on_the_grid() {
    let f = |x: Real| Real(x.0 * x.0);
    let g = |x: Real| Real(x.0);
    // On 0, 0.25, ..., 1 the distance x - x² is largest at 0.5.
    assert_eq!(calc_error(&f, &g, Real(0.0), Real(1.0), 4), Real(0.25));
    assert_eq!(calc_error(&f, &f, Real(0.0), Real(1.0), 4), Real(0.0));
}

#[test]
fn poly_at_evaluates_a_slice_of_coefficients() {
    assert_eq!(poly_at(&reals(&[1.0, 2.0, 3.0]), Real(2.0)), Real(17.0));
    assert_eq!(poly_at::<Real>(&[], Real(2.0)), Real(0.0));
}

#[test]
fn a_spline_of_order_one_joins_the_values_by_lines() {
    let points = reals(&[0.0, 1.0, 3.0]);
    let spline = Spline::new(1, &points, &|x: Real| Real(x.0 * x.0)).expect("regular");
    assert!((spline.at(Real(0.5)).0 - 0.5).abs() < 1e-12);
    assert!((spline.at(Real(2.0)).0 - 5.0).abs() < 1e-12);
    assert!((spline.at(Real(1.0)).0 - 1.0).abs() < 1e-12);
}

#[test]
fn a_spline_continues_its_outer_segments() {
    let points = reals(&[0.0, 1.0, 3.0]);
    let spline = Spline::new(1, &points, &|x: Real| Real(x.0 * x.0)).expect("regular");
    assert!((spline.at(Real(-1.0)).0 + 1.0).abs() < 1e-12);
    assert!((spline.at(Real(4.0)).0 - 13.0).abs() < 1e-12);
}

#[test]
fn a_spline_of_order_two_reproduces_a_parabola_that_starts_flat() {
    let points = reals(&[0.0, 1.0, 2.0, 4.0]);
    let spline = Spline::new(2, &points, &|x: Real| Real(x.0 * x.0 + 1.0)).expect("regular");
    for x in [0.0, 0.3, 1.0, 1.5, 3.25, 4.0] {
        assert!((spline.at(Real(x)).0 - (x * x + 1.0)).abs() < 1e-9, "at {x}");
    }
}

#[test]
fn a_spline_of_order_three_reproduces_a_line() {
    let points = reals(&[-1.0, 0.0, 0.5, 2.0]);
    let spline = Spline::new(3, &points, &|x: Real| Real(3.0 * x.0 - 2.0)).expect("regular");
    for x in [-1.0, -0.4, 0.0, 0.25, 1.0, 2.0] {
        assert!((spline.at(Real(x)).0 - (3.0 * x - 2.0)).abs() < 1e-9, "at {x}");
    }
}

#[test]
fn a_spline_takes_the_values_at_its_points() {
    let points = points_eq(Real(-1.0), Real(1.0), 6);
    for order in 1..=3 {
        let spline = Spline::new(order, &points, &|x: Real| Real(example(x.0))).expect("regular");
        for point in &points {
            assert!((spline.at(*point).0 - example(point.0)).abs() < 1e-9, "order {order} at {}", point.0);
        }
        let error = calc_error(
            &|x: Real| Real(example(x.0)),
            &|x: Real| spline.at(x),
            Real(-1.0),
            Real(1.0),
            100,
        );
        assert!(error.0 < 0.5, "order {order}: {}", error.0);
    }
}

#[test]
fn a_spline_over_a_repeated_point_cannot_be_built() {
    let points = reals(&[0.0, 1.0, 1.0]);
    assert!(Spline::new(1, &points, &|x: Real| x).is_none());
}
