use numerical_methods::function::evaluate;
use numerical_methods::interval::{IntInterval, IntervalType};
use numerical_methods::localize_root::{
    check_root, general_localize_root, localize_root, localize_root_in_interval, search_level,
};
use numerical_methods::newton_method::newton_method;
use numerical_methods::polynomial::{
    add_root, create_lagrange, create_newton, diff_table_index, Polynomial,
};
use numerical_methods::scalar::{Index, Numerical, OtherNumericalOps};

#[derive(Clone, Copy, Debug, PartialEq)]
struct Real(f64);

impl OtherNumericalOps for Real {
    fn abs_spec(self) -> Self {
        Real(self.0.abs())
    }

    fn sqrt_spec(self) -> Self {
        Real(self.0.sqrt())
    }

    fn zero_spec() -> Self {
        Real(0.0)
    }

    fn abs_trait(&self) -> Self {
        self.abs_spec()
    }

    fn sqrt_trait(&self) -> Self {
        self.sqrt_spec()
    }

    fn zero() -> Self {
        Self::zero_spec()
    }
}

impl Numerical for Real {
    fn add_spec(self, rhs: Self) -> Self {
        Real(self.0 + rhs.0)
    }

    fn sub_spec(self, rhs: Self) -> Self {
        Real(self.0 - rhs.0)
    }

    fn mul_spec(self, rhs: Self) -> Self {
        Real(self.0 * rhs.0)
    }

    fn div_spec(self, rhs: Self) -> Self {
        Real(self.0 / rhs.0)
    }

    fn neg_spec(self) -> Self {
        Real(-self.0)
    }

    fn lt_spec(self, rhs: Self) -> bool {
        self.0 < rhs.0
    }

    fn le_spec(self, rhs: Self) -> bool {
        self.0 <= rhs.0
    }

    fn eq_spec(self, rhs: Self) -> bool {
        self.0 == rhs.0
    }

    fn max_spec(self, rhs: Self) -> Self {
        Real(self.0.max(rhs.0))
    }

    fn from_i32_spec(value: i32) -> Self {
        Real(f64::from(value))
    }

    fn from_index_spec(value: Index) -> Self {
        Real(value as f64)
    }

    fn total_le_spec(self, rhs: Self) -> bool {
        self.0.total_cmp(&rhs.0) != std::cmp::Ordering::Greater
    }

    fn add(self, rhs: Self) -> Self {
        self.add_spec(rhs)
    }

    fn sub(self, rhs: Self) -> Self {
        self.sub_spec(rhs)
    }

    fn mul(self, rhs: Self) -> Self {
        self.mul_spec(rhs)
    }

    fn div(self, rhs: Self) -> Self {
        self.div_spec(rhs)
    }

    fn neg(self) -> Self {
        self.neg_spec()
    }

    fn lt(self, rhs: Self) -> bool {
        self.lt_spec(rhs)
    }

    fn le(self, rhs: Self) -> bool {
        self.le_spec(rhs)
    }

    fn eq(self, rhs: Self) -> bool {
        self.eq_spec(rhs)
    }

    fn max(self, rhs: Self) -> Self {
        self.max_spec(rhs)
    }

    fn from_i32(value: i32) -> Self {
        Self::from_i32_spec(value)
    }

    fn from_index(value: Index) -> Self {
        Self::from_index_spec(value)
    }

    fn total_le(self, rhs: Self) -> bool {
        self.total_le_spec(rhs)
    }

    fn total_le_is_total(_a: Self, _b: Self) {}

    fn total_le_is_transitive(_a: Self, _b: Self, _c: Self) {}
}

fn reals(values: &[f64]) -> Vec<Real> {
    values.iter().map(|v| Real(*v)).collect()
}

fn floats(values: &[Real]) -> Vec<f64> {
    values.iter().map(|v| v.0).collect()
}

fn assert_close(found: &[f64], expected: &[f64], tolerance: f64) {
    assert_eq!(found.len(), expected.len());
    for (f, e) in found.iter().zip(expected) {
        assert!((f - e).abs() <= tolerance, "{f} is not close to {e}");
    }
}

#[test]
fn evaluate_calls_the_function() {
    assert_eq!(evaluate(&|x: Real| Real(x.0 + 1.0), Real(2.0)), Real(3.0));
}

#[test]
fn a_new_polynomial_is_zero() {
    let p = Polynomial::<Real>::new(3);
    assert_eq!(floats(&p.coefs), vec![0.0, 0.0, 0.0, 0.0]);
    assert_eq!(p.at(Real(5.0)), Real(0.0));
}

#[test]
fn a_polynomial_is_evaluated_from_the_constant_term_upwards() {
    let p = Polynomial { coefs: reals(&[1.0, 2.0, 3.0]) };
    assert_eq!(p.at(Real(2.0)), Real(17.0));
    assert_eq!(p.at(Real(0.0)), Real(1.0));
    assert_eq!(p.at(Real(-1.0)), Real(2.0));
}

#[test]
fn add_root_multiplies_by_a_linear_factor() {
    let one = Polynomial { coefs: reals(&[1.0, 0.0, 0.0]) };
    let linear = add_root(Real(2.0), one);
    assert_eq!(floats(&linear.coefs), vec![-2.0, 1.0, 0.0]);
    let quadratic = add_root(Real(-3.0), linear);
    assert_eq!(floats(&quadratic.coefs), vec![-6.0, 1.0, 1.0]);
    assert_eq!(quadratic.at(Real(2.0)), Real(0.0));
    assert_eq!(quadratic.at(Real(-3.0)), Real(0.0));
}

#[test]
fn add_root_drops_the_term_above_the_degree() {
    let full = Polynomial { coefs: reals(&[0.0, 1.0]) };
    assert_eq!(floats(&add_root(Real(1.0), full).coefs), vec![0.0, -1.0]);
}

#[test]
fn the_table_of_divided_differences_is_triangular() {
    assert_eq!(diff_table_index(4, 0), 0);
    assert_eq!(diff_table_index(4, 1), 4);
    assert_eq!(diff_table_index(4, 2), 7);
    assert_eq!(diff_table_index(4, 3), 9);
    assert_eq!(diff_table_index(4, 4), 10);
    assert_eq!(diff_table_index(1, 0), 0);
}

#[test]
fn lagrange_interpolation_reproduces_a_parabola() {
    let p = create_lagrange(&reals(&[0.0, 1.0, 2.0]), &|x: Real| Real(x.0 * x.0));
    assert_close(&floats(&p.coefs), &[0.0, 0.0, 1.0], 1e-12);
}

#[test]
fn lagrange_interpolation_at_one_point_is_constant() {
    let p = create_lagrange(&reals(&[3.0]), &|x: Real| Real(x.0 + 4.0));
    assert_eq!(floats(&p.coefs), vec![7.0]);
}

#[test]
fn newton_interpolation_reproduces_a_cubic() {
    let cubic = |x: Real| Real(2.0 * x.0 * x.0 * x.0 - x.0 + 5.0);
    let p = create_newton(&reals(&[-1.0, 0.0, 1.0, 3.0]), &cubic);
    assert_close(&floats(&p.coefs), &[5.0, -1.0, 0.0, 2.0], 1e-12);
}

#[test]
fn both_forms_interpolate_the_same_values() {
    let points = reals(&[-2.0, -0.5, 0.25, 1.0, 2.5]);
    let f = |x: Real| Real((x.0 * 1.3).sin() + 0.1 * x.0 * x.0);
    let lagrange = create_lagrange(&points, &f);
    let newton = create_newton(&points, &f);
    for point in &points {
        let expected = f(*point).0;
        assert!((lagrange.at(*point).0 - expected).abs() < 1e-9);
        assert!((newton.at(*point).0 - expected).abs() < 1e-9);
    }
    assert_close(&floats(&lagrange.coefs), &floats(&newton.coefs), 1e-9);
}

#[test]
fn check_root_sees_a_change_of_sign() {
    let f = |x: Real| Real(x.0 - 0.5);
    assert!(check_root(&f, &IntervalType::new(Real(0.0), Real(1.0))));
    assert!(check_root(&f, &IntervalType::new(Real(0.5), Real(1.0))));
    assert!(!check_root(&f, &IntervalType::new(Real(1.0), Real(2.0))));
    assert!(!check_root(&f, &IntervalType::new(Real(-1.0), Real(0.0))));
}

#[test]
fn localize_root_returns_the_first_part_with_a_change_of_sign() {
    let found = localize_root(&|x: Real| Real(x.0 - 0.3)).expect("the root is in [-1, 1]");
    assert_eq!(found.start, Real(0.25));
    assert_eq!(found.end, Real(0.375));
}

#[test]
fn localize_root_widens_the_search() {
    let found = localize_root(&|x: Real| Real(x.0 + 7.03)).expect("the root is in [-10, 10]");
    assert_eq!(found.start, Real(-7.0625));
    assert_eq!(found.end, Real(-7.0));
    let found = localize_root(&|x: Real| Real(x.0 - 55.51)).expect("the root is in [-100, 100]");
    assert_eq!(found.start, Real(55.5));
    assert_eq!(found.end, Real(55.53125));
}

#[test]
fn localize_root_gives_up_outside_of_its_range() {
    assert!(localize_root(&|x: Real| Real(x.0 * x.0 + 1.0)).is_none());
}

#[test]
fn localize_root_in_interval_starts_with_hundredths() {
    let found = localize_root_in_interval(&|x: Real| Real(x.0 - 2.345), IntInterval::new(2, 3))
        .expect("the root is in [2, 3]");
    assert_eq!(found.start, Real(2.0 + 0.0 + 34.0 / 100.0));
    assert_eq!(found.end, Real(2.0 + 0.0 + 35.0 / 100.0));
}

#[test]
fn search_level_of_an_empty_interval_finds_nothing() {
    assert!(search_level(&|x: Real| x, &IntInterval::new(0, 0), 4).is_none());
    assert!(search_level(&|x: Real| x, &IntInterval::new(0, 1), 0).is_none());
}

#[test]
fn general_localize_root_asks_for_each_level_as_it_comes() {
    let f = |x: Real| Real(x.0 - 4.6);
    let intervals = |k: u32| IntInterval::new(0, 2 * k as i32);
    let parts = |k: u32| k + 1;
    // Level 1 is [0, 2] in halves, level 2 is [0, 4] in thirds, level 3 is [0, 6] in quarters.
    assert!(general_localize_root(&f, 2, &intervals, &parts).is_none());
    let found = general_localize_root(&f, 3, &intervals, &parts).expect("the root is in [0, 6]");
    assert_eq!(found.start, Real(4.5));
    assert_eq!(found.end, Real(4.75));
    assert!(general_localize_root(&f, 0, &intervals, &parts).is_none());
}

#[test]
fn newton_method_finds_a_square_root() {
    let f = |x: Real| Real(x.0 * x.0 - 2.0);
    let fprime = |x: Real| Real(2.0 * x.0);
    let root = newton_method(&f, &fprime, IntervalType::new(Real(1.0), Real(2.0)), Real(1e-10), 100)
        .expect("converges");
    assert!((root.0 - 2.0f64.sqrt()).abs() < 1e-9, "{}", root.0);
}

#[test]
fn newton_method_halves_the_interval_when_the_steps_leave_it() {
    // The derivative vanishes at both ends, so every Newton step leaves the interval.
    let f = |x: Real| Real(x.0);
    let fprime = |_: Real| Real(0.0);
    let root = newton_method(&f, &fprime, IntervalType::new(Real(-1.0), Real(3.0)), Real(1e-6), 100)
        .expect("bisection converges");
    assert!(root.0.abs() < 1e-6, "{}", root.0);
}

#[test]
fn newton_method_reports_when_the_rounds_run_out() {
    let f = |x: Real| Real(x.0 * x.0 - 2.0);
    let fprime = |x: Real| Real(2.0 * x.0);
    assert!(newton_method(&f, &fprime, IntervalType::new(Real(1.0), Real(2.0)), Real(1e-10), 0).is_none());
    assert!(newton_method(&f, &fprime, IntervalType::new(Real(1.0), Real(2.0)), Real(1e-10), 1).is_none());
}
