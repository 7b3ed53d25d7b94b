use numerical_methods::interval::{IntInterval, IntervalType};
use numerical_methods::scalar::{one, Index, Numerical, OtherNumericalOps};

#[derive(Clone, Copy, Debug, PartialEq)]
struct Real(f64);

impl OtherNumericalOps for Real {
    fn abs_spec(self) -> Self {
        Real(self.0.abs())
    }

    fn sqrt_spec(self) -> Self {
        Real(self.0.sqrt())
    }

    fn zero_spec() -> Self {
        Real(0.0)
    }

    fn abs_trait(&self) -> Self {
        self.abs_spec()
    }

    fn sqrt_trait(&self) -> Self {
        self.sqrt_spec()
    }

    fn zero() -> Self {
        Self::zero_spec()
    }
}

impl Numerical for Real {
    fn add_spec(self, rhs: Self) -> Self {
        Real(self.0 + rhs.0)
    }

    fn sub_spec(self, rhs: Self) -> Self {
        Real(self.0 - rhs.0)
    }

    fn mul_spec(self, rhs: Self) -> Self {
        Real(self.0 * rhs.0)
    }

    fn div_spec(self, rhs: Self) -> Self {
        Real(self.0 / rhs.0)
    }

    fn neg_spec(self) -> Self {
        Real(-self.0)
    }

    fn lt_spec(self, rhs: Self) -> bool {
        self.0 < rhs.0
    }

    fn le_spec(self, rhs: Self) -> bool {
        self.0 <= rhs.0
    }

    fn eq_spec(self, rhs: Self) -> bool {
        self.0 == rhs.0
    }

    fn max_spec(self, rhs: Self) -> Self {
        Real(self.0.max(rhs.0))
    }

    fn from_i32_spec(value: i32) -> Self {
        Real(f64::from(value))
    }

    fn from_index_spec(value: Index) -> Self {
        Real(value as f64)
    }

    fn total_le_spec(self, rhs: Self) -> bool {
        self.0.total_cmp(&rhs.0) != std::cmp::Ordering::Greater
    }

    fn add(self, rhs: Self) -> Self {
        self.add_spec(rhs)
    }

    fn sub(self, rhs: Self) -> Self {
        self.sub_spec(rhs)
    }

    fn mul(self, rhs: Self) -> Self {
        self.mul_spec(rhs)
    }

    fn div(self, rhs: Self) -> Self {
        self.div_spec(rhs)
    }

    fn neg(self) -> Self {
        self.neg_spec()
    }

    fn lt(self, rhs: Self) -> bool {
        self.lt_spec(rhs)
    }

    fn le(self, rhs: Self) -> bool {
        self.le_spec(rhs)
    }

    fn eq(self, rhs: Self) -> bool {
        self.eq_spec(rhs)
    }

    fn max(self, rhs: Self) -> Self {
        self.max_spec(rhs)
    }

    fn from_i32(value: i32) -> Self {
        Self::from_i32_spec(value)
    }

    fn from_index(value: Index) -> Self {
        Self::from_index_spec(value)
    }

    fn total_le(self, rhs: Self) -> bool {
        self.total_le_spec(rhs)
    }

    fn total_le_is_total(_a: Self, _b: Self) {}

    fn total_le_is_transitive(_a: Self, _b: Self, _c: Self) {}
}

#[test]
fn diameter_is_the_distance_between_the_end_points() {
    assert_eq!(IntInterval::new(-3, 4).diameter(), 7);
    assert_eq!(IntInterval::new(4, -3).diameter(), 7);
    assert_eq!(IntInterval::new(5, 5).diameter(), 0);
    assert_eq!(IntInterval::new(0, i32::MIN + 1).diameter(), 2147483647);
    assert_eq!(IntInterval::new(0, i32::MIN).diameter(), 2147483648);
}

#[test]
fn new_keeps_both_end_points() {
    let interval = IntervalType::new(Real(0.25), Real(9.0));
    assert_eq!(interval.start, Real(0.25));
    assert_eq!(interval.end, Real(9.0));
}

#[test]
fn contains_includes_both_end_points() {
    let interval = IntervalType::new(Real(-1.0), Real(2.0));
    assert!(interval.contains(Real(-1.0)));
    assert!(interval.contains(Real(2.0)));
    assert!(interval.contains(Real(0.5)));
    assert!(!interval.contains(Real(2.5)));
    assert!(!interval.contains(Real(-1.5)));
    assert!(!interval.contains(Real(f64::NAN)));
}

#[test]
fn middle_is_the_mean_of_the_end_points() {
    assert_eq!(IntervalType::new(Real(1.0), Real(4.0)).middle(), Real(2.5));
    assert_eq!(IntervalType::new(Real(-3.0), Real(3.0)).middle(), Real(0.0));
}

#[test]
fn one_is_the_unit() {
    assert_eq!(one::<Real>(), Real(1.0));
}
