//! The scalar abstraction that all algorithms of this crate compute with.

use vstd::prelude::*;

verus! {

/// Type of every index and dimension.
pub type Index = usize;

/// Upper bound on the number of rounds an iterative method runs by default.
pub const MAX_ITERATIONS: Index = 1_000_000;

/// Scalar operations that have no operator of their own.
///
/// Each executable method has to return exactly what the specification
/// function beside it gives for the same arguments, so an implementation
/// has to be a total function of its arguments, without state. Every
/// contract of this crate is proved under that assumption. An
/// implementation in unverified code is taken at its word.
pub trait OtherNumericalOps: Sized {
    /// Magnitude of `self`.
    spec fn abs_spec(self) -> Self;

    /// Square root of `self`.
    spec fn sqrt_spec(self) -> Self;

    /// The additive identity.
    spec fn zero_spec() -> Self;

    fn abs_trait(&self) -> (r: Self)
        ensures
            r == self.abs_spec(),
    ;

    fn sqrt_trait(&self) -> (r: Self)
        ensures
            r == self.sqrt_spec(),
    ;

    fn zero() -> (r: Self)
        ensures
            r == Self::zero_spec(),
    ;
}

/// A scalar with arithmetic, comparisons and conversions from integers.
///
/// As for [`OtherNumericalOps`], each executable method has to return what
/// the specification function beside it gives, for all arguments: division
/// by zero, too, has to give a scalar.
///
/// No algebraic law is asked of the arithmetic: sums need not be associative
/// and a product with zero need not be zero, as is the case for rounded
/// arithmetic with non-finite values. Only `total_le` has to be a total
/// preorder, which lets sorted output be stated; for numbers in binary
/// floating point the total order of their standard is one.
pub trait Numerical: OtherNumericalOps + Copy {
    /// The sum `self + rhs`.
    spec fn add_spec(self, rhs: Self) -> Self;

    /// The difference `self − rhs`.
    spec fn sub_spec(self, rhs: Self) -> Self;

    /// The product `self · rhs`.
    spec fn mul_spec(self, rhs: Self) -> Self;

    /// The quotient `self / rhs`.
    spec fn div_spec(self, rhs: Self) -> Self;

    /// The negative `−self`.
    spec fn neg_spec(self) -> Self;

    /// Strict comparison `self < rhs`.
    spec fn lt_spec(self, rhs: Self) -> bool;

    /// Comparison `self <= rhs`.
    spec fn le_spec(self, rhs: Self) -> bool;

    /// Numeric equality `self == rhs`, which may differ from identity.
    spec fn eq_spec(self, rhs: Self) -> bool;

    /// The larger of two scalars.
    spec fn max_spec(self, rhs: Self) -> Self;

    /// The scalar that stands for a small integer.
    spec fn from_i32_spec(value: i32) -> Self;

    /// The scalar that stands for a count.
    spec fn from_index_spec(value: Index) -> Self;

    /// A total preorder on all scalars, used for sorting.
    spec fn total_le_spec(self, rhs: Self) -> bool;

    fn add(self, rhs: Self) -> (r: Self)
        ensures
            r == self.add_spec(rhs),
    ;

    fn sub(self, rhs: Self) -> (r: Self)
        ensures
            r == self.sub_spec(rhs),
    ;

    fn mul(self, rhs: Self) -> (r: Self)
        ensures
            r == self.mul_spec(rhs),
    ;

    fn div(self, rhs: Self) -> (r: Self)
        ensures
            r == self.div_spec(rhs),
    ;

    fn neg(self) -> (r: Self)
        ensures
            r == self.neg_spec(),
    ;

    fn lt(self, rhs: Self) -> (r: bool)
        ensures
            r == self.lt_spec(rhs),
    ;

    fn le(self, rhs: Self) -> (r: bool)
        ensures
            r == self.le_spec(rhs),
    ;

    fn eq(self, rhs: Self) -> (r: bool)
        ensures
            r == self.eq_spec(rhs),
    ;

    fn max(self, rhs: Self) -> (r: Self)
        ensures
            r == self.max_spec(rhs),
    ;

    fn from_i32(value: i32) -> (r: Self)
        ensures
            r == Self::from_i32_spec(value),
    ;

    fn from_index(value: Index) -> (r: Self)
        ensures
            r == Self::from_index_spec(value),
    ;

    fn total_le(self, rhs: Self) -> (r: bool)
        ensures
            r == self.total_le_spec(rhs),
    ;

    /// Any two scalars are comparable by `total_le`.
    proof fn total_le_is_total(a: Self, b: Self)
        ensures
            a.total_le_spec(b) || b.total_le_spec(a),
    ;

    /// `total_le` is transitive.
    proof fn total_le_is_transitive(a: Self, b: Self, c: Self)
        requires
            a.total_le_spec(b),
            b.total_le_spec(c),
        ensures
            a.total_le_spec(c),
    ;
}

/// The scalar one.
pub open spec fn one_spec<S: Numerical>() -> S {
    S::from_i32_spec(1)
}

/// The scalar one.
pub fn one<S: Numerical>() -> (r: S)
    ensures
        r == one_spec::<S>(),
{
    S::from_i32(1)
}

/// The scalar `1 / denominator`, rounded as the division rounds.
pub open spec fn reciprocal_spec<S: Numerical>(denominator: i32) -> S {
    one_spec::<S>().div_spec(S::from_i32_spec(denominator))
}

/// The scalar `1 / denominator`.
pub fn reciprocal<S: Numerical>(denominator: i32) -> (r: S)
    ensures
        r == reciprocal_spec::<S>(denominator),
{
    one::<S>().div(S::from_i32(denominator))
}

/// Smallest magnitude that a pivot may have: `1e-7`.
pub open spec fn min_pivot_spec<S: Numerical>() -> S {
    reciprocal_spec::<S>(10_000_000)
}

/// Smallest magnitude that a pivot may have: `1e-7`.
pub fn min_pivot<S: Numerical>() -> (r: S)
    ensures
        r == min_pivot_spec::<S>(),
{
    reciprocal(10_000_000)
}

/// Magnitude below which a coordinate is left out of an eigenvalue
/// estimate: `1e-8`.
pub open spec fn pm_min_coord_spec<S: Numerical>() -> S {
    reciprocal_spec::<S>(100_000_000)
}

/// Magnitude below which a coordinate is left out of an eigenvalue
/// estimate: `1e-8`.
pub fn pm_min_coord<S: Numerical>() -> (r: S)
    ensures
        r == pm_min_coord_spec::<S>(),
{
    reciprocal(100_000_000)
}

/// Relative change below which a power iteration has converged: `1e-6`.
pub open spec fn pm_convergence_spec<S: Numerical>() -> S {
    reciprocal_spec::<S>(1_000_000)
}

/// Relative change below which a power iteration has converged: `1e-6`.
pub fn pm_convergence<S: Numerical>() -> (r: S)
    ensures
        r == pm_convergence_spec::<S>(),
{
    reciprocal(1_000_000)
}

/// Magnitude below which a subdiagonal entry counts as zero: `1e-8`.
pub open spec fn subdiagonal_small_spec<S: Numerical>() -> S {
    reciprocal_spec::<S>(100_000_000)
}

/// Magnitude below which a subdiagonal entry counts as zero: `1e-8`.
pub fn subdiagonal_small<S: Numerical>() -> (r: S)
    ensures
        r == subdiagonal_small_spec::<S>(),
{
    reciprocal(100_000_000)
}

} // verus!
