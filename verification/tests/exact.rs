use numerical_methods::lu::LUDecomposition;
use numerical_methods::scalar::{Index, Numerical, OtherNumericalOps};

/// A fraction in lowest terms with a positive denominator: a scalar whose
/// arithmetic is exact.
#[derive(Clone, Copy, Debug, PartialEq)]
struct Ratio {
    numerator: i128,
    denominator: i128,
}

fn common_divisor(a: i128, b: i128) -> i128 {
    let mut x: i128 = a.abs();
    let mut y: i128 = b.abs();
    while y != 0 {
        let rest: i128 = x % y;
        x = y;
        y = rest;
    }
    x
}

fn ratio(numerator: i128, denominator: i128) -> Ratio {
    if denominator == 0 {
        return Ratio { numerator: 0, denominator: 1 };
    }
    let divisor: i128 = common_divisor(numerator, denominator) * denominator.signum();
    Ratio { numerator: numerator / divisor, denominator: denominator / divisor }
}

fn whole(value: i128) -> Ratio {
    ratio(value, 1)
}

impl OtherNumericalOps for Ratio {
    fn abs_spec(self) -> Self {
        ratio(self.numerator.abs(), self.denominator)
    }

    fn sqrt_spec(self) -> Self {
        self
    }

    fn zero_spec() -> Self {
        whole(0)
    }

    fn abs_trait(&self) -> Self {
        self.abs_spec()
    }

    fn sqrt_trait(&self) -> Self {
        self.sqrt_spec()
    }

    fn zero() -> Self {
        Self::zero_spec()
    }
}

impl Numerical for Ratio {
    fn add_spec(self, rhs: Self) -> Self {
        ratio(
            self.numerator * rhs.denominator + rhs.numerator * self.denominator,
            self.denominator * rhs.denominator,
        )
    }

    fn sub_spec(self, rhs: Self) -> Self {
        ratio(
            self.numerator * rhs.denominator - rhs.numerator * self.denominator,
            self.denominator * rhs.denominator,
        )
    }

    fn mul_spec(self, rhs: Self) -> Self {
        ratio(self.numerator * rhs.numerator, self.denominator * rhs.denominator)
    }

    fn div_spec(self, rhs: Self) -> Self {
        ratio(self.numerator * rhs.denominator, self.denominator * rhs.numerator)
    }

    fn neg_spec(self) -> Self {
        ratio(-self.numerator, self.denominator)
    }

    fn lt_spec(self, rhs: Self) -> bool {
        self.numerator * rhs.denominator < rhs.numerator * self.denominator
    }

    fn le_spec(self, rhs: Self) -> bool {
        self.numerator * rhs.denominator <= rhs.numerator * self.denominator
    }

    fn eq_spec(self, rhs: Self) -> bool {
        self == rhs
    }

    fn max_spec(self, rhs: Self) -> Self {
        if self.lt_spec(rhs) {
            rhs
        } else {
            self
        }
    }

    fn from_i32_spec(value: i32) -> Self {
        whole(i128::from(value))
    }

    fn from_index_spec(value: Index) -> Self {
        whole(value as i128)
    }

    fn total_le_spec(self, rhs: Self) -> bool {
        self.le_spec(rhs)
    }

    fn add(self, rhs: Self) -> Self {
        self.add_spec(rhs)
    }

    fn sub(self, rhs: Self) -> Self {
        self.sub_spec(rhs)
    }

    fn mul(self, rhs: Self) -> Self {
        self.mul_spec(rhs)
    }

    fn div(self, rhs: Self) -> Self {
        self.div_spec(rhs)
    }

    fn neg(self) -> Self {
        self.neg_spec()
    }

    fn lt(self, rhs: Self) -> bool {
        self.lt_spec(rhs)
    }

    fn le(self, rhs: Self) -> bool {
        self.le_spec(rhs)
    }

    fn eq(self, rhs: Self) -> bool {
        self.eq_spec(rhs)
    }

    fn max(self, rhs: Self) -> Self {
        self.max_spec(rhs)
    }

    fn from_i32(value: i32) -> Self {
        Self::from_i32_spec(value)
    }

    fn from_index(value: Index) -> Self {
        Self::from_index_spec(value)
    }

    fn total_le(self, rhs: Self) -> bool {
        self.total_le_spec(rhs)
    }

    fn total_le_is_total(_a: Self, _b: Self) {}

    fn total_le_is_transitive(_a: Self, _b: Self, _c: Self) {}
}

fn wholes(values: &[i128]) -> Vec<Ratio> {
    values.iter().map(|v| whole(*v)).collect()
}

fn sum(terms: impl Iterator<Item = Ratio>) -> Ratio {
    terms.fold(whole(0), |total, term| total.add(term))
}

fn matrices() -> Vec<(usize, Vec<i128>)> {
    vec![
        (1, vec![5]),
        (2, vec![2, 1, 1, 3]),
        (2, vec![0, 1, 1, 0]),
        (3, vec![2, 1, 1, 4, -6, 0, -2, 7, 2]),
        (3, vec![0, 2, 1, 1, 1, 0, 3, 0, -1]),
        (4, vec![1, 2, 3, 4, 2, 3, 4, 1, 3, 4, 1, 2, 4, 1, 2, 3]),
        (4, vec![0, 0, 0, 7, 0, 0, 3, 1, 0, 5, 1, 1, 2, 1, 1, 1]),
    ]
}

#[test]
fn the_factors_of_a_matrix_of_fractions_multiply_to_the_matrix() {
    for (n, entries) in matrices() {
        let matrix = wholes(&entries);
        let lu = LUDecomposition::compute(&matrix, n).expect("not singular");
        let lower = lu.lower();
        let upper = lu.upper();
        let order = lu.permutation();
        for i in 0..n {
            for c in 0..n {
                let product =
                    sum((0..n).map(|j| lower[i * n + j].mul(upper[j * n + order[c]])));
                assert_eq!(product, matrix[i * n + c], "{:?} at {} {}", entries, i, c);
            }
        }
    }
}

#[test]
fn the_solution_of_a_system_of_fractions_is_exact() {
    for (n, entries) in matrices() {
        let matrix = wholes(&entries);
        let lu = LUDecomposition::compute(&matrix, n).expect("not singular");
        for shift in 0..3 {
            let right: Vec<Ratio> =
                (0..n).map(|i| ratio((i as i128 + 1) * (2 * shift - 3), shift + 2)).collect();
            let mut x = right.clone();
            lu.solve(&mut x);
            for i in 0..n {
                let row = sum((0..n).map(|c| matrix[i * n + c].mul(x[c])));
                assert_eq!(row, right[i], "{:?} at {}", entries, i);
            }
        }
    }
}

#[test]
fn the_triangular_systems_of_fractions_are_solved_exactly() {
    // Of the matrix with rows (2, 1), (1, 3) the solution for (1, 2) is
    // (1/5, 3/5).
    let lu = LUDecomposition::compute(&wholes(&[2, 1, 1, 3]), 2).expect("not singular");
    let mut x = wholes(&[1, 2]);
    lu.solve(&mut x);
    assert_eq!(x, vec![ratio(1, 5), ratio(3, 5)]);
}

#[test]
fn a_singular_matrix_of_fractions_has_no_factors() {
    assert!(LUDecomposition::compute(&wholes(&[1, 2, 2, 4]), 2).is_none());
    assert!(LUDecomposition::compute(&wholes(&[1, 2, 3, 4, 5, 6, 7, 8, 9]), 3).is_none());
}
