//! Interpolation by splines of order one to three: a polynomial of that
//! degree between each two neighbouring points, with as many derivatives
//! continuous at the points as the order allows.

use vstd::prelude::*;
use vstd::slice::{slice_subrange, slice_to_vec};
use crate::function::{evaluate, is_function, value_at};
use crate::layout::{lemma_cell_bounds, lemma_cell_div_mod, table};
use crate::lu::{factorize, solve_spec, LUDecomposition};
use crate::polynomial::{poly_at, power, terms_sum};
use crate::scalar::{one, one_spec, Index, Numerical, OtherNumericalOps};

verus! {

/// The factorial `n!`, multiplied up from one.
pub open spec fn factorial<S: Numerical>(n: nat) -> S
    decreases n,
{
    if n == 0 {
        one_spec::<S>()
    } else {
        S::from_index_spec(n as Index).mul_spec(factorial((n - 1) as nat))
    }
}

/// The factorial `n!`.
fn factorial_of<S: Numerical>(n: Index) -> (r: S)
    ensures
        r == factorial::<S>(n as nat),
{
    let mut r = one::<S>();
    let mut i: Index = 0;
    while i < n
        invariant
            i <= n,
            r == factorial::<S>(i as nat),
        decreases n - i,
    {
        i += 1;
        r = S::from_index(i).mul(r);
    }
    r
}

/// The power `x^n`.
fn power_of<S: Numerical>(x: S, n: Index) -> (r: S)
    ensures
        r == power(x, n as nat),
{
    let mut r = one::<S>();
    let mut i: Index = 0;
    while i < n
        invariant
            i <= n,
            r == power(x, i as nat),
        decreases n - i,
    {
        r = r.mul(x);
        i += 1;
    }
    r
}

/// The coefficient of the unknown of power `n` in derivative number `i`
/// of a polynomial at `x`: `x^(n−i)·n! / (n−i)!`.
pub open spec fn derivative_term<S: Numerical>(x: S, n: int, i: int) -> S {
    power(x, (n - i) as nat).mul_spec(factorial((n) as nat)).div_spec(factorial((n - i) as nat))
}

/// The same coefficient, formed from `−x^(n−i)`.
pub open spec fn negated_derivative_term<S: Numerical>(x: S, n: int, i: int) -> S {
    power(x, (n - i) as nat).neg_spec().mul_spec(factorial((n) as nat)).div_spec(
        factorial((n - i) as nat),
    )
}

/// Entry `(r, c)` of the linear system for the coefficients of a spline.
///
/// Unknown `(order + 1)·j + n` is the coefficient of power `n` on segment
/// `j`. Rows `2j` and `2j + 1` ask the polynomial of segment `j` to take the
/// given values at the two ends of the segment. The next `order − 1` rows
/// set a derivative to zero at an outer point: the first derivative at the
/// first point for order two, the second derivative at the first and at the
/// last point for order three. The remaining rows ask derivative `i` of
/// neighbouring segments to agree at the point between them.
pub open spec fn system_entry<S: Numerical>(order: int, points: Seq<S>, r: int, c: int) -> S {
    let w = order + 1;
    let k = points.len() - 1;
    if r < 2 * k {
        let j = r / 2;
        if w * j <= c <= w * j + order {
            power(points[(r + 1) / 2], (c - w * j) as nat)
        } else {
            S::zero_spec()
        }
    } else if r < 2 * k + order - 1 {
        if order == 2 {
            if c == 1 {
                one_spec::<S>()
            } else if c == 2 {
                power(points[0], 1).mul_spec(S::from_index_spec(2))
            } else {
                S::zero_spec()
            }
        } else if r == 2 * k {
            if c == 2 {
                one_spec::<S>()
            } else if c == 3 {
                derivative_term(points[0], 3, 2)
            } else {
                S::zero_spec()
            }
        } else {
            if c == w * (k - 1) + 2 {
                one_spec::<S>()
            } else if c == w * (k - 1) + 3 {
                derivative_term(points[k], 3, 2)
            } else {
                S::zero_spec()
            }
        }
    } else {
        let t = r - (2 * k + order - 1);
        let j = t / (order - 1);
        let i = t % (order - 1) + 1;
        if c == w * j + i {
            factorial::<S>(i as nat)
        } else if c == w * (j + 1) + i {
            factorial::<S>(i as nat).neg_spec()
        } else if w * j + i < c <= w * j + order {
            derivative_term(points[j + 1], c - w * j, i)
        } else if w * (j + 1) + i < c <= w * (j + 1) + order {
            negated_derivative_term(points[j + 1], c - w * (j + 1), i)
        } else {
            S::zero_spec()
        }
    }
}

/// Number of unknowns of a spline: one coefficient for each power on each
/// segment.
pub open spec fn system_size(order: int, points: int) -> int {
    (order + 1) * (points - 1)
}

/// The matrix of the linear system, stored row after row.
pub open spec fn system_matrix<S: Numerical>(order: int, points: Seq<S>) -> Seq<S> {
    table(
        system_size(order, points.len() as int) as nat,
        |r: int, c: int| system_entry(order, points, r, c),
    )
}

/// The right-hand side of the linear system: the values at the ends of
/// the segments, and zero for the conditions on derivatives.
pub open spec fn system_values<S: Numerical>(order: int, points: Seq<S>, values: Seq<S>) -> Seq<S> {
    Seq::new(
        system_size(order, points.len() as int) as nat,
        |r: int|
            if r < 2 * (points.len() - 1) {
                values[(r + 1) / 2]
            } else {
                S::zero_spec()
            },
    )
}

/// Entry `(r, c)` of the linear system.
fn system_entry_of<S: Numerical>(order: Index, points: &Vec<S>, r: Index, c: Index) -> (entry: S)
    requires
        2 <= points@.len(),
        1 <= order <= 3,
        system_size(order as int, points@.len() as int) <= usize::MAX,
        r < system_size(order as int, points@.len() as int),
        c < system_size(order as int, points@.len() as int),
    ensures
        entry == system_entry(order as int, points@, r as int, c as int),
{
    let w = order + 1;
    let k = points.len() - 1;
    assert(system_size(order as int, points@.len() as int) == w * k);
    assert(w * k == k * w && 2 * k + order - 1 <= w * k && (order == 1 ==> w * k == 2 * k) && (
    order == 2 ==> w * k == 3 * k) && (order == 3 ==> w * k == 4 * k)) by (nonlinear_arith)
        requires
            k >= 1,
            1 <= order <= 3,
            w == order + 1,
    ;
    if r < 2 * k {
        let j = r / 2;
        assert(w * j <= w * k - w) by (nonlinear_arith)
            requires
                0 <= j <= k - 1,
                w >= 0,
        ;
        if w * j <= c && c <= w * j + order {
            power_of(points[(r + 1) / 2], c - w * j)
        } else {
            S::zero()
        }
    } else if r < 2 * k + order - 1 {
        if order == 2 {
            if c == 1 {
                one::<S>()
            } else if c == 2 {
                power_of(points[0], 1).mul(S::from_index(2))
            } else {
                S::zero()
            }
        } else if r == 2 * k {
            if c == 2 {
                one::<S>()
            } else if c == 3 {
                power_of(points[0], 1).mul(factorial_of(3)).div(factorial_of(1))
            } else {
                S::zero()
            }
        } else {
            assert(w * (k - 1) == w * k - w) by (nonlinear_arith);
            let base = w * (k - 1);
            if c == base + 2 {
                one::<S>()
            } else if c == base + 3 {
                power_of(points[k], 1).mul(factorial_of(3)).div(factorial_of(1))
            } else {
                S::zero()
            }
        }
    } else {
        let t = r - (2 * k + order - 1);
        let j = t / (order - 1);
        let i = t % (order - 1) + 1;
        assert(j + 1 <= k - 1 && 1 <= i <= order - 1) by {
            if order == 2 {
                assert(t < k - 1);
            } else {
                assert(t < 2 * (k - 1));
            }
        }
        assert(w * (j + 1) <= w * k - w && w * j + w == w * (j + 1) && w * j >= 0)
            by (nonlinear_arith)
            requires
                0 <= j,
                j + 1 <= k - 1,
                w >= 0,
        ;
        let left = w * j;
        let right = w * (j + 1);
        if c == left + i {
            factorial_of(i)
        } else if c == right + i {
            factorial_of::<S>(i).neg()
        } else if left + i < c && c <= left + order {
            let n = c - left;
            power_of(points[j + 1], n - i).mul(factorial_of(n)).div(factorial_of(n - i))
        } else if right + i < c && c <= right + order {
            let n = c - right;
            power_of(points[j + 1], n - i).neg().mul(factorial_of(n)).div(factorial_of(n - i))
        } else {
            S::zero()
        }
    }
}

/// The matrix of the linear system.
pub fn system_matrix_of<S: Numerical>(order: Index, points: &Vec<S>) -> (matrix: Vec<S>)
    requires
        2 <= points@.len(),
        1 <= order <= 3,
        system_size(order as int, points@.len() as int) * system_size(
            order as int,
            points@.len() as int,
        ) <= usize::MAX,
    ensures
        matrix@ == system_matrix(order as int, points@),
        matrix@.len() == system_size(order as int, points@.len() as int) * system_size(
            order as int,
            points@.len() as int,
        ),
{
    let ghost size = system_size(order as int, points@.len() as int);
    let ghost target = system_matrix(order as int, points@);
    assert(0 <= size <= size * size) by (nonlinear_arith)
        requires
            size == (order + 1) * (points@.len() - 1),
            order >= 1,
            points@.len() >= 2,
    ;
    let rowlen = (order + 1) * (points.len() - 1);
    let mut matrix: Vec<S> = Vec::new();
    let mut r: Index = 0;
    while r < rowlen
        invariant
            r <= rowlen,
            rowlen == size,
            size * size <= usize::MAX,
            2 <= points@.len(),
            1 <= order <= 3,
            size == system_size(order as int, points@.len() as int),
            target == system_matrix(order as int, points@),
            target.len() == size * size,
            matrix@.len() == rowlen * r,
            forall|p: int| 0 <= p < matrix@.len() ==> matrix@[p] == target[p],
        decreases rowlen - r,
    {
        let mut c: Index = 0;
        while c < rowlen
            invariant
                c <= rowlen,
                r < rowlen,
                rowlen == size,
                size * size <= usize::MAX,
                2 <= points@.len(),
                1 <= order <= 3,
                size == system_size(order as int, points@.len() as int),
                target == system_matrix(order as int, points@),
                target.len() == size * size,
                matrix@.len() == rowlen * r + c,
                forall|p: int| 0 <= p < matrix@.len() ==> matrix@[p] == target[p],
            decreases rowlen - c,
        {
            proof {
                lemma_cell_bounds(size as nat, r as int, c as int);
                lemma_cell_div_mod(size as nat, r as int, c as int);
            }
            matrix.push(system_entry_of(order, points, r, c));
            c += 1;
        }
        assert(rowlen * (r + 1) == rowlen * r + rowlen) by (nonlinear_arith);
        r += 1;
    }
    assert(matrix@ =~= target);
    matrix
}

/// The right-hand side of the linear system.
pub fn system_values_of<S: Numerical, F: Fn(S) -> S>(order: Index, points: &Vec<S>, f: &F) -> (values:
    Vec<S>)
    requires
        2 <= points@.len(),
        1 <= order <= 3,
        system_size(order as int, points@.len() as int) <= usize::MAX,
        is_function(f),
    ensures
        values@ == system_values(
            order as int,
            points@,
            Seq::new(points@.len(), |k: int| value_at(f, points@[k])),
        ),
        forall|k: int|
            0 <= k < points@.len() ==> call_ensures(
                *f,
                (points@[k],),
                #[trigger] value_at(f, points@[k]),
            ),
{
    let ghost sampled = Seq::new(points@.len(), |k: int| value_at(f, points@[k]));
    let ghost target = system_values(order as int, points@, sampled);
    let k = points.len() - 1;
    assert((order + 1) * k >= 2 * k) by (nonlinear_arith)
        requires
            order >= 1,
            k >= 0,
    ;
    let rowlen = (order + 1) * k;
    let mut values: Vec<S> = Vec::new();
    let mut r: Index = 0;
    while r < rowlen
        invariant
            r <= rowlen,
            k + 1 == points@.len(),
            2 * k <= rowlen,
            rowlen == system_size(order as int, points@.len() as int),
            is_function(f),
            sampled == Seq::new(points@.len(), |k: int| value_at(f, points@[k])),
            target == system_values(order as int, points@, sampled),
            values@.len() == r,
            forall|p: int| 0 <= p < r ==> values@[p] == target[p],
            forall|p: int|
                0 <= p < r && p < 2 * k ==> call_ensures(
                    *f,
                    (points@[(p + 1) / 2],),
                    #[trigger] value_at(f, points@[(p + 1) / 2]),
                ),
        decreases rowlen - r,
    {
        if r < 2 * k {
            values.push(evaluate(f, points[(r + 1) / 2]));
        } else {
            values.push(S::zero());
        }
        r += 1;
    }
    assert(values@ =~= target);
    assert forall|i: int| 0 <= i < points@.len() implies call_ensures(
        *f,
        (points@[i],),
        #[trigger] value_at(f, points@[i]),
    ) by {
        let p = if i == 0 {
            0
        } else {
            2 * i - 1
        };
        assert(0 <= p < 2 * k && (p + 1) / 2 == i);
    }
    values
}

/// The number of the first point from `low` on, and before `high`, that
/// is not less than `x`, as bisection finds it: `high` if there is none.
pub open spec fn bisect<S: Numerical>(points: Seq<S>, x: S, low: int, high: int) -> int
    decreases high - low,
{
    if low >= high {
        low
    } else {
        let middle = low + (high - low) / 2;
        if points[middle].lt_spec(x) {
            bisect(points, x, middle + 1, high)
        } else {
            bisect(points, x, low, middle)
        }
    }
}

/// Where the points that are less than `x` come before all others, as in
/// an ascending sequence, bisection finds the border between the two.
pub proof fn lemma_bisect_finds_the_border<S: Numerical>(
    points: Seq<S>,
    x: S,
    low: int,
    high: int,
)
    requires
        0 <= low <= high <= points.len(),
        forall|i: int, j: int|
            0 <= i <= j < points.len() && points[j].lt_spec(x) ==> points[i].lt_spec(x),
        forall|i: int| 0 <= i < low ==> points[i].lt_spec(x),
        forall|i: int| high <= i < points.len() ==> !points[i].lt_spec(x),
    ensures
        forall|i: int| 0 <= i < bisect(points, x, low, high) ==> points[i].lt_spec(x),
        forall|i: int| bisect(points, x, low, high) <= i < points.len() ==> !points[i].lt_spec(x),
    decreases high - low,
{
    if low < high {
        let middle = low + (high - low) / 2;
        if points[middle].lt_spec(x) {
            lemma_bisect_finds_the_border(points, x, middle + 1, high);
        } else {
            assert forall|i: int| middle <= i < points.len() implies !points[i].lt_spec(x) by {
                if points[i].lt_spec(x) {
                    assert(points[middle].lt_spec(x));
                }
            }
            lemma_bisect_finds_the_border(points, x, low, middle);
        }
    }
}

/// The number of the segment that a spline over `points` uses at `x`,
/// counted from one: the first point that is not less than `x` ends it,
/// but the first segment serves everything before it and the last one
/// everything after it.
pub open spec fn segment_of<S: Numerical>(points: Seq<S>, x: S) -> int {
    let found = bisect(points, x, 0, points.len() as int);
    if found == 0 {
        1
    } else if found == points.len() {
        points.len() - 1
    } else {
        found
    }
}

/// A spline: the coefficients of one polynomial for each segment between
/// neighbouring points.
#[derive(Debug)]
pub struct Spline<S> {
    coefs: Vec<S>,
    points: Vec<S>,
    order: Index,
}

/// What a spline holds.
pub struct SplineView<S> {
    pub coefs: Seq<S>,
    pub points: Seq<S>,
    pub order: Index,
}

impl<S> SplineView<S> {
    /// There are two points or more and one coefficient for each power on
    /// each segment.
    pub open spec fn wf(self) -> bool {
        &&& self.points.len() >= 2
        &&& self.coefs.len() == (self.order + 1) * (self.points.len() - 1)
    }
}

impl<S> View for Spline<S> {
    type V = SplineView<S>;

    closed spec fn view(&self) -> SplineView<S> {
        SplineView { coefs: self.coefs@, points: self.points@, order: self.order }
    }
}

impl<S> Spline<S> {
    #[verifier::type_invariant]
    spec fn wf(&self) -> bool {
        self@.wf()
    }
}

impl<S: Copy> Clone for Spline<S> {
    /// A copy that holds the same coefficients and points.
    fn clone(&self) -> (r: Self)
        ensures
            r@ == self@,
    {
        proof {
            use_type_invariant(self);
        }
        Spline {
            coefs: slice_to_vec(self.coefs.as_slice()),
            points: slice_to_vec(self.points.as_slice()),
            order: self.order,
        }
    }
}

/// The value at `x` of a spline: that of the polynomial of the segment
/// used at `x`.
pub open spec fn spline_value<S: Numerical>(spline: SplineView<S>, x: S) -> S {
    let w = spline.order + 1;
    let segment = segment_of(spline.points, x);
    terms_sum(spline.coefs.subrange((segment - 1) * w, segment * w), x, w as nat)
}

impl<S: Numerical> Spline<S> {
    /// The value of the spline at `x`.
    pub fn at(&self, x: S) -> (r: S)
        ensures
            r == spline_value(self@, x),
    {
        proof {
            use_type_invariant(self);
            assert(self.coefs@.len() == self.coefs.len());
            assert(self.order + 1 <= (self.order + 1) * (self.points@.len() - 1))
                by (nonlinear_arith)
                requires
                    self.points@.len() >= 2,
                    self.order >= 0,
            ;
        }
        let count = self.points.len();
        let mut low: Index = 0;
        let mut high: Index = count;
        while low < high
            invariant
                low <= high <= count,
                count == self.points@.len(),
                bisect(self.points@, x, 0, count as int) == bisect(
                    self.points@,
                    x,
                    low as int,
                    high as int,
                ),
            decreases high - low,
        {
            let middle = low + (high - low) / 2;
            if self.points[middle].lt(x) {
                low = middle + 1;
            } else {
                high = middle;
            }
        }
        let idx = if low == 0 {
            1
        } else if low == count {
            count - 1
        } else {
            low
        };
        let w = self.order + 1;
        proof {
            assert(w * (count - 1) == self.coefs@.len());
            assert((idx - 1) * w >= 0 && idx * w == (idx - 1) * w + w && idx * w <= w * (count - 1))
                by (nonlinear_arith)
                requires
                    1 <= idx <= count - 1,
                    w >= 1,
            ;
        }
        poly_at(slice_subrange(self.coefs.as_slice(), (idx - 1) * w, idx * w), x)
    }

    /// The spline of the given order for `f` over `points`, which have to
    /// ascend. Its coefficients solve the linear system of the conditions.
    /// Returns `None` when that system is singular to working precision.
    pub fn new<F: Fn(S) -> S>(order: Index, points: &Vec<S>, f: &F) -> (r: Option<Spline<S>>)
        requires
            1 <= order <= 3,
            points@.len() >= 2,
            system_size(order as int, points@.len() as int) * system_size(
                order as int,
                points@.len() as int,
            ) <= usize::MAX,
            is_function(f),
        ensures
            match factorize(
                system_matrix(order as int, points@),
                system_size(order as int, points@.len() as int) as nat,
            ) {
                Some(factors) => r matches Some(spline) && spline@.order == order && spline@.points
                    == points@ && spline@.coefs == solve_spec(
                    factors,
                    system_values(
                        order as int,
                        points@,
                        Seq::new(points@.len(), |k: int| value_at(f, points@[k])),
                    ),
                ),
                None => r is None,
            },
            forall|k: int|
                0 <= k < points@.len() ==> call_ensures(
                    *f,
                    (points@[k],),
                    #[trigger] value_at(f, points@[k]),
                ),
    {
        let ghost size = system_size(order as int, points@.len() as int);
        assert(0 <= size <= size * size) by (nonlinear_arith)
            requires
                size == (order + 1) * (points@.len() - 1),
                order >= 1,
                points@.len() >= 2,
        ;
        let k = points.len() - 1;
        let rowlen = (order + 1) * k;
        let matrix = system_matrix_of(order, points);
        let mut coefs = system_values_of(order, points, f);
        match LUDecomposition::compute(&matrix, rowlen) {
            None => None,
            Some(lud) => {
                lud.solve(&mut coefs);
                Some(Spline { coefs, points: slice_to_vec(points.as_slice()), order })
            },
        }
    }
}

} // verus!
