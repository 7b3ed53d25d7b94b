//! Polynomials by their coefficients, and interpolation in the forms of
//! Lagrange and of Newton.

use vstd::prelude::*;
use crate::function::{evaluate, is_function, values_at};
use crate::layout::filled;
use crate::scalar::{one, one_spec, Index, Numerical, OtherNumericalOps};
use crate::vector::{divide_all, scaled};

verus! {

/// A polynomial `c₀ + c₁·x + … + cₙ·xⁿ`, given by its coefficients from the
/// constant one upwards.
#[derive(Debug, Clone)]
pub struct Polynomial<S> {
    pub coefs: Vec<S>,
}

/// The power `x^k`, multiplied up from one.
pub open spec fn power<S: Numerical>(x: S, k: nat) -> S
    decreases k,
{
    if k == 0 {
        one_spec::<S>()
    } else {
        power(x, (k - 1) as nat).mul_spec(x)
    }
}

/// The first `count` terms `xᵏ·cₖ`, added up from zero in the order of the
/// powers.
pub open spec fn terms_sum<S: Numerical>(coefs: Seq<S>, x: S, count: nat) -> S
    decreases count,
{
    if count == 0 {
        S::zero_spec()
    } else {
        terms_sum(coefs, x, (count - 1) as nat).add_spec(
            power(x, (count - 1) as nat).mul_spec(coefs[count - 1]),
        )
    }
}

/// The coefficients of `(x − root)·p(x)`, cut off at the degree of `p`:
/// each is the coefficient before it minus `root` times itself.
pub open spec fn with_root<S: Numerical>(root: S, coefs: Seq<S>) -> Seq<S> {
    Seq::new(
        coefs.len(),
        |n: int|
            (if n == 0 {
                S::zero_spec()
            } else {
                coefs[n - 1]
            }).sub_spec(root.mul_spec(coefs[n])),
    )
}

/// The constant polynomial one with room for `len` coefficients.
pub open spec fn unit_coefs<S: Numerical>(len: nat) -> Seq<S> {
    Seq::new(
        len,
        |n: int|
            if n == 0 {
                one_spec::<S>()
            } else {
                S::zero_spec()
            },
    )
}

/// The product of `x − points[k]` over the first `count` points but the one
/// at `index`.
pub open spec fn roots_product<S: Numerical>(points: Seq<S>, index: int, count: nat) -> Seq<S>
    decreases count,
{
    if count == 0 {
        unit_coefs(points.len())
    } else {
        let before = roots_product(points, index, (count - 1) as nat);
        if count - 1 == index {
            before
        } else {
            with_root(points[count - 1], before)
        }
    }
}

/// A product of roots has a coefficient for every point.
pub proof fn lemma_roots_product_len<S: Numerical>(points: Seq<S>, index: int, count: nat)
    ensures
        roots_product(points, index, count).len() == points.len(),
    decreases count,
{
    if count > 0 {
        lemma_roots_product_len(points, index, (count - 1) as nat);
    }
}

/// The Lagrange basis polynomial of the point at `index`: one there and
/// zero at every other point.
pub open spec fn basis<S: Numerical>(points: Seq<S>, index: int) -> Seq<S> {
    let product = roots_product(points, index, points.len());
    scaled(product, terms_sum(product, points[index], product.len()))
}

/// The sum of the first `count` basis polynomials, each times the value at
/// its point.
pub open spec fn lagrange<S: Numerical>(points: Seq<S>, values: Seq<S>, count: nat) -> Seq<S>
    decreases count,
{
    if count == 0 {
        Seq::new(points.len(), |n: int| S::zero_spec())
    } else {
        let before = lagrange(points, values, (count - 1) as nat);
        let lk = basis(points, count - 1);
        Seq::new(points.len(), |n: int| before[n].add_spec(lk[n].mul_spec(values[count - 1])))
    }
}

/// The divided difference of order `k` that starts at point `i`.
pub open spec fn divided_difference<S: Numerical>(
    points: Seq<S>,
    values: Seq<S>,
    k: nat,
    i: int,
) -> S
    decreases k,
{
    if k == 0 {
        values[i]
    } else {
        divided_difference(points, values, (k - 1) as nat, i + 1).sub_spec(
            divided_difference(points, values, (k - 1) as nat, i),
        ).div_spec(points[i + k].sub_spec(points[i]))
    }
}

/// The product of `x − points[k]` over the first `count` points.
pub open spec fn omega<S: Numerical>(points: Seq<S>, count: nat) -> Seq<S>
    decreases count,
{
    if count == 0 {
        unit_coefs(points.len())
    } else {
        with_root(points[count - 1], omega(points, (count - 1) as nat))
    }
}

/// The first `count` terms of the Newton form: the divided difference of
/// each order times the product of the roots before it.
pub open spec fn newton<S: Numerical>(points: Seq<S>, values: Seq<S>, count: nat) -> Seq<S>
    decreases count,
{
    if count == 0 {
        Seq::new(points.len(), |n: int| S::zero_spec())
    } else {
        let before = newton(points, values, (count - 1) as nat);
        let value = divided_difference(points, values, (count - 1) as nat, 0);
        let product = omega(points, (count - 1) as nat);
        Seq::new(points.len(), |n: int| before[n].add_spec(value.mul_spec(product[n])))
    }
}

/// Where the divided differences of order `k` begin in a table that holds
/// those of order zero first, `n` of them, then one fewer for each order.
pub open spec fn diff_table_start(n: nat, k: nat) -> nat
    decreases k,
{
    if k == 0 {
        0
    } else {
        (diff_table_start(n, (k - 1) as nat) + n - (k - 1)) as nat
    }
}

/// The closed form of `diff_table_start`: `k·n − k·(k − 1) / 2`.
pub proof fn lemma_diff_table_start(n: nat, k: nat)
    requires
        k <= n,
    ensures
        diff_table_start(n, k) == k * n - (k * (k - 1)) / 2,
        k * (k - 1) <= 2 * (k * n),
        k > 0 ==> diff_table_start(n, k) == diff_table_start(n, (k - 1) as nat) + n - (k - 1),
        diff_table_start(n, k) <= k * n,
    decreases k,
{
    if k > 0 {
        lemma_diff_table_start(n, (k - 1) as nat);
        let j = k - 1;
        assert(k * n == j * n + n && k * (k - 1) == j * (j - 1) + 2 * j && j * n >= 0 && j * (j
            - 1) >= 0) by (nonlinear_arith)
            requires
                j == k - 1,
                j >= 0,
                n >= 0,
        ;
        assert(k * (k - 1) <= 2 * (k * n)) by (nonlinear_arith)
            requires
                1 <= k <= n,
        ;
    } else {
        assert(0 * n == 0 && (0 * (0 - 1)) / 2 == 0) by (nonlinear_arith);
    }
}

/// Where the divided differences of order `k` for `n` points begin in
/// their table: `k·n − k·(k − 1) / 2`.
pub fn diff_table_index(n: Index, k: Index) -> (r: Index)
    requires
        k * n <= usize::MAX,
        k > n ==> k * (k - 1) <= usize::MAX && (k * (k - 1)) / 2 <= k * n,
    ensures
        r == k * n - (k * (k - 1)) / 2,
        k <= n ==> r == diff_table_start(n as nat, k as nat),
{
    proof {
        if k <= n {
            lemma_diff_table_start(n as nat, k as nat);
            assert(k * (k - 1) <= k * n) by (nonlinear_arith)
                requires
                    0 <= k <= n,
            ;
        }
    }
    if k == 0 {
        0
    } else {
        k * n - k * (k - 1) / 2
    }
}

impl<S: Numerical> Polynomial<S> {
    /// The zero polynomial with room for the coefficients up to degree `n`.
    pub fn new(n: Index) -> (r: Polynomial<S>)
        requires
            n < usize::MAX,
        ensures
            r.coefs@ == Seq::new((n + 1) as nat, |i: int| S::zero_spec()),
    {
        let coefs = filled(n + 1, S::zero());
        Polynomial { coefs }
    }

    /// The value of the polynomial at `x`.
    pub fn at(&self, x: S) -> (r: S)
        ensures
            r == terms_sum(self.coefs@, x, self.coefs@.len()),
    {
        poly_at(self.coefs.as_slice(), x)
    }
}

/// The value at `x` of the polynomial with the given coefficients.
pub fn poly_at<S: Numerical>(coefs: &[S], x: S) -> (r: S)
    ensures
        r == terms_sum(coefs@, x, coefs@.len()),
{
    let mut y = S::zero();
    let mut xn = one::<S>();
    let mut n: Index = 0;
    while n < coefs.len()
        invariant
            n <= coefs@.len(),
            y == terms_sum(coefs@, x, n as nat),
            xn == power(x, n as nat),
        decreases coefs@.len() - n,
    {
        y = y.add(xn.mul(coefs[n]));
        xn = xn.mul(x);
        n += 1;
    }
    y
}

/// Multiplies `p` by `x − root`, dropping the term above its degree.
pub fn add_root<S: Numerical>(root: S, p: Polynomial<S>) -> (r: Polynomial<S>)
    ensures
        r.coefs@ == with_root(root, p.coefs@),
{
    let mut p = p;
    let ghost before = p.coefs@;
    let mut store = S::zero();
    let mut n: Index = 0;
    while n < p.coefs.len()
        invariant
            n <= before.len(),
            p.coefs@.len() == before.len(),
            store == (if n == 0 {
                S::zero_spec()
            } else {
                before[n - 1]
            }),
            forall|i: int| 0 <= i < n ==> p.coefs@[i] == with_root(root, before)[i],
            forall|i: int| n <= i < before.len() ==> p.coefs@[i] == before[i],
        decreases before.len() - n,
    {
        let c_prev = store;
        store = p.coefs[n];
        let value = c_prev.sub(root.mul(p.coefs[n]));
        p.coefs[n] = value;
        n += 1;
    }
    assert(p.coefs@ =~= with_root(root, before));
    p
}

/// The Lagrange basis polynomial of the point at `index`.
fn create_lk<S: Numerical>(points: &Vec<S>, index: Index) -> (r: Polynomial<S>)
    requires
        points@.len() >= 1,
        index < points@.len(),
    ensures
        r.coefs@ == basis(points@, index as int),
        r.coefs@.len() == points@.len(),
{
    proof {
        lemma_roots_product_len(points@, index as int, points@.len());
    }
    let mut p: Polynomial<S> = Polynomial::new(points.len() - 1);
    p.coefs[0] = one::<S>();
    assert(p.coefs@ =~= unit_coefs::<S>(points@.len()));
    let mut k: Index = 0;
    while k < points.len()
        invariant
            k <= points@.len(),
            p.coefs@ == roots_product(points@, index as int, k as nat),
        decreases points@.len() - k,
    {
        if k != index {
            p = add_root(points[k], p);
        }
        k += 1;
    }
    let d = p.at(points[index]);
    let coefs = divide_all(p.coefs.as_slice(), d);
    Polynomial { coefs }
}

/// The interpolation polynomial of `f` at `points` in the form of
/// Lagrange: the sum of the basis polynomials, each times the value of `f`
/// at its point.
pub fn create_lagrange<S: Numerical, F: Fn(S) -> S>(points: &Vec<S>, f: &F) -> (r: Polynomial<S>)
    requires
        points@.len() >= 1,
        is_function(f),
    ensures
        r.coefs@ == lagrange(points@, values_at(f, points@), points@.len()),
        forall|k: int|
            0 <= k < points@.len() ==> call_ensures(
                *f,
                (points@[k],),
                #[trigger] values_at(f, points@)[k],
            ),
{
    let ghost values = values_at(f, points@);
    let mut p: Polynomial<S> = Polynomial::new(points.len() - 1);
    let mut k: Index = 0;
    while k < points.len()
        invariant
            k <= points@.len(),
            points@.len() >= 1,
            is_function(f),
            values == values_at(f, points@),
            p.coefs@.len() == points@.len(),
            p.coefs@ == lagrange(points@, values, k as nat),
            forall|i: int| 0 <= i < k ==> call_ensures(*f, (points@[i],), #[trigger] values[i]),
        decreases points@.len() - k,
    {
        let value = evaluate(f, points[k]);
        let lk = create_lk(points, k);
        let ghost before = p.coefs@;
        let ghost target = lagrange(points@, values, (k + 1) as nat);
        let mut n: Index = 0;
        while n < p.coefs.len()
            invariant
                n <= p.coefs@.len(),
                k < points@.len(),
                p.coefs@.len() == points@.len(),
                before.len() == points@.len(),
                lk.coefs@ == basis(points@, k as int),
                lk.coefs@.len() == points@.len(),
                value == values[k as int],
                before == lagrange(points@, values, k as nat),
                target == lagrange(points@, values, (k + 1) as nat),
                forall|i: int| 0 <= i < n ==> p.coefs@[i] == target[i],
                forall|i: int| n <= i < before.len() ==> p.coefs@[i] == before[i],
            decreases p.coefs@.len() - n,
        {
            let updated = p.coefs[n].add(lk.coefs[n].mul(value));
            p.coefs[n] = updated;
            n += 1;
        }
        assert(p.coefs@ =~= target);
        k += 1;
    }
    p
}

/// The interpolation polynomial of `f` at `points` in the form of Newton,
/// from the table of divided differences.
pub fn create_newton<S: Numerical, F: Fn(S) -> S>(points: &Vec<S>, f: &F) -> (r: Polynomial<S>)
    requires
        points@.len() >= 1,
        points@.len() * points@.len() <= usize::MAX,
        is_function(f),
    ensures
        r.coefs@ == newton(points@, values_at(f, points@), points@.len()),
        forall|k: int|
            0 <= k < points@.len() ==> call_ensures(
                *f,
                (points@[k],),
                #[trigger] values_at(f, points@)[k],
            ),
{
    let n = points.len();
    let ghost values = values_at(f, points@);
    let ghost total = diff_table_start(n as nat, n as nat);
    proof {
        lemma_diff_table_start(n as nat, (n - 1) as nat);
        lemma_diff_table_start(n as nat, n as nat);
        lemma_diff_table_rows(n as nat, n as nat);
        assert(diff_table_start(n as nat, 0) == 0);
        assert((n - 1) * n <= n * n - n) by (nonlinear_arith)
            requires
                n >= 1,
        ;
    }
    let size = diff_table_index(n, n - 1) + 1;
    let mut diff_table = filled(size, S::zero());
    let mut k: Index = 0;
    while k < n
        invariant
            k <= n,
            n == points@.len(),
            is_function(f),
            values == values_at(f, points@),
            diff_table@.len() == size,
            n <= size,
            forall|i: int|
                0 <= i < k ==> diff_table@[i] == divided_difference(points@, values, 0, i),
            forall|i: int| 0 <= i < k ==> call_ensures(*f, (points@[i],), #[trigger] values[i]),
        decreases n - k,
    {
        let value = evaluate(f, points[k]);
        diff_table[k] = value;
        k += 1;
    }
    k = 1;
    while k < n
        invariant
            1 <= k <= n,
            n == points@.len(),
            n * n <= usize::MAX,
            diff_table@.len() == size,
            size == total,
            total == diff_table_start(n as nat, n as nat),
            forall|l: nat, i: int|
                l < k && 0 <= i < n - l ==> diff_table@[diff_table_start(n as nat, l) + i]
                    == #[trigger] divided_difference(points@, values, l, i),
        decreases n - k,
    {
        proof {
            lemma_diff_table_start(n as nat, k as nat);
            lemma_diff_table_start(n as nat, (k - 1) as nat);
            lemma_diff_table_rows(n as nat, k as nat);
            lemma_diff_table_rows(n as nat, n as nat);
            assert(k * n <= n * n && (k - 1) * n <= n * n) by (nonlinear_arith)
                requires
                    1 <= k <= n,
            ;
        }
        let ck_prev = diff_table_index(n, k - 1);
        let ck = diff_table_index(n, k);
        let mut i: Index = 0;
        while i < n - k
            invariant
                1 <= k < n,
                i <= n - k,
                n == points@.len(),
                diff_table@.len() == size,
                ck_prev == diff_table_start(n as nat, (k - 1) as nat),
                ck == diff_table_start(n as nat, k as nat),
                ck == ck_prev + n - (k - 1),
                ck + (n - k) <= size,
                forall|l: nat, j: int|
                    l < k && 0 <= j < n - l ==> diff_table@[diff_table_start(n as nat, l) + j]
                        == #[trigger] divided_difference(points@, values, l, j),
                forall|l: nat|
                    l < k ==> (#[trigger] diff_table_start(n as nat, l)) + (n - l) <= ck,
                forall|j: int|
                    0 <= j < i ==> diff_table@[ck + j] == divided_difference(
                        points@,
                        values,
                        k as nat,
                        j,
                    ),
            decreases n - k - i,
        {
            proof {
                assert(diff_table@[ck_prev + i + 1] == divided_difference(
                    points@,
                    values,
                    (k - 1) as nat,
                    i + 1,
                ));
                assert(diff_table@[ck_prev + i] == divided_difference(
                    points@,
                    values,
                    (k - 1) as nat,
                    i as int,
                ));
            }
            let value = diff_table[ck_prev + i + 1].sub(diff_table[ck_prev + i]).div(
                points[i + k].sub(points[i]),
            );
            diff_table[ck + i] = value;
            i += 1;
        }
        proof {
            assert forall|l: nat, j: int| l < k + 1 && 0 <= j < n - l implies diff_table@[diff_table_start(
                n as nat,
                l,
            ) + j] == #[trigger] divided_difference(points@, values, l, j) by {
                if l == k {
                    assert(diff_table@[ck + j] == divided_difference(points@, values, k as nat, j));
                }
            }
        }
        k += 1;
    }

    let mut p: Polynomial<S> = Polynomial::new(n - 1);
    let mut product: Polynomial<S> = Polynomial::new(n - 1);
    product.coefs[0] = one::<S>();
    assert(product.coefs@ =~= unit_coefs::<S>(points@.len()));
    k = 0;
    while k < n
        invariant
            k <= n,
            n == points@.len(),
            n >= 1,
            n * n <= usize::MAX,
            diff_table@.len() == size,
            size == diff_table_start(n as nat, n as nat),
            forall|l: nat, i: int|
                l < n && 0 <= i < n - l ==> diff_table@[diff_table_start(n as nat, l) + i]
                    == #[trigger] divided_difference(points@, values, l, i),
            p.coefs@.len() == n,
            product.coefs@.len() == n,
            p.coefs@ == newton(points@, values, k as nat),
            product.coefs@ == omega(points@, k as nat),
        decreases n - k,
    {
        proof {
            lemma_diff_table_start(n as nat, k as nat);
            lemma_diff_table_rows(n as nat, n as nat);
            assert(k * n <= n * n) by (nonlinear_arith)
                requires
                    0 <= k <= n,
            ;
            assert(diff_table@[diff_table_start(n as nat, k as nat) + 0int] == divided_difference(
                points@,
                values,
                k as nat,
                0,
            ));
        }
        let value = diff_table[diff_table_index(n, k)];
        let ghost before = p.coefs@;
        let ghost target = newton(points@, values, (k + 1) as nat);
        let mut i: Index = 0;
        while i < n
            invariant
                i <= n,
                k < n,
                n == points@.len(),
                p.coefs@.len() == n,
                product.coefs@.len() == n,
                before.len() == n,
                value == divided_difference(points@, values, k as nat, 0),
                product.coefs@ == omega(points@, k as nat),
                before == newton(points@, values, k as nat),
                target == newton(points@, values, (k + 1) as nat),
                forall|j: int| 0 <= j < i ==> p.coefs@[j] == target[j],
                forall|j: int| i <= j < n ==> p.coefs@[j] == before[j],
            decreases n - i,
        {
            let updated = p.coefs[i].add(value.mul(product.coefs[i]));
            p.coefs[i] = updated;
            i += 1;
        }
        assert(p.coefs@ =~= target);
        product = add_root(points[k], product);
        k += 1;
    }
    p
}

/// The rows of the table of divided differences follow one another: each
/// row ends where a later one begins, or before.
pub proof fn lemma_diff_table_rows(n: nat, k: nat)
    requires
        k <= n,
    ensures
        forall|l: nat| l < k ==> (#[trigger] diff_table_start(n, l)) + (n - l) <= diff_table_start(n, k),
    decreases k,
{
    if k > 0 {
        lemma_diff_table_rows(n, (k - 1) as nat);
        lemma_diff_table_start(n, k);
    }
}

} // verus!
