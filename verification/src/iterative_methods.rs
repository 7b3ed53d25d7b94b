//! Iterative solution of linear systems: simple iteration and the method
//! of Seidel, with the error of an iterate estimated from a norm of the
//! iteration matrix.

use vstd::prelude::*;
use crate::layout::{cell, cell_index, row_of, table};
use crate::layout::{lemma_cell_bounds, lemma_cell_div_mod};
use crate::lu::{dot_product, dot_spec};
use crate::matrix::column::{column_entries, ColumnFuncInitializer, ColumnMut, ColumnRef};
use crate::matrix::traits::{entries_of, lemma_entries_of, MatrixRef};
use crate::scalar::{one, one_spec, Index, Numerical, OtherNumericalOps};
use crate::vector::{abs_max_prefix, apply, apply_spec, divide_all, gram};
use crate::vector::{gram_spec, norm_one, norm_one_spec, scaled, table_norm_inf};
use crate::vector::{table_norm_inf_prefix, table_norm_one, table_norm_one_prefix};
use crate::vector::{transpose_apply, transpose_apply_spec};
use vstd::slice::slice_subrange;

verus! {

/// The norm that an iteration takes its error estimate from.
#[derive(Clone, Copy)]
pub enum NormEnum<S> {
    /// The one-norm, of which the iteration matrix has the given value.
    One { value: S },
    /// No norm of the iteration matrix is below one: the error is the
    /// residual.
    Two,
    /// The maximum norm, of which the iteration matrix has the given value.
    Infty { value: S },
}

/// An iteration `x ← B·x + c` for the system `A·x = b`.
pub struct Iteration<S> {
    /// The matrix `A`, stored row after row.
    pub a: Seq<S>,
    /// The right-hand side `b`.
    pub vector: Seq<S>,
    /// The iteration matrix `B`, stored row after row.
    pub b: Seq<S>,
    /// The norm for the error estimate.
    pub norm: NormEnum<S>,
    /// The vector `c`, which is also the first iterate.
    pub c: Seq<S>,
}

/// The difference of two vectors, entry by entry.
pub open spec fn difference<S: Numerical>(x: Seq<S>, y: Seq<S>) -> Seq<S> {
    Seq::new(x.len(), |i: int| x[i].sub_spec(y[i]))
}

/// The residual `A·x − b`.
pub open spec fn residual<S: Numerical>(a: Seq<S>, n: nat, x: Seq<S>, vector: Seq<S>) -> Seq<S> {
    Seq::new(n, |i: int| dot_spec(row_of(a, n, i), x).sub_spec(vector[i]))
}

/// The error estimate for the iterate `x_next` that followed `x_this`:
/// `q / (1 − q)` times the norm of their difference where the iteration
/// matrix has the norm `q`, the one-norm of the residual otherwise.
pub open spec fn accuracy_of<S: Numerical>(
    iteration: Iteration<S>,
    n: nat,
    x_this: Seq<S>,
    x_next: Seq<S>,
) -> S {
    match iteration.norm {
        NormEnum::One { value } => value.div_spec(one_spec::<S>().sub_spec(value)).mul_spec(
            norm_one_spec(difference(x_this, x_next)),
        ),
        NormEnum::Infty { value } => value.div_spec(one_spec::<S>().sub_spec(value)).mul_spec(
            abs_max_prefix(difference(x_this, x_next), x_this.len()),
        ),
        NormEnum::Two => norm_one_spec(residual(iteration.a, n, x_next, iteration.vector)),
    }
}

/// The next iterate of simple iteration: `B·x + c`.
pub open spec fn simple_next<S: Numerical>(iteration: Iteration<S>, n: nat, x: Seq<S>) -> Seq<S> {
    Seq::new(n, |i: int| dot_spec(row_of(iteration.b, n, i), x).add_spec(iteration.c[i]))
}

/// The iterate after the first `count` entries of a sweep of Seidel: each
/// entry in turn becomes the dot product of its row of `B` with the iterate
/// as it stands, plus its entry of `c`.
pub open spec fn zeidel_sweep<S: Numerical>(iteration: Iteration<S>, n: nat, x: Seq<S>, count: nat) -> Seq<
    S,
>
    decreases count,
{
    if count == 0 {
        x
    } else {
        let before = zeidel_sweep(iteration, n, x, (count - 1) as nat);
        before.update(
            count - 1,
            dot_spec(row_of(iteration.b, n, count - 1), before).add_spec(iteration.c[count - 1]),
        )
    }
}

/// The next iterate of either method.
pub open spec fn next_iterate<S: Numerical>(
    iteration: Iteration<S>,
    n: nat,
    zeidel: bool,
    x: Seq<S>,
) -> Seq<S> {
    if zeidel {
        zeidel_sweep(iteration, n, x, n)
    } else {
        simple_next(iteration, n, x)
    }
}

/// The iterate at which the error estimate falls below the accuracy, with
/// the number of steps taken, or `None` if the number of steps would leave
/// the range of an index.
pub open spec fn iterate<S: Numerical>(
    iteration: Iteration<S>,
    n: nat,
    zeidel: bool,
    accuracy: S,
    x: Seq<S>,
    achieved: S,
    steps: nat,
) -> Option<(Seq<S>, nat)>
    decreases usize::MAX - steps,
{
    if !accuracy.le_spec(achieved) {
        Some((x, steps))
    } else if steps >= usize::MAX {
        None
    } else {
        let x_next = next_iterate(iteration, n, zeidel, x);
        iterate(
            iteration,
            n,
            zeidel,
            accuracy,
            x_next,
            accuracy_of(iteration, n, x, x_next),
            steps + 1,
        )
    }
}

/// The result of an iteration from its first iterate `c`.
pub open spec fn run_of<S: Numerical>(iteration: Iteration<S>, n: nat, zeidel: bool, accuracy: S) -> Option<
    (Seq<S>, nat),
> {
    iterate(iteration, n, zeidel, accuracy, iteration.c, accuracy, 0)
}

/// The matrix `E − A / norm`.
pub open spec fn complement<S: Numerical>(a: Seq<S>, n: nat, norm: S) -> Seq<S> {
    table(
        n,
        |r: int, c: int|
            (if r == c {
                one_spec::<S>()
            } else {
                S::zero_spec()
            }).sub_spec(a[cell(n, r, c)].div_spec(norm)),
    )
}

/// The simple iteration for `A·x = b`. The iteration matrix is
/// `E − A / ‖A‖` with the one-norm if that gives it a one-norm below one,
/// else with the maximum norm if that gives it a maximum norm below one.
/// If neither does, the system is replaced by `Aᵀ·A·x = Aᵀ·b`, for which
/// the one-norm is taken even where it is not below one.
pub open spec fn simple_iteration<S: Numerical>(
    a: Seq<S>,
    n: nat,
    vector: Seq<S>,
    can_abuse_norm: bool,
) -> Iteration<S>
    decreases
            (if can_abuse_norm {
                0nat
            } else {
                1nat
            }),
{
    let a_norm_one = table_norm_one_prefix(a, n, n);
    let by_one = complement(a, n, a_norm_one);
    let q_one = table_norm_one_prefix(by_one, n, n);
    let a_norm_inf = table_norm_inf_prefix(a, n, n);
    let by_inf = complement(a, n, a_norm_inf);
    let q_inf = table_norm_inf_prefix(by_inf, n, n);
    if q_one.lt_spec(one_spec::<S>()) {
        Iteration {
            a,
            vector,
            b: by_one,
            norm: NormEnum::One { value: q_one },
            c: scaled(vector, a_norm_one),
        }
    } else if q_inf.lt_spec(one_spec::<S>()) {
        Iteration {
            a,
            vector,
            b: by_inf,
            norm: NormEnum::Infty { value: q_inf },
            c: scaled(vector, a_norm_inf),
        }
    } else if can_abuse_norm {
        Iteration { a, vector, b: by_one, norm: NormEnum::Two, c: scaled(vector, a_norm_one) }
    } else {
        simple_iteration(gram_spec(a, n), n, transpose_apply_spec(a, n, vector), true)
    }
}

/// Whether no diagonal entry of the matrix is zero.
pub open spec fn diagonal_is_nonzero<S: Numerical>(a: Seq<S>, n: nat) -> bool {
    forall|i: int| 0 <= i < n ==> !(#[trigger] a[cell(n, i, i)]).eq_spec(S::zero_spec())
}

/// The iteration matrix of Seidel: zero on the diagonal, `−a(r, c) / a(r, r)`
/// elsewhere.
pub open spec fn zeidel_matrix<S: Numerical>(a: Seq<S>, n: nat) -> Seq<S> {
    table(
        n,
        |r: int, c: int|
            if r == c {
                S::zero_spec()
            } else {
                a[cell(n, r, c)].neg_spec().div_spec(a[cell(n, r, r)])
            },
    )
}

/// The right-hand side divided by the diagonal, entry by entry.
pub open spec fn zeidel_vector<S: Numerical>(a: Seq<S>, n: nat, vector: Seq<S>) -> Seq<S> {
    Seq::new(n, |i: int| vector[i].div_spec(a[cell(n, i, i)]))
}

/// The iteration of Seidel for `A·x = b`. Where no diagonal entry is zero,
/// the one-norm of the iteration matrix is taken if it is below one, else the
/// maximum norm if it is below one. If neither is, or a diagonal entry is
/// zero, the system is replaced by `Aᵀ·A·x = Aᵀ·b`, for which no norm has to
/// be below one. There is no iteration if that has a zero on its diagonal,
/// too.
pub open spec fn zeidel_iteration<S: Numerical>(
    a: Seq<S>,
    n: nat,
    vector: Seq<S>,
    can_abuse_norm: bool,
) -> Option<Iteration<S>>
    decreases
            (if can_abuse_norm {
                0nat
            } else {
                1nat
            }),
{
    let b = zeidel_matrix(a, n);
    let c = zeidel_vector(a, n, vector);
    let q_one = table_norm_one_prefix(b, n, n);
    let q_inf = table_norm_inf_prefix(b, n, n);
    if diagonal_is_nonzero(a, n) && q_one.lt_spec(one_spec::<S>()) {
        Some(Iteration { a, vector, b, norm: NormEnum::One { value: q_one }, c })
    } else if diagonal_is_nonzero(a, n) && q_inf.lt_spec(one_spec::<S>()) {
        Some(Iteration { a, vector, b, norm: NormEnum::Infty { value: q_inf }, c })
    } else if diagonal_is_nonzero(a, n) && can_abuse_norm {
        Some(Iteration { a, vector, b, norm: NormEnum::Two, c })
    } else if can_abuse_norm {
        None
    } else {
        zeidel_iteration(gram_spec(a, n), n, transpose_apply_spec(a, n, vector), true)
    }
}

/// The result of simple iteration for `A·x = b`: the iterate at which the
/// error estimate falls below the accuracy, and the number of steps taken.
pub open spec fn simple_solution<S: Numerical>(a: Seq<S>, n: nat, vector: Seq<S>, accuracy: S) -> Option<
    (Seq<S>, nat),
> {
    run_of(simple_iteration(a, n, vector, false), n, false, accuracy)
}

/// The result of the method of Seidel for `A·x = b`.
pub open spec fn zeidel_solution<S: Numerical>(a: Seq<S>, n: nat, vector: Seq<S>, accuracy: S) -> Option<
    (Seq<S>, nat),
> {
    match zeidel_iteration(a, n, vector, false) {
        Some(iteration) => run_of(iteration, n, true, accuracy),
        None => None,
    }
}

/// An iteration with its matrices and vectors at hand.
struct Plan<S> {
    a: Vec<S>,
    vector: Vec<S>,
    b: Vec<S>,
    norm: NormEnum<S>,
    c: Vec<S>,
}

impl<S> Plan<S> {
    spec fn iteration(&self) -> Iteration<S> {
        Iteration { a: self.a@, vector: self.vector@, b: self.b@, norm: self.norm, c: self.c@ }
    }

    spec fn fits(&self, n: nat) -> bool {
        &&& self.a@.len() == n * n
        &&& self.b@.len() == n * n
        &&& self.vector@.len() == n
        &&& self.c@.len() == n
    }
}

/// The entries of a matrix, row after row.
fn read_matrix<M: MatrixRef>(matrix: &M) -> (r: Vec<M::Scalar>) where M::Scalar: Copy
    requires
        matrix.valid(),
        matrix.dimension_spec() * matrix.dimension_spec() <= usize::MAX,
    ensures
        r@ == entries_of(matrix),
        r@.len() == matrix.dimension_spec() * matrix.dimension_spec(),
{
    let dimension = matrix.dimension();
    let ghost n = dimension as nat;
    let ghost target = entries_of(matrix);
    assert(n * n >= 0) by (nonlinear_arith);
    let mut r: Vec<M::Scalar> = Vec::new();
    let mut i: Index = 0;
    while i < dimension
        invariant
            i <= dimension,
            n == dimension,
            matrix.valid(),
            matrix.dimension_spec() == n,
            target == entries_of(matrix),
            target.len() == n * n,
            r@.len() == dimension * i,
            forall|p: int| 0 <= p < r@.len() ==> r@[p] == target[p],
        decreases dimension - i,
    {
        let mut j: Index = 0;
        while j < dimension
            invariant
                j <= dimension,
                i < dimension,
                n == dimension,
                matrix.valid(),
                matrix.dimension_spec() == n,
                target == entries_of(matrix),
                target.len() == n * n,
                r@.len() == dimension * i + j,
                forall|p: int| 0 <= p < r@.len() ==> r@[p] == target[p],
            decreases dimension - j,
        {
            proof {
                lemma_entries_of(matrix, i as int, j as int);
            }
            r.push(matrix.at(i, j));
            j += 1;
        }
        assert(dimension * (i + 1) == dimension * i + dimension) by (nonlinear_arith);
        i += 1;
    }
    assert(r@ =~= target);
    r
}

/// The entries of a column, in order.
fn read_column<C: ColumnRef>(column: &C) -> (r: Vec<C::Scalar>) where C::Scalar: Copy
    requires
        column.valid(),
    ensures
        r@ == column_entries(column),
{
    let dimension = column.dimension();
    let mut r: Vec<C::Scalar> = Vec::new();
    let mut i: Index = 0;
    while i < dimension
        invariant
            i <= dimension,
            dimension == column.dimension_spec(),
            column.valid(),
            r@ == column_entries(column).subrange(0, i as int),
        decreases dimension - i,
    {
        r.push(column.at(i));
        assert(r@ =~= column_entries(column).subrange(0, i + 1));
        i += 1;
    }
    assert(r@ =~= column_entries(column));
    r
}

/// The matrix `E − A / norm`.
fn complement_of<S: Numerical>(a: &Vec<S>, dimension: Index, norm: S) -> (r: Vec<S>)
    requires
        a@.len() == dimension * dimension,
    ensures
        r@ == complement(a@, dimension as nat, norm),
        r@.len() == dimension * dimension,
{
    let ghost n = dimension as nat;
    let ghost target = complement(a@, n, norm);
    assert(a@.len() == a.len());
    assert(n * n >= 0) by (nonlinear_arith);
    let mut r: Vec<S> = Vec::new();
    let mut i: Index = 0;
    while i < dimension
        invariant
            i <= dimension,
            n == dimension,
            a@.len() == dimension * dimension,
            dimension * dimension <= usize::MAX,
            target == complement(a@, n, norm),
            target.len() == n * n,
            r@.len() == dimension * i,
            forall|p: int| 0 <= p < r@.len() ==> r@[p] == target[p],
        decreases dimension - i,
    {
        let mut j: Index = 0;
        while j < dimension
            invariant
                j <= dimension,
                i < dimension,
                n == dimension,
                a@.len() == dimension * dimension,
                dimension * dimension <= usize::MAX,
                target == complement(a@, n, norm),
                target.len() == n * n,
                r@.len() == dimension * i + j,
                forall|p: int| 0 <= p < r@.len() ==> r@[p] == target[p],
            decreases dimension - j,
        {
            proof {
                lemma_cell_bounds(n, i as int, j as int);
                lemma_cell_div_mod(n, i as int, j as int);
            }
            let e = if i == j {
                one::<S>()
            } else {
                S::zero()
            };
            r.push(e.sub(a[cell_index(dimension, i, j)].div(norm)));
            j += 1;
        }
        assert(dimension * (i + 1) == dimension * i + dimension) by (nonlinear_arith);
        i += 1;
    }
    assert(r@ =~= target);
    r
}

/// The iteration matrix of Seidel.
fn zeidel_matrix_of<S: Numerical>(a: &Vec<S>, dimension: Index) -> (r: Vec<S>)
    requires
        a@.len() == dimension * dimension,
    ensures
        r@ == zeidel_matrix(a@, dimension as nat),
        r@.len() == dimension * dimension,
{
    let ghost n = dimension as nat;
    let ghost target = zeidel_matrix(a@, n);
    assert(a@.len() == a.len());
    assert(n * n >= 0) by (nonlinear_arith);
    let mut r: Vec<S> = Vec::new();
    let mut i: Index = 0;
    while i < dimension
        invariant
            i <= dimension,
            n == dimension,
            a@.len() == dimension * dimension,
            dimension * dimension <= usize::MAX,
            target == zeidel_matrix(a@, n),
            target.len() == n * n,
            r@.len() == dimension * i,
            forall|p: int| 0 <= p < r@.len() ==> r@[p] == target[p],
        decreases dimension - i,
    {
        let mut j: Index = 0;
        while j < dimension
            invariant
                j <= dimension,
                i < dimension,
                n == dimension,
                a@.len() == dimension * dimension,
                dimension * dimension <= usize::MAX,
                target == zeidel_matrix(a@, n),
                target.len() == n * n,
                r@.len() == dimension * i + j,
                forall|p: int| 0 <= p < r@.len() ==> r@[p] == target[p],
            decreases dimension - j,
        {
            proof {
                lemma_cell_bounds(n, i as int, j as int);
                lemma_cell_div_mod(n, i as int, j as int);
            }
            if i == j {
                r.push(S::zero());
            } else {
                r.push(
                    a[cell_index(dimension, i, j)].neg().div(a[cell_index(dimension, i, i)]),
                );
            }
            j += 1;
        }
        assert(dimension * (i + 1) == dimension * i + dimension) by (nonlinear_arith);
        i += 1;
    }
    assert(r@ =~= target);
    r
}

/// The right-hand side divided by the diagonal.
fn zeidel_vector_of<S: Numerical>(a: &Vec<S>, dimension: Index, vector: &Vec<S>) -> (r: Vec<S>)
    requires
        a@.len() == dimension * dimension,
        vector@.len() == dimension,
    ensures
        r@ == zeidel_vector(a@, dimension as nat, vector@),
{
    let ghost n = dimension as nat;
    assert(a@.len() == a.len());
    let mut r: Vec<S> = Vec::new();
    let mut i: Index = 0;
    while i < dimension
        invariant
            i <= dimension,
            n == dimension,
            a@.len() == dimension * dimension,
            dimension * dimension <= usize::MAX,
            vector@.len() == dimension,
            r@ == Seq::new(i as nat, |k: int| vector@[k].div_spec(a@[cell(n, k, k)])),
        decreases dimension - i,
    {
        r.push(vector[i].div(a[cell_index(dimension, i, i)]));
        assert(r@ =~= Seq::new((i + 1) as nat, |k: int| vector@[k].div_spec(a@[cell(n, k, k)])));
        i += 1;
    }
    r
}

/// Whether no diagonal entry is zero.
fn has_nonzero_diagonal<S: Numerical>(a: &Vec<S>, dimension: Index) -> (r: bool)
    requires
        a@.len() == dimension * dimension,
    ensures
        r == diagonal_is_nonzero(a@, dimension as nat),
{
    let ghost n = dimension as nat;
    assert(a@.len() == a.len());
    let zero = S::zero();
    let mut i: Index = 0;
    while i < dimension
        invariant
            i <= dimension,
            n == dimension,
            a@.len() == dimension * dimension,
            dimension * dimension <= usize::MAX,
            zero == S::zero_spec(),
            forall|k: int| 0 <= k < i ==> !(#[trigger] a@[cell(n, k, k)]).eq_spec(S::zero_spec()),
        decreases dimension - i,
    {
        if a[cell_index(dimension, i, i)].eq(zero) {
            return false;
        }
        i += 1;
    }
    true
}

/// The difference of two vectors.
fn difference_of<S: Numerical>(x: &Vec<S>, y: &Vec<S>) -> (r: Vec<S>)
    requires
        x@.len() == y@.len(),
    ensures
        r@ == difference(x@, y@),
{
    let mut r: Vec<S> = Vec::new();
    let mut i: Index = 0;
    while i < x.len()
        invariant
            i <= x@.len(),
            x@.len() == y@.len(),
            r@ == Seq::new(i as nat, |k: int| x@[k].sub_spec(y@[k])),
        decreases x@.len() - i,
    {
        r.push(x[i].sub(y[i]));
        assert(r@ =~= Seq::new((i + 1) as nat, |k: int| x@[k].sub_spec(y@[k])));
        i += 1;
    }
    r
}

/// The largest magnitude of an entry.
fn norm_inf_of<S: Numerical>(v: &Vec<S>) -> (r: S)
    ensures
        r == abs_max_prefix(v@, v@.len()),
{
    let mut best = S::zero();
    let mut i: Index = 0;
    while i < v.len()
        invariant
            i <= v@.len(),
            best == abs_max_prefix(v@, i as nat),
        decreases v@.len() - i,
    {
        let m = v[i].abs_trait();
        if m.lt(best) {
        } else {
            best = m;
        }
        i += 1;
    }
    best
}

/// The error estimate for the iterate `x_next` that followed `x_this`.
fn calculate_accuracy<S: Numerical>(
    plan: &Plan<S>,
    dimension: Index,
    x_this: &Vec<S>,
    x_next: &Vec<S>,
) -> (r: S)
    requires
        plan.fits(dimension as nat),
        x_this@.len() == dimension,
        x_next@.len() == dimension,
    ensures
        r == accuracy_of(plan.iteration(), dimension as nat, x_this@, x_next@),
{
    match plan.norm {
        NormEnum::One { value } => {
            let change = difference_of(x_this, x_next);
            value.div(one::<S>().sub(value)).mul(norm_one(change.as_slice()))
        },
        NormEnum::Infty { value } => {
            let change = difference_of(x_this, x_next);
            value.div(one::<S>().sub(value)).mul(norm_inf_of(&change))
        },
        NormEnum::Two => {
            let product = apply(plan.a.as_slice(), dimension, x_next.as_slice());
            assert(product@.len() == dimension);
            let rest = difference_of(&product, &plan.vector);
            assert(rest@ =~= residual(plan.a@, dimension as nat, x_next@, plan.vector@));
            norm_one(rest.as_slice())
        },
    }
}

/// The next iterate of either method.
fn step<S: Numerical>(plan: &Plan<S>, dimension: Index, zeidel: bool, x: &Vec<S>) -> (r: Vec<S>)
    requires
        plan.fits(dimension as nat),
        x@.len() == dimension,
    ensures
        r@ == next_iterate(plan.iteration(), dimension as nat, zeidel, x@),
        r@.len() == dimension,
{
    let ghost n = dimension as nat;
    let ghost iteration = plan.iteration();
    assert(plan.b@.len() == plan.b.len());
    if zeidel {
        let mut x_next: Vec<S> = Vec::new();
        let mut i: Index = 0;
        while i < dimension
            invariant
                i <= dimension,
                x@.len() == dimension,
                x_next@ == x@.subrange(0, i as int),
            decreases dimension - i,
        {
            x_next.push(x[i]);
            assert(x_next@ =~= x@.subrange(0, i + 1));
            i += 1;
        }
        assert(x_next@ =~= x@);
        i = 0;
        while i < dimension
            invariant
                i <= dimension,
                n == dimension,
                plan.fits(n),
                iteration == plan.iteration(),
                dimension * dimension <= usize::MAX,
                x_next@.len() == dimension,
                x_next@ == zeidel_sweep(iteration, n, x@, i as nat),
            decreases dimension - i,
        {
            proof {
                lemma_cell_bounds(n, i as int, 0);
            }
            let start = dimension * i;
            let row = slice_subrange(plan.b.as_slice(), start, start + dimension);
            let value = dot_product(row, x_next.as_slice()).add(plan.c[i]);
            x_next[i] = value;
            i += 1;
        }
        x_next
    } else {
        let product = apply(plan.b.as_slice(), dimension, x.as_slice());
        assert(product@.len() == dimension);
        let mut x_next: Vec<S> = Vec::new();
        let mut i: Index = 0;
        while i < dimension
            invariant
                i <= dimension,
                n == dimension,
                plan.fits(n),
                iteration == plan.iteration(),
                product@ == apply_spec(plan.b@, n, x@),
                x_next@ == Seq::new(
                    i as nat,
                    |k: int| dot_spec(row_of(iteration.b, n, k), x@).add_spec(iteration.c[k]),
                ),
            decreases dimension - i,
        {
            x_next.push(product[i].add(plan.c[i]));
            assert(x_next@ =~= Seq::new(
                (i + 1) as nat,
                |k: int| dot_spec(row_of(iteration.b, n, k), x@).add_spec(iteration.c[k]),
            ));
            i += 1;
        }
        x_next
    }
}

/// Runs an iteration from its first iterate until the error estimate
/// falls below the accuracy.
fn run<S: Numerical>(plan: &Plan<S>, dimension: Index, zeidel: bool, accuracy: S) -> (r: Option<
    (Vec<S>, Index),
>)
    requires
        plan.fits(dimension as nat),
    ensures
        match run_of(plan.iteration(), dimension as nat, zeidel, accuracy) {
            Some((x, steps)) => r matches Some((found, count)) && found@ == x && count == steps,
            None => r is None,
        },
{
    let ghost n = dimension as nat;
    let ghost iteration = plan.iteration();
    let mut steps: Index = 0;
    let mut x_this: Vec<S> = Vec::new();
    let mut i: Index = 0;
    while i < dimension
        invariant
            i <= dimension,
            plan.c@.len() == dimension,
            x_this@ == plan.c@.subrange(0, i as int),
        decreases dimension - i,
    {
        x_this.push(plan.c[i]);
        assert(x_this@ =~= plan.c@.subrange(0, i + 1));
        i += 1;
    }
    assert(x_this@ =~= plan.c@);
    let mut achieved_accuracy = accuracy;
    while accuracy.le(achieved_accuracy)
        invariant
            n == dimension,
            plan.fits(n),
            iteration == plan.iteration(),
            x_this@.len() == dimension,
            run_of(iteration, n, zeidel, accuracy) == iterate(
                iteration,
                n,
                zeidel,
                accuracy,
                x_this@,
                achieved_accuracy,
                steps as nat,
            ),
        decreases usize::MAX - steps,
    {
        if steps == usize::MAX {
            return None;
        }
        let x_next = step(plan, dimension, zeidel, &x_this);
        achieved_accuracy = calculate_accuracy(plan, dimension, &x_this, &x_next);
        x_this = x_next;
        steps += 1;
    }
    Some((x_this, steps))
}

/// The simple iteration for a system.
fn plan_simple<S: Numerical>(a: Vec<S>, dimension: Index, vector: Vec<S>, can_abuse_norm: bool) -> (r:
    Plan<S>)
    requires
        a@.len() == dimension * dimension,
        vector@.len() == dimension,
    ensures
        r.iteration() == simple_iteration(a@, dimension as nat, vector@, can_abuse_norm),
        r.fits(dimension as nat),
    decreases
            (if can_abuse_norm {
                0nat
            } else {
                1nat
            }),
{
    let unit = one::<S>();
    let a_norm_one = table_norm_one(a.as_slice(), dimension);
    let by_one = complement_of(&a, dimension, a_norm_one);
    let q_one = table_norm_one(by_one.as_slice(), dimension);
    if q_one.lt(unit) {
        let c = divide_all(vector.as_slice(), a_norm_one);
        return Plan { a, vector, b: by_one, norm: NormEnum::One { value: q_one }, c };
    }
    let a_norm_inf = table_norm_inf(a.as_slice(), dimension);
    let by_inf = complement_of(&a, dimension, a_norm_inf);
    let q_inf = table_norm_inf(by_inf.as_slice(), dimension);
    if q_inf.lt(unit) {
        let c = divide_all(vector.as_slice(), a_norm_inf);
        return Plan { a, vector, b: by_inf, norm: NormEnum::Infty { value: q_inf }, c };
    }
    if can_abuse_norm {
        let c = divide_all(vector.as_slice(), a_norm_one);
        return Plan { a, vector, b: by_one, norm: NormEnum::Two, c };
    }
    let new_a = gram(a.as_slice(), dimension);
    let new_vector = transpose_apply(a.as_slice(), dimension, vector.as_slice());
    plan_simple(new_a, dimension, new_vector, true)
}

/// The iteration of Seidel for a system.
fn plan_zeidel<S: Numerical>(a: Vec<S>, dimension: Index, vector: Vec<S>, can_abuse_norm: bool) -> (r:
    Option<Plan<S>>)
    requires
        a@.len() == dimension * dimension,
        vector@.len() == dimension,
    ensures
        match zeidel_iteration(a@, dimension as nat, vector@, can_abuse_norm) {
            Some(iteration) => r matches Some(plan) && plan.iteration() == iteration && plan.fits(
                dimension as nat,
            ),
            None => r is None,
        },
    decreases
            (if can_abuse_norm {
                0nat
            } else {
                1nat
            }),
{
    let unit = one::<S>();
    if has_nonzero_diagonal(&a, dimension) {
        let b = zeidel_matrix_of(&a, dimension);
        let c = zeidel_vector_of(&a, dimension, &vector);
        let q_one = table_norm_one(b.as_slice(), dimension);
        if q_one.lt(unit) {
            return Some(Plan { a, vector, b, norm: NormEnum::One { value: q_one }, c });
        }
        let q_inf = table_norm_inf(b.as_slice(), dimension);
        if q_inf.lt(unit) {
            return Some(Plan { a, vector, b, norm: NormEnum::Infty { value: q_inf }, c });
        }
        if can_abuse_norm {
            return Some(Plan { a, vector, b, norm: NormEnum::Two, c });
        }
    }
    if can_abuse_norm {
        return None;
    }
    let new_a = gram(a.as_slice(), dimension);
    let new_vector = transpose_apply(a.as_slice(), dimension, vector.as_slice());
    plan_zeidel(new_a, dimension, new_vector, true)
}

/// A column with the given entries.
fn column_of_entries<C: ColumnFuncInitializer>(x: &Vec<C::Scalar>) -> (r: C) where C::Scalar: Copy
    ensures
        r.valid(),
        column_entries(&r) == x@,
{
    let dimension = x.len();
    let entry = |i: Index| -> (v: C::Scalar)
        requires
            i < dimension,
        ensures
            v == x@[i as int],
        { x[i] };
    let r = C::new_func(dimension, entry);
    proof {
        assert forall|i: int| 0 <= i < dimension implies column_entries(&r)[i] == x@[i] by {
            assert(call_ensures(entry, (i as Index,), r.at_spec(i as Index as int)));
        }
        assert(column_entries(&r) =~= x@);
    }
    r
}

/// Solves `A·x = b` by simple iteration `x ← B·x + c` to the given
/// accuracy of the error estimate. Returns the solution with the number of
/// steps taken, or `None` if that number would leave the range of an index.
pub fn simple_iterative_solve<Matrix, ColumnIn, ColumnOut>(
    matrix: &Matrix,
    vector: &ColumnIn,
    accuracy: Matrix::Scalar,
) -> (r: Option<(ColumnOut, Index)>) where
    Matrix: MatrixRef,
    Matrix::Scalar: Numerical,
    ColumnIn: ColumnRef<Scalar = Matrix::Scalar>,
    ColumnOut: ColumnMut<Scalar = Matrix::Scalar> + ColumnFuncInitializer<Scalar = Matrix::Scalar>,

    requires
        matrix.valid(),
        vector.valid(),
        vector.dimension_spec() == matrix.dimension_spec(),
        matrix.dimension_spec() * matrix.dimension_spec() <= usize::MAX,
    ensures
        match simple_solution(
            entries_of(matrix),
            matrix.dimension_spec(),
            column_entries(vector),
            accuracy,
        ) {
            Some((x, steps)) => r matches Some((found, count)) && found.valid() && column_entries(
                &found,
            ) == x && count == steps,
            None => r is None,
        },
{
    let dimension = matrix.dimension();
    let a = read_matrix(matrix);
    let b = read_column(vector);
    let plan = plan_simple(a, dimension, b, false);
    match run(&plan, dimension, false, accuracy) {
        None => None,
        Some((x, steps)) => Some((column_of_entries(&x), steps)),
    }
}

/// Solves `A·x = b` by the method of Seidel to the given accuracy of the
/// error estimate. Returns the solution with the number of steps taken, or
/// `None` if that number would leave the range of an index, or if `Aᵀ·A`
/// has a zero on its diagonal where it is needed.
pub fn zeidel_iterative_solve<Matrix, ColumnIn, ColumnOut>(
    matrix: &Matrix,
    vector: &ColumnIn,
    accuracy: Matrix::Scalar,
) -> (r: Option<(ColumnOut, Index)>) where
    Matrix: MatrixRef,
    Matrix::Scalar: Numerical,
    ColumnIn: ColumnRef<Scalar = Matrix::Scalar>,
    ColumnOut: ColumnMut<Scalar = Matrix::Scalar> + ColumnFuncInitializer<Scalar = Matrix::Scalar>,

    requires
        matrix.valid(),
        vector.valid(),
        vector.dimension_spec() == matrix.dimension_spec(),
        matrix.dimension_spec() * matrix.dimension_spec() <= usize::MAX,
    ensures
        match zeidel_solution(
            entries_of(matrix),
            matrix.dimension_spec(),
            column_entries(vector),
            accuracy,
        ) {
            Some((x, steps)) => r matches Some((found, count)) && found.valid() && column_entries(
                &found,
            ) == x && count == steps,
            None => r is None,
        },
{
    let dimension = matrix.dimension();
    let a = read_matrix(matrix);
    let b = read_column(vector);
    match plan_zeidel(a, dimension, b, false) {
        None => None,
        Some(plan) => match run(&plan, dimension, true, accuracy) {
            None => None,
            Some((x, steps)) => Some((column_of_entries(&x), steps)),
        },
    }
}

} // verus!
