//! Newton's method for systems of equations, also in stages that lead from
//! an easy system to the one asked for.

use vstd::prelude::*;
use crate::layout::filled;
use crate::lu_decomposition::{eta_factorize, eta_solve, LUDecomposition};
use crate::matrix::column::{column_entries, ColumnFuncInitializer, ColumnRef};
use crate::matrix::dense::DenseRowMatrix;
use crate::matrix::norms::NormedColumn;
use crate::matrix::traits::{entries_of, MatrixRef};
use crate::scalar::{Index, Numerical, OtherNumericalOps};
use crate::vector::abs_max_prefix;

verus! {

/// A map from vectors to vectors of the same dimension.
pub trait VectorMap<S> {
    /// Whether the map is defined on the vectors of dimension `n`.
    spec fn accepts(&self, n: nat) -> bool;

    /// The image of `x`.
    spec fn image(&self, x: Seq<S>) -> Seq<S>;

    fn map(&self, x: &Vec<S>) -> (r: Vec<S>)
        requires
            self.accepts(x@.len()),
        ensures
            r@ == self.image(x@),
            r@.len() == x@.len(),
    ;
}

/// A map from vectors to square matrices of the same dimension.
pub trait MatrixMap<S: Copy> {
    /// Whether the map is defined on the vectors of dimension `n`.
    spec fn accepts(&self, n: nat) -> bool;

    /// The entries of the image of `x`, row after row.
    spec fn image(&self, x: Seq<S>) -> Seq<S>;

    fn map(&self, x: &Vec<S>) -> (r: DenseRowMatrix<S>)
        requires
            self.accepts(x@.len()),
        ensures
            r.valid(),
            r.dimension_spec() == x@.len(),
            entries_of(&r) == self.image(x@),
    ;
}

/// An executable function of a vector, as a map of vectors.
#[verifier::reject_recursive_types(F)]
pub struct VectorOf<'a, F> {
    pub f: &'a F,
}

/// An executable function of a parameter and a vector, at one value of the
/// parameter, as a map of vectors.
#[verifier::reject_recursive_types(F)]
pub struct VectorAt<'a, A, F> {
    pub f: &'a F,
    pub parameter: A,
}

/// An executable function of a vector, as a map to matrices.
#[verifier::reject_recursive_types(F)]
pub struct MatrixOf<'a, F> {
    pub f: &'a F,
}

/// An executable function of a parameter and a vector, at one value of the
/// parameter, as a map to matrices.
#[verifier::reject_recursive_types(F)]
pub struct MatrixAt<'a, A, F> {
    pub f: &'a F,
    pub parameter: A,
}

/// Whether the function sends a vector with entries `x` to one with
/// entries `y`.
pub open spec fn sends<S, F: Fn(&Vec<S>) -> Vec<S>>(f: &F, x: Seq<S>, y: Seq<S>) -> bool {
    exists|v: &Vec<S>, r: Vec<S>| v@ == x && r@ == y && #[trigger] call_ensures(*f, (v,), r)
}

/// Whether the function, at the parameter, sends a vector with entries `x`
/// to one with entries `y`.
pub open spec fn sends_at<S, A, F: Fn(A, &Vec<S>) -> Vec<S>>(
    f: &F,
    parameter: A,
    x: Seq<S>,
    y: Seq<S>,
) -> bool {
    exists|v: &Vec<S>, r: Vec<S>|
        v@ == x && r@ == y && #[trigger] call_ensures(*f, (parameter, v), r)
}

/// Whether the function sends a vector with entries `x` to a matrix with
/// entries `y`.
pub open spec fn sends_to_matrix<S: Copy, F: Fn(&Vec<S>) -> DenseRowMatrix<S>>(
    f: &F,
    x: Seq<S>,
    y: Seq<S>,
) -> bool {
    exists|v: &Vec<S>, r: DenseRowMatrix<S>|
        v@ == x && entries_of(&r) == y && #[trigger] call_ensures(*f, (v,), r)
}

/// Whether the function, at the parameter, sends a vector with entries `x`
/// to a matrix with entries `y`.
pub open spec fn sends_to_matrix_at<S: Copy, A, F: Fn(A, &Vec<S>) -> DenseRowMatrix<S>>(
    f: &F,
    parameter: A,
    x: Seq<S>,
    y: Seq<S>,
) -> bool {
    exists|v: &Vec<S>, r: DenseRowMatrix<S>|
        v@ == x && entries_of(&r) == y && #[trigger] call_ensures(*f, (parameter, v), r)
}

impl<'a, S, F: Fn(&Vec<S>) -> Vec<S>> VectorMap<S> for VectorOf<'a, F> {
    /// The function accepts every vector of dimension `n` and gives one
    /// vector of that dimension for each, which the entries of the argument
    /// determine.
    open spec fn accepts(&self, n: nat) -> bool {
        &&& forall|v: &Vec<S>| v@.len() == n ==> call_requires(*self.f, (v,))
        &&& forall|v: &Vec<S>, r: Vec<S>|
            v@.len() == n && call_ensures(*self.f, (v,), r) ==> r@.len() == n
        &&& forall|v1: &Vec<S>, v2: &Vec<S>, r1: Vec<S>, r2: Vec<S>|
            v1@ == v2@ && call_ensures(*self.f, (v1,), r1) && call_ensures(*self.f, (v2,), r2)
                ==> r1@ == r2@
    }

    open spec fn image(&self, x: Seq<S>) -> Seq<S> {
        choose|y: Seq<S>| #[trigger] sends(self.f, x, y)
    }

    fn map(&self, x: &Vec<S>) -> (r: Vec<S>) {
        let r = (self.f)(x);
        assert(call_ensures(*self.f, (x,), r));
        assert(sends(self.f, x@, r@));
        r
    }
}

impl<'a, S, A: Copy, F: Fn(A, &Vec<S>) -> Vec<S>> VectorMap<S> for VectorAt<'a, A, F> {
    /// At the parameter, the function accepts every vector of dimension `n`
    /// and gives one vector of that dimension for each, which the entries of
    /// the argument determine.
    open spec fn accepts(&self, n: nat) -> bool {
        &&& forall|v: &Vec<S>| v@.len() == n ==> call_requires(*self.f, (self.parameter, v))
        &&& forall|v: &Vec<S>, r: Vec<S>|
            v@.len() == n && call_ensures(*self.f, (self.parameter, v), r) ==> r@.len() == n
        &&& forall|v1: &Vec<S>, v2: &Vec<S>, r1: Vec<S>, r2: Vec<S>|
            v1@ == v2@ && call_ensures(*self.f, (self.parameter, v1), r1) && call_ensures(
                *self.f,
                (self.parameter, v2),
                r2,
            ) ==> r1@ == r2@
    }

    open spec fn image(&self, x: Seq<S>) -> Seq<S> {
        choose|y: Seq<S>| #[trigger] sends_at(self.f, self.parameter, x, y)
    }

    fn map(&self, x: &Vec<S>) -> (r: Vec<S>) {
        let r = (self.f)(self.parameter, x);
        assert(call_ensures(*self.f, (self.parameter, x), r));
        assert(sends_at(self.f, self.parameter, x@, r@));
        r
    }
}

impl<'a, S: Copy, F: Fn(&Vec<S>) -> DenseRowMatrix<S>> MatrixMap<S> for MatrixOf<'a, F> {
    /// The function accepts every vector of dimension `n` and gives one
    /// valid matrix of that dimension for each, which the entries of the
    /// argument determine.
    open spec fn accepts(&self, n: nat) -> bool {
        &&& forall|v: &Vec<S>| v@.len() == n ==> call_requires(*self.f, (v,))
        &&& forall|v: &Vec<S>, r: DenseRowMatrix<S>|
            v@.len() == n && call_ensures(*self.f, (v,), r) ==> r.valid() && r.dimension_spec()
                == n
        &&& forall|v1: &Vec<S>, v2: &Vec<S>, r1: DenseRowMatrix<S>, r2: DenseRowMatrix<S>|
            v1@ == v2@ && call_ensures(*self.f, (v1,), r1) && call_ensures(*self.f, (v2,), r2)
                ==> entries_of(&r1) == entries_of(&r2)
    }

    open spec fn image(&self, x: Seq<S>) -> Seq<S> {
        choose|y: Seq<S>| #[trigger] sends_to_matrix(self.f, x, y)
    }

    fn map(&self, x: &Vec<S>) -> (r: DenseRowMatrix<S>) {
        let r = (self.f)(x);
        assert(call_ensures(*self.f, (x,), r));
        assert(sends_to_matrix(self.f, x@, entries_of(&r)));
        r
    }
}

impl<'a, S: Copy, A: Copy, F: Fn(A, &Vec<S>) -> DenseRowMatrix<S>> MatrixMap<S> for MatrixAt<
    'a,
    A,
    F,
> {
    /// At the parameter, the function accepts every vector of dimension `n`
    /// and gives one valid matrix of that dimension for each, which the
    /// entries of the argument determine.
    open spec fn accepts(&self, n: nat) -> bool {
        &&& forall|v: &Vec<S>| v@.len() == n ==> call_requires(*self.f, (self.parameter, v))
        &&& forall|v: &Vec<S>, r: DenseRowMatrix<S>|
            v@.len() == n && call_ensures(*self.f, (self.parameter, v), r) ==> r.valid()
                && r.dimension_spec() == n
        &&& forall|v1: &Vec<S>, v2: &Vec<S>, r1: DenseRowMatrix<S>, r2: DenseRowMatrix<S>|
            v1@ == v2@ && call_ensures(*self.f, (self.parameter, v1), r1) && call_ensures(
                *self.f,
                (self.parameter, v2),
                r2,
            ) ==> entries_of(&r1) == entries_of(&r2)
    }

    open spec fn image(&self, x: Seq<S>) -> Seq<S> {
        choose|y: Seq<S>| #[trigger] sends_to_matrix_at(self.f, self.parameter, x, y)
    }

    fn map(&self, x: &Vec<S>) -> (r: DenseRowMatrix<S>) {
        let r = (self.f)(self.parameter, x);
        assert(call_ensures(*self.f, (self.parameter, x), r));
        assert(sends_to_matrix_at(self.f, self.parameter, x@, entries_of(&r)));
        r
    }
}

/// The Newton correction at `x`: the solution `d` of `f'(x)·d = f(x)`, or
/// `None` if the Jacobian cannot be factored.
pub open spec fn newton_difference<S: Numerical, V: VectorMap<S>, M: MatrixMap<S>>(
    f: &V,
    fprime: &M,
    x: Seq<S>,
) -> Option<Seq<S>> {
    match eta_factorize(fprime.image(x), x.len()) {
        Some(factors) => Some(eta_solve(factors, x.len(), f.image(x))),
        None => None,
    }
}

/// The point that the next `rounds` rounds of Newton's method reach with a
/// correction of maximum norm below the accuracy, or `None` if they reach
/// none. Each round takes the correction off the point.
pub open spec fn newton_n_run<S: Numerical, V: VectorMap<S>, M: MatrixMap<S>>(
    f: &V,
    fprime: &M,
    x: Seq<S>,
    accuracy: S,
    rounds: nat,
) -> Option<Seq<S>>
    decreases rounds,
{
    if rounds == 0 {
        None
    } else {
        match newton_difference(f, fprime, x) {
            None => None,
            Some(difference) => {
                let x_new = Seq::new(x.len(), |i: int| x[i].sub_spec(difference[i]));
                if abs_max_prefix(difference, x.len()).lt_spec(accuracy) {
                    Some(x_new)
                } else {
                    newton_n_run(f, fprime, x_new, accuracy, (rounds - 1) as nat)
                }
            },
        }
    }
}

/// The entries of an optional vector.
pub open spec fn entries<S>(v: Option<Vec<S>>) -> Option<Seq<S>> {
    match v {
        Some(v) => Some(v@),
        None => None,
    }
}

/// The Newton correction at `x`.
fn newton_diff<S: Numerical, V: VectorMap<S>, M: MatrixMap<S>>(f: &V, fprime: &M, x: &Vec<S>) -> (r:
    Option<Vec<S>>)
    requires
        x@.len() >= 1,
        x@.len() * x@.len() <= usize::MAX,
        f.accepts(x@.len()),
        fprime.accepts(x@.len()),
    ensures
        entries(r) == newton_difference(f, fprime, x@),
        r matches Some(v) ==> v@.len() == x@.len(),
{
    let jacobian = fprime.map(x);
    match LUDecomposition::calculate(jacobian) {
        None => None,
        Some(decomposition) => {
            let mut v = f.map(x);
            assert(column_entries(&v) =~= v@);
            decomposition.solve(&mut v);
            assert(column_entries(&v) =~= v@);
            Some(v)
        },
    }
}

/// Newton's method from the point `x`, for any two maps.
fn newton_rounds<S: Numerical, V: VectorMap<S>, M: MatrixMap<S>>(
    f: &V,
    fprime: &M,
    x: Vec<S>,
    accuracy: S,
    max_steps: Index,
) -> (r: Option<Vec<S>>)
    requires
        x@.len() >= 1,
        x@.len() * x@.len() <= usize::MAX,
        f.accepts(x@.len()),
        fprime.accepts(x@.len()),
    ensures
        entries(r) == newton_n_run(f, fprime, x@, accuracy, max_steps as nat),
        r matches Some(v) ==> v@.len() == x@.len(),
{
    let ghost n = x@.len();
    let mut current = x;
    let mut k: Index = 0;
    while k < max_steps
        invariant
            k <= max_steps,
            n == x@.len(),
            current@.len() == n,
            n >= 1,
            n * n <= usize::MAX,
            f.accepts(n),
            fprime.accepts(n),
            newton_n_run(f, fprime, x@, accuracy, max_steps as nat) == newton_n_run(
                f,
                fprime,
                current@,
                accuracy,
                (max_steps - k) as nat,
            ),
        decreases max_steps - k,
    {
        let x_diff = match newton_diff(f, fprime, &current) {
            None => {
                return None;
            },
            Some(x_diff) => x_diff,
        };
        let ghost difference = x_diff@;
        let ghost target = Seq::new(n, |i: int| current@[i].sub_spec(difference[i]));
        let dimension = current.len();
        let entry = |i: Index| -> (v: S)
            requires
                i < dimension,
            ensures
                v == current@[i as int].sub_spec(x_diff@[i as int]),
            { current[i].sub(x_diff[i]) };
        let x_new: Vec<S> = Vec::new_func(dimension, entry);
        proof {
            assert forall|i: int| 0 <= i < n implies x_new@[i] == target[i] by {
                assert(call_ensures(entry, (i as Index,), x_new.at_spec(i as Index as int)));
            }
            assert(x_new@ =~= target);
            assert(column_entries(&x_diff) =~= difference);
        }
        if x_diff.norm_inf().lt(accuracy) {
            return Some(x_new);
        } else {
            current = x_new;
        }
        k += 1;
    }
    None
}

/// Newton's method for a zero of `f` from the point `x`, with the
/// Jacobian `fprime`. A round solves `f'(x)·d = f(x)` and moves to `x − d`;
/// the first point that a correction of maximum norm below `accuracy` leads
/// to is the result. Returns `None` when `max_steps` rounds reach no such
/// point, and when a Jacobian cannot be factored.
pub fn newton_method_n<
    S: Numerical,
    F: Fn(&Vec<S>) -> Vec<S>,
    G: Fn(&Vec<S>) -> DenseRowMatrix<S>,
>(f: &F, fprime: &G, x: Vec<S>, accuracy: S, max_steps: Index) -> (r: Option<Vec<S>>)
    requires
        x@.len() >= 1,
        x@.len() * x@.len() <= usize::MAX,
        (VectorOf { f }).accepts(x@.len()),
        (MatrixOf { f: fprime }).accepts(x@.len()),
    ensures
        entries(r) == newton_n_run(
            &(VectorOf { f }),
            &(MatrixOf { f: fprime }),
            x@,
            accuracy,
            max_steps as nat,
        ),
{
    newton_rounds(&VectorOf { f }, &MatrixOf { f: fprime }, x, accuracy, max_steps)
}

/// The start of the stages: minus the Newton correction of the first
/// system at the origin.
pub open spec fn staged_start<S: Numerical, V: VectorMap<S>, M: MatrixMap<S>>(
    f: &V,
    fprime: &M,
    n: nat,
) -> Option<Seq<S>> {
    match newton_difference(f, fprime, Seq::new(n, |k: int| S::zero_spec())) {
        Some(difference) => Some(Seq::new(n, |k: int| difference[k].neg_spec())),
        None => None,
    }
}

/// The point that Newton's method reaches through the stages from `from`
/// to `stages`, each started where the one before ended.
pub open spec fn staged_run<
    S: Numerical,
    F: Fn(u32, &Vec<S>) -> Vec<S>,
    G: Fn(u32, &Vec<S>) -> DenseRowMatrix<S>,
>(f: &F, fprime: &G, stages: u32, x: Seq<S>, accuracy: S, max_steps: nat, from: nat) -> Option<
    Seq<S>,
>
    decreases stages + 1 - from,
{
    if from > stages {
        Some(x)
    } else {
        match newton_n_run(
            &(VectorAt { f, parameter: from as u32 }),
            &(MatrixAt { f: fprime, parameter: from as u32 }),
            x,
            accuracy,
            max_steps,
        ) {
            None => None,
            Some(x_new) => staged_run(f, fprime, stages, x_new, accuracy, max_steps, from + 1),
        }
    }
}

/// Whether the two functions are defined in dimension `n` at the given
/// value of their parameter.
pub open spec fn accepts_at<
    S: Numerical,
    A: Copy,
    F: Fn(A, &Vec<S>) -> Vec<S>,
    G: Fn(A, &Vec<S>) -> DenseRowMatrix<S>,
>(f: &F, fprime: &G, parameter: A, n: nat) -> bool {
    (VectorAt { f, parameter }).accepts(n) && (MatrixAt { f: fprime, parameter }).accepts(n)
}

/// Whether the two functions are defined in dimension `n` at every stage
/// up to `stages`.
pub open spec fn staged_accepts<
    S: Numerical,
    F: Fn(u32, &Vec<S>) -> Vec<S>,
    G: Fn(u32, &Vec<S>) -> DenseRowMatrix<S>,
>(f: &F, fprime: &G, stages: u32, n: nat) -> bool {
    forall|stage: u32| stage <= stages ==> #[trigger] accepts_at(f, fprime, stage, n)
}

/// Newton's method in stages. Stage zero gives the start: minus its
/// Newton correction at the origin. Every later stage up to `stages` runs
/// Newton's method for its own system from the point that the stage before
/// reached. Returns `None` as soon as a stage reaches no point.
pub fn newton_method_n_staged<
    S: Numerical,
    F: Fn(u32, &Vec<S>) -> Vec<S>,
    G: Fn(u32, &Vec<S>) -> DenseRowMatrix<S>,
>(f: &F, fprime: &G, dimension: Index, stages: u32, accuracy: S, max_steps: Index) -> (r: Option<
    Vec<S>,
>)
    requires
        dimension >= 1,
        dimension * dimension <= usize::MAX,
        staged_accepts(f, fprime, stages, dimension as nat),
    ensures
        entries(r) == (match staged_start(
            &(VectorAt { f, parameter: 0u32 }),
            &(MatrixAt { f: fprime, parameter: 0u32 }),
            dimension as nat,
        ) {
            Some(start) => staged_run(f, fprime, stages, start, accuracy, max_steps as nat, 1),
            None => None,
        }),
{
    let ghost n = dimension as nat;
    let origin = filled(dimension, S::zero());
    let first = VectorAt { f, parameter: 0u32 };
    let first_prime = MatrixAt { f: fprime, parameter: 0u32 };
    assert(accepts_at(f, fprime, 0u32, n));
    let mut x = match newton_diff(&first, &first_prime, &origin) {
        None => {
            return None;
        },
        Some(initial_dx) => initial_dx,
    };
    let ghost difference = x@;
    let mut k: Index = 0;
    while k < dimension
        invariant
            k <= dimension,
            x@.len() == dimension,
            difference.len() == dimension,
            forall|i: int| 0 <= i < k ==> x@[i] == difference[i].neg_spec(),
            forall|i: int| k <= i < dimension ==> x@[i] == difference[i],
        decreases dimension - k,
    {
        let negated = x[k].neg();
        x[k] = negated;
        k += 1;
    }
    let ghost start = x@;
    assert(start =~= Seq::new(n, |k: int| difference[k].neg_spec()));
    let mut stage: u32 = 1;
    let mut done = stages == 0;
    while !done
        invariant
            1 <= stage,
            !done ==> stage <= stages,
            n == dimension,
            dimension >= 1,
            dimension * dimension <= usize::MAX,
            x@.len() == n,
            staged_accepts(f, fprime, stages, n),
            staged_start(
                &(VectorAt { f, parameter: 0u32 }),
                &(MatrixAt { f: fprime, parameter: 0u32 }),
                n,
            ) == Some(start),
            !done ==> staged_run(f, fprime, stages, start, accuracy, max_steps as nat, 1)
                == staged_run(f, fprime, stages, x@, accuracy, max_steps as nat, stage as nat),
            done ==> staged_run(f, fprime, stages, start, accuracy, max_steps as nat, 1) == Some(
                x@,
            ),
        decreases
                (if done {
                    0
                } else {
                    stages - stage + 1
                }),
    {
        let at_stage = VectorAt { f, parameter: stage };
        let prime_at_stage = MatrixAt { f: fprime, parameter: stage };
        assert(accepts_at(f, fprime, stage, n));
        match newton_rounds(&at_stage, &prime_at_stage, x, accuracy, max_steps) {
            Some(x_new) => {
                x = x_new;
            },
            None => {
                return None;
            },
        }
        if stage == stages {
            assert(staged_run(
                f,
                fprime,
                stages,
                x@,
                accuracy,
                max_steps as nat,
                (stage + 1) as nat,
            ) == Some(x@));
            done = true;
        } else {
            stage += 1;
        }
    }
    assert(stages == 0 ==> staged_run(f, fprime, stages, start, accuracy, max_steps as nat, 1)
        == Some(start));
    Some(x)
}

/// The parameter of stage `stage` of `stages`: `stage / stages`.
pub open spec fn stage_parameter<S: Numerical>(stage: u32, stages: u32) -> S {
    S::from_index_spec(stage as Index).div_spec(S::from_index_spec(stages as Index))
}

/// The point that Newton's method reaches through the stages from `from`
/// to `stages` of a system that depends on a parameter, which rises from
/// zero to one in equal steps.
pub open spec fn interpolated_run<
    S: Numerical,
    F: Fn(S, &Vec<S>) -> Vec<S>,
    G: Fn(S, &Vec<S>) -> DenseRowMatrix<S>,
>(f: &F, fprime: &G, stages: u32, x: Seq<S>, accuracy: S, max_steps: nat, from: nat) -> Option<
    Seq<S>,
>
    decreases stages + 1 - from,
{
    if from > stages {
        Some(x)
    } else {
        match newton_n_run(
            &(VectorAt { f, parameter: stage_parameter::<S>(from as u32, stages) }),
            &(MatrixAt { f: fprime, parameter: stage_parameter::<S>(from as u32, stages) }),
            x,
            accuracy,
            max_steps,
        ) {
            None => None,
            Some(x_new) => interpolated_run(
                f,
                fprime,
                stages,
                x_new,
                accuracy,
                max_steps,
                from + 1,
            ),
        }
    }
}

/// Whether the two functions are defined in dimension `n` at the
/// parameter of every stage up to `stages`.
pub open spec fn interpolated_accepts<
    S: Numerical,
    F: Fn(S, &Vec<S>) -> Vec<S>,
    G: Fn(S, &Vec<S>) -> DenseRowMatrix<S>,
>(f: &F, fprime: &G, stages: u32, n: nat) -> bool {
    forall|stage: u32|
        stage <= stages ==> accepts_at(
            f,
            fprime,
            #[trigger] stage_parameter::<S>(stage, stages),
            n,
        )
}

/// Newton's method in stages for a system that depends on a parameter:
/// stage `k` of `stages` solves the system at the parameter `k / stages`.
pub fn newton_method_n_interpolated<
    S: Numerical,
    F: Fn(S, &Vec<S>) -> Vec<S>,
    G: Fn(S, &Vec<S>) -> DenseRowMatrix<S>,
>(f: &F, fprime: &G, dimension: Index, stages: u32, accuracy: S, max_steps: Index) -> (r: Option<
    Vec<S>,
>)
    requires
        dimension >= 1,
        dimension * dimension <= usize::MAX,
        interpolated_accepts(f, fprime, stages, dimension as nat),
    ensures
        entries(r) == (match staged_start(
            &(VectorAt { f, parameter: stage_parameter::<S>(0, stages) }),
            &(MatrixAt { f: fprime, parameter: stage_parameter::<S>(0, stages) }),
            dimension as nat,
        ) {
            Some(start) => interpolated_run(
                f,
                fprime,
                stages,
                start,
                accuracy,
                max_steps as nat,
                1,
            ),
            None => None,
        }),
{
    let ghost n = dimension as nat;
    let origin = filled(dimension, S::zero());
    let count = S::from_index(stages as Index);
    let first = VectorAt { f, parameter: S::from_index(0).div(count) };
    let first_prime = MatrixAt { f: fprime, parameter: S::from_index(0).div(count) };
    assert(first.parameter == stage_parameter::<S>(0, stages));
    assert(accepts_at(f, fprime, stage_parameter::<S>(0, stages), n));
    let mut x = match newton_diff(&first, &first_prime, &origin) {
        None => {
            return None;
        },
        Some(initial_dx) => initial_dx,
    };
    let ghost difference = x@;
    let mut k: Index = 0;
    while k < dimension
        invariant
            k <= dimension,
            x@.len() == dimension,
            difference.len() == dimension,
            forall|i: int| 0 <= i < k ==> x@[i] == difference[i].neg_spec(),
            forall|i: int| k <= i < dimension ==> x@[i] == difference[i],
        decreases dimension - k,
    {
        let negated = x[k].neg();
        x[k] = negated;
        k += 1;
    }
    let ghost start = x@;
    assert(start =~= Seq::new(n, |k: int| difference[k].neg_spec()));
    let mut stage: u32 = 1;
    let mut done = stages == 0;
    while !done
        invariant
            1 <= stage,
            !done ==> stage <= stages,
            n == dimension,
            dimension >= 1,
            dimension * dimension <= usize::MAX,
            count == S::from_index_spec(stages as Index),
            x@.len() == n,
            interpolated_accepts(f, fprime, stages, n),
            staged_start(
                &(VectorAt { f, parameter: stage_parameter::<S>(0, stages) }),
                &(MatrixAt { f: fprime, parameter: stage_parameter::<S>(0, stages) }),
                n,
            ) == Some(start),
            !done ==> interpolated_run(f, fprime, stages, start, accuracy, max_steps as nat, 1)
                == interpolated_run(
                f,
                fprime,
                stages,
                x@,
                accuracy,
                max_steps as nat,
                stage as nat,
            ),
            done ==> interpolated_run(f, fprime, stages, start, accuracy, max_steps as nat, 1)
                == Some(x@),
        decreases
                (if done {
                    0
                } else {
                    stages - stage + 1
                }),
    {
        let parameter = S::from_index(stage as Index).div(count);
        assert(parameter == stage_parameter::<S>(stage, stages));
        let at_stage = VectorAt { f, parameter };
        let prime_at_stage = MatrixAt { f: fprime, parameter };
        assert(accepts_at(f, fprime, stage_parameter::<S>(stage, stages), n));
        match newton_rounds(&at_stage, &prime_at_stage, x, accuracy, max_steps) {
            Some(x_new) => {
                x = x_new;
            },
            None => {
                return None;
            },
        }
        if stage == stages {
            assert(interpolated_run(
                f,
                fprime,
                stages,
                x@,
                accuracy,
                max_steps as nat,
                (stage + 1) as nat,
            ) == Some(x@));
            done = true;
        } else {
            stage += 1;
        }
    }
    Some(x)
}

} // verus!
