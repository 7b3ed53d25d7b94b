//! Executable functions that are passed as values, seen as mathematical
//! functions.

use vstd::prelude::*;

verus! {

/// Whether `f` accepts every argument.
pub open spec fn is_total<A, B, F: Fn(A) -> B>(f: &F) -> bool {
    forall|x: A| call_requires(*f, (x,))
}

/// Whether `f` gives one result for each argument.
pub open spec fn is_single_valued<A, B, F: Fn(A) -> B>(f: &F) -> bool {
    forall|x: A, a: B, b: B| call_ensures(*f, (x,), a) && call_ensures(*f, (x,), b) ==> a == b
}

/// Whether `f` accepts every argument and gives one result for each.
pub open spec fn is_function<A, B, F: Fn(A) -> B>(f: &F) -> bool {
    is_total(f) && is_single_valued(f)
}

/// The value of `f` at `x`.
pub open spec fn value_at<A, B, F: Fn(A) -> B>(f: &F, x: A) -> B {
    choose|y: B| call_ensures(*f, (x,), y)
}

/// The values of `f` at the given points.
pub open spec fn values_at<A, B, F: Fn(A) -> B>(f: &F, points: Seq<A>) -> Seq<B> {
    Seq::new(points.len(), |k: int| value_at(f, points[k]))
}

/// Calls `f` on `x`.
pub fn evaluate<A, B, F: Fn(A) -> B>(f: &F, x: A) -> (r: B)
    requires
        call_requires(*f, (x,)),
        is_single_valued(f),
    ensures
        r == value_at(f, x),
        call_ensures(*f, (x,), r),
{
    let r = f(x);
    assert(call_ensures(*f, (x,), r));
    r
}

/// Whether `f` accepts the pair `(x, y)`.
pub open spec fn accepts2<A, B, C, F: Fn(A, B) -> C>(f: &F, x: A, y: B) -> bool {
    call_requires(*f, (x, y))
}

/// Whether `z` is a result of `f` for the pair `(x, y)`.
pub open spec fn gives2<A, B, C, F: Fn(A, B) -> C>(f: &F, x: A, y: B, z: C) -> bool {
    call_ensures(*f, (x, y), z)
}

/// Two-argument functions: whether `f` gives one result for each pair.
pub open spec fn is_single_valued2<A, B, C, F: Fn(A, B) -> C>(f: &F) -> bool {
    forall|x: A, y: B, a: C, b: C|
        call_ensures(*f, (x, y), a) && call_ensures(*f, (x, y), b) ==> a == b
}

/// The value of `f` at `(x, y)`.
pub open spec fn value_at2<A, B, C, F: Fn(A, B) -> C>(f: &F, x: A, y: B) -> C {
    choose|z: C| call_ensures(*f, (x, y), z)
}

/// Calls `f` on `(x, y)`.
pub fn evaluate2<A, B, C, F: Fn(A, B) -> C>(f: &F, x: A, y: B) -> (r: C)
    requires
        call_requires(*f, (x, y)),
        is_single_valued2(f),
    ensures
        r == value_at2(f, x, y),
        call_ensures(*f, (x, y), r),
{
    let r = f(x, y);
    assert(call_ensures(*f, (x, y), r));
    r
}

} // verus!
