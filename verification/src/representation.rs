//! A value that stands for another one: an owned counterpart of a borrow.

use vstd::prelude::*;
use core::marker::PhantomData;

verus! {

/// A stored value through which an `Impl` can be read: the `Impl` itself or a
/// reference to one.
pub trait Holds<Impl> {
    /// The value that is held.
    spec fn held(&self) -> Impl;

    fn hold(&self) -> (r: &Impl)
        ensures
            *r == self.held(),
    ;
}

/// A stored value through which an `Impl` can also be changed.
pub trait HoldsMut<Impl>: Holds<Impl> {
    fn hold_mut(&mut self) -> (r: &mut Impl)
        ensures
            *r == Holds::<Impl>::held(&*old(self)),
            Holds::<Impl>::held(&*final(self)) == *final(r),
    ;
}

impl<T> Holds<T> for T {
    open spec fn held(&self) -> T {
        *self
    }

    fn hold(&self) -> (r: &T) {
        self
    }
}

impl<T> HoldsMut<T> for T {
    fn hold_mut(&mut self) -> (r: &mut T) {
        self
    }
}

impl<'a, T> Holds<T> for &'a T {
    open spec fn held(&self) -> T {
        **self
    }

    fn hold(&self) -> (r: &T) {
        *self
    }
}

impl<'a, T> Holds<T> for &'a mut T {
    open spec fn held(&self) -> T {
        **self
    }

    fn hold(&self) -> (r: &T) {
        &**self
    }
}

impl<'a, T> HoldsMut<T> for &'a mut T {
    fn hold_mut(&mut self) -> (r: &mut T) {
        &mut **self
    }
}

/// Holds a `Stored` and presents it as an `Impl`.
pub struct Representation<Stored, Impl> {
    stored: Stored,
    _phantom: PhantomData<Impl>,
}

impl<Stored, Impl> Representation<Stored, Impl> {
    /// The stored value.
    pub closed spec fn stored(&self) -> Stored {
        self.stored
    }

    /// Wraps `stored`.
    pub fn from(stored: Stored) -> (r: Self)
        ensures
            r.stored() == stored,
    {
        Representation { stored, _phantom: PhantomData }
    }

    /// The represented value.
    pub fn represent(&self) -> (r: &Impl) where Stored: Holds<Impl>
        ensures
            *r == Holds::<Impl>::held(&self.stored()),
    {
        self.stored.hold()
    }

    /// The represented value, for writing.
    pub fn represent_mut(&mut self) -> (r: &mut Impl) where Stored: HoldsMut<Impl>
        ensures
            *r == Holds::<Impl>::held(&old(self).stored()),
            Holds::<Impl>::held(&final(self).stored()) == *final(r),
    {
        self.stored.hold_mut()
    }
}

impl<Stored: Clone, Impl> Clone for Representation<Stored, Impl> {
    fn clone(&self) -> (r: Self) {
        Representation { stored: self.stored.clone(), _phantom: PhantomData }
    }
}

/// A representation that borrows its value.
pub type RefRepresentation<'a, T> = Representation<&'a T, T>;

/// Represents `v` by a shared reference to it.
pub fn repr_ref<'a, T>(v: &'a T) -> (r: RefRepresentation<'a, T>)
    ensures
        *r.stored() == *v,
{
    Representation::from(v)
}

/// A representation that borrows its value for writing.
pub type MutRefRepresentation<'a, T> = Representation<&'a mut T, T>;

/// Represents `v` by an exclusive reference to it.
pub fn repr_mut<'a, T>(v: &'a mut T) -> (r: MutRefRepresentation<'a, T>)
    ensures
        *r.stored() == *old(v),
        *final(r.stored()) == *final(v),
{
    Representation::from(v)
}

} // verus!
