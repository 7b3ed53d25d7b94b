//! Maps from indices to indices.

use vstd::prelude::*;
use crate::scalar::Index;
use crate::representation::{Holds, Representation};

verus! {

/// A map on indices, defined on the indices that `accepts` admits.
pub trait Permutation {
    /// Whether `index` has an image.
    spec fn accepts(&self, index: int) -> bool;

    /// The image of `index`.
    spec fn permute_spec(&self, index: int) -> int;

    fn permute(&self, index: Index) -> (r: Index)
        requires
            self.accepts(index as int),
        ensures
            r == self.permute_spec(index as int),
    ;
}

impl Permutation for Vec<Index> {
    open spec fn accepts(&self, index: int) -> bool {
        0 <= index < self@.len()
    }

    open spec fn permute_spec(&self, index: int) -> int {
        self@[index] as int
    }

    fn permute(&self, index: Index) -> (r: Index) {
        self[index]
    }
}

impl<Stored, Impl> Permutation for Representation<Stored, Impl> where
    Stored: Holds<Impl>,
    Impl: Permutation,
 {
    open spec fn accepts(&self, index: int) -> bool {
        Holds::<Impl>::held(&self.stored()).accepts(index)
    }

    open spec fn permute_spec(&self, index: int) -> int {
        Holds::<Impl>::held(&self.stored()).permute_spec(index)
    }

    fn permute(&self, index: Index) -> (r: Index) {
        self.represent().permute(index)
    }
}

} // verus!
