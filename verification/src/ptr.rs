//! Pointer wrappers.
//!
//! A pointer here is a plain machine address into the modelled data segment.
//! Holding it as a plain word lets every address computation be verified.

use vstd::prelude::*;

verus! {

/// A pointer wrapper type.
///
/// A wrapper around an address that indicates that the possessor of this
/// wrapper owns the referent.
#[derive(Clone, Copy, PartialEq, Eq, PartialOrd, Ord, Structural, Debug)]
pub struct Pointer {
    /// The address pointed to.
    pub addr: usize,
}

impl Pointer {
    /// Create a new `Pointer` from an address.
    pub fn new(addr: usize) -> (r: Pointer)
        ensures
            r.addr == addr,
    {
        Pointer { addr }
    }

    /// Create an "empty" `Pointer`.
    ///
    /// This acts as a null pointer, although it is represented by 0x1
    /// instead of 0x0.
    pub fn empty() -> (r: Pointer)
        ensures
            r.addr == 1,
    {
        Pointer { addr: 1 }
    }

    /// Offset this pointer by some number of bytes.
    pub fn offset(self, diff: usize) -> (r: Pointer)
        requires
            self.addr + diff <= usize::MAX,
        ensures
            r.addr == self.addr + diff,
    {
        Pointer { addr: self.addr + diff }
    }

    /// Get the address of this pointer.
    pub fn get(&self) -> (r: usize)
        ensures
            r == self.addr,
    {
        self.addr
    }
}

} // verus!
