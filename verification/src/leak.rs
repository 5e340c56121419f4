//! Traits for leakable types.
//!
//! In the context of a memory allocator, leaks are never ideal.  This marker
//! trait is for types which may be "leaked" safely: types that carry no
//! destructor of their own, such as the plain value types of this crate.

use vstd::prelude::*;
use crate::ptr::Pointer;
use crate::block::Block;

verus! {

/// Types that have no destructor.
pub trait Leak {
}

impl Leak for Pointer {
}

impl Leak for Block {
}

impl Leak for u8 {
}

impl Leak for usize {
}

} // verus!
