//! System primitives.
//!
//! The allocator negotiates address space by moving the end of a data
//! segment.  Here the segment is explicit: a base address, a byte store for
//! the range `[base, end)`, and a hard limit past which the segment cannot
//! grow.  `set_break` follows the usual break contract: it returns the new
//! end on success and the old, unchanged end on failure.
//!
//! The debugger hooks (`mark_free`, `mark_uninitialized`) are no-ops here;
//! a build wired to a debugger may replace them with real side effects.

use vstd::prelude::*;

verus! {

/// The modelled data segment of a process.
pub struct Segment {
    /// The base address: the fixed lower end of the segment.
    pub base: usize,
    /// The bytes of the segment; byte `i` holds the value of address
    /// `base + i`.  The segment end (the "break") is `base + bytes.len()`.
    pub bytes: Vec<u8>,
    /// The hard upper limit of the segment end.
    pub limit: usize,
}

impl Segment {
    /// The current segment end (the program break).
    pub open spec fn spec_end(&self) -> int {
        self.base + self.bytes.len()
    }

    /// The segment is well-formed: it lies inside `[base, limit]` and the
    /// limit is addressable.  Address 0 is kept out of the segment so that
    /// no block ever carries a null address.
    pub open spec fn wf(&self) -> bool {
        &&& 1 <= self.base
        &&& self.spec_end() <= self.limit
        &&& self.limit <= usize::MAX
    }

    /// The value held at address `a`.
    pub open spec fn spec_byte(&self, a: int) -> u8 {
        self.bytes[a - self.base]
    }

    /// Create a segment spanning `[base, base)` that may grow up to `limit`.
    pub fn new(base: usize, limit: usize) -> (r: Segment)
        requires
            1 <= base <= limit,
        ensures
            r.wf(),
            r.base == base,
            r.spec_end() == base,
            r.limit == limit,
    {
        Segment { base, bytes: Vec::new(), limit }
    }

    /// The current segment end, as a machine word.
    pub fn end(&self) -> (r: usize)
        requires
            self.wf(),
        ensures
            r == self.spec_end(),
    {
        self.base + self.bytes.len()
    }

    /// Set the segment end to `new_end`.
    ///
    /// On success the new end is returned; bytes of a grown range are zero
    /// and all previously held bytes keep their value.  When `new_end` lies
    /// outside `[base, limit]` nothing changes and the old end is returned,
    /// which is the failure signal.
    pub fn set_break(&mut self, new_end: usize) -> (r: usize)
        requires
            old(self).wf(),
        ensures
            final(self).wf(),
            final(self).base == old(self).base,
            final(self).limit == old(self).limit,
            (old(self).base <= new_end <= old(self).limit) ==> {
                &&& r == new_end
                &&& final(self).spec_end() == new_end
                &&& forall|a: int|
                    old(self).base <= a < old(self).spec_end() && a < new_end
                        ==> final(self).spec_byte(a) == old(self).spec_byte(a)
                &&& forall|a: int|
                    old(self).spec_end() <= a < new_end ==> final(self).spec_byte(a) == 0u8
            },
            !(old(self).base <= new_end <= old(self).limit) ==> {
                &&& r == old(self).spec_end()
                &&& *final(self) == *old(self)
            },
    {
        if self.base <= new_end && new_end <= self.limit {
            let new_len: usize = new_end - self.base;
            self.bytes.resize(new_len, 0u8);
            new_end
        } else {
            self.base + self.bytes.len()
        }
    }

    /// Read the byte at address `a`.
    pub fn read(&self, a: usize) -> (r: u8)
        requires
            self.wf(),
            self.base <= a < self.spec_end(),
        ensures
            r == self.spec_byte(a as int),
    {
        self.bytes[a - self.base]
    }

    /// Write the byte at address `a`.
    pub fn write(&mut self, a: usize, value: u8)
        requires
            old(self).wf(),
            old(self).base <= a < old(self).spec_end(),
        ensures
            final(self).wf(),
            final(self).base == old(self).base,
            final(self).limit == old(self).limit,
            final(self).spec_end() == old(self).spec_end(),
            final(self).spec_byte(a as int) == value,
            forall|x: int|
                old(self).base <= x < old(self).spec_end() && x != a
                    ==> final(self).spec_byte(x) == old(self).spec_byte(x),
    {
        let i: usize = a - self.base;
        self.bytes[i] = value;
    }
}

/// Tell the debugger that this address range is free.
///
/// Without a debugger attached this has no effect.
pub fn mark_free(_addr: usize, _size: usize)
{
}

/// Tell the debugger that this address range is inaccessible.
///
/// Without a debugger attached this has no effect.
pub fn mark_uninitialized(_addr: usize, _size: usize)
{
}

} // verus!
