//! Memory blocks.
//!
//! Blocks are the main unit of the memory bookkeeping.  A block is a simple
//! construct with a `Pointer` and a size.  Blocks may be empty (zero-sized):
//! the allocator uses empty blocks as positional sentinels, so an empty
//! block's address is still meaningful.
//!
//! A block describes a byte range `[addr, addr + size)` of the data segment;
//! the bytes themselves are held by the segment (see `sys`).  The well-formed
//! blocks are those whose end does not overflow the address space.

use vstd::prelude::*;
use crate::ptr::Pointer;
use crate::sys;

verus! {

/// A contiguous memory block: the byte range `[addr, addr + size)`.
#[derive(Clone, Copy, PartialEq, Eq, PartialOrd, Ord, Structural, Debug)]
pub struct Block {
    /// The pointer to the start of this block.
    pub ptr: Pointer,
    /// The size of this block, in bytes.
    pub size: usize,
}

/// The padding that aligns `addr` upwards to `align`.
pub open spec fn align_pad(addr: int, align: int) -> int {
    (align - addr % align) % align
}

/// The padding is small and does align the address.
pub proof fn lemma_align_pad(addr: int, align: int)
    requires
        0 <= addr,
        1 <= align,
    ensures
        0 <= align_pad(addr, align) < align,
        (addr + align_pad(addr, align)) % align == 0,
{
    let m = addr % align;
    vstd::arithmetic::div_mod::lemma_mod_division_less_than_divisor(addr, align);
    if m == 0 {
        vstd::arithmetic::div_mod::lemma_mod_multiples_basic(1, align);
        assert(align_pad(addr, align) == 0);
    } else {
        vstd::arithmetic::div_mod::lemma_small_mod((align - m) as nat, align as nat);
        assert(align_pad(addr, align) == align - m);
        vstd::arithmetic::div_mod::lemma_fundamental_div_mod(addr, align);
        let q = addr / align;
        assert(addr + (align - m) == (q + 1) * align) by {
            assert(addr == align * q + m);
            assert(align * q + align == (q + 1) * align) by (nonlinear_arith);
        }
        vstd::arithmetic::div_mod::lemma_mod_multiples_basic(q + 1, align);
    }
}

impl Block {
    /// The address of this block, as a mathematical integer.
    pub open spec fn addr(self) -> int {
        self.ptr.addr as int
    }

    /// The end address (one past the last byte) of this block.
    pub open spec fn end(self) -> int {
        self.ptr.addr + self.size
    }

    /// A block is well-formed when its end stays inside the address space.
    pub open spec fn wf(self) -> bool {
        self.end() <= usize::MAX as int
    }

    /// Construct a block from its raw parts (pointer and size).
    pub fn from_raw_parts(ptr: Pointer, size: usize) -> (r: Block)
        requires
            ptr.addr + size <= usize::MAX,
        ensures
            r.ptr == ptr,
            r.size == size,
            r.wf(),
    {
        Block { ptr, size }
    }

    /// Create an empty block starting at `ptr`.
    pub fn empty(ptr: Pointer) -> (r: Block)
        ensures
            r.ptr == ptr,
            r.size == 0,
            r.wf(),
    {
        Block { ptr, size: 0 }
    }

    /// Create an empty block representing the left edge of this block.
    pub fn empty_left(&self) -> (r: Block)
        ensures
            r.ptr == self.ptr,
            r.size == 0,
    {
        Block { ptr: self.ptr, size: 0 }
    }

    /// Create an empty block representing the right edge of this block.
    pub fn empty_right(&self) -> (r: Block)
        requires
            self.wf(),
        ensures
            r.addr() == self.end(),
            r.size == 0,
    {
        Block { ptr: Pointer { addr: self.ptr.addr + self.size }, size: 0 }
    }

    /// Merge this block with a block to the right.
    ///
    /// Merging an empty block succeeds unconditionally and changes nothing.
    /// Otherwise the merge succeeds if and only if `block` begins exactly at
    /// this block's end; on success this block absorbs `block`'s size and
    /// `block` is emptied.
    pub fn merge_right(&mut self, block: &mut Block) -> (r: Result<(), ()>)
        requires
            old(self).wf(),
            old(block).wf(),
        ensures
            r is Ok <==> (old(block).size == 0 || old(self).end() == old(block).addr()),
            old(block).size == 0 ==> *final(self) == *old(self) && *final(block) == *old(block),
            (old(block).size != 0 && old(self).end() == old(block).addr()) ==> {
                &&& final(self).ptr == old(self).ptr
                &&& final(self).size == old(self).size + old(block).size
                &&& final(self).wf()
                &&& final(block).ptr == old(block).ptr
                &&& final(block).size == 0
            },
            r is Err ==> *final(self) == *old(self) && *final(block) == *old(block),
    {
        if block.size == 0 {
            Ok(())
        } else if self.left_to(block) {
            // The end of `block` is bounded by the address space, so the sum
            // cannot overflow.
            self.size = self.size + block.pop().size;
            Ok(())
        } else {
            Err(())
        }
    }

    /// Is this block empty/free?
    pub fn is_empty(&self) -> (r: bool)
        ensures
            r == (self.size == 0),
    {
        self.size == 0
    }

    /// Get the size of the block.
    pub fn size(&self) -> (r: usize)
        ensures
            r == self.size,
    {
        self.size
    }

    /// Is this block aligned to `align`?
    pub fn aligned_to(&self, align: usize) -> (r: bool)
        requires
            align >= 1,
        ensures
            r == (self.addr() % align as int == 0),
    {
        self.ptr.addr % align == 0
    }

    /// "Pop" this block: replace it with an empty block at the same address
    /// and return the old value.
    pub fn pop(&mut self) -> (r: Block)
        ensures
            r == *old(self),
            final(self).ptr == old(self).ptr,
            final(self).size == 0,
    {
        let res = Block { ptr: self.ptr, size: self.size };
        self.size = 0;
        res
    }

    /// Is this block placed directly left of the given other block?
    pub fn left_to(&self, to: &Block) -> (r: bool)
        requires
            self.wf(),
        ensures
            r == (self.end() == to.addr()),
    {
        self.size + self.ptr.addr == to.ptr.addr
    }

    /// Split the block at some position.
    ///
    /// The two returned blocks cover `[addr, addr + pos)` and
    /// `[addr + pos, addr + size)`.  A position out of bounds is a
    /// programming bug and is excluded by contract.
    pub fn split(self, pos: usize) -> (r: (Block, Block))
        requires
            pos <= self.size,
            self.wf(),
        ensures
            r.0.ptr == self.ptr,
            r.0.size == pos,
            r.1.addr() == self.addr() + pos,
            r.1.size == self.size - pos,
            r.0.wf(),
            r.1.wf(),
            r.1.end() == self.end(),
    {
        (
            Block { ptr: self.ptr, size: pos },
            Block { ptr: Pointer { addr: self.ptr.addr + pos }, size: self.size - pos },
        )
    }

    /// Split this block such that the second block is aligned to `align`.
    ///
    /// Returns `None`, leaving the block intact, when the padding needed to
    /// reach alignment does not fall strictly inside the block.  On success
    /// the block is emptied and the two returned pieces cover its old range,
    /// the second one aligned to `align`.
    pub fn align(&mut self, align: usize) -> (r: Option<(Block, Block)>)
        requires
            align >= 1,
            old(self).wf(),
        ensures
            r is Some <==> align_pad(old(self).addr(), align as int) < old(self).size,
            r is None ==> *final(self) == *old(self),
            r matches Some((a, b)) ==> {
                &&& a.ptr == old(self).ptr
                &&& a.size == align_pad(old(self).addr(), align as int)
                &&& b.addr() == old(self).addr() + a.size
                &&& b.addr() % align as int == 0
                &&& b.end() == old(self).end()
                &&& a.size + b.size == old(self).size
                &&& a.wf()
                &&& b.wf()
                &&& final(self).ptr == old(self).ptr
                &&& final(self).size == 0
            },
    {
        proof {
            lemma_align_pad(self.addr(), align as int);
        }
        // The smallest padding that aligns the block's address, computed
        // modulo `align` so an already aligned block wastes no space.
        let aligner: usize = (align - self.ptr.addr % align) % align;

        if aligner < self.size {
            let old_block = self.pop();

            Some((
                Block { ptr: old_block.ptr, size: aligner },
                Block {
                    ptr: Pointer { addr: old_block.ptr.addr + aligner },
                    size: old_block.size - aligner,
                },
            ))
        } else {
            None
        }
    }

    /// Volatile-zero this memory when the security mode is on.
    ///
    /// The security mode is off in this build, so the block and the
    /// segment are left untouched.
    pub fn sec_zero(&mut self)
        ensures
            *final(self) == *old(self),
    {
    }

    /// Mark this block free to the debugger.
    pub fn mark_free(self) -> (r: Block)
        ensures
            r == self,
    {
        sys::mark_free(self.ptr.addr, self.size);
        self
    }

    /// Mark this block uninitialized to the debugger.
    pub fn mark_uninitialized(self) -> (r: Block)
        ensures
            r == self,
    {
        sys::mark_uninitialized(self.ptr.addr, self.size);
        self
    }
}

} // verus!
