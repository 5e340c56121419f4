//! The pool vector.
//!
//! A contiguous, growable sequence of `Block` whose backing storage is
//! itself an allocation served by the allocator (the metacircular knot of
//! the bookkeeper).  The vector never allocates on its own: it is
//! constructed over a block, and growing it means swapping the backing
//! block for a larger one (`refill`).
//!
//! The capacity is the number of block slots the backing block can hold.

use vstd::prelude::*;
use crate::block::Block;

verus! {

/// The size of one block slot, in bytes: two machine words.
pub const SIZE_OF_BLOCK: usize = 16;

/// The alignment of a block slot, in bytes: one machine word.
pub const ALIGN_OF_BLOCK: usize = 8;

/// A low-level vector of blocks over explicit backing storage.
pub struct PoolVec {
    /// The elements of the vector.
    pub items: Vec<Block>,
    /// The block that backs the storage of the vector.
    pub backing: Block,
}

impl PoolVec {
    /// The number of slots the backing block can hold.
    pub open spec fn spec_cap(&self) -> int {
        self.backing.size as int / SIZE_OF_BLOCK as int
    }

    /// The vector fits in its backing block.
    pub open spec fn wf(&self) -> bool {
        &&& self.items.len() <= self.spec_cap()
        &&& self.backing.wf()
    }

    /// Create a vector over a backing block.
    ///
    /// The initial length is zero: no slot of a fresh backing block holds a
    /// meaningful element yet.
    pub fn from_raw_parts(block: Block, len: usize) -> (r: PoolVec)
        requires
            block.wf(),
            len == 0,
        ensures
            r.wf(),
            r.items@ =~= Seq::<Block>::empty(),
            r.backing == block,
            r.spec_cap() == block.size as int / SIZE_OF_BLOCK as int,
    {
        PoolVec { items: Vec::new(), backing: block }
    }

    /// Replace the backing block with a new one, and return the old.
    ///
    /// The elements are carried over to the new storage.  A block too small
    /// to cover the vector, or unaligned, is a programming bug and is
    /// excluded by contract.
    pub fn refill(&mut self, block: Block) -> (r: Block)
        requires
            old(self).wf(),
            block.wf(),
            old(self).items.len() <= block.size as int / SIZE_OF_BLOCK as int,
            block.addr() % ALIGN_OF_BLOCK as int == 0,
        ensures
            final(self).wf(),
            final(self).items@ == old(self).items@,
            final(self).backing == block,
            r == old(self).backing,
    {
        let old_backing = self.backing;
        self.backing = block;
        old_backing
    }

    /// The backing block itself.
    pub fn backing(&self) -> (r: Block)
        ensures
            r == self.backing,
    {
        self.backing
    }

    /// Get the capacity of this vector.
    pub fn capacity(&self) -> (r: usize)
        ensures
            r == self.spec_cap(),
    {
        self.backing.size / SIZE_OF_BLOCK
    }

    /// Get the length of this vector.
    pub fn len(&self) -> (r: usize)
        ensures
            r == self.items.len(),
    {
        self.items.len()
    }

    /// Read the element at index `i`.
    pub fn get(&self, i: usize) -> (r: Block)
        requires
            i < self.items.len(),
        ensures
            r == self.items[i as int],
    {
        self.items[i]
    }

    /// Overwrite the element at index `i`.
    pub fn set(&mut self, i: usize, value: Block)
        requires
            old(self).wf(),
            i < old(self).items.len(),
        ensures
            final(self).wf(),
            final(self).items@ == old(self).items@.update(i as int, value),
            final(self).backing == old(self).backing,
    {
        self.items[i] = value;
    }

    /// Push an element to the end of this vector.
    ///
    /// On success, return `Ok(())`.  On failure (not enough capacity),
    /// return `Err(())`.
    pub fn push(&mut self, elem: Block) -> (r: Result<(), ()>)
        requires
            old(self).wf(),
        ensures
            final(self).wf(),
            final(self).backing == old(self).backing,
            r is Ok <==> old(self).items.len() < old(self).spec_cap(),
            r is Ok ==> final(self).items@ == old(self).items@.push(elem),
            r is Err ==> final(self).items@ == old(self).items@,
    {
        if self.items.len() < self.backing.size / SIZE_OF_BLOCK {
            self.items.push(elem);
            Ok(())
        } else {
            Err(())
        }
    }

    /// Insert an element at index `i`, shifting the rest to the right.
    pub fn insert_at(&mut self, i: usize, elem: Block)
        requires
            old(self).wf(),
            i <= old(self).items.len(),
            old(self).items.len() < old(self).spec_cap(),
        ensures
            final(self).wf(),
            final(self).backing == old(self).backing,
            final(self).items@ == old(self).items@.insert(i as int, elem),
    {
        self.items.insert(i, elem);
    }

    /// Remove the element at index `i`, shifting the rest to the left.
    pub fn remove(&mut self, i: usize) -> (r: Block)
        requires
            old(self).wf(),
            i < old(self).items.len(),
        ensures
            final(self).wf(),
            final(self).backing == old(self).backing,
            r == old(self).items[i as int],
            final(self).items@ == old(self).items@.remove(i as int),
    {
        self.items.remove(i)
    }

    /// Pop an element from the end of the vector.
    ///
    /// If the vector is empty, `None` is returned.
    pub fn pop(&mut self) -> (r: Option<Block>)
        requires
            old(self).wf(),
        ensures
            final(self).wf(),
            final(self).backing == old(self).backing,
            old(self).items.len() == 0 ==> r is None && final(self).items@ == old(self).items@,
            old(self).items.len() > 0 ==> {
                &&& r == Some(old(self).items@.last())
                &&& final(self).items@ == old(self).items@.drop_last()
            },
    {
        let r = self.items.pop();
        proof {
            if old(self).items.len() > 0 {
                assert(self.items@ =~= old(self).items@.drop_last());
            }
        }
        r
    }

    /// Truncate this vector to `len` elements.
    ///
    /// A length out of bounds is a programming bug and is excluded by
    /// contract.
    pub fn truncate(&mut self, len: usize)
        requires
            old(self).wf(),
            len <= old(self).items.len(),
        ensures
            final(self).wf(),
            final(self).backing == old(self).backing,
            final(self).items@ == old(self).items@.subrange(0, len as int),
    {
        self.items.truncate(len);
    }
}

} // verus!
