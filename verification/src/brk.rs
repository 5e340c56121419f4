//! Break abstractions.
//!
//! This module provides safe abstractions over the program break: a cached
//! view of the data segment's end, growth by canonicalized increments, and
//! conditional release of memory back to the segment.

use vstd::prelude::*;
use crate::block::Block;
use crate::ptr::Pointer;
use crate::sys::Segment;
use crate::config;
use crate::bookkeeper::ADDR_CEILING;

verus! {

/// A cache of the break state.
///
/// To avoid asking the segment for information whenever needed, the
/// last-known break is cached; `None` means "ask on next use".
pub struct BrkState {
    /// The program break's end.
    pub current_brk: Option<usize>,
}

/// The holder of the break state.
///
/// In a threaded embedding this guards the process-wide break behind a
/// lock; here the owner of the `BrkLock` is the single writer.
pub struct BrkLock {
    /// The inner state.
    pub state: BrkState,
}

impl BrkLock {
    /// The cache, when set, agrees with the segment.
    pub open spec fn wf(&self, seg: &Segment) -> bool {
        self.state.current_brk matches Some(b) ==> b == seg.spec_end()
    }

    /// Create a break lock with a cold cache.
    pub fn new() -> (r: BrkLock)
        ensures
            r.state.current_brk is None,
    {
        BrkLock { state: BrkState { current_brk: None } }
    }

    /// Get the current program break, from the cache if it is warm.
    pub fn current_brk(&mut self, seg: &Segment) -> (r: usize)
        requires
            old(self).wf(seg),
            seg.wf(),
        ensures
            final(self).wf(seg),
            r == seg.spec_end(),
            final(self).state.current_brk == Some(r),
    {
        match self.state.current_brk {
            Some(cur) => cur,
            None => {
                let cur = seg.end();
                self.state.current_brk = Some(cur);
                cur
            }
        }
    }

    /// Extend (or shrink) the program break by `amount`, and return the
    /// old break.
    ///
    /// Succeeds if and only if the moved break stays inside the segment's
    /// bounds; on failure the segment is untouched, which is the failure
    /// signal of the underlying break contract.
    pub fn sbrk(&mut self, seg: &mut Segment, amount: isize) -> (r: Result<usize, ()>)
        requires
            old(self).wf(old(seg)),
            old(seg).wf(),
            old(seg).limit <= ADDR_CEILING,
        ensures
            final(seg).wf(),
            final(self).wf(final(seg)),
            final(seg).base == old(seg).base,
            final(seg).limit == old(seg).limit,
            r is Ok <==> old(seg).base <= old(seg).spec_end() + amount <= old(seg).limit,
            r matches Ok(b) ==> {
                &&& b == old(seg).spec_end()
                &&& final(seg).spec_end() == old(seg).spec_end() + amount
                &&& final(self).state.current_brk == Some(final(seg).spec_end() as usize)
                &&& forall|a: int|
                    old(seg).base <= a < old(seg).spec_end() && a < final(seg).spec_end()
                        ==> final(seg).spec_byte(a) == old(seg).spec_byte(a)
                &&& forall|a: int|
                    old(seg).spec_end() <= a < final(seg).spec_end() ==> final(seg).spec_byte(a)
                        == 0u8
            },
            r is Err ==> *final(seg) == *old(seg),
    {
        let old_brk: usize = self.current_brk(seg);
        // Calculate the new break from the cache, avoiding a wrap of the
        // address space.
        let expected: Option<usize> = if amount >= 0 {
            let inc = amount as usize;
            if inc <= usize::MAX - old_brk {
                Some(old_brk + inc)
            } else {
                None
            }
        } else if amount == isize::MIN {
            None
        } else {
            let dec = (-amount) as usize;
            if dec <= old_brk {
                Some(old_brk - dec)
            } else {
                None
            }
        };
        match expected {
            None => Err(()),
            Some(expected) => {
                let new_brk: usize = seg.set_break(expected);
                if new_brk == expected && seg.base <= expected && expected <= seg.limit {
                    // Update the break cache.
                    self.state.current_brk = Some(expected);
                    Ok(old_brk)
                } else {
                    // The break is unchanged on failure.
                    Err(())
                }
            }
        }
    }

    /// Safely release a block of memory back to the segment.
    ///
    /// Succeeds if and only if the block ends exactly at the current
    /// break; the break then moves down to the block's start.  Otherwise
    /// the block is returned so the caller can keep it in the pool.
    pub fn release(&mut self, seg: &mut Segment, block: Block) -> (r: Result<(), Block>)
        requires
            old(self).wf(old(seg)),
            old(seg).wf(),
            old(seg).limit <= ADDR_CEILING,
            block.size > 0,
            old(seg).base <= block.addr(),
            block.end() <= ADDR_CEILING,
            block.wf(),
        ensures
            final(seg).wf(),
            final(self).wf(final(seg)),
            final(seg).base == old(seg).base,
            final(seg).limit == old(seg).limit,
            r is Ok <==> block.end() == old(seg).spec_end(),
            r is Ok ==> {
                &&& final(seg).spec_end() == block.addr()
                &&& forall|a: int|
                    old(seg).base <= a < block.addr() ==> final(seg).spec_byte(a) == old(
                        seg,
                    ).spec_byte(a)
            },
            r matches Err(b) ==> b == block && *final(seg) == *old(seg),
    {
        let cur: usize = self.current_brk(seg);
        if cur == block.ptr.addr + block.size {
            // The block borders the break: give it back.
            let res = self.sbrk(seg, -(block.size() as isize));
            proof {
                assert(block.size <= ADDR_CEILING);
                assert(res is Ok);
            }
            Ok(())
        } else {
            Err(block)
        }
    }

    /// Acquire a canonical, aligned extent of fresh memory.
    ///
    /// The request is inflated by a tunable extra to amortize break moves.
    /// The first returned block is the aligner (the precursor that aligns
    /// the middle block), the second is the result of exactly `size`
    /// bytes, and the third is the excessive space; the caller keeps the
    /// aligner and the excessive space in the pool.
    ///
    /// Fails if and only if the inflated request does not fit below the
    /// segment's limit (or does not fit the address space at all): the
    /// out-of-memory condition.
    pub fn canonical_brk(&mut self, seg: &mut Segment, size: usize, align: usize) -> (r: Result<
        (Block, Block, Block),
        (),
    >)
        requires
            old(self).wf(old(seg)),
            old(seg).wf(),
            old(seg).limit <= ADDR_CEILING,
            size > 0,
            align >= 1,
        ensures
            final(seg).wf(),
            final(self).wf(final(seg)),
            final(seg).base == old(seg).base,
            final(seg).limit == old(seg).limit,
            r is Ok <==> (size + config::spec_extra_brk(size as int) + align <= usize::MAX
                && old(seg).spec_end() + size + config::spec_extra_brk(size as int) + align <= old(
                seg,
            ).limit),
            r matches Ok((aligner, res, excessive)) ==> {
                &&& final(seg).spec_end() == old(seg).spec_end() + size + config::spec_extra_brk(
                    size as int,
                ) + align
                &&& aligner.addr() == old(seg).spec_end()
                &&& aligner.end() == res.addr()
                &&& res.addr() % align as int == 0
                &&& res.size == size
                &&& res.end() == excessive.addr()
                &&& excessive.end() == final(seg).spec_end()
                &&& aligner.size < align
                &&& final(seg).spec_end() <= old(seg).limit
                &&& aligner.wf() && res.wf() && excessive.wf()
                &&& forall|a: int|
                    old(seg).base <= a < old(seg).spec_end() ==> final(seg).spec_byte(a) == old(
                        seg,
                    ).spec_byte(a)
            },
            r is Err ==> *final(seg) == *old(seg),
    {
        // Calculate the canonical size: extra space is allocated to limit
        // the number of break moves.
        let extra: usize = config::extra_brk(size);
        if size > usize::MAX - extra || size + extra > usize::MAX - align {
            return Err(());
        }
        let brk_size: usize = size + extra + align;
        if brk_size > seg.limit {
            return Err(());
        }
        let res = self.sbrk(seg, brk_size as isize);
        proof {
            assert(brk_size <= ADDR_CEILING);
        }
        match res {
            Err(()) => Err(()),
            Ok(old_brk) => {
                let mut fresh = Block::from_raw_parts(Pointer::new(old_brk), brk_size);
                let (alignment_block, rest) = match fresh.align(align) {
                    Some(parts) => parts,
                    None => unreached(),
                };
                // Split the block to leave the excessive space.
                let (res_block, excessive) = rest.split(size);
                Ok((alignment_block, res_block, excessive))
            }
        }
    }
}

} // verus!
