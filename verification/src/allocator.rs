//! The allocators.
//!
//! Two concrete allocators share the bookkeeper: the global allocator draws
//! fresh memory from the program-break arbiter over its data segment, and a
//! local allocator draws from (and drains back into) the global one.
//!
//! Every allocator keeps, besides the pool invariants of the bookkeeper:
//!
//! - the pool lies inside the data segment (stated through two guard
//!   blocks, one below the segment base and one above the break);
//! - the pool's own backing storage is a live allocation, disjoint from
//!   every block of the pool.

use vstd::prelude::*;
use crate::block::Block;
use crate::ptr::Pointer;
use crate::pool::{PoolVec, SIZE_OF_BLOCK, ALIGN_OF_BLOCK};
use crate::bookkeeper::{Bookkeeper, EXTRA_ELEMENTS, ADDR_CEILING, disjoint_from, disjoint_blocks};
use crate::brk::BrkLock;
use crate::sys::Segment;
use crate::config;

verus! {

/// The initial size of an allocator's pool storage, in bytes: room for
/// eight times the required slack.
pub const INITIAL_POOL_BYTES: usize = 8 * EXTRA_ELEMENTS * SIZE_OF_BLOCK;

/// A virtual block covering all addresses below `base`.
pub open spec fn below_guard(base: int) -> Block {
    Block { ptr: Pointer { addr: 0 }, size: base as usize }
}

/// A virtual block covering all addresses from `end` to the ceiling.
pub open spec fn above_guard(end: int) -> Block {
    Block { ptr: Pointer { addr: end as usize }, size: (ADDR_CEILING - end) as usize }
}

/// Every non-empty block of `s` lies inside `[base, end)`.
pub open spec fn pool_in_segment(s: Seq<Block>, base: int, end: int) -> bool {
    &&& disjoint_from(s, below_guard(base))
    &&& disjoint_from(s, above_guard(end))
}

/// The number of bytes a storage reservation requests for a pool of `len`
/// blocks that must absorb `need` more insertions.
pub open spec fn spec_storage_bytes(len: int, need: int) -> int {
    (len + need + EXTRA_ELEMENTS + config::spec_extra_fresh(len + need)) * SIZE_OF_BLOCK
}

/// The canonical extent for a storage reservation fits below the limit.
pub open spec fn storage_fits(end: int, limit: int, len: int, need: int) -> bool {
    let sb = spec_storage_bytes(len, need);
    &&& sb <= usize::MAX
    &&& sb + config::spec_extra_brk(sb) + ALIGN_OF_BLOCK <= usize::MAX
    &&& end + sb + config::spec_extra_brk(sb) + ALIGN_OF_BLOCK <= limit
}

/// The out-of-memory face of an allocation failure: the canonical extent
/// for the request cannot fit below the limit, or the allocator was late
/// in its storage reservation cycle so the metacircular reservation may
/// have been the failing acquisition.
pub open spec fn oom_for(g: GlobalAllocator, size: int, align: int) -> bool {
    ||| size + config::spec_extra_brk(size) + align > usize::MAX as int
    ||| g.seg_end() + size + config::spec_extra_brk(size) + align > g.seg.limit
    ||| g.inner.slack() < 2 + EXTRA_ELEMENTS as int
}

/// A non-empty block of a segment-confined pool ends below the break.
pub proof fn lemma_pool_below(s: Seq<Block>, base: int, end: int, i: int)
    requires
        crate::bookkeeper::wf_blocks(s),
        pool_in_segment(s, base, end),
        1 <= base <= usize::MAX,
        0 <= end <= ADDR_CEILING,
        0 <= i < s.len(),
        s[i].size > 0,
    ensures
        base <= s[i].addr(),
        s[i].end() <= end,
{
    assert(disjoint_blocks(below_guard(base), s[i]));
    assert(disjoint_blocks(above_guard(end), s[i]));
    assert(s[i].end() <= ADDR_CEILING);
}

/// A live block of an allocator lies inside its segment.
pub proof fn lemma_pool_below_block(g: &GlobalAllocator, b: Block)
    requires
        g.wf(),
        g.valid_block(b),
    ensures
        b.end() <= g.seg_end(),
        g.seg.base <= b.addr(),
{
}

/// Global break-based allocator.
///
/// This extends the data segment whenever new memory is needed.
pub struct GlobalAllocator {
    /// The inner bookkeeper.
    pub inner: Bookkeeper,
    /// The break arbiter.
    pub brk: BrkLock,
    /// The data segment the allocator draws from.
    pub seg: Segment,
}

impl GlobalAllocator {
    /// The blocks of the pool.
    pub open spec fn blocks(&self) -> Seq<Block> {
        self.inner.blocks()
    }

    /// The current break.
    pub open spec fn seg_end(&self) -> int {
        self.seg.spec_end()
    }

    /// The backing block of the pool storage is a live allocation inside
    /// the segment, disjoint from the pool.
    pub open spec fn backing_ok(&self) -> bool {
        &&& self.inner.pool.backing.size > 0
        &&& self.seg.base <= self.inner.pool.backing.addr()
        &&& self.inner.pool.backing.end() <= self.seg_end()
        &&& disjoint_from(self.blocks(), self.inner.pool.backing)
    }

    /// The invariant that holds even in the middle of a reservation.
    pub open spec fn base_wf(&self) -> bool {
        &&& self.inner.inv()
        &&& self.seg.wf()
        &&& self.seg.limit < ADDR_CEILING
        &&& self.brk.wf(&self.seg)
        &&& pool_in_segment(self.blocks(), self.seg.base as int, self.seg_end())
        &&& self.backing_ok()
    }

    /// The public-boundary invariant.
    pub open spec fn wf(&self) -> bool {
        &&& self.base_wf()
        &&& !self.inner.reserving
        &&& self.inner.slack() >= EXTRA_ELEMENTS as int
    }

    /// A block that a caller may hand to `free`: a live allocation inside
    /// the segment that overlaps neither the pool nor its storage.
    pub open spec fn valid_block(&self, b: Block) -> bool {
        &&& self.seg.base <= b.addr()
        &&& b.end() <= self.seg_end()
        &&& disjoint_from(self.blocks(), b)
        &&& disjoint_blocks(b, self.inner.pool.backing)
    }

    /// Initialize a global allocator over the segment `[base, base)`
    /// growable up to `limit`.
    ///
    /// The initial extent acquired from the break becomes the pool's own
    /// storage.  Fails if and only if that canonical extent does not fit
    /// below the limit.
    pub fn init(base: usize, limit: usize) -> (r: Result<GlobalAllocator, ()>)
        requires
            1 <= base <= limit,
            limit < ADDR_CEILING,
        ensures
            r is Ok <==> base + INITIAL_POOL_BYTES + config::spec_extra_brk(
                INITIAL_POOL_BYTES as int,
            ) + ALIGN_OF_BLOCK <= limit,
            r matches Ok(g) ==> {
                &&& g.wf()
                &&& g.seg.base == base
                &&& g.seg.limit == limit
                &&& g.seg_end() <= limit
            },
    {
        let mut seg = Segment::new(base, limit);
        let mut brk = BrkLock::new();
        match brk.canonical_brk(&mut seg, INITIAL_POOL_BYTES, ALIGN_OF_BLOCK) {
            Err(()) => Err(()),
            Ok((aligner, initial_segment, excessive)) => {
                let vec = PoolVec::from_raw_parts(initial_segment, 0);
                let mut inner = Bookkeeper::new(vec);
                inner.push_block(aligner);
                inner.push_block(excessive);
                let g = GlobalAllocator { inner, brk, seg };
                proof {
                    assert(g.wf());
                }
                Ok(g)
            }
        }
    }

    /// Allocate fresh space directly from the break.
    ///
    /// The canonical extent is acquired; its aligner and excessive pieces
    /// go straight into the pool and the exactly-sized middle is returned.
    /// Fails if and only if the extent does not fit below the limit: the
    /// out-of-memory condition.
    pub fn alloc_fresh(&mut self, size: usize, align: usize) -> (r: Result<Block, ()>)
        requires
            old(self).base_wf(),
            old(self).inner.slack() >= 2,
            size >= 1,
            align >= 1,
        ensures
            final(self).base_wf(),
            final(self).inner.reserving == old(self).inner.reserving,
            final(self).inner.pool.backing == old(self).inner.pool.backing,
            final(self).inner.slack() >= old(self).inner.slack() - 2,
            final(self).seg.base == old(self).seg.base,
            final(self).seg.limit == old(self).seg.limit,
            final(self).seg_end() >= old(self).seg_end(),
            forall|a: int|
                old(self).seg.base <= a < old(self).seg_end() ==> final(self).seg.spec_byte(a)
                    == old(self).seg.spec_byte(a),
            r is Ok <==> (size + config::spec_extra_brk(size as int) + align <= usize::MAX && old(
                self,
            ).seg_end() + size + config::spec_extra_brk(size as int) + align <= old(self).seg.limit),
            r matches Ok(res) ==> {
                &&& res.size == size
                &&& res.addr() % align as int == 0
                &&& old(self).seg_end() <= res.addr()
                &&& res.end() <= final(self).seg_end()
                &&& res.wf()
                &&& disjoint_from(final(self).blocks(), res)
                &&& disjoint_blocks(res, final(self).inner.pool.backing)
                &&& final(self).inner.total_bytes == old(self).inner.total_bytes + (
                final(self).seg_end() - old(self).seg_end()) - size
            },
            r is Err ==> {
                &&& final(self).blocks() == old(self).blocks()
                &&& final(self).inner.total_bytes == old(self).inner.total_bytes
                &&& final(self).seg_end() == old(self).seg_end()
            },
            forall|c: Block|
                disjoint_from(old(self).blocks(), c) && c.size > 0 && c.end() <= old(self).seg_end()
                    ==> #[trigger] disjoint_from(final(self).blocks(), c) && (r matches Ok(res)
                    ==> disjoint_blocks(c, res)),
    {
        let ghost s = self.blocks();
        let ghost old_end = self.seg_end();
        match self.brk.canonical_brk(&mut self.seg, size, align) {
            Err(()) => Err(()),
            Ok((aligner, res, excessive)) => {
                proof {
                    if s.len() > 0 {
                        let t = s.len() - 1;
                        assert(s.last() == s[t]);
                        lemma_pool_below(s, self.seg.base as int, old_end, t);
                    }
                }
                self.inner.push_block(aligner);
                proof {
                    // The top of the pool now ends at or below the
                    // returned block's start, so the excessive piece can
                    // be pushed as well.
                    if self.blocks().len() > 0 && excessive.size > 0 {
                        if aligner.size > 0 {
                            assert(self.blocks().last().end() == aligner.end());
                        } else {
                            assert(self.blocks() == s);
                        }
                    }
                }
                self.inner.push_block(excessive);
                proof {
                    let p = self.blocks();
                    assert(pool_in_segment(p, self.seg.base as int, self.seg_end())) by {
                        assert(disjoint_blocks(below_guard(self.seg.base as int), aligner));
                        assert(disjoint_blocks(below_guard(self.seg.base as int), excessive));
                        assert(disjoint_blocks(above_guard(self.seg_end()), aligner));
                        assert(disjoint_blocks(above_guard(self.seg_end()), excessive));
                        assert(disjoint_from(s, above_guard(self.seg_end()))) by {
                            assert forall|i: int|
                                0 <= i < s.len() && (#[trigger] s[i]).size > 0 implies disjoint_blocks(
                                above_guard(self.seg_end()),
                                s[i],
                            ) by {
                                lemma_pool_below(s, self.seg.base as int, old_end, i);
                            }
                        }
                    }
                    assert(disjoint_from(p, res)) by {
                        assert(disjoint_blocks(res, aligner));
                        assert(disjoint_blocks(res, excessive));
                        assert forall|i: int|
                            0 <= i < s.len() && (#[trigger] s[i]).size > 0 implies disjoint_blocks(
                            res,
                            s[i],
                        ) by {
                            lemma_pool_below(s, self.seg.base as int, old_end, i);
                        }
                    }
                    assert(disjoint_from(p, self.inner.pool.backing)) by {
                        assert(disjoint_blocks(self.inner.pool.backing, aligner));
                        assert(disjoint_blocks(self.inner.pool.backing, excessive));
                    }
                }
                Ok(res)
            }
        }
    }

    /// Reserve pool storage: guarantee that `need` insertions plus the
    /// required slack fit without touching the storage mid-operation.
    ///
    /// If the storage is too small it is refilled from a fresh canonical
    /// extent, and the old storage block is freed into the pool.  Fails
    /// only if that extent cannot be acquired (out of memory); the pool is
    /// then left as it was.
    #[verifier::spinoff_prover]
    pub fn reserve(&mut self, need: usize) -> (r: Result<(), ()>)
        requires
            old(self).wf(),
            1 <= need <= EXTRA_ELEMENTS,
        ensures
            final(self).wf(),
            final(self).seg.base == old(self).seg.base,
            final(self).seg.limit == old(self).seg.limit,
            final(self).seg_end() >= old(self).seg_end(),
            forall|a: int|
                old(self).seg.base <= a < old(self).seg_end() ==> final(self).seg.spec_byte(a)
                    == old(self).seg.spec_byte(a),
            r is Ok ==> final(self).inner.slack() >= need + EXTRA_ELEMENTS,
            r is Ok <==> (old(self).inner.slack() >= need + EXTRA_ELEMENTS || storage_fits(
                old(self).seg_end(),
                old(self).seg.limit as int,
                old(self).blocks().len() as int,
                need as int,
            )),
            r is Err ==> {
                &&& final(self).blocks() == old(self).blocks()
                &&& final(self).inner.total_bytes == old(self).inner.total_bytes
                &&& final(self).seg_end() == old(self).seg_end()
                &&& final(self).inner.pool.backing == old(self).inner.pool.backing
            },
            old(self).inner.slack() >= need + EXTRA_ELEMENTS ==> r is Ok
                && final(self).blocks() == old(self).blocks() && final(self).inner.total_bytes
                == old(self).inner.total_bytes && final(self).seg_end() == old(self).seg_end()
                && final(self).inner.pool.backing == old(self).inner.pool.backing,
            forall|c: Block|
                disjoint_from(old(self).blocks(), c) && c.size > 0 && c.end() <= old(self).seg_end()
                    && disjoint_blocks(c, old(self).inner.pool.backing)
                    ==> #[trigger] disjoint_from(final(self).blocks(), c) && disjoint_blocks(
                    c,
                    final(self).inner.pool.backing,
                ),
    {
        let len: usize = self.inner.len();
        let cap: usize = self.inner.pool.capacity();
        if cap - len >= need + EXTRA_ELEMENTS {
            return Ok(());
        }
        // Reserve a little extra to amortize the storage reallocation.
        let min_cap: usize = len + need;
        let new_cap: usize = min_cap + EXTRA_ELEMENTS + config::extra_fresh(min_cap);
        if new_cap > usize::MAX / SIZE_OF_BLOCK {
            return Err(());
        }
        // Make sure no unbounded metacircular reallocation happens.
        self.inner.reserving = true;
        let fresh = match self.alloc_fresh(new_cap * SIZE_OF_BLOCK, ALIGN_OF_BLOCK) {
            Err(()) => {
                self.inner.reserving = false;
                return Err(());
            }
            Ok(fresh) => fresh,
        };
        self.inner.reserving = false;
        let old_buf = self.inner.pool.refill(fresh);
        proof {
            assert(disjoint_from(self.blocks(), old_buf));
            assert(old_buf.end() <= ADDR_CEILING);
        }
        self.inner.free(old_buf);
        proof {
            let p = self.blocks();
            assert(pool_in_segment(p, self.seg.base as int, self.seg_end()));
            assert(disjoint_from(p, self.inner.pool.backing));
        }
        Ok(())
    }

    /// Allocate a chunk of memory: `size` bytes aligned to `align`.
    ///
    /// A fitting block of the pool is carved first; when none fits, a
    /// fresh extent is drawn from the break.  Fails only when fresh memory
    /// cannot be acquired: the out-of-memory condition, which the caller
    /// surfaces to the out-of-memory handler.
    #[verifier::spinoff_prover]
    #[verifier::rlimit(100)]
    pub fn allocate(&mut self, size: usize, align: usize) -> (r: Result<Block, ()>)
        requires
            old(self).wf(),
            size >= 1,
            align >= 1,
        ensures
            final(self).wf(),
            final(self).seg.base == old(self).seg.base,
            final(self).seg.limit == old(self).seg.limit,
            final(self).seg_end() >= old(self).seg_end(),
            forall|a: int|
                old(self).seg.base <= a < old(self).seg_end() ==> final(self).seg.spec_byte(a)
                    == old(self).seg.spec_byte(a),
            r matches Ok(res) ==> {
                &&& res.size == size
                &&& res.addr() % align as int == 0
                &&& old(self).seg.base <= res.addr()
                &&& res.end() <= final(self).seg_end()
                &&& res.wf()
                &&& final(self).valid_block(res)
            },
            r is Err ==> {
                ||| size + config::spec_extra_brk(size as int) + align > usize::MAX
                ||| final(self).seg_end() + size + config::spec_extra_brk(size as int) + align
                    > final(self).seg.limit
                ||| (final(self).inner.slack() < 2 + EXTRA_ELEMENTS as int && !storage_fits(
                    final(self).seg_end(),
                    final(self).seg.limit as int,
                    final(self).blocks().len() as int,
                    2,
                ))
            },
            (old(self).inner.slack() >= 2 + EXTRA_ELEMENTS && (exists|i: int|
                0 <= i < old(self).blocks().len() && crate::bookkeeper::fits(
                    #[trigger] old(self).blocks()[i],
                    size as int,
                    align as int,
                ))) ==> {
                &&& r is Ok
                &&& final(self).inner.total_bytes == old(self).inner.total_bytes - size
                &&& old(self).inner.total_bytes >= size
                &&& final(self).seg_end() == old(self).seg_end()
            },
            r matches Ok(res) ==> old(self).inner.slack() >= 2 + EXTRA_ELEMENTS ==> {
                ||| exists|i: int|
                    {
                        &&& 0 <= i < old(self).blocks().len()
                        &&& crate::bookkeeper::fits(
                            #[trigger] old(self).blocks()[i],
                            size as int,
                            align as int,
                        )
                        &&& (forall|k: int|
                            0 <= k < i ==> !crate::bookkeeper::fits(
                                #[trigger] old(self).blocks()[k],
                                size as int,
                                align as int,
                            ))
                        &&& res.addr() == old(self).blocks()[i].addr() + crate::block::align_pad(
                            old(self).blocks()[i].addr(),
                            align as int,
                        )
                    }
                ||| ((forall|i: int|
                    0 <= i < old(self).blocks().len() ==> !crate::bookkeeper::fits(
                        #[trigger] old(self).blocks()[i],
                        size as int,
                        align as int,
                    )) && old(self).seg_end() <= res.addr())
            },
            forall|c: Block|
                disjoint_from(old(self).blocks(), c) && c.size > 0 && c.end() <= old(self).seg_end()
                    && disjoint_blocks(c, old(self).inner.pool.backing)
                    ==> #[trigger] disjoint_from(final(self).blocks(), c) && disjoint_blocks(
                    c,
                    final(self).inner.pool.backing,
                ),
            r matches Ok(res) ==> forall|c: Block|
                disjoint_from(old(self).blocks(), c) && c.size > 0 && c.end() <= old(self).seg_end()
                    && disjoint_blocks(c, old(self).inner.pool.backing)
                    ==> #[trigger] disjoint_blocks(c, res),
    {
        let ghost s0 = self.blocks();
        let out: Result<Block, ()>;
        let ghost mut s1: Seq<Block> = s0;
        let ghost mut end1: int = self.seg_end();
        let ghost mut backing1: Block = self.inner.pool.backing;
        let ghost mut kind: int = 0;
        let ghost mut pool_slot: Block = self.inner.pool.backing;
        match self.reserve(2) {
            Err(()) => {
                out = Err(());
            }
            Ok(()) => {
                proof {
                    s1 = self.blocks();
                    end1 = self.seg_end();
                    backing1 = self.inner.pool.backing;
                }
                match self.inner.alloc_pool(size, align) {
                    Some(res) => {
                        proof {
                            kind = 1;
                            let i = choose|i: int|
                                {
                                    &&& 0 <= i < s1.len()
                                    &&& crate::bookkeeper::fits(#[trigger] s1[i], size as int, align as int)
                                    &&& (forall|k: int|
                                        0 <= k < i ==> !crate::bookkeeper::fits(
                                            #[trigger] s1[k],
                                            size as int,
                                            align as int,
                                        ))
                                    &&& res.addr() == s1[i].addr() + crate::block::align_pad(
                                        s1[i].addr(),
                                        align as int,
                                    )
                                };
                            pool_slot = s1[i];
                            lemma_pool_below(s1, self.seg.base as int, end1, i);
                            assert(s1[i].addr() <= res.addr() && res.end() <= s1[i].end());
                            assert(disjoint_blocks(res, self.inner.pool.backing)) by {
                                assert(disjoint_blocks(self.inner.pool.backing, s1[i]));
                            }
                            assert(pool_in_segment(
                                self.blocks(),
                                self.seg.base as int,
                                self.seg_end(),
                            ));
                        }
                        out = Ok(res);
                    }
                    None => {
                        match self.alloc_fresh(size, align) {
                            Err(()) => {
                                proof {
                                    kind = 2;
                                }
                                out = Err(());
                            }
                            Ok(res) => {
                                proof {
                                    kind = 3;
                                    assert(self.seg.base <= res.addr());
                                }
                                out = Ok(res);
                            }
                        }
                    }
                }
            }
        }
        proof {
            assert forall|c: Block|
                disjoint_from(s0, c) && c.size > 0 && c.end() <= old(self).seg_end()
                    && disjoint_blocks(c, old(self).inner.pool.backing) implies #[trigger] disjoint_from(
                self.blocks(),
                c,
            ) && disjoint_blocks(c, self.inner.pool.backing) && (out matches Ok(res)
                ==> disjoint_blocks(c, res)) by {
                if kind == 0 {
                    assert(self.blocks() == s0);
                } else {
                    assert(disjoint_from(s1, c));
                    assert(disjoint_blocks(c, backing1));
                    if kind == 1 {
                        assert(pool_slot.size > 0);
                        assert(disjoint_blocks(c, pool_slot));
                        assert(disjoint_from(self.blocks(), c));
                    } else if kind == 2 {
                    } else {
                        assert(c.end() <= end1);
                        assert(disjoint_from(self.blocks(), c));
                    }
                }
            }
            match out {
                Ok(res) => {
                    assert forall|c: Block|
                        disjoint_from(s0, c) && c.size > 0 && c.end() <= old(self).seg_end()
                            && disjoint_blocks(c, old(self).inner.pool.backing) implies #[trigger] disjoint_blocks(
                        c,
                        res,
                    ) by {
                        assert(disjoint_from(self.blocks(), c));
                    }
                }
                Err(()) => {
                }
            }
            if old(self).inner.slack() >= 2 + EXTRA_ELEMENTS {
                // The up-front reservation was a no-op, so the first-fit
                // scan ran over the caller's pool.
                assert(s1 == s0);
                if kind == 2 || kind == 3 {
                    assert(forall|i: int|
                        0 <= i < s1.len() ==> !crate::bookkeeper::fits(
                            #[trigger] s1[i],
                            size as int,
                            align as int,
                        ));
                }
                if kind == 3 {
                    assert(end1 == old(self).seg_end());
                }
            }
        }
        out
    }


    /// Called right after new memory has been added to the pool: trim the
    /// pool by releasing its top block back to the system when the pool
    /// has grown past the memtrim limit and the block is worth it.
    #[verifier::spinoff_prover]
    #[verifier::rlimit(100)]
    pub fn on_new_memory(&mut self)
        requires
            old(self).wf(),
        ensures
            final(self).wf(),
            final(self).seg.base == old(self).seg.base,
            final(self).seg.limit == old(self).seg.limit,
            final(self).seg_end() <= old(self).seg_end(),
            final(self).inner.pool.backing == old(self).inner.pool.backing,
            forall|a: int|
                old(self).seg.base <= a < final(self).seg_end() ==> final(self).seg.spec_byte(a)
                    == old(self).seg.spec_byte(a),
            final(self).inner.total_bytes + (old(self).seg_end() - final(self).seg_end()) == old(
                self,
            ).inner.total_bytes,
            old(self).inner.total_bytes <= config::OS_MEMTRIM_LIMIT ==> final(self).blocks() == old(
                self,
            ).blocks() && final(self).seg_end() == old(self).seg_end(),
            (old(self).inner.total_bytes > config::OS_MEMTRIM_LIMIT && old(self).blocks().len() > 0
                && old(self).blocks().last().size >= config::OS_MEMTRIM_WORTHY
                && old(self).blocks().last().end() == old(self).seg_end()) ==> final(self).seg_end()
                == old(self).blocks().last().addr() && final(self).inner.total_bytes == old(
                self,
            ).inner.total_bytes - old(self).blocks().last().size,
            forall|c: Block|
                disjoint_from(old(self).blocks(), c) && c.size > 0 && c.end() <= old(self).seg_end()
                    && disjoint_blocks(c, old(self).inner.pool.backing)
                    ==> #[trigger] disjoint_from(final(self).blocks(), c) && disjoint_blocks(
                    c,
                    final(self).inner.pool.backing,
                ) && c.end() <= final(self).seg_end(),
    {
        if self.inner.total_bytes() > config::OS_MEMTRIM_LIMIT {
            proof {
                if self.blocks().len() == 0 {
                    assert(self.inner.total_bytes == 0);
                }
            }
            // Pop the top block and check if the memtrim is worth it.
            let block = match self.inner.pop() {
                Some(b) => b,
                None => unreached(),
            };
            let ghost s1 = self.blocks();
            proof {
                lemma_pool_below(
                    old(self).blocks(),
                    self.seg.base as int,
                    self.seg_end(),
                    old(self).blocks().len() - 1,
                );
            }
            if block.size() >= config::OS_MEMTRIM_WORTHY {
                // Release the block to the system; on failure, put it
                // back.
                match self.brk.release(&mut self.seg, block) {
                    Ok(()) => {
                        proof {
                            // Everything left in the pool ends below the
                            // released block, hence below the new break.
                            assert forall|i: int|
                                0 <= i < s1.len() && (#[trigger] s1[i]).size > 0 implies s1[i].end()
                                <= block.addr() by {
                                assert(disjoint_blocks(block, s1[i]));
                                lemma_pool_below(
                                    old(self).blocks(),
                                    self.seg.base as int,
                                    old(self).seg_end(),
                                    i,
                                );
                            }
                            assert(pool_in_segment(s1, self.seg.base as int, self.seg_end()));
                            assert(disjoint_blocks(block, self.inner.pool.backing));
                        }
                    }
                    Err(block) => {
                        proof {
                            if s1.len() > 0 {
                                let t = s1.len() - 1;
                                assert(s1.last() == s1[t]);
                                assert(disjoint_blocks(block, s1[t]));
                                lemma_pool_below(
                                    old(self).blocks(),
                                    self.seg.base as int,
                                    self.seg_end(),
                                    t,
                                );
                            }
                        }
                        self.inner.push_block(block);
                        proof {
                            assert(pool_in_segment(
                                self.blocks(),
                                self.seg.base as int,
                                self.seg_end(),
                            )) by {
                                assert(disjoint_blocks(
                                    below_guard(self.seg.base as int),
                                    block,
                                ));
                                assert(disjoint_blocks(above_guard(self.seg_end()), block));
                            }
                            assert(disjoint_blocks(self.inner.pool.backing, block));
                        }
                    }
                }
            } else {
                proof {
                    if s1.len() > 0 {
                        let t = s1.len() - 1;
                        assert(s1.last() == s1[t]);
                        assert(disjoint_blocks(block, s1[t]));
                        lemma_pool_below(
                            old(self).blocks(),
                            self.seg.base as int,
                            self.seg_end(),
                            t,
                        );
                    }
                }
                self.inner.push_block(block);
                proof {
                    assert(pool_in_segment(self.blocks(), self.seg.base as int, self.seg_end()))
                        by {
                        assert(disjoint_blocks(below_guard(self.seg.base as int), block));
                        assert(disjoint_blocks(above_guard(self.seg_end()), block));
                    }
                    assert(disjoint_blocks(self.inner.pool.backing, block));
                }
            }
        }
    }

    /// Free a block back into the pool.
    ///
    /// The block must be a live allocation of this allocator; freeing
    /// anything else is an invalid free and is excluded by contract.
    #[verifier::spinoff_prover]
    #[verifier::rlimit(100)]
    pub fn free(&mut self, block: Block)
        requires
            old(self).wf(),
            block.size > 0 ==> old(self).valid_block(block),
            block.wf(),
        ensures
            final(self).wf(),
            final(self).seg.base == old(self).seg.base,
            final(self).seg.limit == old(self).seg.limit,
            forall|a: int|
                old(self).seg.base <= a < final(self).seg_end() && a < old(self).seg_end()
                    ==> final(self).seg.spec_byte(a) == old(self).seg.spec_byte(a),
            (old(self).inner.slack() >= 1 + EXTRA_ELEMENTS && old(self).inner.total_bytes
                + block.size <= config::OS_MEMTRIM_LIMIT) ==> final(self).inner.total_bytes == old(
                self,
            ).inner.total_bytes + block.size && final(self).seg_end() == old(self).seg_end()
                && final(self).inner.slack() >= old(self).inner.slack() - 1,
            forall|c: Block|
                disjoint_from(old(self).blocks(), c) && c.size > 0 && c.end() <= old(self).seg_end()
                    && disjoint_blocks(c, old(self).inner.pool.backing) && disjoint_blocks(c, block)
                    ==> #[trigger] disjoint_from(final(self).blocks(), c) && disjoint_blocks(
                    c,
                    final(self).inner.pool.backing,
                ) && c.end() <= final(self).seg_end(),
    {
        if block.is_empty() {
            proof {
                assert forall|c: Block|
                    disjoint_from(old(self).blocks(), c) && c.size > 0 && c.end() <= old(
                    self,
                ).seg_end() && disjoint_blocks(c, old(self).inner.pool.backing) && disjoint_blocks(
                    c,
                    block,
                ) implies #[trigger] disjoint_from(self.blocks(), c) && disjoint_blocks(
                    c,
                    self.inner.pool.backing,
                ) && c.end() <= self.seg_end() by {
                }
            }
            return ;
        }
        let ghost s0 = self.blocks();
        match self.reserve(1) {
            Err(()) => {
                // Out of memory while growing the pool storage: the block
                // cannot be recorded without breaking the storage slack,
                // so it is abandoned, much as an out-of-memory abort would
                // abandon the whole process.
                proof {
                    assert forall|c: Block|
                        disjoint_from(old(self).blocks(), c) && c.size > 0 && c.end() <= old(
                        self,
                    ).seg_end() && disjoint_blocks(c, old(self).inner.pool.backing)
                        && disjoint_blocks(c, block) implies #[trigger] disjoint_from(
                        self.blocks(),
                        c,
                    ) && disjoint_blocks(c, self.inner.pool.backing) && c.end()
                        <= self.seg_end() by {
                    }
                }
                return ;
            }
            Ok(()) => {
                let ghost end1 = self.seg_end();
                proof {
                    assert(block.end() <= ADDR_CEILING);
                    assert(disjoint_from(self.blocks(), block));
                    assert(disjoint_blocks(block, self.inner.pool.backing));
                }
                let ghost s1 = self.blocks();
                let ghost backing1 = self.inner.pool.backing;
                self.inner.free(block);
                proof {
                    self.lemma_guards_after_free(s1, block);
                }
                let ghost s2 = self.blocks();
                self.on_new_memory();
                proof {
                    assert forall|c: Block|
                        disjoint_from(s0, c) && c.size > 0 && c.end() <= old(self).seg_end()
                            && disjoint_blocks(c, old(self).inner.pool.backing) && disjoint_blocks(
                            c,
                            block,
                        ) implies #[trigger] disjoint_from(self.blocks(), c) && disjoint_blocks(
                        c,
                        self.inner.pool.backing,
                    ) && c.end() <= self.seg_end() by {
                        assert(disjoint_from(s1, c));
                        assert(disjoint_blocks(c, backing1));
                        assert(disjoint_from(s2, c));
                    }
                }
            }
        }
    }

    /// Reallocate a block in place.
    ///
    /// On success the block keeps its address at the new size; shrinking
    /// succeeds whenever the pool storage can keep its slack.  On failure
    /// the pool, the block and every byte of the segment are untouched.
    #[verifier::spinoff_prover]
    #[verifier::rlimit(100)]
    pub fn realloc_inplace(&mut self, block: Block, new_size: usize) -> (r: Result<Block, Block>)
        requires
            old(self).wf(),
            old(self).valid_block(block),
            block.size > 0,
        ensures
            final(self).wf(),
            final(self).seg.base == old(self).seg.base,
            final(self).seg.limit == old(self).seg.limit,
            final(self).seg_end() >= old(self).seg_end(),
            forall|a: int|
                old(self).seg.base <= a < old(self).seg_end() ==> final(self).seg.spec_byte(a)
                    == old(self).seg.spec_byte(a),
            old(self).inner.slack() >= 1 + EXTRA_ELEMENTS ==> (r is Ok <==> (new_size <= block.size
                || crate::bookkeeper::has_grow_neighbor(
                old(self).blocks(),
                block,
                new_size as int,
            ))),
            r matches Ok(b) ==> {
                &&& b.addr() == block.addr()
                &&& b.size == new_size
                &&& b.wf()
                &&& (b.size > 0 ==> final(self).valid_block(b))
            },
            r matches Err(b) ==> b == block && final(self).valid_block(block),
            forall|c: Block|
                disjoint_from(old(self).blocks(), c) && c.size > 0 && c.end() <= old(self).seg_end()
                    && disjoint_blocks(c, old(self).inner.pool.backing) && disjoint_blocks(c, block)
                    ==> #[trigger] disjoint_from(final(self).blocks(), c) && disjoint_blocks(
                    c,
                    final(self).inner.pool.backing,
                ),
            r matches Ok(b) ==> forall|c: Block|
                disjoint_from(old(self).blocks(), c) && c.size > 0 && c.end() <= old(self).seg_end()
                    && disjoint_blocks(c, old(self).inner.pool.backing) && disjoint_blocks(c, block)
                    ==> #[trigger] disjoint_blocks(c, b),
    {
        let ghost s0 = self.blocks();
        let out: Result<Block, Block>;
        let ghost mut s1: Seq<Block> = s0;
        let ghost mut backing1: Block = self.inner.pool.backing;
        let ghost mut kind: int = 0;
        match self.reserve(1) {
            Err(()) => {
                out = Err(block);
            }
            Ok(()) => {
                proof {
                    kind = 1;
                    s1 = self.blocks();
                    backing1 = self.inner.pool.backing;
                    assert(block.end() <= ADDR_CEILING);
                    assert(disjoint_from(s1, block));
                    assert(disjoint_blocks(block, backing1));
                }
                out = self.inner.realloc_inplace(block, new_size);
            }
        }
        proof {
            match out {
                Ok(b) => {
                    if b.size > 0 {
                        assert(self.seg.base <= b.addr());
                        if new_size > block.size {
                            // The block grew into its adjacent right
                            // neighbor, which lay inside the segment and
                            // apart from the pool storage.
                            let i = choose|i: int|
                                {
                                    &&& 0 <= i < s1.len()
                                    &&& (#[trigger] s1[i]).size > 0
                                    &&& s1[i].addr() == block.end()
                                    &&& b.end() <= s1[i].end()
                                };
                            lemma_pool_below(s1, self.seg.base as int, self.seg_end(), i);
                            assert(disjoint_blocks(backing1, s1[i]));
                            if backing1.end() > b.addr() {
                                assert(block.end() <= backing1.addr());
                                assert(s1[i].end() <= backing1.addr());
                            }
                        }
                        assert(b.end() <= self.seg_end());
                        assert(disjoint_blocks(b, backing1));
                    }
                    assert(pool_in_segment(self.blocks(), self.seg.base as int, self.seg_end()))
                        by {
                        assert(disjoint_blocks(below_guard(self.seg.base as int), block));
                        assert(disjoint_blocks(above_guard(self.seg_end()), block));
                        assert(disjoint_from(self.blocks(), below_guard(self.seg.base as int)));
                        assert(disjoint_from(self.blocks(), above_guard(self.seg_end())));
                    }
                    assert(disjoint_from(self.blocks(), self.inner.pool.backing));
                }
                Err(b) => {
                    if kind == 1 {
                        assert(self.blocks() == s1);
                    }
                }
            }
            assert forall|c: Block|
                disjoint_from(s0, c) && c.size > 0 && c.end() <= old(self).seg_end()
                    && disjoint_blocks(c, old(self).inner.pool.backing) && disjoint_blocks(c, block)
                    implies #[trigger] disjoint_from(self.blocks(), c) && disjoint_blocks(
                c,
                self.inner.pool.backing,
            ) && (out matches Ok(b) ==> disjoint_blocks(c, b)) by {
                if kind == 0 {
                    assert(self.blocks() == s0);
                } else {
                    assert(disjoint_from(s1, c));
                    assert(disjoint_blocks(c, backing1));
                    assert(disjoint_from(self.blocks(), c));
                    match out {
                        Ok(b2) => {
                            let b = b2;
                            // The result covers the old block and, when it
                            // grew, part of its adjacent pool neighbor;
                            // both are apart from `c`.
                            if new_size > block.size {
                                let i = choose|i: int|
                                    {
                                        &&& 0 <= i < s1.len()
                                        &&& (#[trigger] s1[i]).size > 0
                                        &&& s1[i].addr() == block.end()
                                        &&& b.end() <= s1[i].end()
                                    };
                                assert(disjoint_blocks(c, s1[i]));
                                if !(c.end() <= b.addr()) {
                                    assert(block.end() <= c.addr());
                                    if c.addr() < b.end() {
                                        assert(c.end() <= s1[i].addr());
                                        assert(false);
                                    }
                                }
                            } else {
                                assert(b.end() <= block.end());
                            }
                            assert(disjoint_blocks(c, b));
                        }
                        Err(_) => {
                        }
                    }
                }
            }
            match out {
                Ok(b) => {
                    assert forall|c: Block|
                        disjoint_from(s0, c) && c.size > 0 && c.end() <= old(self).seg_end()
                            && disjoint_blocks(c, old(self).inner.pool.backing) && disjoint_blocks(
                            c,
                            block,
                        ) implies #[trigger] disjoint_blocks(c, b) by {
                        assert(disjoint_from(self.blocks(), c));
                    }
                }
                Err(_) => {
                }
            }
        }
        out
    }

    /// Reallocate a block, copying its bytes when it has to move.
    ///
    /// An in-place reallocation is attempted first.  Otherwise a new block
    /// is allocated, the common prefix of the bytes is copied over, and
    /// the old block is freed.  In every successful case the bytes on
    /// `[0, min(old, new))` of the returned block equal the old block's.
    #[verifier::spinoff_prover]
    #[verifier::rlimit(100)]
    pub fn realloc(&mut self, block: Block, new_size: usize, align: usize) -> (r: Result<Block, ()>)
        requires
            old(self).wf(),
            old(self).valid_block(block),
            block.size > 0,
            new_size >= 1,
            align >= 1,
            block.addr() % align as int == 0,
        ensures
            final(self).wf(),
            final(self).seg.base == old(self).seg.base,
            final(self).seg.limit == old(self).seg.limit,
            r matches Ok(res) ==> {
                &&& res.size == new_size
                &&& res.wf()
                &&& res.addr() % align as int == 0
                &&& final(self).seg.base <= res.addr()
                &&& res.end() <= final(self).seg_end()
                &&& final(self).valid_block(res)
                &&& (new_size <= block.size && old(self).inner.slack() >= 1 + EXTRA_ELEMENTS
                    ==> res.addr() == block.addr())
                &&& forall|k: int|
                    0 <= k < new_size && k < block.size ==> #[trigger] final(self).seg.spec_byte(
                        res.addr() + k,
                    ) == old(self).seg.spec_byte(block.addr() + k)
            },
            r is Err ==> final(self).valid_block(block) && (forall|a: int|
                old(self).seg.base <= a < old(self).seg_end()
                    ==> final(self).seg.spec_byte(a) == old(self).seg.spec_byte(a)),
            r is Err ==> {
                ||| new_size + config::spec_extra_brk(new_size as int) + align > usize::MAX
                ||| final(self).seg_end() + new_size + config::spec_extra_brk(new_size as int)
                    + align > final(self).seg.limit
                ||| (final(self).inner.slack() < 2 + EXTRA_ELEMENTS as int && !storage_fits(
                    final(self).seg_end(),
                    final(self).seg.limit as int,
                    final(self).blocks().len() as int,
                    2,
                ))
            },
            forall|c: Block|
                old(self).valid_block(c) && c.size > 0 && disjoint_blocks(c, block)
                    ==> #[trigger] final(self).valid_block(c) && (forall|k: int|
                    0 <= k < c.size ==> #[trigger] final(self).seg.spec_byte(c.addr() + k) == old(
                        self,
                    ).seg.spec_byte(c.addr() + k)),
            r matches Ok(res) ==> forall|c: Block|
                old(self).valid_block(c) && c.size > 0 && disjoint_blocks(c, block)
                    ==> #[trigger] disjoint_blocks(c, res),
    {
        let out: Result<Block, ()>;
        let ghost mut kind: int = 0;
        let ghost mut mid: GlobalAllocator = *self;
        let ghost mut pa: GlobalAllocator = *self;
        let ghost mut seg2: Segment = self.seg;
        let ghost mut count_g: int = 0;
        match self.realloc_inplace(block, new_size) {
            Ok(res) => {
                out = Ok(res);
            }
            Err(block) => {
                // Reallocation cannot be done in place: allocate, copy,
                // free.
                proof {
                    mid = *self;
                }
                match self.allocate(new_size, align) {
                    Err(()) => {
                        proof {
                            kind = 1;
                            assert(disjoint_from(self.blocks(), block));
                            assert(disjoint_blocks(block, self.inner.pool.backing));
                            assert(self.valid_block(block));
                        }
                        out = Err(());
                    }
                    Ok(res) => {
                        proof {
                            kind = 2;
                            pa = *self;
                            assert(disjoint_blocks(block, res));
                            assert(disjoint_from(self.blocks(), block));
                            assert(disjoint_blocks(block, self.inner.pool.backing));
                        }
                        // Copy the common prefix of the data over.
                        let count: usize = if new_size < block.size {
                            new_size
                        } else {
                            block.size()
                        };
                        proof {
                            seg2 = self.seg;
                            count_g = count as int;
                        }
                        let ghost inner2 = self.inner;
                        let ghost brk2 = self.brk.state;
                        let mut k: usize = 0;
                        while k < count
                            invariant
                                k <= count,
                                count <= block.size,
                                count <= res.size,
                                block.wf(),
                                res.wf(),
                                self.seg.wf(),
                                disjoint_blocks(block, res),
                                self.inner == inner2,
                                self.brk.state == brk2,
                                seg2.base == self.seg.base,
                                seg2.limit == self.seg.limit,
                                seg2.spec_end() == self.seg.spec_end(),
                                self.seg.base <= block.addr(),
                                block.end() <= self.seg.spec_end(),
                                self.seg.base <= res.addr(),
                                res.end() <= self.seg.spec_end(),
                                forall|a: int|
                                    self.seg.base <= a < self.seg.spec_end() && !(res.addr() <= a
                                        < res.addr() + count) ==> self.seg.spec_byte(a)
                                        == seg2.spec_byte(a),
                                forall|j: int|
                                    0 <= j < k ==> #[trigger] self.seg.spec_byte(res.addr() + j)
                                        == seg2.spec_byte(block.addr() + j),
                            decreases count - k,
                        {
                            let v: u8 = self.seg.read(block.ptr.addr + k);
                            self.seg.write(res.ptr.addr + k, v);
                            k = k + 1;
                        }
                        proof {
                            // The segment fields other than the byte store
                            // are untouched by the copy, so the allocator
                            // invariants carry over.
                            assert(self.brk.wf(&self.seg));
                            assert(self.wf());
                            assert(self.valid_block(block));
                            assert(self.valid_block(res));
                        }
                        // Free the old block.  Allocation may have
                        // rearranged the pool, so its position is found
                        // anew.
                        let ghost pre_free = *self;
                        self.free(block);
                        proof {
                            assert(disjoint_blocks(res, block));
                            assert(res.size > 0);
                            assert(disjoint_from(self.blocks(), res));
                            assert(res.end() <= self.seg_end());
                        }
                        out = Ok(res);
                    }
                }
            }
        }
        proof {
            match out {
                Ok(res) => {
                    assert forall|k: int| 0 <= k < new_size && k < block.size implies #[trigger] self.seg.spec_byte(
                        res.addr() + k,
                    ) == old(self).seg.spec_byte(block.addr() + k) by {
                        if kind == 0 {
                            assert(res.addr() == block.addr());
                            assert(self.seg.spec_byte(block.addr() + k) == old(self).seg.spec_byte(
                                block.addr() + k,
                            ));
                        } else {
                            assert(k < count_g);
                            assert(self.seg.spec_byte(res.addr() + k) == seg2.spec_byte(
                                block.addr() + k,
                            ));
                            assert(seg2.spec_byte(block.addr() + k) == mid.seg.spec_byte(
                                block.addr() + k,
                            ));
                            assert(mid.seg.spec_byte(block.addr() + k) == old(self).seg.spec_byte(
                                block.addr() + k,
                            ));
                        }
                    }
                    assert(res.end() <= self.seg_end());
                    assert(self.seg.base <= res.addr());
                    assert(self.valid_block(res)) by {
                        if kind == 0 {
                        } else {
                            assert(disjoint_from(self.blocks(), res));
                            assert(disjoint_blocks(res, self.inner.pool.backing));
                        }
                    }
                }
                Err(()) => {
                    assert(self.valid_block(block));
                    assert forall|a: int|
                        old(self).seg.base <= a < old(self).seg_end() implies #[trigger] self.seg.spec_byte(
                        a,
                    ) == old(self).seg.spec_byte(a) by {
                        if kind == 1 {
                            assert(mid.seg.spec_byte(a) == old(self).seg.spec_byte(a));
                        }
                    }
                }
            }
            assert forall|c: Block|
                old(self).valid_block(c) && c.size > 0 && disjoint_blocks(c, block) implies #[trigger] self.valid_block(
                c,
            ) && (out matches Ok(res2) ==> disjoint_blocks(c, res2)) && (forall|k: int|
                0 <= k < c.size ==> #[trigger] self.seg.spec_byte(c.addr() + k) == old(
                    self,
                ).seg.spec_byte(c.addr() + k)) by {
                if kind == 0 {
                    assert(disjoint_from(self.blocks(), c));
                    assert(disjoint_blocks(c, self.inner.pool.backing));
                    assert(c.end() <= self.seg_end());
                    assert forall|k: int| 0 <= k < c.size implies #[trigger] self.seg.spec_byte(
                        c.addr() + k,
                    ) == old(self).seg.spec_byte(c.addr() + k) by {
                        assert(old(self).seg.base <= c.addr() + k < old(self).seg_end());
                    }
                } else {
                    // The state after the failed in-place attempt.
                    assert(mid.valid_block(c)) by {
                        assert(disjoint_from(mid.blocks(), c));
                        assert(disjoint_blocks(c, mid.inner.pool.backing));
                    }
                    assert forall|k: int|
                        0 <= k < c.size implies #[trigger] mid.seg.spec_byte(c.addr() + k) == old(
                        self,
                    ).seg.spec_byte(c.addr() + k) by {
                        assert(old(self).seg.base <= c.addr() + k < old(self).seg_end());
                    }
                    if kind == 1 {
                        assert(disjoint_from(self.blocks(), c));
                        assert(disjoint_blocks(c, self.inner.pool.backing));
                        assert(c.end() <= mid.seg_end());
                        assert forall|k: int|
                            0 <= k < c.size implies #[trigger] self.seg.spec_byte(c.addr() + k)
                            == mid.seg.spec_byte(c.addr() + k) by {
                            assert(mid.seg.base <= c.addr() + k < mid.seg_end());
                        }
                    } else {
                        // Through the allocation, the copy and the free.
                        assert(disjoint_from(pa.blocks(), c));
                        assert(disjoint_blocks(c, pa.inner.pool.backing));
                        match out {
                            Ok(res) => {
                                assert(disjoint_blocks(c, res));
                                assert forall|k: int|
                                    0 <= k < c.size implies #[trigger] pa.seg.spec_byte(
                                    c.addr() + k,
                                ) == mid.seg.spec_byte(c.addr() + k) by {
                                    assert(mid.seg.base <= c.addr() + k < mid.seg_end());
                                }
                                assert(seg2 == pa.seg);
                                assert forall|k: int|
                                    0 <= k < c.size implies #[trigger] seg2.spec_byte(c.addr() + k)
                                    == pa.seg.spec_byte(c.addr() + k) by {
                                }
                                assert(disjoint_from(self.blocks(), c));
                                assert(disjoint_blocks(c, self.inner.pool.backing));
                                assert(c.end() <= self.seg_end());
                                // Through the copy (outside the target
                                // range) and the free of the old block.
                                assert forall|k: int|
                                    0 <= k < c.size implies #[trigger] self.seg.spec_byte(
                                    c.addr() + k,
                                ) == pa.seg.spec_byte(c.addr() + k) by {
                                    assert(!(res.addr() <= c.addr() + k < res.addr() + count_g));
                                    assert(pa.seg.base <= c.addr() + k < pa.seg_end());
                                    assert(c.addr() + k < self.seg_end());
                                }
                            }
                            Err(()) => {
                                assert(false);
                            }
                        }
                    }
                }
            }
            match out {
                Ok(res) => {
                    assert forall|c: Block|
                        old(self).valid_block(c) && c.size > 0 && disjoint_blocks(
                            c,
                            block,
                        ) implies #[trigger] disjoint_blocks(c, res) by {
                        assert(self.valid_block(c));
                    }
                }
                Err(()) => {
                }
            }
        }
        out
    }


    /// After freeing a valid block, the pool is still confined to the
    /// segment and disjoint from its own storage.
    proof fn lemma_guards_after_free(&self, s_pre: Seq<Block>, block: Block)
        requires
            pool_in_segment(s_pre, self.seg.base as int, self.seg_end()),
            self.seg.wf(),
            self.seg.limit < ADDR_CEILING,
            1 <= self.seg.base,
            self.seg.base <= block.addr(),
            block.end() <= self.seg_end(),
            block.size > 0,
            disjoint_blocks(block, self.inner.pool.backing),
            self.inner.pool.backing.size > 0,
            disjoint_from(s_pre, self.inner.pool.backing),
            forall|c: Block|
                disjoint_from(s_pre, c) && disjoint_blocks(c, block) && c.size > 0
                    ==> #[trigger] disjoint_from(self.blocks(), c),
        ensures
            pool_in_segment(self.blocks(), self.seg.base as int, self.seg_end()),
            disjoint_from(self.blocks(), self.inner.pool.backing),
    {
        assert(disjoint_blocks(below_guard(self.seg.base as int), block));
        assert(disjoint_blocks(above_guard(self.seg_end()), block));
        assert(disjoint_from(self.blocks(), below_guard(self.seg.base as int)));
        assert(disjoint_from(self.blocks(), above_guard(self.seg_end())));
        assert(disjoint_from(self.blocks(), self.inner.pool.backing));
    }
}

/// A local allocator.
///
/// This acquires memory from the upstream (global) allocator and returns
/// excess memory to it, so small stubs unify upstream instead of
/// accumulating per thread.
pub struct LocalAllocator {
    /// The inner bookkeeper.
    pub inner: Bookkeeper,
}

impl LocalAllocator {
    /// The blocks of the local pool.
    pub open spec fn blocks(&self) -> Seq<Block> {
        self.inner.blocks()
    }

    /// The local invariant, tied to the upstream allocator: the local pool
    /// lies inside the global segment, apart from the global pool, the
    /// global pool's storage and its own storage, which is itself a live
    /// global allocation.
    pub open spec fn wf_with(&self, g: &GlobalAllocator) -> bool {
        &&& self.inner.inv()
        &&& !self.inner.reserving
        &&& self.inner.slack() >= EXTRA_ELEMENTS as int
        &&& pool_in_segment(self.blocks(), g.seg.base as int, g.seg_end())
        &&& forall|j: int|
            0 <= j < g.blocks().len() && (#[trigger] g.blocks()[j]).size > 0 ==> disjoint_from(
                self.blocks(),
                g.blocks()[j],
            )
        &&& disjoint_from(self.blocks(), g.inner.pool.backing)
        &&& g.valid_block(self.inner.pool.backing)
        &&& self.inner.pool.backing.size > 0
        &&& disjoint_from(self.blocks(), self.inner.pool.backing)
    }

    /// A block that a caller may hand to this allocator's `free`: live for
    /// the global allocator and apart from the local pool and storage.
    pub open spec fn valid_block_with(&self, g: &GlobalAllocator, b: Block) -> bool {
        &&& g.valid_block(b)
        &&& disjoint_from(self.blocks(), b)
        &&& disjoint_blocks(b, self.inner.pool.backing)
    }

    /// A non-empty block of the local pool is a live allocation of the
    /// global allocator.
    pub proof fn lemma_local_block_valid(&self, g: &GlobalAllocator, i: int)
        requires
            self.wf_with(g),
            g.wf(),
            0 <= i < self.blocks().len(),
            self.blocks()[i].size > 0,
        ensures
            g.valid_block(self.blocks()[i]),
            self.blocks()[i].end() <= g.seg_end(),
            g.seg.base <= self.blocks()[i].addr(),
    {
        let x = self.blocks()[i];
        lemma_pool_below(self.blocks(), g.seg.base as int, g.seg_end(), i);
        assert forall|j: int|
            0 <= j < g.blocks().len() && (#[trigger] g.blocks()[j]).size > 0 implies disjoint_blocks(
            x,
            g.blocks()[j],
        ) by {
            assert(disjoint_from(self.blocks(), g.blocks()[j]));
        }
        assert(disjoint_blocks(x, g.inner.pool.backing)) by {
            assert(disjoint_from(self.blocks(), g.inner.pool.backing));
        }
    }

    /// After an operation on the local pool that inserted or rearranged a
    /// valid block, the local invariant holds again.
    proof fn lemma_after_local(&self, g: &GlobalAllocator, s0: Seq<Block>, block: Block)
        requires
            self.inner.inv(),
            g.wf(),
            pool_in_segment(s0, g.seg.base as int, g.seg_end()),
            forall|j: int|
                0 <= j < g.blocks().len() && (#[trigger] g.blocks()[j]).size > 0 ==> disjoint_from(
                    s0,
                    g.blocks()[j],
                ),
            disjoint_from(s0, g.inner.pool.backing),
            g.valid_block(block),
            block.size > 0,
            g.seg.base <= block.addr(),
            block.end() <= g.seg_end(),
            forall|c: Block|
                disjoint_from(s0, c) && disjoint_blocks(c, block) && c.size > 0
                    ==> #[trigger] disjoint_from(self.blocks(), c),
        ensures
            pool_in_segment(self.blocks(), g.seg.base as int, g.seg_end()),
            forall|j: int|
                0 <= j < g.blocks().len() && (#[trigger] g.blocks()[j]).size > 0 ==> disjoint_from(
                    self.blocks(),
                    g.blocks()[j],
                ),
            disjoint_from(self.blocks(), g.inner.pool.backing),
    {
        assert(disjoint_blocks(below_guard(g.seg.base as int), block));
        assert(disjoint_blocks(above_guard(g.seg_end()), block));
        assert(disjoint_from(self.blocks(), below_guard(g.seg.base as int)));
        assert(disjoint_from(self.blocks(), above_guard(g.seg_end())));
        assert forall|j: int|
            0 <= j < g.blocks().len() && (#[trigger] g.blocks()[j]).size > 0 implies disjoint_from(
            self.blocks(),
            g.blocks()[j],
        ) by {
            assert(disjoint_from(s0, g.blocks()[j]));
            assert(disjoint_blocks(g.blocks()[j], block));
        }
        assert(disjoint_from(self.blocks(), g.inner.pool.backing)) by {
            assert(disjoint_blocks(g.inner.pool.backing, block));
        }
    }

    /// Initialize a local allocator, drawing its initial pool storage from
    /// the global allocator.
    pub fn init(g: &mut GlobalAllocator) -> (r: Result<LocalAllocator, ()>)
        requires
            old(g).wf(),
        ensures
            final(g).wf(),
            final(g).seg.base == old(g).seg.base,
            final(g).seg.limit == old(g).seg.limit,
            final(g).seg_end() >= old(g).seg_end(),
            forall|a: int|
                old(g).seg.base <= a < old(g).seg_end() ==> final(g).seg.spec_byte(a) == old(
                    g,
                ).seg.spec_byte(a),
            r matches Ok(l) ==> l.wf_with(final(g)) && l.blocks().len() == 0
                && l.inner.total_bytes == 0,
            r is Err ==> {
                ||| final(g).seg_end() + INITIAL_POOL_BYTES + config::spec_extra_brk(
                    INITIAL_POOL_BYTES as int,
                ) + ALIGN_OF_BLOCK > final(g).seg.limit
                ||| (final(g).inner.slack() < 2 + EXTRA_ELEMENTS as int && !storage_fits(
                    final(g).seg_end(),
                    final(g).seg.limit as int,
                    final(g).blocks().len() as int,
                    2,
                ))
            },
    {
        match g.allocate(INITIAL_POOL_BYTES, ALIGN_OF_BLOCK) {
            Err(()) => Err(()),
            Ok(initial_segment) => {
                let vec = PoolVec::from_raw_parts(initial_segment, 0);
                let inner = Bookkeeper::new(vec);
                let l = LocalAllocator { inner };
                proof {
                    assert(l.wf_with(g)) by {
                        assert(l.blocks().len() == 0);
                    }
                }
                Ok(l)
            }
        }
    }

    /// Reserve local pool storage, drawing a fresh buffer from the global
    /// allocator when the slack runs out; the old buffer is freed into the
    /// local pool.  The ghost block `keep` names a live allocation whose
    /// validity the caller wants carried across the reservation.
    #[verifier::spinoff_prover]
    #[verifier::rlimit(100)]
    fn reserve(
        &mut self,
        g: &mut GlobalAllocator,
        need: usize,
        keep: Ghost<Block>,
        keep2: Ghost<Block>,
    ) -> (r: Result<(), ()>)
        requires
            old(self).wf_with(old(g)),
            old(g).wf(),
            1 <= need <= EXTRA_ELEMENTS,
            keep@.size > 0 ==> old(self).valid_block_with(old(g), keep@),
            keep2@.size > 0 ==> old(self).valid_block_with(old(g), keep2@),
        ensures
            final(self).wf_with(final(g)),
            final(g).wf(),
            final(g).seg.base == old(g).seg.base,
            final(g).seg.limit == old(g).seg.limit,
            final(g).seg_end() >= old(g).seg_end(),
            forall|a: int|
                old(g).seg.base <= a < old(g).seg_end() ==> final(g).seg.spec_byte(a) == old(
                    g,
                ).seg.spec_byte(a),
            r is Ok ==> final(self).inner.slack() >= need + EXTRA_ELEMENTS,
            old(self).inner.slack() >= need + EXTRA_ELEMENTS ==> {
                &&& r is Ok
                &&& final(self).inner == old(self).inner
                &&& final(g).blocks() == old(g).blocks()
                &&& final(g).inner.total_bytes == old(g).inner.total_bytes
                &&& final(g).inner.pool.backing == old(g).inner.pool.backing
                &&& final(g).seg_end() == old(g).seg_end()
            },
            r is Err ==> old(self).inner.slack() < need + EXTRA_ELEMENTS && final(self).inner
                == old(self).inner,
            r is Err ==> {
                ||| !storage_fits(
                    final(g).seg_end(),
                    final(g).seg.limit as int,
                    old(self).blocks().len() as int,
                    need as int,
                )
                ||| (final(g).inner.slack() < 2 + EXTRA_ELEMENTS as int && !storage_fits(
                    final(g).seg_end(),
                    final(g).seg.limit as int,
                    final(g).blocks().len() as int,
                    2,
                ))
            },
            keep@.size > 0 ==> final(self).valid_block_with(final(g), keep@),
            keep2@.size > 0 ==> final(self).valid_block_with(final(g), keep2@),
    {
        let len: usize = self.inner.len();
        let cap: usize = self.inner.pool.capacity();
        if cap - len >= need + EXTRA_ELEMENTS {
            return Ok(());
        }
        let min_cap: usize = len + need;
        let new_cap: usize = min_cap + EXTRA_ELEMENTS + config::extra_fresh(min_cap);
        if new_cap > usize::MAX / SIZE_OF_BLOCK {
            return Err(());
        }
        let ghost g0 = *g;
        let fresh = match g.allocate(new_cap * SIZE_OF_BLOCK, ALIGN_OF_BLOCK) {
            Err(()) => {
                proof {
                    let sl = self.blocks();
                    assert forall|i: int|
                        0 <= i < sl.len() && (#[trigger] sl[i]).size > 0 implies disjoint_from(
                        g.blocks(),
                        sl[i],
                    ) && disjoint_blocks(sl[i], g.inner.pool.backing) && sl[i].end()
                        <= g.seg_end() by {
                        lemma_pool_below(sl, g0.seg.base as int, g0.seg_end(), i);
                        assert forall|j: int|
                            0 <= j < g0.blocks().len() && (#[trigger] g0.blocks()[j]).size
                                > 0 implies disjoint_blocks(sl[i], g0.blocks()[j]) by {
                            assert(disjoint_from(sl, g0.blocks()[j]));
                        }
                        assert(disjoint_from(g0.blocks(), sl[i]));
                        assert(disjoint_blocks(sl[i], g0.inner.pool.backing));
                        assert(disjoint_from(g.blocks(), sl[i]));
                    }
                    assert forall|j: int|
                        0 <= j < g.blocks().len() && (#[trigger] g.blocks()[j]).size
                            > 0 implies disjoint_from(sl, g.blocks()[j]) by {
                        assert forall|i: int|
                            0 <= i < sl.len() && (#[trigger] sl[i]).size > 0 implies disjoint_blocks(
                            g.blocks()[j],
                            sl[i],
                        ) by {
                            assert(disjoint_from(g.blocks(), sl[i]));
                        }
                    }
                    assert(disjoint_from(sl, g.inner.pool.backing)) by {
                        assert forall|i: int|
                            0 <= i < sl.len() && (#[trigger] sl[i]).size > 0 implies disjoint_blocks(
                            g.inner.pool.backing,
                            sl[i],
                        ) by {
                            assert(disjoint_from(g.blocks(), sl[i]));
                            assert(disjoint_blocks(sl[i], g.inner.pool.backing));
                        }
                    }
                    assert(disjoint_from(g.blocks(), self.inner.pool.backing));
                    assert(g.valid_block(self.inner.pool.backing));
                    assert(pool_in_segment(sl, g.seg.base as int, g.seg_end())) by {
                        assert forall|i: int|
                            0 <= i < sl.len() && (#[trigger] sl[i]).size > 0 implies disjoint_blocks(
                            above_guard(g.seg_end()),
                            sl[i],
                        ) && disjoint_blocks(below_guard(g.seg.base as int), sl[i]) by {
                            lemma_pool_below(sl, g0.seg.base as int, g0.seg_end(), i);
                            assert(sl[i].end() <= g.seg_end());
                        }
                    }
                    if keep@.size > 0 {
                        assert(disjoint_from(g.blocks(), keep@));
                    }
                    if keep2@.size > 0 {
                        assert(disjoint_from(g.blocks(), keep2@));
                    }
                }
                return Err(());
            }
            Ok(fresh) => fresh,
        };
        proof {
            let sl = self.blocks();
            assert forall|i: int|
                0 <= i < sl.len() && (#[trigger] sl[i]).size > 0 implies disjoint_from(
                g.blocks(),
                sl[i],
            ) && disjoint_blocks(sl[i], g.inner.pool.backing) && sl[i].end() <= g.seg_end() by {
                lemma_pool_below(sl, g0.seg.base as int, g0.seg_end(), i);
                assert forall|j: int|
                    0 <= j < g0.blocks().len() && (#[trigger] g0.blocks()[j]).size > 0 implies disjoint_blocks(
                    sl[i],
                    g0.blocks()[j],
                ) by {
                    assert(disjoint_from(sl, g0.blocks()[j]));
                }
                assert(disjoint_from(g0.blocks(), sl[i]));
                assert(disjoint_blocks(sl[i], g0.inner.pool.backing));
                assert(disjoint_from(g.blocks(), sl[i]));
            }
            assert forall|j: int|
                0 <= j < g.blocks().len() && (#[trigger] g.blocks()[j]).size > 0 implies disjoint_from(
                sl,
                g.blocks()[j],
            ) by {
                assert forall|i: int|
                    0 <= i < sl.len() && (#[trigger] sl[i]).size > 0 implies disjoint_blocks(
                    g.blocks()[j],
                    sl[i],
                ) by {
                    assert(disjoint_from(g.blocks(), sl[i]));
                }
            }
            assert(disjoint_from(sl, g.inner.pool.backing)) by {
                assert forall|i: int|
                    0 <= i < sl.len() && (#[trigger] sl[i]).size > 0 implies disjoint_blocks(
                    g.inner.pool.backing,
                    sl[i],
                ) by {
                    assert(disjoint_from(g.blocks(), sl[i]));
                    assert(disjoint_blocks(sl[i], g.inner.pool.backing));
                }
            }
            assert(disjoint_from(g.blocks(), self.inner.pool.backing));
            assert(g.valid_block(self.inner.pool.backing));
            assert(pool_in_segment(sl, g.seg.base as int, g.seg_end())) by {
                assert forall|i: int|
                    0 <= i < sl.len() && (#[trigger] sl[i]).size > 0 implies disjoint_blocks(
                    above_guard(g.seg_end()),
                    sl[i],
                ) && disjoint_blocks(below_guard(g.seg.base as int), sl[i]) by {
                    lemma_pool_below(sl, g0.seg.base as int, g0.seg_end(), i);
                    assert(sl[i].end() <= g.seg_end());
                }
            }
            assert(disjoint_from(self.blocks(), fresh)) by {
                assert forall|i: int|
                    0 <= i < self.blocks().len() && (#[trigger] self.blocks()[i]).size > 0 implies disjoint_blocks(
                    fresh,
                    self.blocks()[i],
                ) by {
                    let x = self.blocks()[i];
                    lemma_pool_below(self.blocks(), g0.seg.base as int, g0.seg_end(), i);
                    assert forall|j: int|
                        0 <= j < g0.blocks().len() && (#[trigger] g0.blocks()[j]).size > 0 implies disjoint_blocks(
                        x,
                        g0.blocks()[j],
                    ) by {
                        assert(disjoint_from(self.blocks(), g0.blocks()[j]));
                    }
                    assert(disjoint_from(g0.blocks(), x));
                    assert(disjoint_blocks(x, g0.inner.pool.backing));
                    assert(disjoint_blocks(x, fresh));
                }
            }
            if keep@.size > 0 {
                assert(disjoint_from(g.blocks(), keep@));
                assert(disjoint_blocks(keep@, fresh));
            }
            if keep2@.size > 0 {
                assert(disjoint_from(g.blocks(), keep2@));
                assert(disjoint_blocks(keep2@, fresh));
            }
        }
        let old_buf = self.inner.pool.refill(fresh);
        proof {
            assert(old_buf.end() <= ADDR_CEILING);
            assert(disjoint_from(self.blocks(), old_buf));
            assert(disjoint_blocks(old_buf, self.inner.pool.backing)) by {
                assert(disjoint_blocks(old_buf, fresh));
            }
        }
        let ghost s1 = self.blocks();
        self.inner.free(old_buf);
        proof {
            self.lemma_after_local(g, s1, old_buf);
            assert(disjoint_from(self.blocks(), self.inner.pool.backing)) by {
                assert(disjoint_blocks(fresh, old_buf));
            }
            if keep@.size > 0 {
                assert(disjoint_from(s1, keep@));
                assert(disjoint_blocks(keep@, old_buf));
                assert(disjoint_from(self.blocks(), keep@));
            }
            if keep2@.size > 0 {
                assert(disjoint_from(s1, keep2@));
                assert(disjoint_blocks(keep2@, old_buf));
                assert(disjoint_from(self.blocks(), keep2@));
            }
        }
        Ok(())
    }

    /// Allocate a chunk of memory from the local pool, falling back to the
    /// global allocator for fresh memory.  The ghost block `keep` names a
    /// live allocation that must stay apart from the result.
    #[verifier::spinoff_prover]
    pub fn allocate(
        &mut self,
        g: &mut GlobalAllocator,
        size: usize,
        align: usize,
        keep: Ghost<Block>,
    ) -> (r: Result<Block, ()>)
        requires
            old(self).wf_with(old(g)),
            old(g).wf(),
            size >= 1,
            align >= 1,
            keep@.size > 0 ==> old(self).valid_block_with(old(g), keep@),
        ensures
            final(self).wf_with(final(g)),
            final(g).wf(),
            final(g).seg.base == old(g).seg.base,
            final(g).seg.limit == old(g).seg.limit,
            final(g).seg_end() >= old(g).seg_end(),
            forall|a: int|
                old(g).seg.base <= a < old(g).seg_end() ==> final(g).seg.spec_byte(a) == old(
                    g,
                ).seg.spec_byte(a),
            r matches Ok(res) ==> {
                &&& res.size == size
                &&& res.addr() % align as int == 0
                &&& res.wf()
                &&& final(self).valid_block_with(final(g), res)
            },
            keep@.size > 0 ==> final(self).valid_block_with(final(g), keep@) && (r matches Ok(res)
                ==> disjoint_blocks(keep@, res)),
            r is Err ==> oom_for(*final(g), size as int, align as int)
                || final(self).inner.slack() < 2 + EXTRA_ELEMENTS as int,
    {
        let out: Result<Block, ()>;
        let ghost mut l1: Seq<Block> = self.blocks();
        let ghost mut g1: GlobalAllocator = *g;
        let ghost mut kind: int = 0;
        let ghost mut pool_slot: Block = self.inner.pool.backing;
        match self.reserve(g, 2, keep, Ghost(Block { ptr: Pointer { addr: 1 }, size: 0 })) {
            Err(()) => {
                out = Err(());
                proof {
                    l1 = self.blocks();
                    g1 = *g;
                }
            }
            Ok(()) => {
                proof {
                    l1 = self.blocks();
                    g1 = *g;
                }
                let ghost s1 = self.blocks();
                match self.inner.alloc_pool(size, align) {
                    Some(res) => {
                        proof {
                            kind = 1;
                            let i = choose|i: int|
                                {
                                    &&& 0 <= i < s1.len()
                                    &&& crate::bookkeeper::fits(#[trigger] s1[i], size as int, align as int)
                                    &&& (forall|k: int|
                                        0 <= k < i ==> !crate::bookkeeper::fits(
                                            #[trigger] s1[k],
                                            size as int,
                                            align as int,
                                        ))
                                    &&& res.addr() == s1[i].addr() + crate::block::align_pad(
                                        s1[i].addr(),
                                        align as int,
                                    )
                                };
                            pool_slot = s1[i];
                            assert(s1[i].size > 0);
                            assert(s1[i].addr() <= res.addr() && res.end() <= s1[i].end());
                        }
                        out = Ok(res);
                    }
                    None => {
                        // Get the block from the global allocator.  The
                        // size is not canonicalized: freeing excess here
                        // would only fragment the local pool.
                        match g.allocate(size, align) {
                            Err(()) => {
                                proof {
                                    kind = 2;
                                }
                                out = Err(());
                            }
                            Ok(res) => {
                                proof {
                                    kind = 3;
                                }
                                out = Ok(res);
                            }
                        }
                    }
                }
            }
        }
        proof {
            if kind == 2 || kind == 3 {
                assert forall|c: Block|
                    disjoint_from(g1.blocks(), c) && c.size > 0 && c.end() <= g1.seg_end()
                        && disjoint_blocks(c, g1.inner.pool.backing) implies #[trigger] disjoint_from(
                    g.blocks(),
                    c,
                ) && disjoint_blocks(c, g.inner.pool.backing) by {
                    assert(disjoint_from(g.blocks(), c));
                }
                let s = self.blocks();
                assert forall|i: int|
                    0 <= i < s.len() && (#[trigger] s[i]).size > 0 implies disjoint_from(
                    g.blocks(),
                    s[i],
                ) && disjoint_blocks(s[i], g.inner.pool.backing) && s[i].end()
                    <= g.seg_end() by {
                    lemma_pool_below(s, g1.seg.base as int, g1.seg_end(), i);
                    assert forall|j: int|
                        0 <= j < g1.blocks().len() && (#[trigger] g1.blocks()[j]).size
                            > 0 implies disjoint_blocks(s[i], g1.blocks()[j]) by {
                        assert(disjoint_from(s, g1.blocks()[j]));
                    }
                    assert(disjoint_from(g1.blocks(), s[i]));
                    assert(disjoint_blocks(s[i], g1.inner.pool.backing));
                    assert(disjoint_from(g.blocks(), s[i]));
                    assert(disjoint_blocks(s[i], g.inner.pool.backing));
                }
                assert forall|j: int|
                    0 <= j < g.blocks().len() && (#[trigger] g.blocks()[j]).size
                        > 0 implies disjoint_from(s, g.blocks()[j]) by {
                    assert forall|i: int|
                        0 <= i < s.len() && (#[trigger] s[i]).size > 0 implies disjoint_blocks(
                        g.blocks()[j],
                        s[i],
                    ) by {
                        assert(disjoint_from(g.blocks(), s[i]));
                    }
                }
                assert(disjoint_from(s, g.inner.pool.backing)) by {
                    assert forall|i: int|
                        0 <= i < s.len() && (#[trigger] s[i]).size > 0 implies disjoint_blocks(
                        g.inner.pool.backing,
                        s[i],
                    ) by {
                        assert(disjoint_from(g.blocks(), s[i]));
                        assert(disjoint_blocks(s[i], g.inner.pool.backing));
                    }
                }
                assert(disjoint_from(g.blocks(), self.inner.pool.backing));
                assert(g.valid_block(self.inner.pool.backing));
                assert(pool_in_segment(s, g.seg.base as int, g.seg_end())) by {
                    assert forall|i: int|
                        0 <= i < s.len() && (#[trigger] s[i]).size > 0 implies disjoint_blocks(
                        above_guard(g.seg_end()),
                        s[i],
                    ) && disjoint_blocks(below_guard(g.seg.base as int), s[i]) by {
                        lemma_pool_below(s, g1.seg.base as int, g1.seg_end(), i);
                    }
                }
            }
            if kind == 1 {
                // The carved block comes out of a slot of the local pool,
                // which is a live global allocation.
                assert(g.valid_block(pool_slot)) by {
                    let iw = choose|i: int|
                        0 <= i < l1.len() && l1[i] == pool_slot && (#[trigger] l1[i]).size > 0;
                    assert(l1[iw] == pool_slot);
                    lemma_pool_below(l1, g1.seg.base as int, g1.seg_end(), iw);
                    assert forall|j: int|
                        0 <= j < g1.blocks().len() && (#[trigger] g1.blocks()[j]).size > 0 implies disjoint_blocks(
                        pool_slot,
                        g1.blocks()[j],
                    ) by {
                        assert(disjoint_from(l1, g1.blocks()[j]));
                    }
                    assert(disjoint_blocks(pool_slot, g1.inner.pool.backing));
                }
            }
            match out {
                Ok(res) => {
                    if kind == 1 {
                        assert(g.valid_block(res));
                        assert(disjoint_blocks(res, self.inner.pool.backing));
                        if keep@.size > 0 {
                            assert(disjoint_blocks(keep@, pool_slot));
                            assert(disjoint_blocks(keep@, res));
                            assert(disjoint_from(self.blocks(), keep@));
                        }
                    } else {
                        assert(disjoint_from(self.blocks(), res)) by {
                            assert forall|i: int|
                                0 <= i < self.blocks().len() && (#[trigger] self.blocks()[i]).size
                                    > 0 implies disjoint_blocks(res, self.blocks()[i]) by {
                                let x = self.blocks()[i];
                                lemma_pool_below(self.blocks(), g1.seg.base as int, g1.seg_end(), i);
                                assert forall|j: int|
                                    0 <= j < g1.blocks().len() && (#[trigger] g1.blocks()[j]).size
                                        > 0 implies disjoint_blocks(x, g1.blocks()[j]) by {
                                    assert(disjoint_from(self.blocks(), g1.blocks()[j]));
                                }
                                assert(disjoint_from(g1.blocks(), x));
                                assert(disjoint_blocks(x, g1.inner.pool.backing));
                                assert(disjoint_blocks(x, res));
                            }
                        }
                        assert(disjoint_blocks(res, self.inner.pool.backing)) by {
                            assert(disjoint_from(g1.blocks(), self.inner.pool.backing));
                            assert(disjoint_blocks(self.inner.pool.backing, res));
                        }
                        if keep@.size > 0 {
                            assert(disjoint_from(g1.blocks(), keep@));
                            assert(disjoint_blocks(keep@, res));
                            assert(disjoint_from(g.blocks(), keep@));
                        }
                    }
                }
                Err(()) => {
                    if keep@.size > 0 && (kind == 2) {
                        assert(disjoint_from(g.blocks(), keep@));
                    }
                }
            }
        }
        out
    }

    /// Free a block back into the local pool, then drain excess memory to
    /// the global allocator.  The ghost block `keep` names a live
    /// allocation whose validity the caller wants carried across.
    #[verifier::spinoff_prover]
    pub fn free(&mut self, g: &mut GlobalAllocator, block: Block, keep: Ghost<Block>)
        requires
            old(self).wf_with(old(g)),
            old(g).wf(),
            block.wf(),
            block.size > 0 ==> old(self).valid_block_with(old(g), block),
            keep@.size > 0 ==> old(self).valid_block_with(old(g), keep@) && disjoint_blocks(
                keep@,
                block,
            ),
        ensures
            final(self).wf_with(final(g)),
            final(g).wf(),
            final(g).seg.base == old(g).seg.base,
            final(g).seg.limit == old(g).seg.limit,
            keep@.size > 0 ==> final(self).valid_block_with(final(g), keep@) && keep@.end()
                <= final(g).seg_end() && (forall|k: int|
                0 <= k < keep@.size ==> #[trigger] final(g).seg.spec_byte(keep@.addr() + k) == old(
                    g,
                ).seg.spec_byte(keep@.addr() + k)),
            (block.size > 0 && old(self).inner.slack() >= 1 + EXTRA_ELEMENTS
                && old(self).inner.total_bytes + block.size <= config::LOCAL_MEMTRIM_LIMIT
                && old(self).inner.total_bytes + block.size >= config::FRAGMENTATION_SCALE * (
            old(self).blocks().len() + 1)) ==> {
                &&& final(self).inner.total_bytes == old(self).inner.total_bytes + block.size
                &&& final(g).blocks() == old(g).blocks()
                &&& final(g).inner.total_bytes == old(g).inner.total_bytes
                &&& final(g).seg_end() == old(g).seg_end()
            },
    {
        if block.is_empty() {
            return ;
        }
        match self.reserve(g, 1, keep, Ghost(block)) {
            Err(()) => {
                // Out of memory while growing the pool storage: the block
                // is abandoned, much as an out-of-memory abort would
                // abandon the whole process.
                return ;
            }
            Ok(()) => {}
        }
        proof {
            assert(self.valid_block_with(g, block));
            assert(block.end() <= ADDR_CEILING);
        }
        let ghost s1 = self.blocks();
        self.inner.free(block);
        proof {
            self.lemma_after_local(g, s1, block);
            assert(disjoint_from(self.blocks(), self.inner.pool.backing)) by {
                assert(disjoint_blocks(self.inner.pool.backing, block));
            }
            if keep@.size > 0 {
                assert(disjoint_from(s1, keep@));
                assert(disjoint_from(self.blocks(), keep@));
            }
        }
        self.on_new_memory(g, keep);
    }

    /// Reallocate a block of the local tier in place.
    ///
    /// On failure the pool, the block and every byte of the segment are
    /// untouched.
    #[verifier::spinoff_prover]
    #[verifier::rlimit(100)]
    pub fn realloc_inplace(
        &mut self,
        g: &mut GlobalAllocator,
        block: Block,
        new_size: usize,
        keep: Ghost<Block>,
    ) -> (r: Result<Block, Block>)
        requires
            old(self).wf_with(old(g)),
            old(g).wf(),
            block.size > 0,
            old(self).valid_block_with(old(g), block),
            keep@.size > 0 ==> old(self).valid_block_with(old(g), keep@) && disjoint_blocks(
                keep@,
                block,
            ),
        ensures
            final(self).wf_with(final(g)),
            final(g).wf(),
            final(g).seg.base == old(g).seg.base,
            final(g).seg.limit == old(g).seg.limit,
            final(g).seg_end() >= old(g).seg_end(),
            forall|a: int|
                old(g).seg.base <= a < old(g).seg_end() ==> final(g).seg.spec_byte(a) == old(
                    g,
                ).seg.spec_byte(a),
            old(self).inner.slack() >= 1 + EXTRA_ELEMENTS ==> (r is Ok <==> (new_size <= block.size
                || crate::bookkeeper::has_grow_neighbor(
                old(self).blocks(),
                block,
                new_size as int,
            ))),
            r is Err ==> new_size > block.size || old(self).inner.slack() < 1 + EXTRA_ELEMENTS,
            r matches Ok(b) ==> {
                &&& b.addr() == block.addr()
                &&& b.size == new_size
                &&& b.wf()
                &&& (b.size > 0 ==> final(self).valid_block_with(final(g), b))
            },
            r matches Err(b) ==> b == block && final(self).valid_block_with(final(g), block),
            keep@.size > 0 ==> final(self).valid_block_with(final(g), keep@),
    {
        let out: Result<Block, Block>;
        let ghost mut l1: Seq<Block> = self.blocks();
        let ghost mut g1: GlobalAllocator = *g;
        let ghost mut kind: int = 0;
        match self.reserve(g, 1, keep, Ghost(block)) {
            Err(()) => {
                out = Err(block);
                proof {
                    l1 = self.blocks();
                    g1 = *g;
                }
            }
            Ok(()) => {
                proof {
                    kind = 1;
                    l1 = self.blocks();
                    g1 = *g;
                    assert(block.end() <= ADDR_CEILING);
                }
                out = self.inner.realloc_inplace(block, new_size);
            }
        }
        proof {
            match out {
                Ok(b) => {
                    assert(kind == 1);
                    let s1 = l1;
                    if b.size > 0 {
                        if new_size > block.size {
                            let i = choose|i: int|
                                {
                                    &&& 0 <= i < s1.len()
                                    &&& (#[trigger] s1[i]).size > 0
                                    &&& s1[i].addr() == block.end()
                                    &&& b.end() <= s1[i].end()
                                };
                            lemma_pool_below(s1, g1.seg.base as int, g1.seg_end(), i);
                            assert forall|j: int|
                                0 <= j < g1.blocks().len() && (#[trigger] g1.blocks()[j]).size
                                    > 0 implies disjoint_blocks(s1[i], g1.blocks()[j]) by {
                                assert(disjoint_from(s1, g1.blocks()[j]));
                            }
                            assert(b.end() <= g1.seg_end());
                            assert forall|j: int|
                                0 <= j < g1.blocks().len() && (#[trigger] g1.blocks()[j]).size
                                    > 0 implies disjoint_blocks(b, g1.blocks()[j]) by {
                                let y = g1.blocks()[j];
                                assert(disjoint_blocks(block, y));
                                assert(disjoint_blocks(s1[i], y));
                                if !(y.end() <= b.addr()) {
                                    assert(block.end() <= y.addr());
                                    if y.addr() < b.end() {
                                        assert(y.end() <= s1[i].addr());
                                        assert(false);
                                    }
                                }
                            }
                            assert(disjoint_from(g1.blocks(), b));
                            assert(disjoint_blocks(b, g1.inner.pool.backing)) by {
                                let y = g1.inner.pool.backing;
                                assert(disjoint_blocks(block, y));
                                assert(disjoint_blocks(s1[i], y));
                                if !(y.end() <= b.addr()) {
                                    assert(block.end() <= y.addr());
                                    if y.addr() < b.end() {
                                        assert(y.end() <= s1[i].addr());
                                        assert(false);
                                    }
                                }
                            }
                            assert(disjoint_blocks(b, self.inner.pool.backing)) by {
                                let y = self.inner.pool.backing;
                                assert(disjoint_blocks(block, y)) by {
                                    assert(disjoint_from(s1, y) || disjoint_blocks(block, y));
                                }
                                assert(disjoint_blocks(s1[i], y)) by {
                                    assert(disjoint_from(s1, y));
                                }
                                if !(y.end() <= b.addr()) {
                                    assert(block.end() <= y.addr());
                                    if y.addr() < b.end() {
                                        assert(y.end() <= s1[i].addr());
                                        assert(false);
                                    }
                                }
                            }
                        } else {
                            assert(b.end() <= block.end());
                            assert forall|j: int|
                                0 <= j < g1.blocks().len() && (#[trigger] g1.blocks()[j]).size
                                    > 0 implies disjoint_blocks(b, g1.blocks()[j]) by {
                                assert(disjoint_blocks(block, g1.blocks()[j]));
                            }
                            assert(disjoint_from(g1.blocks(), b));
                            assert(disjoint_blocks(b, g1.inner.pool.backing));
                            assert(disjoint_blocks(b, self.inner.pool.backing));
                        }
                    }
                    // The local pool keeps the coupled invariant.
                    let s2 = self.blocks();
                    self.lemma_after_local(g, s1, block);
                    assert(disjoint_from(self.blocks(), self.inner.pool.backing)) by {
                        assert(disjoint_blocks(self.inner.pool.backing, block));
                    }
                    if b.size > 0 {
                        assert(disjoint_from(self.blocks(), b)) by {
                            assert(b.size > 0 ==> disjoint_from(self.blocks(), b));
                        }
                    }
                    if keep@.size > 0 {
                        assert(disjoint_from(s1, keep@));
                        assert(disjoint_from(self.blocks(), keep@));
                    }
                }
                Err(b) => {
                    if kind == 1 {
                        assert(self.blocks() == l1);
                    }
                }
            }
        }
        out
    }

    /// Reallocate a block of the local tier, copying its bytes when it has
    /// to move.
    #[verifier::spinoff_prover]
    #[verifier::rlimit(100)]
    pub fn realloc(
        &mut self,
        g: &mut GlobalAllocator,
        block: Block,
        new_size: usize,
        align: usize,
    ) -> (r: Result<Block, ()>)
        requires
            old(self).wf_with(old(g)),
            old(g).wf(),
            block.size > 0,
            new_size >= 1,
            align >= 1,
            block.addr() % align as int == 0,
            old(self).valid_block_with(old(g), block),
        ensures
            final(self).wf_with(final(g)),
            final(g).wf(),
            final(g).seg.base == old(g).seg.base,
            final(g).seg.limit == old(g).seg.limit,
            r matches Ok(res) ==> {
                &&& res.size == new_size
                &&& res.wf()
                &&& res.addr() % align as int == 0
                &&& final(self).valid_block_with(final(g), res)
                &&& res.end() <= final(g).seg_end()
                &&& final(g).seg.base <= res.addr()
                &&& forall|k: int|
                    0 <= k < new_size && k < block.size ==> #[trigger] final(g).seg.spec_byte(
                        res.addr() + k,
                    ) == old(g).seg.spec_byte(block.addr() + k)
            },
            r is Err ==> oom_for(*final(g), new_size as int, align as int)
                || final(self).inner.slack() < 2 + EXTRA_ELEMENTS as int,
    {
        let out: Result<Block, ()>;
        let ghost mut kind: int = 0;
        let ghost mut gmid: GlobalAllocator = *g;
        let ghost mut seg2: Segment = g.seg;
        let ghost mut count_g: int = 0;
        match self.realloc_inplace(g, block, new_size, Ghost(Block { ptr: Pointer { addr: 1 }, size: 0 })) {
            Ok(res) => {
                out = Ok(res);
                proof {
                    if res.size > 0 {
                        assert(res.end() <= g.seg_end());
                    }
                }
            }
            Err(block) => {
                proof {
                    gmid = *g;
                }
                match self.allocate(g, new_size, align, Ghost(block)) {
                    Err(()) => {
                        out = Err(());
                    }
                    Ok(res) => {
                        proof {
                            kind = 2;
                            assert(disjoint_blocks(block, res));
                            assert(self.valid_block_with(g, block));
                            assert(self.valid_block_with(g, res));
                        }
                        // Copy the common prefix of the data over.
                        let count: usize = if new_size < block.size {
                            new_size
                        } else {
                            block.size()
                        };
                        proof {
                            seg2 = g.seg;
                            count_g = count as int;
                            lemma_pool_below_block(g, block);
                            lemma_pool_below_block(g, res);
                        }
                        let ghost ginner2 = g.inner;
                        let ghost gbrk2 = g.brk.state;
                        let ghost linner2 = self.inner;
                        let mut k: usize = 0;
                        while k < count
                            invariant
                                k <= count,
                                count <= block.size,
                                count <= res.size,
                                block.wf(),
                                res.wf(),
                                g.seg.wf(),
                                disjoint_blocks(block, res),
                                g.inner == ginner2,
                                g.brk.state == gbrk2,
                                self.inner == linner2,
                                seg2.base == g.seg.base,
                                seg2.limit == g.seg.limit,
                                seg2.spec_end() == g.seg.spec_end(),
                                g.seg.base <= block.addr(),
                                block.end() <= g.seg.spec_end(),
                                g.seg.base <= res.addr(),
                                res.end() <= g.seg.spec_end(),
                                forall|a: int|
                                    g.seg.base <= a < g.seg.spec_end() && !(res.addr() <= a
                                        < res.addr() + count) ==> g.seg.spec_byte(a)
                                        == seg2.spec_byte(a),
                                forall|j: int|
                                    0 <= j < k ==> #[trigger] g.seg.spec_byte(res.addr() + j)
                                        == seg2.spec_byte(block.addr() + j),
                            decreases count - k,
                        {
                            let v: u8 = g.seg.read(block.ptr.addr + k);
                            g.seg.write(res.ptr.addr + k, v);
                            k = k + 1;
                        }
                        proof {
                            assert(g.brk.wf(&g.seg));
                            assert(g.wf());
                            assert(self.wf_with(g));
                            assert(self.valid_block_with(g, block));
                            assert(self.valid_block_with(g, res));
                        }
                        // Free the old block; its position is found anew.
                        self.free(g, block, Ghost(res));
                        proof {
                            assert(self.valid_block_with(g, res));
                            assert(forall|k2: int|
                                0 <= k2 < count_g ==> #[trigger] g.seg.spec_byte(res.addr() + k2)
                                    == seg2.spec_byte(block.addr() + k2));
                        }
                        out = Ok(res);
                    }
                }
            }
        }
        proof {
            match out {
                Ok(res) => {
                    if kind == 2 {
                        assert forall|k: int| 0 <= k < new_size && k < block.size implies #[trigger] g.seg.spec_byte(
                            res.addr() + k,
                        ) == old(g).seg.spec_byte(block.addr() + k) by {
                            assert(k < count_g);
                            assert(g.seg.spec_byte(res.addr() + k) == seg2.spec_byte(
                                block.addr() + k,
                            ));
                            assert(seg2.spec_byte(block.addr() + k) == gmid.seg.spec_byte(
                                block.addr() + k,
                            ));
                            assert(gmid.seg.spec_byte(block.addr() + k) == old(g).seg.spec_byte(
                                block.addr() + k,
                            ));
                        }
                    } else {
                        assert(res.addr() == block.addr());
                        assert forall|k: int| 0 <= k < new_size && k < block.size implies #[trigger] g.seg.spec_byte(
                            res.addr() + k,
                        ) == old(g).seg.spec_byte(block.addr() + k) by {
                            assert(g.seg.spec_byte(block.addr() + k) == old(g).seg.spec_byte(
                                block.addr() + k,
                            ));
                        }
                    }
                    if res.size > 0 {
                        lemma_pool_below_block(g, res);
                    }
                }
                Err(()) => {}
            }
        }
        out
    }

    /// Called right after new memory has been added to the local pool:
    /// when the pool is too fragmented or too large, drain blocks back to
    /// the global allocator until the pool is small again.
    #[verifier::spinoff_prover]
    pub fn on_new_memory(&mut self, g: &mut GlobalAllocator, keep: Ghost<Block>)
        requires
            old(self).wf_with(old(g)),
            old(g).wf(),
            keep@.size > 0 ==> old(self).valid_block_with(old(g), keep@),
        ensures
            final(self).wf_with(final(g)),
            final(g).wf(),
            final(g).seg.base == old(g).seg.base,
            final(g).seg.limit == old(g).seg.limit,
            keep@.size > 0 ==> final(self).valid_block_with(final(g), keep@) && keep@.end()
                <= final(g).seg_end() && (forall|k: int|
                0 <= k < keep@.size ==> #[trigger] final(g).seg.spec_byte(keep@.addr() + k) == old(
                    g,
                ).seg.spec_byte(keep@.addr() + k)),
            (old(self).inner.total_bytes >= config::FRAGMENTATION_SCALE * old(self).blocks().len()
                && old(self).inner.total_bytes <= config::LOCAL_MEMTRIM_LIMIT) ==> {
                &&& final(self).inner == old(self).inner
                &&& final(g).blocks() == old(g).blocks()
                &&& final(g).inner.total_bytes == old(g).inner.total_bytes
                &&& final(g).inner.pool.backing == old(g).inner.pool.backing
                &&& final(g).seg_end() == old(g).seg_end()
            },
            (old(self).inner.total_bytes < config::FRAGMENTATION_SCALE * old(self).blocks().len()
                || old(self).inner.total_bytes > config::LOCAL_MEMTRIM_LIMIT)
                ==> final(self).inner.total_bytes < config::LOCAL_MEMTRIM_STOP
                || final(self).blocks().len() == 0,
            (old(g).inner.total_bytes + old(self).inner.total_bytes <= config::OS_MEMTRIM_LIMIT
                && old(g).inner.slack() >= old(self).blocks().len() + 1 + EXTRA_ELEMENTS) ==> {
                &&& final(g).inner.total_bytes == old(g).inner.total_bytes + (
                old(self).inner.total_bytes - final(self).inner.total_bytes)
                &&& final(g).seg_end() == old(g).seg_end()
            },
    {
        proof {
            // The slot count is far below the address ceiling, so scaling
            // it by the fragmentation constant cannot wrap.
            assert(self.inner.pool.backing.size <= ADDR_CEILING);
            assert(self.blocks().len() <= self.inner.pool.spec_cap());
        }
        let do_trim: bool = {
            let total: usize = self.inner.total_bytes();
            let len: usize = self.inner.len();
            total < config::FRAGMENTATION_SCALE * len || total > config::LOCAL_MEMTRIM_LIMIT
        };
        if !do_trim {
            return ;
        }
        loop
            invariant
                self.wf_with(g),
                g.wf(),
                g.seg.base == old(g).seg.base,
                g.seg.limit == old(g).seg.limit,
                keep@.size > 0 ==> self.valid_block_with(g, keep@) && keep@.end() <= g.seg_end()
                    && (forall|k: int|
                    0 <= k < keep@.size ==> #[trigger] g.seg.spec_byte(keep@.addr() + k) == old(
                        g,
                    ).seg.spec_byte(keep@.addr() + k)),
                (old(g).inner.total_bytes + old(self).inner.total_bytes
                    <= config::OS_MEMTRIM_LIMIT && old(g).inner.slack()
                    >= old(self).blocks().len() + 1 + EXTRA_ELEMENTS) ==> {
                    &&& g.inner.total_bytes == old(g).inner.total_bytes + (
                    old(self).inner.total_bytes - self.inner.total_bytes)
                    &&& g.inner.slack() >= self.blocks().len() + 1 + EXTRA_ELEMENTS
                    &&& g.seg_end() == old(g).seg_end()
                    &&& self.inner.total_bytes <= old(self).inner.total_bytes
                },
            ensures
                self.inner.total_bytes < config::LOCAL_MEMTRIM_STOP || self.blocks().len() == 0,
            decreases self.blocks().len(),
        {
            let ghost l0 = self.blocks();
            let ghost gpre = *g;
            let b = match self.inner.pop() {
                None => { break ; },
                Some(b) => b,
            };
            proof {
                // The popped block is a live global allocation.
                let t = l0.len() - 1;
                assert(l0.last() == l0[t]);
                let lw = LocalAllocator { inner: old(self).inner };
                lemma_pool_below(l0, g.seg.base as int, g.seg_end(), t);
                assert forall|j: int|
                    0 <= j < g.blocks().len() && (#[trigger] g.blocks()[j]).size > 0 implies disjoint_blocks(
                    b,
                    g.blocks()[j],
                ) by {
                    assert(disjoint_from(l0, g.blocks()[j]));
                }
                assert(disjoint_blocks(b, g.inner.pool.backing));
                assert(g.valid_block(b));
                assert(disjoint_blocks(b, self.inner.pool.backing)) by {
                    assert(disjoint_from(l0, self.inner.pool.backing));
                }
            }
            let ghost s1 = self.blocks();
            g.free(b);
            proof {
                let lmid = LocalAllocator { inner: self.inner };
                assert forall|j: int|
                    0 <= j < gpre.blocks().len() && (#[trigger] gpre.blocks()[j]).size
                        > 0 implies disjoint_from(s1, gpre.blocks()[j]) by {
                    assert forall|i: int|
                        0 <= i < s1.len() && (#[trigger] s1[i]).size > 0 implies disjoint_blocks(
                        gpre.blocks()[j],
                        s1[i],
                    ) by {
                        assert(disjoint_from(l0, gpre.blocks()[j]));
                    }
                }
                assert forall|i: int|
                    0 <= i < s1.len() && (#[trigger] s1[i]).size > 0 implies disjoint_from(
                    g.blocks(),
                    s1[i],
                ) && disjoint_blocks(s1[i], g.inner.pool.backing) && s1[i].end()
                    <= g.seg_end() by {
                    let x = s1[i];
                    lemma_pool_below(s1, gpre.seg.base as int, gpre.seg_end(), i);
                    assert forall|j: int|
                        0 <= j < gpre.blocks().len() && (#[trigger] gpre.blocks()[j]).size
                            > 0 implies disjoint_blocks(x, gpre.blocks()[j]) by {
                        assert(disjoint_from(s1, gpre.blocks()[j]));
                    }
                    assert(disjoint_from(gpre.blocks(), x));
                    assert(disjoint_blocks(x, gpre.inner.pool.backing));
                    assert(disjoint_blocks(x, b));
                    assert(disjoint_from(g.blocks(), x));
                    assert(x.end() <= g.seg_end());
                }
                assert forall|j: int|
                    0 <= j < g.blocks().len() && (#[trigger] g.blocks()[j]).size > 0 implies disjoint_from(
                    s1,
                    g.blocks()[j],
                ) by {
                    assert forall|i: int|
                        0 <= i < s1.len() && (#[trigger] s1[i]).size > 0 implies disjoint_blocks(
                        g.blocks()[j],
                        s1[i],
                    ) by {
                        assert(disjoint_from(g.blocks(), s1[i]));
                    }
                }
                assert(disjoint_from(s1, g.inner.pool.backing)) by {
                    assert forall|i: int|
                        0 <= i < s1.len() && (#[trigger] s1[i]).size > 0 implies disjoint_blocks(
                        g.inner.pool.backing,
                        s1[i],
                    ) by {
                        assert(disjoint_from(g.blocks(), s1[i]));
                        assert(disjoint_blocks(s1[i], g.inner.pool.backing));
                    }
                }
                assert(pool_in_segment(s1, g.seg.base as int, g.seg_end())) by {
                    assert forall|i: int|
                        0 <= i < s1.len() && (#[trigger] s1[i]).size > 0 implies disjoint_blocks(
                        above_guard(g.seg_end()),
                        s1[i],
                    ) && disjoint_blocks(below_guard(g.seg.base as int), s1[i]) by {
                        assert(disjoint_from(g.blocks(), s1[i]));
                        assert(s1[i].end() <= g.seg_end());
                        lemma_pool_below(s1, gpre.seg.base as int, gpre.seg_end(), i);
                    }
                }
                // The local pool storage stays live.
                let lb = self.inner.pool.backing;
                assert(disjoint_blocks(lb, b)) by {
                    assert(disjoint_from(l0, lb));
                }
                assert(disjoint_from(g.blocks(), lb));
                assert(disjoint_blocks(lb, g.inner.pool.backing));
                assert(lb.end() <= g.seg_end());
                assert(g.valid_block(lb));
                if keep@.size > 0 {
                    assert(disjoint_blocks(keep@, b)) by {
                        assert(disjoint_from(l0, keep@));
                    }
                    assert(disjoint_from(g.blocks(), keep@));
                    assert(disjoint_blocks(keep@, g.inner.pool.backing));
                    assert(keep@.end() <= g.seg_end());
                    assert(disjoint_from(self.blocks(), keep@)) by {
                        assert(disjoint_from(l0, keep@));
                    }
                }
            }
            proof {
                if keep@.size > 0 {
                    assert forall|k: int| 0 <= k < keep@.size implies #[trigger] g.seg.spec_byte(
                        keep@.addr() + k,
                    ) == old(g).seg.spec_byte(keep@.addr() + k) by {
                        assert(keep@.addr() + k < gpre.seg_end());
                        assert(keep@.addr() + k < g.seg_end());
                        assert(g.seg.spec_byte(keep@.addr() + k) == gpre.seg.spec_byte(
                            keep@.addr() + k,
                        ));
                    }
                }
            }
            if self.inner.total_bytes() < config::LOCAL_MEMTRIM_STOP {
                break ;
            }
        }
    }
}

} // verus!
