//! A memory-efficient userspace allocator core, verified with Verus.
//!
//! The crate models the bookkeeping engine of a break-backed allocator: a
//! sorted, coalesced pool of free extents, a program-break arbiter over an
//! explicit data segment, and a two-tier topology of a global allocator plus
//! a local allocator that drains back into the global one.
//!
//! Addresses are held as plain machine words and the data segment is an
//! explicit byte store, so every allocation decision and every invariant of
//! the pool is stated and proved.  The raw system-call surface (moving the
//! real program break, scheduler yields, thread destructors) is I/O and
//! lives outside this crate.

use vstd::prelude::*;

pub mod config;
pub mod log;
pub mod sys;
pub mod ptr;
pub mod leak;
pub mod block;
pub mod random;
pub mod lv;
pub mod lazy_init;
pub mod arena;
pub mod pool;
pub mod bookkeeper;
pub mod brk;
pub mod allocator;

use crate::block::Block;
use crate::ptr::Pointer;
use crate::allocator::{GlobalAllocator, LocalAllocator};
use crate::bookkeeper::{disjoint_from, disjoint_blocks, EXTRA_ELEMENTS};
use crate::pool::ALIGN_OF_BLOCK;
use crate::allocator::INITIAL_POOL_BYTES;

verus! {

/// The allocator machine: a global allocator and, while the thread-local
/// tier is up, a local allocator that draws from it.
///
/// Every operation goes to the local allocator when it is present, and
/// falls through to the global allocator otherwise — in particular after
/// the local tier has been torn down.
pub struct Allocator {
    /// The global allocator.
    pub global: GlobalAllocator,
    /// The local allocator, while the thread-local tier is alive.
    pub local: Option<LocalAllocator>,
}

impl Allocator {
    /// The machine invariant.
    pub open spec fn wf(&self) -> bool {
        &&& self.global.wf()
        &&& (self.local matches Some(l) ==> l.wf_with(&self.global))
    }

    /// A block that may be freed or reallocated: a live allocation of the
    /// machine.
    pub open spec fn valid_block(&self, b: Block) -> bool {
        &&& self.global.valid_block(b)
        &&& (self.local matches Some(l) ==> l.valid_block_with(&self.global, b))
    }

    /// The byte held at address `a` of the data segment.
    pub open spec fn spec_byte(&self, a: int) -> u8 {
        self.global.seg.spec_byte(a)
    }

    /// The current break.
    pub open spec fn seg_end(&self) -> int {
        self.global.seg_end()
    }

    /// The pool of the tier that serves the next operation: the local pool
    /// while the local tier is up, else the global pool.
    pub open spec fn tier_blocks(&self) -> Seq<Block> {
        match self.local {
            Some(l) => l.blocks(),
            None => self.global.blocks(),
        }
    }

    /// The storage slack of the serving tier.
    pub open spec fn tier_slack(&self) -> int {
        match self.local {
            Some(l) => l.inner.slack(),
            None => self.global.inner.slack(),
        }
    }

    /// The byte count of the serving tier's pool.
    pub open spec fn tier_total(&self) -> int {
        match self.local {
            Some(l) => l.inner.total_bytes as int,
            None => self.global.inner.total_bytes as int,
        }
    }

    /// Create a machine over the segment `[base, base)` growable up to
    /// `limit`, without a local tier.
    pub fn new(base: usize, limit: usize) -> (r: Result<Allocator, ()>)
        requires
            1 <= base <= limit,
            limit < crate::bookkeeper::ADDR_CEILING,
        ensures
            r is Ok <==> base + INITIAL_POOL_BYTES + config::spec_extra_brk(
                INITIAL_POOL_BYTES as int,
            ) + ALIGN_OF_BLOCK <= limit,
            r matches Ok(a) ==> a.wf() && a.global.seg.base == base && a.global.seg.limit == limit
                && a.local is None,
    {
        match GlobalAllocator::init(base, limit) {
            Err(()) => Err(()),
            Ok(global) => Ok(Allocator { global, local: None }),
        }
    }

    /// Bring up the local tier, drawing its pool storage from the global
    /// allocator.  Does nothing if the tier is already up.
    pub fn init_local(&mut self) -> (r: Result<(), ()>)
        requires
            old(self).wf(),
        ensures
            final(self).wf(),
            final(self).global.seg.base == old(self).global.seg.base,
            final(self).global.seg.limit == old(self).global.seg.limit,
            r is Ok && old(self).local is None ==> final(self).local is Some,
            old(self).local is Some ==> final(self).local == old(self).local
                && final(self).global == old(self).global,
            r is Err ==> {
                ||| final(self).seg_end() + INITIAL_POOL_BYTES + config::spec_extra_brk(
                    INITIAL_POOL_BYTES as int,
                ) + ALIGN_OF_BLOCK > final(self).global.seg.limit
                ||| final(self).global.inner.slack() < 2 + EXTRA_ELEMENTS as int
            },
    {
        if self.local.is_some() {
            return Ok(());
        }
        match LocalAllocator::init(&mut self.global) {
            Err(()) => Err(()),
            Ok(l) => {
                self.local = Some(l);
                Ok(())
            }
        }
    }

    /// Tear the local tier down: drain every block of the local pool, and
    /// the pool's own storage, back into the global allocator.  Later
    /// operations fall through to the global allocator.
    #[verifier::spinoff_prover]
    #[verifier::rlimit(100)]
    pub fn teardown_local(&mut self)
        requires
            old(self).wf(),
        ensures
            final(self).wf(),
            final(self).local is None,
            final(self).global.seg.base == old(self).global.seg.base,
            final(self).global.seg.limit == old(self).global.seg.limit,
            old(self).local is None ==> final(self).global == old(self).global,
            old(self).local matches Some(l0) ==> ((old(self).global.inner.total_bytes
                + l0.inner.total_bytes + l0.inner.pool.backing.size <= config::OS_MEMTRIM_LIMIT
                && old(self).global.inner.slack() >= l0.blocks().len() + 2 + EXTRA_ELEMENTS) ==> {
                &&& final(self).global.inner.total_bytes == old(self).global.inner.total_bytes
                    + l0.inner.total_bytes + l0.inner.pool.backing.size
                &&& final(self).seg_end() == old(self).seg_end()
            }),
    {
        let l = self.local.take();
        let mut l = match l {
            None => {
                return ;
            }
            Some(l) => l,
        };
        let ghost l0 = l;
        let g = &mut self.global;
        loop
            invariant
                l.wf_with(g),
                g.wf(),
                g.seg.base == old(self).global.seg.base,
                g.seg.limit == old(self).global.seg.limit,
                l.inner.pool.backing == l0.inner.pool.backing,
                (old(self).global.inner.total_bytes + l0.inner.total_bytes
                    + l0.inner.pool.backing.size <= config::OS_MEMTRIM_LIMIT && old(
                    self,
                ).global.inner.slack() >= l0.blocks().len() + 2 + EXTRA_ELEMENTS) ==> {
                    &&& g.inner.total_bytes == old(self).global.inner.total_bytes + (
                    l0.inner.total_bytes - l.inner.total_bytes)
                    &&& g.inner.slack() >= l.blocks().len() + 2 + EXTRA_ELEMENTS
                    &&& g.seg_end() == old(self).global.seg_end()
                    &&& l.inner.total_bytes <= l0.inner.total_bytes
                },
            ensures
                l.blocks().len() == 0,
            decreases l.blocks().len(),
        {
            let ghost l0 = l.blocks();
            let ghost gpre = *g;
            let b = match l.inner.pop() {
                None => { break ; },
                Some(b) => b,
            };
            proof {
                let t = l0.len() - 1;
                assert(l0.last() == l0[t]);
                crate::allocator::lemma_pool_below(l0, g.seg.base as int, g.seg_end(), t);
                assert forall|j: int|
                    0 <= j < g.blocks().len() && (#[trigger] g.blocks()[j]).size > 0 implies disjoint_blocks(
                    b,
                    g.blocks()[j],
                ) by {
                    assert(disjoint_from(l0, g.blocks()[j]));
                }
                assert(disjoint_blocks(b, g.inner.pool.backing));
                assert(g.valid_block(b));
                assert(disjoint_blocks(b, l.inner.pool.backing)) by {
                    assert(disjoint_from(l0, l.inner.pool.backing));
                }
            }
            let ghost s1 = l.blocks();
            g.free(b);
            proof {
                assert forall|i: int|
                    0 <= i < s1.len() && (#[trigger] s1[i]).size > 0 implies disjoint_from(
                    g.blocks(),
                    s1[i],
                ) && disjoint_blocks(s1[i], g.inner.pool.backing) && s1[i].end()
                    <= g.seg_end() by {
                    let x = s1[i];
                    crate::allocator::lemma_pool_below(s1, gpre.seg.base as int, gpre.seg_end(), i);
                    assert forall|j: int|
                        0 <= j < gpre.blocks().len() && (#[trigger] gpre.blocks()[j]).size
                            > 0 implies disjoint_blocks(x, gpre.blocks()[j]) by {
                        assert(disjoint_from(s1, gpre.blocks()[j]));
                    }
                    assert(disjoint_from(gpre.blocks(), x));
                    assert(disjoint_blocks(x, gpre.inner.pool.backing));
                    assert(disjoint_blocks(x, b));
                    assert(disjoint_from(g.blocks(), x));
                    assert(x.end() <= g.seg_end());
                }
                assert forall|j: int|
                    0 <= j < g.blocks().len() && (#[trigger] g.blocks()[j]).size > 0 implies disjoint_from(
                    s1,
                    g.blocks()[j],
                ) by {
                    assert forall|i: int|
                        0 <= i < s1.len() && (#[trigger] s1[i]).size > 0 implies disjoint_blocks(
                        g.blocks()[j],
                        s1[i],
                    ) by {
                        assert(disjoint_from(g.blocks(), s1[i]));
                    }
                }
                assert(disjoint_from(s1, g.inner.pool.backing)) by {
                    assert forall|i: int|
                        0 <= i < s1.len() && (#[trigger] s1[i]).size > 0 implies disjoint_blocks(
                        g.inner.pool.backing,
                        s1[i],
                    ) by {
                        assert(disjoint_from(g.blocks(), s1[i]));
                        assert(disjoint_blocks(s1[i], g.inner.pool.backing));
                    }
                }
                assert(crate::allocator::pool_in_segment(s1, g.seg.base as int, g.seg_end())) by {
                    assert forall|i: int|
                        0 <= i < s1.len() && (#[trigger] s1[i]).size > 0 implies disjoint_blocks(
                        crate::allocator::above_guard(g.seg_end()),
                        s1[i],
                    ) && disjoint_blocks(
                        crate::allocator::below_guard(g.seg.base as int),
                        s1[i],
                    ) by {
                        assert(disjoint_from(g.blocks(), s1[i]));
                        assert(s1[i].end() <= g.seg_end());
                        crate::allocator::lemma_pool_below(
                            s1,
                            gpre.seg.base as int,
                            gpre.seg_end(),
                            i,
                        );
                    }
                }
                let lb = l.inner.pool.backing;
                assert(disjoint_blocks(lb, b)) by {
                    assert(disjoint_from(l0, lb));
                }
                assert(disjoint_from(g.blocks(), lb));
                assert(disjoint_blocks(lb, g.inner.pool.backing));
                assert(lb.end() <= g.seg_end());
                assert(g.valid_block(lb));
            }
        }
        proof {
            assert(l.inner.total_bytes == 0) by {
                assert(l.blocks() =~= Seq::<Block>::empty());
                assert(crate::bookkeeper::sum_sizes(l.blocks()) == 0);
            }
        }
        // Take the block holding the pool itself and give it back too.
        let backing = l.inner.pool.backing();
        g.free(backing);
    }

    /// Allocate `size` bytes aligned to `align`.
    ///
    /// Fails only when fresh memory cannot be acquired: the out-of-memory
    /// condition, which the embedding surfaces to its handler.
    #[verifier::spinoff_prover]
    #[verifier::rlimit(100)]
    pub fn allocate(&mut self, size: usize, align: usize) -> (r: Result<usize, ()>)
        requires
            old(self).wf(),
            size >= 1,
            align >= 1,
        ensures
            final(self).wf(),
            final(self).global.seg.base == old(self).global.seg.base,
            final(self).global.seg.limit == old(self).global.seg.limit,
            final(self).seg_end() >= old(self).seg_end(),
            forall|a: int|
                old(self).global.seg.base <= a < old(self).seg_end() ==> final(self).spec_byte(a)
                    == old(self).spec_byte(a),
            final(self).local is Some <==> old(self).local is Some,
            r matches Ok(p) ==> {
                &&& p as int % align as int == 0
                &&& old(self).global.seg.base <= p
                &&& p + size <= final(self).seg_end()
                &&& final(self).valid_block(Block { ptr: Pointer { addr: p }, size })
            },
            r is Err ==> {
                ||| size + config::spec_extra_brk(size as int) + align > usize::MAX
                ||| final(self).seg_end() + size + config::spec_extra_brk(size as int) + align
                    > final(self).global.seg.limit
                ||| final(self).global.inner.slack() < 2 + EXTRA_ELEMENTS as int
                ||| (final(self).local matches Some(l) && l.inner.slack() < 2
                    + EXTRA_ELEMENTS as int)
            },
            old(self).local is None ==> forall|c: Block|
                old(self).valid_block(c) && c.size > 0 ==> #[trigger] final(self).valid_block(c)
                    && (forall|k: int|
                    0 <= k < c.size ==> #[trigger] final(self).spec_byte(c.addr() + k) == old(
                        self,
                    ).spec_byte(c.addr() + k)),
            r matches Ok(q) ==> old(self).local is None ==> forall|c: Block|
                old(self).valid_block(c) && c.size > 0 ==> #[trigger] disjoint_blocks(
                    c,
                    Block { ptr: Pointer { addr: q }, size },
                ),
            old(self).local is None ==> ((old(self).global.inner.slack() >= 2 + EXTRA_ELEMENTS
                && (exists|i: int|
                0 <= i < old(self).tier_blocks().len() && crate::bookkeeper::fits(
                    #[trigger] old(self).tier_blocks()[i],
                    size as int,
                    align as int,
                ))) ==> r is Ok),
    {
        let out: Result<usize, ()>;
        match &mut self.local {
            Some(l) => {
                let r = l.allocate(
                    &mut self.global,
                    size,
                    align,
                    Ghost(Block { ptr: Pointer { addr: 1 }, size: 0 }),
                );
                match r {
                    Err(()) => {
                        out = Err(());
                    }
                    Ok(res) => {
                        proof {
                            crate::allocator::lemma_pool_below_block(&self.global, res);
                        }
                        out = Ok(res.ptr.addr);
                    }
                }
            }
            None => {
                match self.global.allocate(size, align) {
                    Err(()) => {
                        out = Err(());
                    }
                    Ok(res) => {
                        out = Ok(res.ptr.addr);
                    }
                }
            }
        }
        proof {
            if old(self).local is None {
                assert forall|c: Block|
                    old(self).valid_block(c) && c.size > 0 implies #[trigger] self.valid_block(c)
                    && (forall|k: int|
                    0 <= k < c.size ==> #[trigger] self.spec_byte(c.addr() + k) == old(
                        self,
                    ).spec_byte(c.addr() + k)) by {
                    assert(disjoint_from(self.global.blocks(), c));
                    assert(disjoint_blocks(c, self.global.inner.pool.backing));
                    assert(c.end() <= self.seg_end());
                    assert forall|k: int| 0 <= k < c.size implies #[trigger] self.spec_byte(
                        c.addr() + k,
                    ) == old(self).spec_byte(c.addr() + k) by {
                        assert(old(self).global.seg.base <= c.addr() + k < old(self).seg_end());
                    }
                }
                match out {
                    Ok(q) => {
                        assert forall|c: Block|
                            old(self).valid_block(c) && c.size > 0 implies #[trigger] disjoint_blocks(
                            c,
                            Block { ptr: Pointer { addr: q }, size },
                        ) by {
                            assert(self.valid_block(c));
                        }
                    }
                    Err(()) => {
                    }
                }
            }
        }
        out
    }

    /// Free the region of `size` bytes at `p`.
    ///
    /// The region must be a live allocation of this machine (sized
    /// deallocation): anything else is an invalid free and is excluded by
    /// contract.
    #[verifier::spinoff_prover]
    #[verifier::rlimit(100)]
    pub fn free(&mut self, p: usize, size: usize)
        requires
            old(self).wf(),
            p + size <= usize::MAX,
            size > 0 ==> old(self).valid_block(Block { ptr: Pointer { addr: p }, size }),
        ensures
            final(self).wf(),
            final(self).global.seg.base == old(self).global.seg.base,
            final(self).global.seg.limit == old(self).global.seg.limit,
            final(self).local is Some <==> old(self).local is Some,
            (size > 0 && old(self).local is None && old(self).global.inner.slack() >= 1
                + EXTRA_ELEMENTS && old(self).global.inner.total_bytes + size
                <= config::OS_MEMTRIM_LIMIT) ==> {
                &&& final(self).global.inner.total_bytes == old(self).global.inner.total_bytes
                    + size
                &&& final(self).seg_end() == old(self).seg_end()
            },
            old(self).local matches Some(l) ==> ((size > 0 && l.inner.slack() >= 1
                + EXTRA_ELEMENTS && l.inner.total_bytes + size <= config::LOCAL_MEMTRIM_LIMIT
                && l.inner.total_bytes + size >= config::FRAGMENTATION_SCALE * (l.blocks().len()
                + 1)) ==> {
                &&& final(self).tier_total() == old(self).tier_total() + size
                &&& final(self).global.inner.total_bytes == old(self).global.inner.total_bytes
                &&& final(self).seg_end() == old(self).seg_end()
            }),
            old(self).local is None ==> forall|c: Block|
                old(self).valid_block(c) && c.size > 0 && (c.end() <= p || p + size <= c.addr())
                    ==> #[trigger] final(self).valid_block(c),
            old(self).local is None ==> forall|c: Block, k: int|
                old(self).valid_block(c) && c.size > 0 && (c.end() <= p || p + size <= c.addr())
                    && 0 <= k < c.size ==> #[trigger] final(self).spec_byte(c.addr() + k) == old(
                    self,
                ).spec_byte(c.addr() + k),
    {
        let block = Block::from_raw_parts(Pointer::new(p), size);
        match &mut self.local {
            Some(l) => {
                l.free(
                    &mut self.global,
                    block,
                    Ghost(Block { ptr: Pointer { addr: 1 }, size: 0 }),
                );
            }
            None => {
                self.global.free(block);
            }
        }
        proof {
            if old(self).local is None {
                assert forall|c: Block|
                    old(self).valid_block(c) && c.size > 0 && (c.end() <= p || p + size
                        <= c.addr()) implies #[trigger] self.valid_block(c) by {
                    assert(disjoint_blocks(c, block));
                    assert(disjoint_from(self.global.blocks(), c));
                    assert(disjoint_blocks(c, self.global.inner.pool.backing));
                    assert(c.end() <= self.seg_end());
                }
                assert forall|c: Block, k: int|
                    old(self).valid_block(c) && c.size > 0 && (c.end() <= p || p + size
                        <= c.addr()) && 0 <= k < c.size implies #[trigger] self.spec_byte(
                    c.addr() + k,
                ) == old(self).spec_byte(c.addr() + k) by {
                    assert(disjoint_blocks(c, block));
                    assert(self.valid_block(c));
                    assert(old(self).global.seg.base <= c.addr() + k);
                    assert(c.addr() + k < self.seg_end());
                    assert(c.addr() + k < old(self).seg_end());
                }
            }
        }
    }

    /// Reallocate the region of `old_size` bytes at `p` to `size` bytes,
    /// returning the new region's address.  The bytes on
    /// `[0, min(old_size, size))` are preserved.
    #[verifier::spinoff_prover]
    #[verifier::rlimit(100)]
    pub fn realloc(&mut self, p: usize, old_size: usize, size: usize, align: usize) -> (r: Result<
        usize,
        (),
    >)
        requires
            old(self).wf(),
            p + old_size <= usize::MAX,
            old_size >= 1,
            size >= 1,
            align >= 1,
            p % align == 0,
            old(self).valid_block(Block { ptr: Pointer { addr: p }, size: old_size }),
        ensures
            final(self).wf(),
            final(self).global.seg.base == old(self).global.seg.base,
            final(self).global.seg.limit == old(self).global.seg.limit,
            final(self).local is Some <==> old(self).local is Some,
            r matches Ok(q) ==> {
                &&& q % align == 0
                &&& q + size <= final(self).seg_end()
                &&& final(self).valid_block(Block { ptr: Pointer { addr: q }, size })
                &&& forall|k: int|
                    0 <= k < size && k < old_size ==> #[trigger] final(self).spec_byte(q + k)
                        == old(self).spec_byte(p + k)
            },
            r is Err ==> {
                ||| size + config::spec_extra_brk(size as int) + align > usize::MAX
                ||| final(self).seg_end() + size + config::spec_extra_brk(size as int) + align
                    > final(self).global.seg.limit
                ||| final(self).global.inner.slack() < 2 + EXTRA_ELEMENTS as int
                ||| (final(self).local matches Some(l) && l.inner.slack() < 2
                    + EXTRA_ELEMENTS as int)
            },
            old(self).local is None ==> forall|c: Block|
                old(self).valid_block(c) && c.size > 0 && (c.end() <= p || p + old_size
                    <= c.addr()) ==> #[trigger] final(self).valid_block(c),
            old(self).local is None ==> forall|c: Block, k: int|
                old(self).valid_block(c) && c.size > 0 && (c.end() <= p || p + old_size
                    <= c.addr()) && 0 <= k < c.size ==> #[trigger] final(self).spec_byte(
                    c.addr() + k,
                ) == old(self).spec_byte(c.addr() + k),
            r matches Ok(q) ==> old(self).local is None ==> forall|c: Block|
                old(self).valid_block(c) && c.size > 0 && (c.end() <= p || p + old_size
                    <= c.addr()) ==> #[trigger] disjoint_blocks(
                    c,
                    Block { ptr: Pointer { addr: q }, size },
                ),
    {
        let block = Block::from_raw_parts(Pointer::new(p), old_size);
        let out: Result<usize, ()>;
        let ghost mut res_g: Block = block;
        match &mut self.local {
            Some(l) => {
                match l.realloc(&mut self.global, block, size, align) {
                    Err(()) => {
                        out = Err(());
                    }
                    Ok(res) => {
                        proof {
                            res_g = res;
                            crate::allocator::lemma_pool_below_block(&self.global, res);
                        }
                        out = Ok(res.ptr.addr);
                    }
                }
            }
            None => {
                match self.global.realloc(block, size, align) {
                    Err(()) => {
                        out = Err(());
                    }
                    Ok(res) => {
                        proof {
                            res_g = res;
                        }
                        out = Ok(res.ptr.addr);
                    }
                }
            }
        }
        proof {
            if old(self).local is None {
                assert forall|c: Block|
                    old(self).valid_block(c) && c.size > 0 && (c.end() <= p || p + old_size
                        <= c.addr()) implies #[trigger] self.valid_block(c) by {
                    assert(disjoint_blocks(c, block));
                    assert(self.global.valid_block(c));
                }
                assert forall|c: Block, k: int|
                    old(self).valid_block(c) && c.size > 0 && (c.end() <= p || p + old_size
                        <= c.addr()) && 0 <= k < c.size implies #[trigger] self.spec_byte(
                    c.addr() + k,
                ) == old(self).spec_byte(c.addr() + k) by {
                    assert(disjoint_blocks(c, block));
                    assert(self.global.valid_block(c));
                    assert(self.global.seg.spec_byte(c.addr() + k) == old(
                        self,
                    ).global.seg.spec_byte(c.addr() + k));
                }
                match out {
                    Ok(q) => {
                        assert forall|c: Block|
                            old(self).valid_block(c) && c.size > 0 && (c.end() <= p || p + old_size
                                <= c.addr()) implies #[trigger] disjoint_blocks(
                            c,
                            Block { ptr: Pointer { addr: q }, size },
                        ) by {
                            assert(disjoint_blocks(c, block));
                            assert(disjoint_blocks(c, res_g));
                        }
                    }
                    Err(()) => {
                    }
                }
            }
            match out {
                Ok(q) => {
                    assert(q == res_g.ptr.addr && res_g.size == size);
                    assert(self.valid_block(Block { ptr: Pointer { addr: q }, size }));
                    assert forall|k: int| 0 <= k < size && k < old_size implies #[trigger] self.spec_byte(
                        q + k,
                    ) == old(self).spec_byte(p + k) by {
                        assert(self.global.seg.spec_byte(res_g.addr() + k) == old(
                            self,
                        ).global.seg.spec_byte(block.addr() + k));
                    }
                }
                Err(()) => {}
            }
        }
        out
    }


    /// Try to reallocate the region in place: succeed only if no move is
    /// needed.  On failure the region and its bytes are left untouched.
    #[verifier::spinoff_prover]
    #[verifier::rlimit(100)]
    pub fn realloc_inplace(&mut self, p: usize, old_size: usize, size: usize) -> (r: Result<
        (),
        (),
    >)
        requires
            old(self).wf(),
            p + old_size <= usize::MAX,
            old_size >= 1,
            old(self).valid_block(Block { ptr: Pointer { addr: p }, size: old_size }),
        ensures
            final(self).wf(),
            final(self).global.seg.base == old(self).global.seg.base,
            final(self).global.seg.limit == old(self).global.seg.limit,
            final(self).local is Some <==> old(self).local is Some,
            old(self).tier_slack() >= 1 + EXTRA_ELEMENTS ==> (r is Ok <==> (size <= old_size
                || crate::bookkeeper::has_grow_neighbor(
                old(self).tier_blocks(),
                Block { ptr: Pointer { addr: p }, size: old_size },
                size as int,
            ))),
            r is Err ==> size > old_size || old(self).tier_slack() < 1 + EXTRA_ELEMENTS,
            r is Ok ==> size > 0 ==> final(self).valid_block(
                Block { ptr: Pointer { addr: p }, size },
            ),
            r is Err ==> final(self).valid_block(
                Block { ptr: Pointer { addr: p }, size: old_size },
            ) && (forall|a: int|
                old(self).global.seg.base <= a < old(self).seg_end()
                    ==> #[trigger] final(self).spec_byte(a) == old(self).spec_byte(a)),
    {
        let block = Block::from_raw_parts(Pointer::new(p), old_size);
        match &mut self.local {
            Some(l) => {
                match l.realloc_inplace(
                    &mut self.global,
                    block,
                    size,
                    Ghost(Block { ptr: Pointer { addr: 1 }, size: 0 }),
                ) {
                    Err(_) => Err(()),
                    Ok(_) => Ok(()),
                }
            }
            None => {
                match self.global.realloc_inplace(block, size) {
                    Err(_) => Err(()),
                    Ok(_) => Ok(()),
                }
            }
        }
    }

    /// Write the byte at address `a` of a live allocation.
    pub fn write_byte(&mut self, a: usize, value: u8)
        requires
            old(self).wf(),
            old(self).global.seg.base <= a < old(self).seg_end(),
        ensures
            final(self).wf(),
            final(self).seg_end() == old(self).seg_end(),
            final(self).global.seg.base == old(self).global.seg.base,
            final(self).global.seg.limit == old(self).global.seg.limit,
            final(self).global.inner == old(self).global.inner,
            final(self).local == old(self).local,
            final(self).spec_byte(a as int) == value,
            forall|x: int|
                old(self).global.seg.base <= x < old(self).seg_end() && x != a
                    ==> final(self).spec_byte(x) == old(self).spec_byte(x),
    {
        self.global.seg.write(a, value);
        proof {
            assert(self.global.brk.wf(&self.global.seg));
        }
    }

    /// Read the byte at address `a`.
    pub fn read_byte(&self, a: usize) -> (r: u8)
        requires
            self.wf(),
            self.global.seg.base <= a < self.seg_end(),
        ensures
            r == self.spec_byte(a as int),
    {
        self.global.seg.read(a)
    }
}

} // verus!
