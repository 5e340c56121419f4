//! Memory bookkeeping.
//!
//! The bookkeeper holds the pool: a sorted sequence of free blocks with the
//! invariants that every mutating operation must maintain:
//!
//! 1. Non-empty blocks are sorted by address, strictly ascending, and no
//!    two of them touch: any adjacent pair must have been merged.
//! 2. Empty blocks may exist as interior holes used as insertion slack, but
//!    an empty block's address equals the address of its right neighbor (so
//!    the sort key is preserved), and the last block is never empty.
//! 3. `total_bytes` is the sum of the block sizes.
//! 4. The pool storage keeps a slack of `EXTRA_ELEMENTS` slots beyond its
//!    length, except in the middle of a reservation.  The slack absorbs the
//!    worst case of one insertion that itself triggers a reallocation of
//!    the pool storage.

use vstd::prelude::*;
use crate::block::Block;
use crate::ptr::Pointer;
use crate::pool::PoolVec;

verus! {

/// Elements required _more_ than the length as capacity.
///
/// This is how many elements a single operation can add without a chance to
/// grow the storage: the aligner, the excessive space, the old storage
/// buffer, and the pushed or inserted block itself.
pub const EXTRA_ELEMENTS: usize = 4;

/// The highest address the pool may reach.
///
/// Keeping the pool in the lower half of the address space keeps every sum
/// of two block sizes representable.
pub const ADDR_CEILING: usize = usize::MAX / 2;

/// Every block is well-formed and ends below the address ceiling.
pub open spec fn wf_blocks(s: Seq<Block>) -> bool {
    forall|i: int| 0 <= i < s.len() ==> (#[trigger] s[i]).end() <= ADDR_CEILING
}

/// Blocks are sorted by address, and a non-empty block ends strictly below
/// every later block's address: blocks are disjoint and never adjacent.
pub open spec fn sorted_disjoint(s: Seq<Block>) -> bool {
    forall|i: int, j: int|
        #![trigger s[i], s[j]]
        0 <= i < j < s.len() ==> {
            &&& s[i].addr() <= s[j].addr()
            &&& (s[i].size > 0 ==> s[i].end() < s[j].addr())
        }
}

/// An empty block shares the address of its right neighbor.
pub open spec fn empties_chained(s: Seq<Block>) -> bool {
    forall|i: int|
        0 <= i < s.len() - 1 && (#[trigger] s[i]).size == 0 ==> s[i].addr() == s[i + 1].addr()
}

/// There are no trailing empty blocks.
pub open spec fn last_nonempty(s: Seq<Block>) -> bool {
    s.len() > 0 ==> s.last().size > 0
}

/// The pool invariant over the plain sequence of blocks.
pub open spec fn pool_wf(s: Seq<Block>) -> bool {
    &&& wf_blocks(s)
    &&& sorted_disjoint(s)
    &&& empties_chained(s)
    &&& last_nonempty(s)
}

/// The sum of the block sizes.
pub open spec fn sum_sizes(s: Seq<Block>) -> int
    decreases s.len(),
{
    if s.len() == 0 {
        0
    } else {
        sum_sizes(s.drop_last()) + s.last().size
    }
}

/// The ranges of the two blocks do not overlap.
pub open spec fn disjoint_blocks(a: Block, b: Block) -> bool {
    a.end() <= b.addr() || b.end() <= a.addr()
}

/// The block `b` does not overlap any non-empty block of `s`.
pub open spec fn disjoint_from(s: Seq<Block>, b: Block) -> bool {
    forall|i: int|
        0 <= i < s.len() && (#[trigger] s[i]).size > 0 ==> disjoint_blocks(b, s[i])
}

/// The pool with slots `[j, i]` turned into empty sentinels carrying the
/// address of slot `i + 1` (the sort key of the hole).
pub open spec fn cleared(s: Seq<Block>, j: int, i: int) -> Seq<Block> {
    Seq::new(s.len(), |m: int| if j <= m <= i { Block { ptr: s[i + 1].ptr, size: 0 } } else { s[m] })
}

/// The sum of the block sizes is never negative.
pub proof fn lemma_sum_nonneg(s: Seq<Block>)
    ensures
        sum_sizes(s) >= 0,
    decreases s.len(),
{
    if s.len() > 0 {
        lemma_sum_nonneg(s.drop_last());
    }
}

/// Appending a block adds its size to the sum.
pub proof fn lemma_sum_push(s: Seq<Block>, b: Block)
    ensures
        sum_sizes(s.push(b)) == sum_sizes(s) + b.size,
{
    assert(s.push(b).drop_last() =~= s);
    assert(s.push(b).last() == b);
}

/// Replacing a block changes the sum by the difference of the sizes.
pub proof fn lemma_sum_update(s: Seq<Block>, i: int, b: Block)
    requires
        0 <= i < s.len(),
    ensures
        sum_sizes(s.update(i, b)) == sum_sizes(s) - s[i].size + b.size,
    decreases s.len(),
{
    if i == s.len() - 1 {
        assert(s.update(i, b) =~= s.drop_last().push(b));
        lemma_sum_push(s.drop_last(), b);
        assert(s =~= s.drop_last().push(s.last()));
        lemma_sum_push(s.drop_last(), s.last());
    } else {
        assert(s.update(i, b).drop_last() =~= s.drop_last().update(i, b));
        assert(s.update(i, b).last() == s.last());
        lemma_sum_update(s.drop_last(), i, b);
    }
}

/// Inserting a block adds its size to the sum.
pub proof fn lemma_sum_insert(s: Seq<Block>, i: int, b: Block)
    requires
        0 <= i <= s.len(),
    ensures
        sum_sizes(s.insert(i, b)) == sum_sizes(s) + b.size,
    decreases s.len(),
{
    if i == s.len() {
        assert(s.insert(i, b) =~= s.push(b));
        lemma_sum_push(s, b);
    } else {
        assert(s.insert(i, b).drop_last() =~= s.drop_last().insert(i, b));
        assert(s.insert(i, b).last() == s.last());
        lemma_sum_insert(s.drop_last(), i, b);
    }
}

/// Removing a block subtracts its size from the sum.
pub proof fn lemma_sum_remove(s: Seq<Block>, i: int)
    requires
        0 <= i < s.len(),
    ensures
        sum_sizes(s.remove(i)) == sum_sizes(s) - s[i].size,
    decreases s.len(),
{
    if i == s.len() - 1 {
        assert(s.remove(i) =~= s.drop_last());
    } else {
        assert(s.remove(i).drop_last() =~= s.drop_last().remove(i));
        assert(s.remove(i).last() == s.last());
        lemma_sum_remove(s.drop_last(), i);
    }
}

/// Each single block's size is bounded by the sum.
pub proof fn lemma_sum_element(s: Seq<Block>, i: int)
    requires
        0 <= i < s.len(),
    ensures
        sum_sizes(s) >= s[i].size,
    decreases s.len(),
{
    lemma_sum_nonneg(s.drop_last());
    if i == s.len() - 1 {
    } else {
        lemma_sum_element(s.drop_last(), i);
    }
}

/// Dropping an all-empty tail does not change the sum.
pub proof fn lemma_sum_take_empties(s: Seq<Block>, n: int)
    requires
        0 <= n <= s.len(),
        forall|k: int| n <= k < s.len() ==> (#[trigger] s[k]).size == 0,
    ensures
        sum_sizes(s.subrange(0, n)) == sum_sizes(s),
    decreases s.len() - n,
{
    if n == s.len() {
        assert(s.subrange(0, n) =~= s);
    } else {
        assert(s.drop_last() =~= s.subrange(0, s.len() - 1));
        assert(s.subrange(0, s.len() - 1).subrange(0, n) =~= s.subrange(0, n));
        lemma_sum_take_empties(s.subrange(0, s.len() - 1), n);
    }
}

/// The sum of sorted, disjoint blocks is bounded by the span they cover.
pub proof fn lemma_sum_le_span(s: Seq<Block>)
    requires
        sorted_disjoint(s),
        s.len() > 0,
    ensures
        sum_sizes(s) <= s.last().end() - s[0].addr(),
    decreases s.len(),
{
    let n = s.len() as int;
    assert(s.last() == s[n - 1]);
    assert(sum_sizes(s) == sum_sizes(s.drop_last()) + s.last().size);
    if s.len() == 1 {
        assert(s.drop_last().len() == 0);
        assert(sum_sizes(s.drop_last()) == 0);
    }
    if s.len() > 1 {
        let dl = s.drop_last();
        assert(sorted_disjoint(dl)) by {
            assert(forall|i: int, j: int|
                #![trigger dl[i], dl[j]]
                0 <= i < j < dl.len() ==> dl[i] == s[i] && dl[j] == s[j]);
        }
        lemma_sum_le_span(dl);
        assert(dl.last() == s[n - 2]);
        assert(dl[0] == s[0]);
        assert(s[n - 2].addr() <= s[n - 1].addr());
        assert(s[n - 2].size > 0 ==> s[n - 2].end() < s[n - 1].addr());
        assert(s[n - 2].end() <= s[n - 1].addr());
    }
}

/// The pool sum stays below the address ceiling.
pub proof fn lemma_sum_le_ceiling(s: Seq<Block>)
    requires
        sorted_disjoint(s),
        wf_blocks(s),
    ensures
        sum_sizes(s) <= ADDR_CEILING,
        sum_sizes(s) >= 0,
    decreases s.len(),
{
    if s.len() == 0 {
    } else {
        lemma_sum_le_span(s);
        assert(s[0].addr() >= 0);
        let dl = s.drop_last();
        assert(sorted_disjoint(dl) && wf_blocks(dl)) by {
            assert(forall|i: int, j: int|
                #![trigger dl[i], dl[j]]
                0 <= i < j < dl.len() ==> dl[i] == s[i] && dl[j] == s[j]);
            assert(forall|i: int| 0 <= i < dl.len() ==> (#[trigger] dl[i]) == s[i]);
        }
        lemma_sum_le_ceiling(dl);
    }
}

/// An empty block's address is the address of the next non-empty block.
pub proof fn lemma_empty_to_next(s: Seq<Block>, k: int)
    requires
        pool_wf(s),
        0 <= k < s.len(),
        s[k].size == 0,
    ensures
        exists|m: int| k < m < s.len() && (#[trigger] s[m]).size > 0 && s[m].addr() == s[k].addr(),
    decreases s.len() - k,
{
    assert(k < s.len() - 1);
    if s[k + 1].size > 0 {
        assert(k < k + 1 < s.len() && s[k + 1].size > 0 && s[k + 1].addr() == s[k].addr());
    } else {
        lemma_empty_to_next(s, k + 1);
        let m = choose|m: int|
            k + 1 < m < s.len() && (#[trigger] s[m]).size > 0 && s[m].addr() == s[k + 1].addr();
        assert(k < m < s.len() && s[m].size > 0 && s[m].addr() == s[k].addr());
    }
}

/// A run of empty blocks before a non-empty one shares its address.
pub proof fn lemma_empty_run(s: Seq<Block>, l: int, r: int)
    requires
        empties_chained(s),
        0 <= l <= r < s.len(),
        forall|k: int| l <= k < r ==> (#[trigger] s[k]).size == 0,
    ensures
        forall|k: int| l <= k < r ==> (#[trigger] s[k]).addr() == s[r].addr(),
    decreases r - l,
{
    if l < r {
        lemma_empty_run(s, l + 1, r);
        assert(s[l].addr() == s[l + 1].addr());
        if l + 1 < r {
            assert(s[l + 1].addr() == s[r].addr());
        }
    }
}

/// A prefix of a pool keeps the pool's ordering properties.
pub proof fn lemma_prefix_props(s: Seq<Block>, n: int)
    requires
        0 <= n <= s.len(),
        wf_blocks(s),
        sorted_disjoint(s),
        empties_chained(s),
    ensures
        wf_blocks(s.subrange(0, n)),
        sorted_disjoint(s.subrange(0, n)),
        empties_chained(s.subrange(0, n)),
{
    let p = s.subrange(0, n);
    assert(forall|k: int| 0 <= k < n ==> (#[trigger] p[k]) == s[k]);
}

/// The memory bookkeeper.
///
/// This stores the state of the allocator: in particular, the free memory.
pub struct Bookkeeper {
    /// The internal block pool.
    ///
    /// Entries in the block pool can be "empty", meaning that the entry can
    /// be overwritten without breaking consistency.
    pub pool: PoolVec,
    /// The total number of bytes in the pool.
    pub total_bytes: usize,
    /// Is this bookkeeper currently reserving?
    ///
    /// This is used to break the metacircular recursion while the pool's
    /// own storage is being reallocated.
    pub reserving: bool,
}

impl Bookkeeper {
    /// The blocks of the pool, as a sequence.
    pub open spec fn blocks(&self) -> Seq<Block> {
        self.pool.items@
    }

    /// The structural invariant of the bookkeeper.
    pub open spec fn inv(&self) -> bool {
        &&& self.pool.wf()
        &&& pool_wf(self.blocks())
        &&& self.total_bytes == sum_sizes(self.blocks())
    }

    /// The number of free slots of the pool storage.
    pub open spec fn slack(&self) -> int {
        self.pool.spec_cap() - self.blocks().len()
    }

    /// The public-boundary invariant: the structure holds and, outside a
    /// reservation, the storage keeps its slack.
    pub open spec fn wf(&self) -> bool {
        &&& self.inv()
        &&& !self.reserving ==> self.slack() >= EXTRA_ELEMENTS as int
    }

    /// Create a new bookkeeper over an initial (empty) pool vector.
    pub fn new(vec: PoolVec) -> (r: Bookkeeper)
        requires
            vec.wf(),
            vec.items@.len() == 0,
            vec.spec_cap() >= EXTRA_ELEMENTS as int,
        ensures
            r.wf(),
            r.blocks().len() == 0,
            r.total_bytes == 0,
            !r.reserving,
            r.pool.backing == vec.backing,
    {
        Bookkeeper { pool: vec, total_bytes: 0, reserving: false }
    }

    /// Get the length of the pool.
    pub fn len(&self) -> (r: usize)
        ensures
            r == self.blocks().len(),
    {
        self.pool.len()
    }

    /// Get the total bytes of memory in the pool.
    pub fn total_bytes(&self) -> (r: usize)
        ensures
            r == self.total_bytes,
    {
        self.total_bytes
    }

    /// Perform a binary search for the first index whose block's address is
    /// not below the given block's address.
    ///
    /// By the sort-key invariant an empty block shares its right neighbor's
    /// address, so no empty block can sit directly left of the returned
    /// index: the index points at the start of the run of blocks that share
    /// the searched address.
    pub fn find(&self, block: &Block) -> (r: usize)
        requires
            self.inv(),
        ensures
            r <= self.blocks().len(),
            forall|k: int| 0 <= k < r ==> (#[trigger] self.blocks()[k]).addr() < block.addr(),
            forall|k: int|
                r <= k < self.blocks().len() ==> (#[trigger] self.blocks()[k]).addr()
                    >= block.addr(),
    {
        let ghost s = self.blocks();
        let mut lo: usize = 0;
        let mut hi: usize = self.pool.len();
        while lo < hi
            invariant
                lo <= hi <= s.len(),
                self.inv(),
                s == self.blocks(),
                forall|k: int| 0 <= k < lo ==> (#[trigger] s[k]).addr() < block.addr(),
                forall|k: int| hi <= k < s.len() ==> (#[trigger] s[k]).addr() >= block.addr(),
            decreases hi - lo,
        {
            let mid: usize = lo + (hi - lo) / 2;
            if self.pool.get(mid).ptr.addr < block.ptr.addr {
                proof {
                    assert(forall|k: int|
                        0 <= k <= mid ==> (#[trigger] s[k]).addr() <= s[mid as int].addr());
                }
                lo = mid + 1;
            } else {
                proof {
                    assert(forall|k: int|
                        mid <= k < s.len() ==> s[mid as int].addr() <= (#[trigger] s[k]).addr());
                }
                hi = mid;
            }
        }
        lo
    }

    /// Find the bound of a (live, pool-disjoint) block: the range of empty
    /// slots that the block may occupy, ending at the first non-empty block
    /// whose address is not below the block's end.
    pub fn find_bound(&self, block: &Block) -> (r: (usize, usize))
        requires
            self.inv(),
            block.wf(),
            block.size > 0,
            disjoint_from(self.blocks(), *block),
        ensures
            r.0 <= r.1 <= self.blocks().len(),
            forall|k: int| 0 <= k < r.0 ==> (#[trigger] self.blocks()[k]).addr() < block.addr(),
            forall|k: int| r.0 <= k < r.1 ==> (#[trigger] self.blocks()[k]).size == 0,
            r.1 < self.blocks().len() ==> self.blocks()[r.1 as int].size > 0,
            forall|k: int|
                r.0 <= k < self.blocks().len() ==> (#[trigger] self.blocks()[k]).addr()
                    >= block.end(),
            r.0 > 0 ==> self.blocks()[r.0 - 1].size > 0,
            r.0 > 0 ==> self.blocks()[r.0 - 1].end() <= block.addr(),
    {
        let ghost s = self.blocks();
        let l: usize = self.find(block);
        let mut r: usize = l;
        while r < self.pool.len() && self.pool.get(r).is_empty()
            invariant
                l <= r <= s.len(),
                self.inv(),
                s == self.blocks(),
                forall|k: int| l <= k < r ==> (#[trigger] s[k]).size == 0,
            decreases s.len() - r,
        {
            r = r + 1;
        }
        proof {
            // Every block at or after `l` sits at or above the freed
            // block's end: a non-empty one by disjointness, an empty one
            // because it shares the address of a later non-empty one.
            assert forall|k: int| l <= k < s.len() implies (#[trigger] s[k]).addr()
                >= block.end() by {
                if s[k].size > 0 {
                    assert(s[k].addr() >= block.addr());
                    assert(block.end() <= s[k].addr() || s[k].end() <= block.addr());
                } else {
                    lemma_empty_to_next(s, k);
                    let m = choose|m: int|
                        k < m < s.len() && (#[trigger] s[m]).size > 0 && s[m].addr() == s[k].addr();
                    assert(s[m].addr() >= block.addr());
                    assert(block.end() <= s[m].addr() || s[m].end() <= block.addr());
                }
            }
            if l > 0 {
                // The block directly left of `l` cannot be empty: it would
                // share the address of its right neighbor, which is not
                // below the searched address.
                if s[l - 1].size == 0 {
                    if l < s.len() {
                        assert(s[l - 1].addr() == s[l as int].addr());
                        assert(false);
                    } else {
                        assert(s[l - 1].size > 0);
                    }
                }
                assert(block.end() <= s[l - 1].addr() || s[l - 1].end() <= block.addr());
                assert(s[l - 1].end() <= block.addr());
            }
        }
        (l, r)
    }

    /// Pop the top block from the pool.
    ///
    /// Trailing empty blocks uncovered by the removal are dropped, so the
    /// no-trailing-empties invariant is kept.
    #[verifier::spinoff_prover]
    #[verifier::rlimit(100)]
    pub fn pop(&mut self) -> (r: Option<Block>)
        requires
            old(self).inv(),
        ensures
            final(self).inv(),
            final(self).reserving == old(self).reserving,
            final(self).pool.backing == old(self).pool.backing,
            final(self).slack() >= old(self).slack(),
            old(self).blocks().len() == 0 ==> r is None && final(self).blocks()
                == old(self).blocks() && final(self).total_bytes == old(self).total_bytes,
            old(self).blocks().len() > 0 ==> {
                let b = old(self).blocks().last();
                &&& r == Some(b)
                &&& b.size > 0
                &&& b.wf()
                &&& b.end() <= ADDR_CEILING
                &&& final(self).total_bytes == old(self).total_bytes - b.size
                &&& final(self).blocks().len() < old(self).blocks().len()
                &&& final(self).blocks() == old(self).blocks().subrange(
                    0,
                    final(self).blocks().len() as int,
                )
                &&& disjoint_from(final(self).blocks(), b)
                &&& (forall|c: Block|
                    disjoint_from(old(self).blocks(), c) ==> #[trigger] disjoint_from(
                        final(self).blocks(),
                        c,
                    ))
            },
    {
        let ghost s = self.blocks();
        let n: usize = self.pool.len();
        if n == 0 {
            return None;
        }
        let b: Block = match self.pool.pop() {
            Some(b) => b,
            None => unreached(),
        };
        proof {
            lemma_sum_nonneg(s.drop_last());
            assert(s.drop_last() =~= s.subrange(0, s.len() - 1));
            assert(self.blocks() == s.subrange(0, s.len() - 1));
            lemma_prefix_props(s, s.len() - 1);
        }
        self.total_bytes = self.total_bytes - b.size();
        // Strip the trailing empty blocks that the removal may have
        // uncovered.
        let mut m: usize = n - 1;
        while m > 0 && self.pool.get(m - 1).is_empty()
            invariant
                m <= n - 1,
                n == s.len(),
                self.pool.wf(),
                self.pool.backing == old(self).pool.backing,
                self.pool.spec_cap() == old(self).pool.spec_cap(),
                self.reserving == old(self).reserving,
                self.total_bytes == old(self).total_bytes - s.last().size,
                self.blocks().len() == m,
                self.blocks() == s.subrange(0, m as int),
                forall|k: int| m <= k < n - 1 ==> (#[trigger] s[k]).size == 0,
            decreases m,
        {
            self.pool.pop();
            proof {
                assert(s.subrange(0, m as int).drop_last() =~= s.subrange(0, m - 1));
            }
            m = m - 1;
        }
        proof {
            let p = self.blocks();
            lemma_prefix_props(s, m as int);
            assert(p =~= s.subrange(0, m as int));
            assert(last_nonempty(p)) by {
                if m > 0 {
                    assert(p[m - 1] == s[m - 1]);
                }
            }
            assert(sum_sizes(p) == old(self).total_bytes - b.size) by {
                assert(sum_sizes(s) == sum_sizes(s.drop_last()) + b.size);
                assert(s.drop_last() =~= s.subrange(0, n - 1));
                assert(forall|k: int| 0 <= k < n - 1 ==> s.subrange(0, n - 1)[k] == s[k]);
                lemma_sum_take_empties(s.subrange(0, n - 1), m as int);
                assert(s.subrange(0, n - 1).subrange(0, m as int) =~= s.subrange(0, m as int));
            }
            assert(disjoint_from(p, b)) by {
                assert forall|i: int| 0 <= i < p.len() && (#[trigger] p[i]).size > 0 implies
                    disjoint_blocks(b, p[i]) by {
                    assert(p[i] == s[i]);
                    assert(s[i].size > 0 ==> s[i].end() < s[n - 1].addr());
                }
            }
            assert forall|c: Block| disjoint_from(s, c) implies #[trigger] disjoint_from(p, c) by {
                assert forall|i: int| 0 <= i < p.len() && (#[trigger] p[i]).size > 0 implies
                    disjoint_blocks(c, p[i]) by {
                    assert(p[i] == s[i]);
                }
            }
        }
        Some(b)
    }

    /// Push a block to the top of the pool.
    ///
    /// The pushed block must lie above everything the pool holds; it is
    /// merged with the top block when the two are adjacent.
    #[verifier::spinoff_prover]
    #[verifier::rlimit(100)]
    pub fn push_block(&mut self, block: Block)
        requires
            old(self).inv(),
            block.wf(),
            block.end() <= ADDR_CEILING,
            old(self).slack() >= 1,
            old(self).blocks().len() > 0 && block.size > 0 ==> old(self).blocks().last().end()
                <= block.addr(),
        ensures
            final(self).inv(),
            final(self).reserving == old(self).reserving,
            final(self).pool.backing == old(self).pool.backing,
            final(self).total_bytes == old(self).total_bytes + block.size,
            final(self).blocks().len() <= old(self).blocks().len() + 1,
            final(self).slack() >= old(self).slack() - 1,
            block.size > 0 ==> final(self).blocks().len() > 0 && final(self).blocks().last().end()
                == block.end(),
            block.size == 0 ==> final(self).blocks() == old(self).blocks(),
            forall|c: Block|
                disjoint_from(old(self).blocks(), c) && disjoint_blocks(c, block) && c.size > 0
                    ==> #[trigger] disjoint_from(final(self).blocks(), c),
    {
        let ghost s = self.blocks();
        if block.is_empty() {
            return ;
        }
        proof {
            lemma_sum_le_ceiling(s);
        }
        let n: usize = self.pool.len();
        if n > 0 {
            let last: Block = self.pool.get(n - 1);
            proof {
                assert(last == s.last());
                assert(last.size > 0);
            }
            if last.left_to(&block) {
                // The block extends the top of the pool.
                let merged = Block { ptr: last.ptr, size: last.size + block.size };
                self.pool.set(n - 1, merged);
                self.total_bytes = self.total_bytes + block.size();
                proof {
                    let p = self.blocks();
                    lemma_sum_update(s, n - 1, merged);
                    assert(forall|k: int| 0 <= k < n - 1 ==> (#[trigger] p[k]) == s[k]);
                    assert(pool_wf(p));
                    assert forall|c: Block|
                        disjoint_from(s, c) && disjoint_blocks(c, block) && c.size > 0 implies #[trigger] disjoint_from(
                        p,
                        c,
                    ) by {
                        assert forall|i: int| 0 <= i < p.len() && (#[trigger] p[i]).size > 0 implies
                            disjoint_blocks(c, p[i]) by {
                            if i < n - 1 {
                                assert(p[i] == s[i]);
                            } else {
                                // The merged block covers the old top and
                                // the pushed block; a block disjoint from
                                // both is disjoint from their union.
                                assert(disjoint_blocks(c, s[i]));
                                assert(p[i].addr() == s[i].addr());
                                assert(p[i].end() == block.end());
                                if s[i].end() <= c.addr() {
                                    assert(c.addr() >= block.addr());
                                    assert(c.end() > c.addr());
                                    assert(block.end() <= c.addr());
                                }
                            }
                        }
                    }
                }
                return ;
            }
        }
        // No merge: append.
        let res = self.pool.push(block);
        self.total_bytes = self.total_bytes + block.size();
        proof {
            let p = self.blocks();
            assert(res is Ok);
            assert(p =~= s.push(block));
            lemma_sum_push(s, block);
            assert(pool_wf(p)) by {
                assert(forall|k: int| 0 <= k < n ==> (#[trigger] p[k]) == s[k]);
                assert(p[n as int] == block);
                assert forall|i: int, j: int|
                    #![trigger p[i], p[j]]
                    0 <= i < j < p.len() implies p[i].addr() <= p[j].addr() && (p[i].size > 0
                    ==> p[i].end() < p[j].addr()) by {
                    if j == n {
                        if i < n {
                            assert(p[i] == s[i]);
                            assert(s[i].addr() <= s[n - 1].addr());
                            if s[i].size > 0 {
                                // A non-empty block below the top ends
                                // strictly below the top's start; the top
                                // itself ends at most at the new block's
                                // start, and not exactly there, else the
                                // merge branch was taken.
                                if i < n - 1 {
                                    assert(s[i].end() < s[n - 1].addr());
                                } else {
                                    assert(s[i].end() <= block.addr());
                                    assert(s[i].end() != block.addr());
                                }
                            }
                        }
                    }
                }
            }
        }
    }

    /// Insert a block at index `l`, keeping the list sorted.
    ///
    /// The elements from `l` up to the first empty slot move one position
    /// to the right, filling that hole; when no hole exists the pool
    /// grows by one element, which the storage slack absorbs.
    #[verifier::spinoff_prover]
    #[verifier::rlimit(100)]
    fn insert_at_gap(&mut self, l: usize, block: Block)
        requires
            old(self).inv(),
            old(self).slack() >= 1,
            l <= old(self).blocks().len(),
            block.size > 0,
            block.wf(),
            block.end() <= ADDR_CEILING,
            forall|k: int| 0 <= k < l ==> (#[trigger] old(self).blocks()[k]).addr() < block.addr(),
            forall|k: int|
                0 <= k < l && (#[trigger] old(self).blocks()[k]).size > 0
                    ==> old(self).blocks()[k].end() < block.addr(),
            forall|k: int|
                l <= k < old(self).blocks().len() ==> (#[trigger] old(self).blocks()[k]).addr()
                    > block.end(),
        ensures
            final(self).inv(),
            final(self).reserving == old(self).reserving,
            final(self).pool.backing == old(self).pool.backing,
            final(self).total_bytes == old(self).total_bytes + block.size,
            final(self).blocks().len() <= old(self).blocks().len() + 1,
            final(self).slack() >= old(self).slack() - 1,
            forall|c: Block|
                disjoint_from(old(self).blocks(), c) && disjoint_blocks(c, block) && c.size > 0
                    ==> #[trigger] disjoint_from(final(self).blocks(), c),
    {
        let ghost s = self.blocks();
        let n: usize = self.pool.len();
        // Find the next hole, where a used block was.
        let mut g: usize = l;
        while g < n && !self.pool.get(g).is_empty()
            invariant
                l <= g <= n,
                n == s.len(),
                *self == *old(self),
                s == self.blocks(),
                self.inv(),
                forall|k: int| l <= k < g ==> (#[trigger] s[k]).size > 0,
            decreases n - g,
        {
            g = g + 1;
        }
        if g < n {
            // Shift the blocks in `[l, g)` one slot to the right, into the
            // hole, and write the new block at `l`.
            self.pool.remove(g);
            self.pool.insert_at(l, block);
            proof {
                lemma_sum_remove(s, g as int);
                lemma_sum_insert(s.remove(g as int), l as int, block);
                lemma_sum_le_ceiling(s);
            }
        } else {
            // No hole: extend the pool by one slot.
            self.pool.insert_at(l, block);
            proof {
                lemma_sum_insert(s, l as int, block);
                lemma_sum_le_ceiling(s);
            }
        }
        self.total_bytes = self.total_bytes + block.size();
        proof {
            let q = self.blocks();
            // In both cases the result reads: the old blocks below `l`,
            // the new block at `l`, the old blocks `[l, g)` shifted right
            // by one, and the old blocks above `g` in place.
            assert(forall|m: int| 0 <= m < l ==> (#[trigger] q[m]) == s[m]);
            assert(q[l as int] == block);
            assert(forall|m: int| l < m <= g ==> (#[trigger] q[m]) == s[m - 1]);
            assert(forall|m: int| g < m < q.len() ==> (#[trigger] q[m]) == s[m]);
            assert(pool_wf(q)) by {
                assert forall|a: int, b: int|
                    #![trigger q[a], q[b]]
                    0 <= a < b < q.len() implies q[a].addr() <= q[b].addr() && (q[a].size > 0
                    ==> q[a].end() < q[b].addr()) by {
                    let ia: int = if a < l { a } else if a == l { -1 } else if a <= g { a - 1 } else { a };
                    let ib: int = if b < l { b } else if b == l { -1 } else if b <= g { b - 1 } else { b };
                    if ia == -1 {
                        assert(q[a] == block);
                        assert(s[ib].addr() > block.end());
                    } else if ib == -1 {
                        assert(q[b] == block);
                        assert(q[a] == s[ia]);
                    } else {
                        assert(q[a] == s[ia] && q[b] == s[ib]);
                        assert(ia < ib);
                    }
                }
                assert(last_nonempty(q)) by {
                    let t = q.len() - 1;
                    if g < n {
                        if t > g {
                            assert(q[t] == s[t]);
                            assert(s[n - 1].size > 0);
                        } else {
                            // Then `g` is the last slot of the old pool,
                            // which is never empty, unless the pool shrank
                            // to the inserted block alone.
                            if t == l {
                                assert(q[t] == block);
                            } else {
                                assert(q[t] == s[t - 1]);
                                assert(l <= t - 1 < g);
                            }
                        }
                    } else {
                        if t == l {
                            assert(q[t] == block);
                        } else {
                            assert(q[t] == s[t - 1]);
                            assert(t - 1 == n - 1);
                        }
                    }
                }
                assert forall|k: int| 0 <= k < q.len() - 1 && (#[trigger] q[k]).size == 0 implies
                    q[k].addr() == q[k + 1].addr() by {
                    if k < l {
                        assert(q[k] == s[k]);
                        if k + 1 < l {
                            assert(q[k + 1] == s[k + 1]);
                        } else {
                            // The block left of the insertion point is not
                            // empty: an empty one would carry its right
                            // neighbor's address, which lies left of the
                            // new block's start.
                            assert(k + 1 == l);
                            if l < n {
                                assert(s[l as int].addr() > block.end());
                                assert(s[k].addr() < block.addr());
                                assert(s[k].addr() == s[k + 1].addr());
                                assert(false);
                            } else {
                                assert(s[k].size > 0);
                                assert(false);
                            }
                        }
                    } else if k == l {
                        assert(q[k] == block);
                    } else if k <= g {
                        assert(q[k] == s[k - 1]);
                        assert(l <= k - 1 < g);
                        assert(s[k - 1].size > 0);
                    } else {
                        assert(q[k] == s[k]);
                        assert(q[k + 1] == s[k + 1]);
                    }
                }
            }
            assert forall|c: Block|
                disjoint_from(s, c) && disjoint_blocks(c, block) && c.size > 0 implies #[trigger] disjoint_from(
                q,
                c,
            ) by {
                assert forall|i: int| 0 <= i < q.len() && (#[trigger] q[i]).size > 0 implies
                    disjoint_blocks(c, q[i]) by {
                    if i == l {
                        assert(q[i] == block);
                    } else if i < l {
                        assert(q[i] == s[i]);
                    } else if i <= g {
                        assert(q[i] == s[i - 1]);
                    } else {
                        assert(q[i] == s[i]);
                    }
                }
            }
        }
    }

    /// Free a block placed in some index bound.
    ///
    /// Three cases are tried in order: merge the right neighbor into the
    /// block (then also try closing the gap to the left neighbor), merge
    /// the block into the left neighbor, or insert it at the bound's start.
    #[verifier::spinoff_prover]
    #[verifier::rlimit(100)]
    fn free_bound(&mut self, l: usize, r: usize, block: Block)
        requires
            old(self).inv(),
            old(self).slack() >= 1,
            block.wf(),
            block.size > 0,
            block.end() <= ADDR_CEILING,
            disjoint_from(old(self).blocks(), block),
            l <= r <= old(self).blocks().len(),
            forall|k: int| 0 <= k < l ==> (#[trigger] old(self).blocks()[k]).addr() < block.addr(),
            forall|k: int| l <= k < r ==> (#[trigger] old(self).blocks()[k]).size == 0,
            r < old(self).blocks().len() ==> old(self).blocks()[r as int].size > 0,
            forall|k: int|
                l <= k < old(self).blocks().len() ==> (#[trigger] old(self).blocks()[k]).addr()
                    >= block.end(),
            l > 0 ==> old(self).blocks()[l - 1].size > 0,
            l > 0 ==> old(self).blocks()[l - 1].end() <= block.addr(),
        ensures
            final(self).inv(),
            final(self).reserving == old(self).reserving,
            final(self).pool.backing == old(self).pool.backing,
            final(self).total_bytes == old(self).total_bytes + block.size,
            final(self).blocks().len() <= old(self).blocks().len() + 1,
            final(self).slack() >= old(self).slack() - 1,
            forall|c: Block|
                disjoint_from(old(self).blocks(), c) && disjoint_blocks(c, block) && c.size > 0
                    ==> #[trigger] disjoint_from(final(self).blocks(), c),
    {
        let ghost s = self.blocks();
        let n: usize = self.pool.len();
        proof {
            lemma_sum_le_ceiling(s);
            if l < r {
                lemma_empty_run(s, l as int, r as int);
            }
        }
        if r < n && block.left_to(&self.pool.get(r)) {
            self.free_absorb_right(l, r, block);
        } else {
            self.free_no_right(l, r, block);
        }
    }

    /// The merge-right case of [`Self::free_bound`]: the freed block is
    /// directly left of the non-empty block at the bound's end.
    #[verifier::spinoff_prover]
    #[verifier::rlimit(100)]
    fn free_absorb_right(&mut self, l: usize, r: usize, block: Block)
        requires
            old(self).inv(),
            old(self).slack() >= 1,
            block.wf(),
            block.size > 0,
            block.end() <= ADDR_CEILING,
            disjoint_from(old(self).blocks(), block),
            l <= r < old(self).blocks().len(),
            forall|k: int| 0 <= k < l ==> (#[trigger] old(self).blocks()[k]).addr() < block.addr(),
            forall|k: int| l <= k < r ==> (#[trigger] old(self).blocks()[k]).size == 0,
            old(self).blocks()[r as int].size > 0,
            old(self).blocks()[r as int].addr() == block.end(),
            forall|k: int|
                l <= k < old(self).blocks().len() ==> (#[trigger] old(self).blocks()[k]).addr()
                    >= block.end(),
            l > 0 ==> old(self).blocks()[l - 1].size > 0,
            l > 0 ==> old(self).blocks()[l - 1].end() <= block.addr(),
        ensures
            final(self).inv(),
            final(self).reserving == old(self).reserving,
            final(self).pool.backing == old(self).pool.backing,
            final(self).total_bytes == old(self).total_bytes + block.size,
            final(self).blocks().len() <= old(self).blocks().len() + 1,
            final(self).slack() >= old(self).slack() - 1,
            forall|c: Block|
                disjoint_from(old(self).blocks(), c) && disjoint_blocks(c, block) && c.size > 0
                    ==> #[trigger] disjoint_from(final(self).blocks(), c),
    {
        let ghost s = self.blocks();
        let n: usize = self.pool.len();
        proof {
            lemma_sum_le_ceiling(s);
            if l < r {
                lemma_empty_run(s, l as int, r as int);
            }
        }
        {
            // Merge the right neighbor into the block.
            let right: Block = self.pool.get(r);
            let merged = Block { ptr: block.ptr, size: block.size + right.size };
            self.clear_slot(r);
            let ghost mid = self.blocks();
            let ghost j = choose|j: int|
                {
                    &&& 0 <= j <= r
                    &&& (j > 0 ==> s[j - 1].size > 0)
                    &&& (forall|k: int| j <= k < r ==> (#[trigger] s[k]).size == 0)
                    &&& (r + 1 == s.len() ==> mid == s.subrange(0, j))
                    &&& (r + 1 < s.len() ==> mid == cleared(s, j, r as int))
                };
            proof {
                // The hole opened by the removal starts exactly at `l`.
                if j < l {
                    assert(s[l - 1].size == 0);
                    assert(false);
                }
                if j > l {
                    assert(s[j - 1].size == 0);
                    assert(false);
                }
                assert(j == l);
                if r + 1 < s.len() {
                    assert(mid == cleared(s, l as int, r as int));
                    assert(forall|m: int| 0 <= m < l ==> (#[trigger] mid[m]) == s[m]);
                    assert(forall|m: int|
                        l <= m <= r ==> (#[trigger] mid[m]) == (Block {
                            ptr: s[r + 1].ptr,
                            size: 0,
                        }));
                    assert(forall|m: int| r < m < mid.len() ==> (#[trigger] mid[m]) == s[m]);
                } else {
                    assert(mid == s.subrange(0, l as int));
                    assert(forall|m: int| 0 <= m < l ==> (#[trigger] mid[m]) == s[m]);
                }
            }
            let merge_left: bool = if l > 0 {
                let lb: Block = self.pool.get(l - 1);
                lb.left_to(&block)
            } else {
                false
            };
            if merge_left {
                let lb: Block = self.pool.get(l - 1);
                let extended = Block { ptr: lb.ptr, size: lb.size + merged.size };
                self.pool.set(l - 1, extended);
                self.total_bytes = self.total_bytes + merged.size();
                proof {
                    let q = self.blocks();
                    lemma_sum_update(mid, l - 1, extended);
                    assert(forall|m: int|
                        0 <= m < q.len() && m != l - 1 ==> (#[trigger] q[m]) == mid[m]);
                    assert(extended.addr() == s[l - 1].addr());
                    assert(extended.end() == right.end());
                    assert(pool_wf(q)) by {
                        assert forall|a: int, b: int|
                            #![trigger q[a], q[b]]
                            0 <= a < b < q.len() implies q[a].addr() <= q[b].addr() && (q[a].size
                            > 0 ==> q[a].end() < q[b].addr()) by {
                            if a == l - 1 {
                                if b > r {
                                    assert(q[b] == s[b]);
                                    assert(s[r as int].end() < s[b].addr());
                                } else {
                                    assert(q[b].addr() == s[r + 1].addr());
                                    assert(s[r as int].end() < s[r + 1].addr());
                                }
                            } else if b == l - 1 {
                                assert(q[a] == s[a]);
                            }
                        }
                        assert(last_nonempty(q)) by {
                            if r + 1 < s.len() {
                                assert(q[q.len() - 1] == s[s.len() - 1]);
                            }
                        }
                        assert forall|k: int|
                            0 <= k < q.len() - 1 && (#[trigger] q[k]).size == 0 implies q[k].addr()
                            == q[k + 1].addr() by {
                            if k + 1 == l - 1 {
                                assert(q[k] == s[k]);
                                assert(s[k].addr() == s[k + 1].addr());
                                assert(q[k + 1].addr() == s[l - 1].addr());
                            } else if k == l - 1 {
                                assert(q[k] == extended);
                            }
                        }
                    }
                    assert(sum_sizes(q) == old(self).total_bytes + block.size);
                    assert forall|c: Block|
                        disjoint_from(s, c) && disjoint_blocks(c, block) && c.size > 0 implies #[trigger] disjoint_from(
                        q,
                        c,
                    ) by {
                        assert forall|i: int| 0 <= i < q.len() && (#[trigger] q[i]).size > 0 implies
                            disjoint_blocks(c, q[i]) by {
                            if i == l - 1 {
                                assert(disjoint_blocks(c, s[l - 1]));
                                assert(disjoint_blocks(c, s[r as int]));
                                if s[l - 1].end() <= c.addr() {
                                    assert(c.addr() >= block.addr());
                                    if c.end() <= block.addr() {
                                        assert(false);
                                    }
                                    assert(block.end() <= c.addr());
                                    if c.end() <= s[r as int].addr() {
                                        assert(false);
                                    }
                                }
                            } else {
                                assert(q[i] == s[i]);
                            }
                        }
                    }
                }
            } else {
                // Place the merged block into the hole, or at the top.
                if l < self.pool.len() {
                    self.pool.set(l, merged);
                    self.total_bytes = self.total_bytes + merged.size();
                    proof {
                        let q = self.blocks();
                        assert(r + 1 < s.len());
                        lemma_sum_update(mid, l as int, merged);
                        assert(forall|m: int|
                            0 <= m < q.len() && m != l ==> (#[trigger] q[m]) == mid[m]);
                        assert(merged.end() == right.end());
                        assert(pool_wf(q)) by {
                            assert forall|a: int, b: int|
                                #![trigger q[a], q[b]]
                                0 <= a < b < q.len() implies q[a].addr() <= q[b].addr() && (
                            q[a].size > 0 ==> q[a].end() < q[b].addr()) by {
                                if a == l {
                                    if b > r {
                                        assert(q[b] == s[b]);
                                        assert(s[r as int].end() < s[b].addr());
                                    } else {
                                        assert(q[b].addr() == s[r + 1].addr());
                                        assert(s[r as int].end() < s[r + 1].addr());
                                    }
                                } else if b == l {
                                    assert(q[a] == s[a]);
                                    assert(s[a].addr() < block.addr());
                                    assert(s[a].size > 0 ==> s[a].end() <= block.addr());
                                    if a == l - 1 {
                                        assert(s[a].end() != block.addr());
                                    } else if s[a].size > 0 {
                                        assert(s[a].end() < s[l - 1].addr());
                                    }
                                }
                            }
                            assert(last_nonempty(q)) by {
                                assert(q[q.len() - 1] == s[s.len() - 1]);
                            }
                            assert forall|k: int|
                                0 <= k < q.len() - 1 && (#[trigger] q[k]).size == 0 implies q[k].addr()
                                == q[k + 1].addr() by {
                                if k + 1 == l {
                                    assert(q[k] == s[k]);
                                    if l >= 1 {
                                        assert(s[l - 1].size > 0);
                                        assert(false);
                                    }
                                } else if k == l {
                                    assert(q[k] == merged);
                                } else if l < k && k <= r {
                                    assert(q[k].addr() == s[r + 1].addr());
                                    if k + 1 <= r {
                                        assert(q[k + 1].addr() == s[r + 1].addr());
                                    } else {
                                        assert(q[k + 1] == s[r + 1]);
                                    }
                                }
                            }
                        }
                        assert(sum_sizes(q) == old(self).total_bytes + block.size);
                        assert forall|c: Block|
                            disjoint_from(s, c) && disjoint_blocks(c, block) && c.size > 0 implies #[trigger] disjoint_from(
                            q,
                            c,
                        ) by {
                            assert forall|i: int|
                                0 <= i < q.len() && (#[trigger] q[i]).size > 0 implies disjoint_blocks(
                                c,
                                q[i],
                            ) by {
                                if i == l {
                                    assert(disjoint_blocks(c, s[r as int]));
                                    if block.end() <= c.addr() {
                                        assert(right.end() <= c.addr() || c.end() <= right.addr());
                                        if c.end() <= right.addr() {
                                            assert(false);
                                        }
                                    }
                                } else {
                                    assert(q[i] == s[i]);
                                }
                            }
                        }
                    }
                } else {
                    // The removal truncated the pool to `l`: append.
                    let res = self.pool.push(merged);
                    self.total_bytes = self.total_bytes + merged.size();
                    proof {
                        let q = self.blocks();
                        assert(r + 1 == s.len());
                        assert(res is Ok);
                        assert(q =~= mid.push(merged));
                        lemma_sum_push(mid, merged);
                        assert(forall|m: int| 0 <= m < l ==> (#[trigger] q[m]) == s[m]);
                        assert(pool_wf(q)) by {
                            assert forall|a: int, b: int|
                                #![trigger q[a], q[b]]
                                0 <= a < b < q.len() implies q[a].addr() <= q[b].addr() && (
                            q[a].size > 0 ==> q[a].end() < q[b].addr()) by {
                                if b == l {
                                    assert(q[a] == s[a]);
                                    assert(s[a].addr() < block.addr());
                                    if s[a].size > 0 {
                                        if a == l - 1 {
                                            assert(s[a].end() != block.addr());
                                        } else {
                                            assert(s[a].end() < s[l - 1].addr());
                                        }
                                    }
                                }
                            }
                        }
                        assert(sum_sizes(q) == old(self).total_bytes + block.size);
                        assert forall|c: Block|
                            disjoint_from(s, c) && disjoint_blocks(c, block) && c.size > 0 implies #[trigger] disjoint_from(
                            q,
                            c,
                        ) by {
                            assert forall|i: int|
                                0 <= i < q.len() && (#[trigger] q[i]).size > 0 implies disjoint_blocks(
                                c,
                                q[i],
                            ) by {
                                if i == l {
                                    assert(q[i] == merged);
                                    assert(disjoint_blocks(c, s[r as int]));
                                    if block.end() <= c.addr() {
                                        if c.end() <= right.addr() {
                                            assert(false);
                                        }
                                    }
                                } else {
                                    assert(q[i] == s[i]);
                                }
                            }
                        }
                    }
                }
            }
        }
    }

    /// The no-right-merge case of [`Self::free_bound`]: merge the block
    /// into the left neighbor when adjacent, else insert it.
    #[verifier::spinoff_prover]
    #[verifier::rlimit(100)]
    fn free_no_right(&mut self, l: usize, r: usize, block: Block)
        requires
            old(self).inv(),
            old(self).slack() >= 1,
            block.wf(),
            block.size > 0,
            block.end() <= ADDR_CEILING,
            disjoint_from(old(self).blocks(), block),
            l <= r <= old(self).blocks().len(),
            forall|k: int| 0 <= k < l ==> (#[trigger] old(self).blocks()[k]).addr() < block.addr(),
            forall|k: int| l <= k < r ==> (#[trigger] old(self).blocks()[k]).size == 0,
            r < old(self).blocks().len() ==> old(self).blocks()[r as int].size > 0,
            r < old(self).blocks().len() ==> old(self).blocks()[r as int].addr() != block.end(),
            forall|k: int|
                l <= k < old(self).blocks().len() ==> (#[trigger] old(self).blocks()[k]).addr()
                    >= block.end(),
            l > 0 ==> old(self).blocks()[l - 1].size > 0,
            l > 0 ==> old(self).blocks()[l - 1].end() <= block.addr(),
        ensures
            final(self).inv(),
            final(self).reserving == old(self).reserving,
            final(self).pool.backing == old(self).pool.backing,
            final(self).total_bytes == old(self).total_bytes + block.size,
            final(self).blocks().len() <= old(self).blocks().len() + 1,
            final(self).slack() >= old(self).slack() - 1,
            forall|c: Block|
                disjoint_from(old(self).blocks(), c) && disjoint_blocks(c, block) && c.size > 0
                    ==> #[trigger] disjoint_from(final(self).blocks(), c),
    {
        let ghost s = self.blocks();
        let n: usize = self.pool.len();
        proof {
            lemma_sum_le_ceiling(s);
            if l < r {
                lemma_empty_run(s, l as int, r as int);
            }
        }
        {
            let merge_left: bool = if l > 0 {
                let lb: Block = self.pool.get(l - 1);
                lb.left_to(&block)
            } else {
                false
            };
            proof {
                // Nothing at or after `l` starts at the block's end (the
                // merge-right test failed), so everything there starts
                // strictly above it.
                assert forall|k: int| l <= k < s.len() implies (#[trigger] s[k]).addr()
                    > block.end() by {
                    if k < r {
                        assert(s[k].addr() == s[r as int].addr());
                        assert(r < s.len());
                        assert(s[r as int].addr() != block.end());
                    } else if k == r {
                        assert(s[r as int].addr() != block.end());
                    } else {
                        assert(s[r as int].size > 0);
                        assert(s[r as int].end() < s[k].addr());
                    }
                }
            }
            if merge_left {
                // Merge the block into the left neighbor.
                let lb: Block = self.pool.get(l - 1);
                let extended = Block { ptr: lb.ptr, size: lb.size + block.size };
                self.pool.set(l - 1, extended);
                self.total_bytes = self.total_bytes + block.size();
                proof {
                    let q = self.blocks();
                    lemma_sum_update(s, l - 1, extended);
                    assert(forall|m: int|
                        0 <= m < q.len() && m != l - 1 ==> (#[trigger] q[m]) == s[m]);
                    assert(extended.end() == block.end());
                    assert(pool_wf(q)) by {
                        assert forall|a: int, b: int|
                            #![trigger q[a], q[b]]
                            0 <= a < b < q.len() implies q[a].addr() <= q[b].addr() && (q[a].size
                            > 0 ==> q[a].end() < q[b].addr()) by {
                            if a == l - 1 {
                                assert(q[b] == s[b]);
                                assert(s[b].addr() > block.end());
                            } else if b == l - 1 {
                                assert(q[a] == s[a]);
                            }
                        }
                        assert(last_nonempty(q)) by {
                            if l < s.len() {
                                assert(q[q.len() - 1] == s[s.len() - 1]);
                            }
                        }
                        assert forall|k: int|
                            0 <= k < q.len() - 1 && (#[trigger] q[k]).size == 0 implies q[k].addr()
                            == q[k + 1].addr() by {
                            if k + 1 == l - 1 {
                                assert(q[k] == s[k]);
                                assert(s[k].addr() == s[k + 1].addr());
                            } else if k == l - 1 {
                                assert(q[k] == extended);
                            }
                        }
                    }
                    assert(sum_sizes(q) == old(self).total_bytes + block.size);
                    assert forall|c: Block|
                        disjoint_from(s, c) && disjoint_blocks(c, block) && c.size > 0 implies #[trigger] disjoint_from(
                        q,
                        c,
                    ) by {
                        assert forall|i: int| 0 <= i < q.len() && (#[trigger] q[i]).size > 0 implies
                            disjoint_blocks(c, q[i]) by {
                            if i == l - 1 {
                                assert(disjoint_blocks(c, s[l - 1]));
                                if s[l - 1].end() <= c.addr() {
                                    if c.end() <= block.addr() {
                                        assert(false);
                                    }
                                }
                            } else {
                                assert(q[i] == s[i]);
                            }
                        }
                    }
                }
            } else {
                // No merge possible: insert the old-fashioned way.
                proof {
                    assert forall|k: int|
                        0 <= k < l && (#[trigger] s[k]).size > 0 implies s[k].end()
                        < block.addr() by {
                        if k == l - 1 {
                            assert(s[k].end() != block.addr());
                        } else {
                            assert(s[k].end() < s[l - 1].addr());
                            assert(s[l - 1].addr() <= block.addr());
                        }
                    }
                }
                self.insert_at_gap(l, block);
            }
        }
    }

    /// Free a memory block: return it to the pool, merging it with any
    /// adjacent neighbor.
    ///
    /// Freeing a block that overlaps the pool is an invalid free and is
    /// excluded by contract.
    pub fn free(&mut self, block: Block)
        requires
            old(self).inv(),
            old(self).slack() >= 1,
            block.wf(),
            block.end() <= ADDR_CEILING,
            block.size > 0 ==> disjoint_from(old(self).blocks(), block),
        ensures
            final(self).inv(),
            final(self).reserving == old(self).reserving,
            final(self).pool.backing == old(self).pool.backing,
            final(self).total_bytes == old(self).total_bytes + block.size,
            final(self).blocks().len() <= old(self).blocks().len() + 1,
            final(self).slack() >= old(self).slack() - 1,
            forall|c: Block|
                disjoint_from(old(self).blocks(), c) && disjoint_blocks(c, block) && c.size > 0
                    ==> #[trigger] disjoint_from(final(self).blocks(), c),
    {
        // Short circuit in case of an empty block.
        if block.is_empty() {
            return ;
        }
        // When the security mode is on, the block is zeroed here, before a
        // merge makes its range reachable again.
        let mut block = block;
        block.sec_zero();
        let bound = self.find_bound(&block);
        self.free_bound(bound.0, bound.1, block);
        let _ = block.mark_free();
    }

    /// Clear the slot at index `i`: take its block out of the pool while
    /// keeping the invariants.
    ///
    /// An interior slot becomes an empty sentinel carrying its right
    /// neighbor's address, and the empty run to its left is re-pointed the
    /// same way.  A slot at the top is dropped together with the empty run
    /// that would otherwise trail.
    #[verifier::spinoff_prover]
    #[verifier::rlimit(100)]
    fn clear_slot(&mut self, i: usize)
        requires
            old(self).inv(),
            i < old(self).blocks().len(),
        ensures
            final(self).inv(),
            final(self).reserving == old(self).reserving,
            final(self).pool.backing == old(self).pool.backing,
            final(self).total_bytes == old(self).total_bytes - old(self).blocks()[i as int].size,
            final(self).blocks().len() <= old(self).blocks().len(),
            final(self).slack() >= old(self).slack(),
            exists|j: int|
                {
                    &&& 0 <= j <= i
                    &&& (j > 0 ==> old(self).blocks()[j - 1].size > 0)
                    &&& (forall|k: int| j <= k < i ==> (#[trigger] old(self).blocks()[k]).size == 0)
                    &&& (i + 1 == old(self).blocks().len() ==> final(self).blocks()
                        == old(self).blocks().subrange(0, j))
                    &&& (i + 1 < old(self).blocks().len() ==> #[trigger] final(self).blocks()
                        == cleared(old(self).blocks(), j, i as int))
                },
    {
        let ghost s = self.blocks();
        let n: usize = self.pool.len();
        let removed: Block = self.pool.get(i);
        proof {
            lemma_sum_element(s, i as int);
        }
        if i + 1 == n {
            // Drop the top block and the empty run under it.
            self.pool.pop();
            proof {
                assert(s.drop_last() =~= s.subrange(0, i as int));
                assert(self.blocks() == s.subrange(0, i as int));
            }
            let mut m: usize = i;
            while m > 0 && self.pool.get(m - 1).is_empty()
                invariant
                    m <= i,
                    n == s.len(),
                    i + 1 == n,
                    self.pool.wf(),
                    self.pool.backing == old(self).pool.backing,
                    self.pool.spec_cap() == old(self).pool.spec_cap(),
                    self.reserving == old(self).reserving,
                    self.total_bytes == old(self).total_bytes,
                    self.blocks().len() == m,
                    self.blocks() == s.subrange(0, m as int),
                    forall|k: int| m <= k < i ==> (#[trigger] s[k]).size == 0,
                decreases m,
            {
                self.pool.pop();
                proof {
                    assert(s.subrange(0, m as int).drop_last() =~= s.subrange(0, m - 1));
                }
                m = m - 1;
            }
            proof {
                lemma_sum_element(s, i as int);
            }
            self.total_bytes = self.total_bytes - removed.size();
            proof {
                let p = self.blocks();
                let j = m as int;
                lemma_prefix_props(s, j);
                assert(p =~= s.subrange(0, j));
                assert(last_nonempty(p)) by {
                    if m > 0 {
                        assert(p[j - 1] == s[j - 1]);
                    }
                }
                assert(sum_sizes(p) == old(self).total_bytes - removed.size) by {
                    assert(forall|k: int| 0 <= k < n - 1 ==> s.subrange(0, n - 1)[k] == s[k]);
                    lemma_sum_take_empties(s.subrange(0, n - 1), j);
                    assert(s.subrange(0, n - 1).subrange(0, j) =~= s.subrange(0, j));
                    assert(s.drop_last() =~= s.subrange(0, n - 1));
                    assert(sum_sizes(s) == sum_sizes(s.subrange(0, n - 1)) + removed.size);
                }
                assert((j > 0 ==> s[j - 1].size > 0) && (forall|k: int|
                    j <= k < i ==> (#[trigger] s[k]).size == 0) && (i + 1 == s.len() ==> p
                    == s.subrange(0, j)));
            }
        } else {
            // Turn the slot into a hole carrying the right neighbor's
            // address, and re-point the empty run to its left.
            let e = Block { ptr: self.pool.get(i + 1).ptr, size: 0 };
            self.pool.set(i, e);
            proof {
                assert(self.blocks() =~= cleared(s, i as int, i as int));
            }
            let mut m: usize = i;
            while m > 0 && self.pool.get(m - 1).is_empty()
                invariant
                    m <= i,
                    i + 1 < n == s.len(),
                    e == (Block { ptr: s[i + 1].ptr, size: 0 }),
                    self.pool.wf(),
                    self.pool.spec_cap() == old(self).pool.spec_cap(),
                    self.pool.backing == old(self).pool.backing,
                    self.reserving == old(self).reserving,
                    self.total_bytes == old(self).total_bytes,
                    self.blocks().len() == n,
                    self.blocks() == cleared(s, m as int, i as int),
                    forall|k: int| m <= k < i ==> (#[trigger] s[k]).size == 0,
                decreases m,
            {
                proof {
                    assert(cleared(s, m as int, i as int)[m - 1] == s[m - 1]);
                }
                self.pool.set(m - 1, e);
                proof {
                    assert(self.blocks() =~= cleared(s, m - 1, i as int));
                }
                m = m - 1;
            }
            proof {
                lemma_sum_element(s, i as int);
            }
            self.total_bytes = self.total_bytes - removed.size();
            proof {
                let p = self.blocks();
                let j = m as int;
                assert(p =~= cleared(s, j, i as int));
                assert(forall|k: int| 0 <= k < n && !(j <= k <= i) ==> (#[trigger] p[k]) == s[k]);
                assert(forall|k: int| j <= k <= i ==> (#[trigger] p[k]) == e);
                assert(e.addr() == s[i + 1].addr());
                assert(e.end() <= s[i + 1].end());
                assert(pool_wf(p)) by {
                    assert forall|a: int, b: int|
                        #![trigger p[a], p[b]]
                        0 <= a < b < p.len() implies p[a].addr() <= p[b].addr() && (p[a].size > 0
                        ==> p[a].end() < p[b].addr()) by {
                        if j <= a <= i {
                            if !(j <= b <= i) {
                                assert(p[b] == s[b]);
                                assert(s[i + 1].addr() <= s[b].addr());
                            }
                        } else if j <= b <= i {
                            assert(p[a] == s[a]);
                            assert(a < i + 1);
                            assert(s[a].addr() <= s[i + 1].addr());
                            assert(s[a].size > 0 ==> s[a].end() < s[i + 1].addr());
                        }
                    }
                    assert(last_nonempty(p)) by {
                        assert(p[n - 1] == s[n - 1]);
                    }
                    assert forall|k: int| 0 <= k < p.len() - 1 && (#[trigger] p[k]).size == 0 implies
                        p[k].addr() == p[k + 1].addr() by {
                        if j <= k <= i {
                            if k < i {
                                assert(p[k + 1] == e);
                            } else {
                                assert(p[i + 1] == s[i + 1]);
                            }
                        } else {
                            assert(p[k] == s[k]);
                            if k + 1 < j {
                                assert(p[k + 1] == s[k + 1]);
                            } else if j <= k + 1 <= i {
                                // Then k == j - 1, but the slot left of the
                                // re-pointed run is not empty.
                                assert(s[j - 1].size > 0);
                                assert(false);
                            } else {
                                assert(p[k + 1] == s[k + 1]);
                            }
                        }
                    }
                }
                assert(sum_sizes(p) == old(self).total_bytes - removed.size) by {
                    lemma_sum_cleared(s, j, i as int);
                }
                assert((j > 0 ==> s[j - 1].size > 0) && (forall|k: int|
                    j <= k < i ==> (#[trigger] s[k]).size == 0) && (i + 1 < s.len() ==> p
                    == cleared(s, j, i as int)));
            }
        }
    }
}

/// Some free block of the pool sits exactly at the block's end and is,
/// together with the block, large enough for the new size: the block can
/// grow in place by absorbing it.
pub open spec fn has_grow_neighbor(s: Seq<Block>, block: Block, new_size: int) -> bool {
    exists|j: int|
        {
            &&& 0 <= j < s.len()
            &&& (#[trigger] s[j]).size > 0
            &&& s[j].addr() == block.end()
            &&& block.size + s[j].size >= new_size
        }
}

/// The block can serve an allocation of `size` bytes aligned to `align`:
/// behind the padding that aligns its address, `size` bytes remain.
pub open spec fn fits(b: Block, size: int, align: int) -> bool {
    &&& crate::block::align_pad(b.addr(), align) < b.size
    &&& b.size - crate::block::align_pad(b.addr(), align) >= size
}

impl Bookkeeper {
    /// Allocate a chunk of memory out of the pool.
    ///
    /// The first (lowest) block that can serve `size` bytes at alignment
    /// `align` is carved: the padding in front of the aligned address stays
    /// in the pool (the aligner), the space behind the carved chunk is
    /// freed back into the pool (the excessive space).  `None` is returned
    /// if and only if no block of the pool can serve the request, and the
    /// pool is then untouched.
    #[verifier::spinoff_prover]
    #[verifier::rlimit(100)]
    pub fn alloc_pool(&mut self, size: usize, align: usize) -> (r: Option<Block>)
        requires
            old(self).inv(),
            old(self).slack() >= 1,
            size > 0,
            align >= 1,
        ensures
            final(self).inv(),
            final(self).reserving == old(self).reserving,
            final(self).pool.backing == old(self).pool.backing,
            r is None ==> {
                &&& final(self).blocks() == old(self).blocks()
                &&& final(self).total_bytes == old(self).total_bytes
                &&& forall|k: int|
                    0 <= k < old(self).blocks().len() ==> !fits(
                        #[trigger] old(self).blocks()[k],
                        size as int,
                        align as int,
                    )
            },
            r matches Some(res) ==> {
                &&& res.size == size
                &&& res.addr() % align as int == 0
                &&& res.end() <= ADDR_CEILING
                &&& res.wf()
                &&& old(self).total_bytes >= size
                &&& final(self).total_bytes == old(self).total_bytes - size
                &&& final(self).blocks().len() <= old(self).blocks().len() + 1
                &&& final(self).slack() >= old(self).slack() - 1
                &&& disjoint_from(final(self).blocks(), res)
                &&& (exists|i: int|
                    {
                        &&& 0 <= i < old(self).blocks().len()
                        &&& fits(#[trigger] old(self).blocks()[i], size as int, align as int)
                        &&& (forall|k: int|
                            0 <= k < i ==> !fits(
                                #[trigger] old(self).blocks()[k],
                                size as int,
                                align as int,
                            ))
                        &&& res.addr() == old(self).blocks()[i].addr() + crate::block::align_pad(
                            old(self).blocks()[i].addr(),
                            align as int,
                        )
                    })
                &&& (forall|c: Block|
                    disjoint_from(old(self).blocks(), c) && c.size > 0
                        ==> #[trigger] disjoint_from(final(self).blocks(), c))
            },
    {
        let ghost s = self.blocks();
        let n: usize = self.pool.len();
        let mut i: usize = 0;
        let mut pad: usize = 0;
        let mut found: bool = false;
        while i < n
            invariant_except_break
                i <= n,
                !found,
            invariant
                n == s.len(),
                align >= 1,
                size > 0,
                *self == *old(self),
                s == self.blocks(),
                self.inv(),
                forall|k: int| 0 <= k < i ==> !fits(#[trigger] s[k], size as int, align as int),
            ensures
                found ==> i < n && fits(s[i as int], size as int, align as int) && pad
                    == crate::block::align_pad(s[i as int].addr(), align as int),
                !found ==> forall|k: int|
                    0 <= k < n ==> !fits(#[trigger] s[k], size as int, align as int),
            decreases n - i,
        {
            let b: Block = self.pool.get(i);
            proof {
                crate::block::lemma_align_pad(b.addr(), align as int);
            }
            if b.size() >= size {
                let p: usize = (align - b.ptr.addr % align) % align;
                if p < b.size() && b.size() - p >= size {
                    pad = p;
                    found = true;
                    break ;
                }
            }
            i = i + 1;
        }
        if !found {
            return None;
        }
        let b: Block = self.pool.get(i);
        let aligner = Block { ptr: b.ptr, size: pad };
        let rest = Block { ptr: Pointer { addr: b.ptr.addr + pad }, size: b.size - pad };
        let (res, excessive) = rest.split(size);
        proof {
            lemma_sum_element(s, i as int);
            lemma_sum_update(s, i as int, aligner);
        }
        if pad > 0 {
            self.pool.set(i, aligner);
            self.total_bytes = self.total_bytes - rest.size();
            proof {
                let q = self.blocks();
                assert(forall|m: int| 0 <= m < q.len() && m != i ==> (#[trigger] q[m]) == s[m]);
                assert(pool_wf(q)) by {
                    assert forall|a: int, c: int|
                        #![trigger q[a], q[c]]
                        0 <= a < c < q.len() implies q[a].addr() <= q[c].addr() && (q[a].size > 0
                        ==> q[a].end() < q[c].addr()) by {
                        if a == i {
                            assert(q[c] == s[c]);
                            assert(aligner.end() <= s[i as int].end());
                            assert(s[i as int].size > 0);
                        } else if c == i {
                            assert(q[a] == s[a]);
                        }
                    }
                    assert(last_nonempty(q)) by {
                        if i + 1 == q.len() {
                            assert(q[q.len() - 1] == aligner);
                        } else {
                            assert(q[q.len() - 1] == s[s.len() - 1]);
                        }
                    }
                    assert forall|k: int| 0 <= k < q.len() - 1 && (#[trigger] q[k]).size == 0 implies
                        q[k].addr() == q[k + 1].addr() by {
                        if k == i {
                        } else if k + 1 == i {
                            assert(q[k] == s[k]);
                            assert(q[k + 1].addr() == s[i as int].addr());
                            assert(s[k].addr() == s[k + 1].addr());
                        } else {
                            assert(q[k] == s[k]);
                            assert(q[k + 1] == s[k + 1]);
                        }
                    }
                }
            }
        } else {
            proof {
                assert(aligner.size == 0);
                assert(rest.size == b.size);
            }
            self.clear_slot(i);
        }
        let ghost mid = self.blocks();
        proof {
            // The pool now holds only material outside the carved range
            // `[rest.addr, rest.end)`.
            assert(disjoint_from(mid, excessive) && disjoint_from(mid, res) && forall|c: Block|
                disjoint_from(s, c) && c.size > 0 ==> #[trigger] disjoint_from(mid, c)) by {
                if pad > 0 {
                    assert forall|m: int| 0 <= m < mid.len() && (#[trigger] mid[m]).size > 0 implies
                        disjoint_blocks(excessive, mid[m]) && disjoint_blocks(res, mid[m]) by {
                        if m == i {
                            assert(mid[m] == aligner);
                        } else {
                            assert(mid[m] == s[m]);
                            if m < i {
                                assert(s[m].end() < s[i as int].addr());
                            } else {
                                assert(s[i as int].end() < s[m].addr());
                            }
                        }
                    }
                    assert forall|c: Block| disjoint_from(s, c) && c.size > 0 implies #[trigger] disjoint_from(
                        mid,
                        c,
                    ) by {
                        assert forall|m: int|
                            0 <= m < mid.len() && (#[trigger] mid[m]).size > 0 implies disjoint_blocks(
                            c,
                            mid[m],
                        ) by {
                            if m == i {
                                assert(disjoint_blocks(c, s[i as int]));
                                assert(mid[m].addr() == s[i as int].addr());
                                assert(mid[m].end() <= s[i as int].end());
                            } else {
                                assert(mid[m] == s[m]);
                            }
                        }
                    }
                } else {
                    let j = choose|j: int|
                        {
                            &&& 0 <= j <= i
                            &&& (j > 0 ==> s[j - 1].size > 0)
                            &&& (forall|k: int| j <= k < i ==> (#[trigger] s[k]).size == 0)
                            &&& (i + 1 == s.len() ==> mid == s.subrange(0, j))
                            &&& (i + 1 < s.len() ==> mid == cleared(s, j, i as int))
                        };
                    assert forall|m: int| 0 <= m < mid.len() && (#[trigger] mid[m]).size > 0 implies
                        mid[m] == s[m] && m != i by {
                        if i + 1 == s.len() {
                            assert(mid[m] == s[m]);
                        } else {
                            if j <= m <= i {
                                assert(mid[m].size == 0);
                            } else {
                                assert(mid[m] == s[m]);
                            }
                        }
                    }
                    assert forall|m: int| 0 <= m < mid.len() && (#[trigger] mid[m]).size > 0 implies
                        disjoint_blocks(excessive, mid[m]) && disjoint_blocks(res, mid[m]) by {
                        assert(mid[m] == s[m] && m != i);
                        if m < i {
                            assert(s[m].end() < s[i as int].addr());
                        } else {
                            assert(s[i as int].end() < s[m].addr());
                        }
                    }
                }
            }
        }
        self.free(excessive);
        proof {
            assert(disjoint_from(self.blocks(), res)) by {
                assert(disjoint_blocks(res, excessive));
            }
            assert(res.addr() % align as int == 0) by {
                crate::block::lemma_align_pad(s[i as int].addr(), align as int);
            }
            assert forall|c: Block| disjoint_from(s, c) && c.size > 0 implies #[trigger] disjoint_from(
                self.blocks(),
                c,
            ) by {
                assert(disjoint_from(mid, c));
                assert(disjoint_blocks(c, s[i as int]));
                assert(disjoint_blocks(c, excessive));
            }
            assert(fits(s[i as int], size as int, align as int));
            assert(forall|k: int|
                0 <= k < i ==> !fits(#[trigger] s[k], size as int, align as int));
        }
        Some(res)
    }

    /// Reallocate a block in place, on a known index bound.
    ///
    /// Shrinking always succeeds: the tail is split off and freed.  Growing
    /// succeeds exactly when the right neighbor is free, adjacent and large
    /// enough; it is then absorbed and the surplus freed.  On failure the
    /// pool and the block are left untouched.
    #[verifier::spinoff_prover]
    #[verifier::rlimit(100)]
    pub fn realloc_inplace_bound(&mut self, l: usize, r: usize, block: Block, new_size: usize) -> (res: Result<
        Block,
        Block,
    >)
        requires
            old(self).inv(),
            old(self).slack() >= 1,
            block.wf(),
            block.size > 0,
            block.end() <= ADDR_CEILING,
            disjoint_from(old(self).blocks(), block),
            l <= r <= old(self).blocks().len(),
            forall|k: int| 0 <= k < l ==> (#[trigger] old(self).blocks()[k]).addr() < block.addr(),
            forall|k: int| l <= k < r ==> (#[trigger] old(self).blocks()[k]).size == 0,
            r < old(self).blocks().len() ==> old(self).blocks()[r as int].size > 0,
            forall|k: int|
                l <= k < old(self).blocks().len() ==> (#[trigger] old(self).blocks()[k]).addr()
                    >= block.end(),
            l > 0 ==> old(self).blocks()[l - 1].size > 0,
            l > 0 ==> old(self).blocks()[l - 1].end() <= block.addr(),
        ensures
            res is Ok <==> (new_size <= block.size || (r < old(self).blocks().len()
                && old(self).blocks()[r as int].addr() == block.end() && block.size
                + old(self).blocks()[r as int].size >= new_size)),
            res matches Ok(b) ==> {
                &&& b.addr() == block.addr()
                &&& b.size == new_size
                &&& b.wf()
                &&& b.end() <= ADDR_CEILING
                &&& final(self).inv()
                &&& final(self).reserving == old(self).reserving
                &&& final(self).pool.backing == old(self).pool.backing
                &&& final(self).total_bytes == old(self).total_bytes + block.size - new_size
                &&& final(self).blocks().len() <= old(self).blocks().len() + 1
                &&& final(self).slack() >= old(self).slack() - 1
                &&& (b.size > 0 ==> disjoint_from(final(self).blocks(), b))
                &&& (new_size > block.size ==> exists|i: int|
                    {
                        &&& 0 <= i < old(self).blocks().len()
                        &&& (#[trigger] old(self).blocks()[i]).size > 0
                        &&& old(self).blocks()[i].addr() == block.end()
                        &&& b.end() <= old(self).blocks()[i].end()
                    })
                &&& (forall|c: Block|
                    disjoint_from(old(self).blocks(), c) && disjoint_blocks(c, block) && c.size > 0
                        ==> #[trigger] disjoint_from(final(self).blocks(), c))
            },
            res matches Err(b) ==> {
                &&& b == block
                &&& final(self).blocks() == old(self).blocks()
                &&& final(self).total_bytes == old(self).total_bytes
                &&& final(self).reserving == old(self).reserving
                &&& final(self).pool.backing == old(self).pool.backing
                &&& final(self).inv()
            },
    {
        let ghost s = self.blocks();
        let n: usize = self.pool.len();
        if new_size <= block.size {
            // Shrink the block: split it and free the excessive tail.
            let (res, excessive) = block.split(new_size);
            if excessive.size() > 0 {
                proof {
                    assert(excessive.addr() == block.addr() + new_size);
                    assert(forall|k: int|
                        0 <= k < l ==> (#[trigger] s[k]).addr() < excessive.addr());
                    assert forall|k: int|
                        0 <= k < s.len() && (#[trigger] s[k]).size > 0 implies disjoint_blocks(
                        excessive,
                        s[k],
                    ) by {
                        assert(disjoint_blocks(block, s[k]));
                    }
                    assert(forall|k: int|
                        l <= k < s.len() ==> (#[trigger] s[k]).addr() >= excessive.end());
                }
                self.free_bound(l, r, excessive);
                proof {
                    if res.size > 0 {
                        assert(disjoint_from(self.blocks(), res)) by {
                            assert(disjoint_blocks(res, excessive));
                            assert(disjoint_from(s, res)) by {
                                assert forall|k: int|
                                    0 <= k < s.len() && (#[trigger] s[k]).size > 0 implies disjoint_blocks(
                                    res,
                                    s[k],
                                ) by {
                                    assert(disjoint_blocks(block, s[k]));
                                }
                            }
                        }
                    }
                }
            }
            Ok(res)
        } else {
            let mut mergable: bool = false;
            if r < n {
                let entry: Block = self.pool.get(r);
                mergable = entry.size() + block.size() >= new_size && block.left_to(&entry);
            }
            if mergable {
                // Absorb the adjacent right neighbor, split at the new
                // size, and place the surplus back into the hole.
                let right: Block = self.pool.get(r);
                let merged = Block { ptr: block.ptr, size: block.size + right.size };
                self.clear_slot(r);
                let ghost mid = self.blocks();
                let ghost j = choose|j: int|
                    {
                        &&& 0 <= j <= r
                        &&& (j > 0 ==> s[j - 1].size > 0)
                        &&& (forall|k: int| j <= k < r ==> (#[trigger] s[k]).size == 0)
                        &&& (r + 1 == s.len() ==> mid == s.subrange(0, j))
                        &&& (r + 1 < s.len() ==> mid == cleared(s, j, r as int))
                    };
                proof {
                    if l < r {
                        lemma_empty_run(s, l as int, r as int);
                    }
                    if j < l {
                        assert(s[l - 1].size == 0);
                        assert(false);
                    }
                    if j > l {
                        assert(s[j - 1].size == 0);
                        assert(false);
                    }
                    assert(j == l);
                }
                let (res, excessive) = merged.split(new_size);
                if excessive.size() > 0 {
                    if l < self.pool.len() {
                        self.pool.set(l, excessive);
                        self.total_bytes = self.total_bytes + excessive.size();
                        proof {
                            lemma_sum_le_ceiling(mid);
                            lemma_sum_update(mid, l as int, excessive);
                            let q = self.blocks();
                            assert(r + 1 < s.len());
                            assert(forall|m: int|
                                0 <= m < q.len() && m != l ==> (#[trigger] q[m]) == mid[m]);
                            assert(excessive.end() == right.end());
                            assert(pool_wf(q)) by {
                                assert forall|a: int, c: int|
                                    #![trigger q[a], q[c]]
                                    0 <= a < c < q.len() implies q[a].addr() <= q[c].addr() && (
                                q[a].size > 0 ==> q[a].end() < q[c].addr()) by {
                                    if a == l {
                                        if c > r {
                                            assert(q[c] == s[c]);
                                            assert(s[r as int].end() < s[c].addr());
                                        } else {
                                            assert(q[c].addr() == s[r + 1].addr());
                                            assert(s[r as int].end() < s[r + 1].addr());
                                        }
                                    } else if c == l {
                                        assert(q[a] == s[a]);
                                        assert(s[a].addr() < block.addr());
                                        assert(block.addr() < excessive.addr());
                                        assert(s[a].size > 0 ==> s[a].end() <= block.addr());
                                    }
                                }
                                assert(last_nonempty(q)) by {
                                    assert(q[q.len() - 1] == s[s.len() - 1]);
                                }
                                assert forall|k: int|
                                    0 <= k < q.len() - 1 && (#[trigger] q[k]).size == 0 implies q[k].addr()
                                    == q[k + 1].addr() by {
                                    if k + 1 == l {
                                        assert(q[k] == s[k]);
                                        if l >= 1 {
                                            assert(s[l - 1].size > 0);
                                            assert(false);
                                        }
                                    } else if k == l {
                                    } else if l < k && k <= r {
                                        assert(q[k].addr() == s[r + 1].addr());
                                        if k + 1 <= r {
                                            assert(q[k + 1].addr() == s[r + 1].addr());
                                        } else {
                                            assert(q[k + 1] == s[r + 1]);
                                        }
                                    }
                                }
                            }
                            assert(disjoint_from(q, res)) by {
                                assert forall|m: int|
                                    0 <= m < q.len() && (#[trigger] q[m]).size > 0 implies disjoint_blocks(
                                    res,
                                    q[m],
                                ) by {
                                    if m == l {
                                        assert(q[m] == excessive);
                                    } else if m < l {
                                        assert(q[m] == s[m]);
                                        assert(disjoint_blocks(block, s[m]));
                                    } else {
                                        assert(q[m] == s[m]);
                                        assert(s[r as int].end() < s[m].addr());
                                    }
                                }
                            }
                            assert forall|c: Block|
                                disjoint_from(s, c) && disjoint_blocks(c, block) && c.size > 0 implies #[trigger] disjoint_from(
                                q,
                                c,
                            ) by {
                                assert forall|m: int|
                                    0 <= m < q.len() && (#[trigger] q[m]).size > 0 implies disjoint_blocks(
                                    c,
                                    q[m],
                                ) by {
                                    if m == l {
                                        assert(disjoint_blocks(c, s[r as int]));
                                        if right.end() <= c.addr() {
                                        } else {
                                            assert(c.end() <= right.addr());
                                        }
                                    } else {
                                        assert(q[m] == s[m]);
                                    }
                                }
                            }
                        }
                    } else {
                        // The removal truncated the pool: push the surplus.
                        let pushres = self.pool.push(excessive);
                        self.total_bytes = self.total_bytes + excessive.size();
                        proof {
                            lemma_sum_le_ceiling(mid);
                            lemma_sum_push(mid, excessive);
                            let q = self.blocks();
                            assert(r + 1 == s.len());
                            assert(pushres is Ok);
                            assert(q =~= mid.push(excessive));
                            assert(forall|m: int| 0 <= m < l ==> (#[trigger] q[m]) == s[m]);
                            assert(pool_wf(q)) by {
                                assert forall|a: int, c: int|
                                    #![trigger q[a], q[c]]
                                    0 <= a < c < q.len() implies q[a].addr() <= q[c].addr() && (
                                q[a].size > 0 ==> q[a].end() < q[c].addr()) by {
                                    if c == l {
                                        assert(q[a] == s[a]);
                                        assert(s[a].addr() < block.addr());
                                        assert(block.addr() < excessive.addr());
                                        assert(s[a].size > 0 ==> s[a].end() <= block.addr());
                                    }
                                }
                            }
                            assert(disjoint_from(q, res)) by {
                                assert forall|m: int|
                                    0 <= m < q.len() && (#[trigger] q[m]).size > 0 implies disjoint_blocks(
                                    res,
                                    q[m],
                                ) by {
                                    if m == l {
                                        assert(q[m] == excessive);
                                    } else {
                                        assert(q[m] == s[m]);
                                        assert(disjoint_blocks(block, s[m]));
                                    }
                                }
                            }
                            assert forall|c: Block|
                                disjoint_from(s, c) && disjoint_blocks(c, block) && c.size > 0 implies #[trigger] disjoint_from(
                                q,
                                c,
                            ) by {
                                assert forall|m: int|
                                    0 <= m < q.len() && (#[trigger] q[m]).size > 0 implies disjoint_blocks(
                                    c,
                                    q[m],
                                ) by {
                                    if m == l {
                                        assert(disjoint_blocks(c, s[r as int]));
                                        if right.end() <= c.addr() {
                                        } else {
                                            assert(c.end() <= right.addr());
                                        }
                                    } else {
                                        assert(q[m] == s[m]);
                                    }
                                }
                            }
                        }
                    }
                } else {
                    proof {
                        let q = self.blocks();
                        assert(new_size == merged.size);
                        assert(disjoint_from(q, res)) by {
                            assert forall|m: int|
                                0 <= m < q.len() && (#[trigger] q[m]).size > 0 implies disjoint_blocks(
                                res,
                                q[m],
                            ) by {
                                if r + 1 == s.len() {
                                    assert(q[m] == s[m]);
                                    assert(m < l);
                                    assert(disjoint_blocks(block, s[m]));
                                } else {
                                    if l <= m <= r {
                                        assert(q[m].size == 0);
                                    } else {
                                        assert(q[m] == s[m]);
                                        if m < l {
                                            assert(disjoint_blocks(block, s[m]));
                                        } else {
                                            assert(s[r as int].end() < s[m].addr());
                                        }
                                    }
                                }
                            }
                        }
                        assert forall|c: Block|
                            disjoint_from(s, c) && disjoint_blocks(c, block) && c.size > 0 implies #[trigger] disjoint_from(
                            self.blocks(),
                            c,
                        ) by {
                            assert forall|m: int|
                                0 <= m < q.len() && (#[trigger] q[m]).size > 0 implies disjoint_blocks(
                                c,
                                q[m],
                            ) by {
                                if r + 1 == s.len() {
                                    assert(q[m] == s[m]);
                                } else {
                                    if l <= m <= r {
                                        assert(q[m].size == 0);
                                    } else {
                                        assert(q[m] == s[m]);
                                    }
                                }
                            }
                        }
                    }
                }
                Ok(res)
            } else {
                Err(block)
            }
        }
    }

    /// Reallocate a block in place.
    ///
    /// On failure, `Err` carries the old block, intact; the pool is
    /// untouched.  Shrinking cannot fail.
    pub fn realloc_inplace(&mut self, block: Block, new_size: usize) -> (res: Result<Block, Block>)
        requires
            old(self).inv(),
            old(self).slack() >= 1,
            block.wf(),
            block.size > 0,
            block.end() <= ADDR_CEILING,
            disjoint_from(old(self).blocks(), block),
        ensures
            res is Ok <==> (new_size <= block.size || has_grow_neighbor(
                old(self).blocks(),
                block,
                new_size as int,
            )),
            res matches Ok(b) ==> {
                &&& b.addr() == block.addr()
                &&& b.size == new_size
                &&& b.wf()
                &&& b.end() <= ADDR_CEILING
                &&& final(self).inv()
                &&& final(self).reserving == old(self).reserving
                &&& final(self).pool.backing == old(self).pool.backing
                &&& final(self).total_bytes == old(self).total_bytes + block.size - new_size
                &&& final(self).blocks().len() <= old(self).blocks().len() + 1
                &&& final(self).slack() >= old(self).slack() - 1
                &&& (b.size > 0 ==> disjoint_from(final(self).blocks(), b))
                &&& (new_size > block.size ==> exists|i: int|
                    {
                        &&& 0 <= i < old(self).blocks().len()
                        &&& (#[trigger] old(self).blocks()[i]).size > 0
                        &&& old(self).blocks()[i].addr() == block.end()
                        &&& b.end() <= old(self).blocks()[i].end()
                    })
                &&& (forall|c: Block|
                    disjoint_from(old(self).blocks(), c) && disjoint_blocks(c, block) && c.size > 0
                        ==> #[trigger] disjoint_from(final(self).blocks(), c))
            },
            res matches Err(b) ==> {
                &&& b == block
                &&& final(self).blocks() == old(self).blocks()
                &&& final(self).total_bytes == old(self).total_bytes
                &&& final(self).reserving == old(self).reserving
                &&& final(self).pool.backing == old(self).pool.backing
                &&& final(self).inv()
            },
    {
        let ghost s = self.blocks();
        let bound = self.find_bound(&block);
        proof {
            // The merge candidate that the bound names is the one and only
            // non-empty block starting at the freed block's end, so the
            // bound test and the grow-neighbor condition agree.
            let l = bound.0 as int;
            let r = bound.1 as int;
            if r < s.len() && s[r].addr() == block.end() {
                assert(has_grow_neighbor(s, block, new_size as int) <==> block.size + s[r].size
                    >= new_size) by {
                    if has_grow_neighbor(s, block, new_size as int) {
                        let j = choose|j: int|
                            {
                                &&& 0 <= j < s.len()
                                &&& (#[trigger] s[j]).size > 0
                                &&& s[j].addr() == block.end()
                                &&& block.size + s[j].size >= new_size
                            };
                        if j != r {
                            if j < r {
                                assert(s[j].addr() < block.addr() || s[j].size == 0);
                                assert(false);
                            } else {
                                assert(s[r].end() < s[j].addr());
                                assert(false);
                            }
                        }
                    }
                }
            } else {
                assert(!has_grow_neighbor(s, block, new_size as int)) by {
                    if has_grow_neighbor(s, block, new_size as int) {
                        let j = choose|j: int|
                            {
                                &&& 0 <= j < s.len()
                                &&& (#[trigger] s[j]).size > 0
                                &&& s[j].addr() == block.end()
                                &&& block.size + s[j].size >= new_size
                            };
                        assert(l <= j);
                        assert(r <= j);
                        if r < s.len() {
                            assert(s[r].addr() <= s[j].addr());
                            if r < j {
                                assert(s[r].end() < s[j].addr());
                                assert(s[r].addr() >= block.end());
                                assert(false);
                            }
                        }
                        assert(false);
                    }
                }
            }
        }
        self.realloc_inplace_bound(bound.0, bound.1, block, new_size)
    }

    /// Freeing a block just carved from the pool is a no-op on the pool's
    /// externally observable state: the byte count returns to its old
    /// value, and the pool's capacity and storage are untouched.  This
    /// holds after any number of such round-trips, since the state it
    /// speaks of is restored exactly.
    pub fn alloc_free_round_trip(&mut self, size: usize, align: usize)
        requires
            old(self).inv(),
            old(self).slack() >= 2,
            size > 0,
            align >= 1,
        ensures
            final(self).inv(),
            final(self).total_bytes == old(self).total_bytes,
            final(self).pool.backing == old(self).pool.backing,
            final(self).reserving == old(self).reserving,
    {
        match self.alloc_pool(size, align) {
            None => {},
            Some(res) => {
                self.free(res);
            }
        }
    }

    /// Go over every block in the bookkeeper, ending with the block that
    /// backs the pool's own storage, and call some function on each.
    pub fn for_each<F: Fn(Block)>(self, f: F)
        requires
            self.pool.wf(),
            forall|b: Block| f.requires((b,)),
    {
        let mut this = self;
        loop
            invariant
                this.pool.wf(),
                forall|b: Block| f.requires((b,)),
            decreases this.pool.items@.len(),
        {
            match this.pool.pop() {
                Some(b) => f(b),
                None => { break ; },
            }
        }
        f(this.pool.backing());
    }
}

/// Clearing slots `[j, i]` (the last one of size `s[i].size`, the others
/// empty) lowers the sum by exactly that size.
pub proof fn lemma_sum_cleared(s: Seq<Block>, j: int, i: int)
    requires
        0 <= j <= i < s.len() - 1,
        forall|k: int| j <= k < i ==> (#[trigger] s[k]).size == 0,
    ensures
        sum_sizes(cleared(s, j, i)) == sum_sizes(s) - s[i].size,
    decreases i - j,
{
    if j == i {
        assert(cleared(s, j, i) =~= s.update(i, Block { ptr: s[i + 1].ptr, size: 0 }));
        lemma_sum_update(s, i, Block { ptr: s[i + 1].ptr, size: 0 });
    } else {
        lemma_sum_cleared(s, j + 1, i);
        assert(cleared(s, j, i) =~= cleared(s, j + 1, i).update(j, Block {
            ptr: s[i + 1].ptr,
            size: 0,
        }));
        assert(cleared(s, j + 1, i)[j] == s[j]);
        lemma_sum_update(cleared(s, j + 1, i), j, Block { ptr: s[i + 1].ptr, size: 0 });
    }
}

} // verus!
