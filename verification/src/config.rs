//! Configuration.
//!
//! Tunable constants and the request-inflation functions.  Inflating a fresh
//! request amortizes expensive acquisitions (a break move, a pool refill)
//! over many allocations.

use vstd::prelude::*;

verus! {

/// The memtrim limit, in bytes.
///
/// Whenever the global allocator's pool exceeds this, it will try to free
/// memory back to the system.
pub const OS_MEMTRIM_LIMIT: usize = 200000000;

/// Minimum size, in bytes, before a block is worthy to memtrim.
pub const OS_MEMTRIM_WORTHY: usize = 4000;

/// The fragmentation scale constant.
///
/// When the average block size of a local allocator's pool drops below this,
/// the pool is drained back into the global allocator.
pub const FRAGMENTATION_SCALE: usize = 10;

/// The local memtrim limit, in bytes.
///
/// Whenever a local allocator holds more free bytes than this, it is drained.
pub const LOCAL_MEMTRIM_LIMIT: usize = 16384;

/// The local memtrim stop, in bytes.
///
/// Draining a local allocator continues until it holds less than this.
pub const LOCAL_MEMTRIM_STOP: usize = 1024;

/// The minimum log level.
pub const MIN_LOG_LEVEL: u8 = 0;

/// The multiplier of a fresh (pool-storage) request.
pub const FRESH_MULTIPLIER: usize = 2;
/// The minimum extra space of a fresh (pool-storage) request.
pub const FRESH_MIN_EXTRA: usize = 64;
/// The maximum extra space of a fresh (pool-storage) request.
pub const FRESH_MAX_EXTRA: usize = 1024;

/// The multiplier of a break request.
pub const BRK_MULTIPLIER: usize = 2;
/// The minimum extra space of a break request.
pub const BRK_MIN_EXTRA: usize = 1024;
/// The maximum extra space of a break request.
pub const BRK_MAX_EXTRA: usize = 65536;

/// How much more space than asked a fresh (pool-storage) request takes.
pub open spec fn spec_extra_fresh(size: int) -> int {
    let scaled = FRESH_MULTIPLIER as int * size;
    let capped = if scaled < FRESH_MAX_EXTRA as int { scaled } else { FRESH_MAX_EXTRA as int };
    if capped > FRESH_MIN_EXTRA as int { capped } else { FRESH_MIN_EXTRA as int }
}

/// Canonicalize a fresh allocation.
///
/// The return value specifies how much _more_ space is requested from the
/// fresh-memory source when the pool storage grows.
pub fn extra_fresh(size: usize) -> (r: usize)
    ensures
        r == spec_extra_fresh(size as int),
        FRESH_MIN_EXTRA <= r <= FRESH_MAX_EXTRA,
{
    let scaled: usize = if size <= FRESH_MAX_EXTRA / FRESH_MULTIPLIER {
        FRESH_MULTIPLIER * size
    } else {
        FRESH_MAX_EXTRA
    };
    let capped: usize = if scaled < FRESH_MAX_EXTRA { scaled } else { FRESH_MAX_EXTRA };
    if capped > FRESH_MIN_EXTRA { capped } else { FRESH_MIN_EXTRA }
}

/// How much more space than asked a break request takes.
pub open spec fn spec_extra_brk(size: int) -> int {
    let scaled = BRK_MULTIPLIER as int * size;
    let capped = if scaled < BRK_MAX_EXTRA as int { scaled } else { BRK_MAX_EXTRA as int };
    if capped > BRK_MIN_EXTRA as int { capped } else { BRK_MIN_EXTRA as int }
}

/// Canonicalize a break request.
///
/// Moving the break is expensive, so more memory than necessary is acquired
/// at once; small memory stubs are useless until merged with another block.
/// The return value specifies how much _more_ space is requested.
pub fn extra_brk(size: usize) -> (r: usize)
    ensures
        r == spec_extra_brk(size as int),
        BRK_MIN_EXTRA <= r <= BRK_MAX_EXTRA,
{
    let scaled: usize = if size <= BRK_MAX_EXTRA / BRK_MULTIPLIER {
        BRK_MULTIPLIER * size
    } else {
        BRK_MAX_EXTRA
    };
    let capped: usize = if scaled < BRK_MAX_EXTRA { scaled } else { BRK_MAX_EXTRA };
    if capped > BRK_MIN_EXTRA { capped } else { BRK_MIN_EXTRA }
}

} // verus!
