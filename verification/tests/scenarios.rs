//! End-to-end scenarios for the allocator: alignment splitting, in-place
//! reallocation, draining the local tier and trimming memory back to the
//! system.

use ralloc::config::{FRAGMENTATION_SCALE, OS_MEMTRIM_LIMIT, OS_MEMTRIM_WORTHY};
use ralloc::Allocator;

#[test]
fn alignment_split() {
    let mut alloc = Allocator::new(4096, 1 << 26).unwrap();

    let p1 = alloc.allocate(1, 4096).unwrap();
    let p2 = alloc.allocate(1, 4096).unwrap();

    assert_eq!(p1 % 4096, 0);
    assert_eq!(p2 % 4096, 0);
    assert!(p1 != p2);

    // The blocks between the aligned results returned to the pool and are
    // reusable by a smaller allocation.
    let p3 = alloc.allocate(100, 1).unwrap();
    assert!(p3 < p1.max(p2));
}

#[test]
fn shrink_in_place() {
    let mut alloc = Allocator::new(4096, 1 << 26).unwrap();

    let p = alloc.allocate(1000, 1).unwrap();
    alloc.realloc_inplace(p, 1000, 100).unwrap();

    // A subsequent allocation can reuse the freed tail.
    let q = alloc.allocate(800, 1).unwrap();
    assert_eq!(q, p + 100);
}

#[test]
fn grow_in_place_with_neighbor() {
    let mut alloc = Allocator::new(4096, 1 << 26).unwrap();

    let a = alloc.allocate(100, 1).unwrap();
    let b = alloc.allocate(100, 1).unwrap();
    assert_eq!(b, a + 100);
    alloc.free(b, 100);

    alloc.realloc_inplace(a, 100, 150).unwrap();

    // A following allocation reuses the residual tail of the absorbed
    // neighbor.
    let c = alloc.allocate(50, 1).unwrap();
    assert_eq!(c, a + 150);
}

#[test]
fn grow_requiring_copy() {
    let mut alloc = Allocator::new(4096, 1 << 26).unwrap();

    let a = alloc.allocate(100, 1).unwrap();
    let c = alloc.allocate(100, 1).unwrap();
    assert_eq!(c, a + 100);

    let mut i = 0;
    while i < 100 {
        alloc.write_byte(a + i, i as u8);
        alloc.write_byte(c + i, 0xC0);
        i += 1;
    }

    // The neighbor is live, so the reallocation must move and copy.
    let a2 = alloc.realloc(a, 100, 200, 1).unwrap();
    assert!(a2 != a);

    let mut i = 0;
    while i < 100 {
        assert_eq!(alloc.read_byte(a2 + i), i as u8);
        assert_eq!(alloc.read_byte(c + i), 0xC0);
        i += 1;
    }
}

#[test]
fn fragmentation_drain() {
    let mut alloc = Allocator::new(4096, 1 << 26).unwrap();
    alloc.init_local().unwrap();

    // Many small allocations, freeing every other one so the local pool
    // fills with scattered one-byte stubs: the average block size drops
    // below the fragmentation scale.
    let mut kept: Vec<usize> = Vec::new();
    let mut dropped: Vec<usize> = Vec::new();
    for i in 0..1000 {
        let p = alloc.allocate(1, 1).unwrap();
        if i % 2 == 0 {
            kept.push(p);
        } else {
            dropped.push(p);
        }
    }
    let global_before = alloc.global.inner.total_bytes();
    let mut drained = false;
    for p in dropped {
        alloc.free(p, 1);
        let l = alloc.local.as_ref().unwrap();
        let total = l.inner.total_bytes();
        let len = l.inner.len();
        // After each free the drain condition was checked; once the pool
        // was fragmented it must have been drained down again.
        if total < FRAGMENTATION_SCALE * len {
            drained = true;
        }
    }
    let global_after = alloc.global.inner.total_bytes();
    // The local pool fed its stubs back to the global allocator.
    assert!(drained || global_after > global_before);
    assert!(alloc.local.as_ref().unwrap().inner.total_bytes() < 1000);

    for p in kept {
        alloc.free(p, 1);
    }
}

#[test]
fn os_memtrim() {
    let mut alloc = Allocator::new(4096, 1 << 29).unwrap();

    // Grow the pool past the memtrim limit with one huge allocation whose
    // free leaves the final pool block adjacent to the break.
    let big = OS_MEMTRIM_LIMIT + OS_MEMTRIM_WORTHY;
    let p = alloc.allocate(big, 1).unwrap();
    let end_before = alloc.global.seg.end();
    let total_before = alloc.global.inner.total_bytes();

    alloc.free(p, big);

    // The free pushed the pool past the limit: the top block was released
    // and the break moved down.
    let end_after = alloc.global.seg.end();
    let total_after = alloc.global.inner.total_bytes();
    assert!(end_after < end_before);
    assert!(total_after < total_before + big);
    assert!(total_after <= OS_MEMTRIM_LIMIT);
}
