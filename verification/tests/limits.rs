//! Tests for the tunable formulas, the out-of-memory conditions and the
//! reallocation identities.

use ralloc::config::{extra_brk, extra_fresh};
use ralloc::log::level;
use ralloc::Allocator;

#[test]
fn extra_formulas() {
    // Small requests are inflated to the minimum extra.
    assert_eq!(extra_fresh(1), 64);
    assert_eq!(extra_brk(1), 1024);
    // Mid-size requests scale linearly.
    assert_eq!(extra_fresh(100), 200);
    assert_eq!(extra_brk(2000), 4000);
    // Large requests are capped.
    assert_eq!(extra_fresh(100000), 1024);
    assert_eq!(extra_brk(100000), 65536);
}

#[test]
fn log_level() {
    assert!(level(0));
    assert!(level(6));
}

#[test]
fn init_needs_room() {
    // A segment too small for the initial pool storage cannot host an
    // allocator.
    assert!(Allocator::new(4096, 5000).is_err());
    // One with room for the canonical initial extent can.
    assert!(Allocator::new(4096, 1 << 20).is_ok());
}

#[test]
fn alloc_past_limit() {
    let mut alloc = Allocator::new(4096, 1 << 20).unwrap();
    // The inflated request cannot fit below the limit.
    assert!(alloc.allocate(1 << 21, 1).is_err());
    // The allocator is still usable afterwards.
    let p = alloc.allocate(100, 1).unwrap();
    alloc.free(p, 100);
}

#[test]
fn realloc_same_size_keeps_address() {
    let mut alloc = Allocator::new(4096, 1 << 20).unwrap();
    let p = alloc.allocate(100, 4).unwrap();
    let mut i = 0;
    while i < 100 {
        alloc.write_byte(p + i, i as u8);
        i += 1;
    }

    // Reallocation to the same size moves nothing.
    let q = alloc.realloc(p, 100, 100, 4).unwrap();
    assert_eq!(q, p);
    let mut i = 0;
    while i < 100 {
        assert_eq!(alloc.read_byte(q + i), i as u8);
        i += 1;
    }
}

#[test]
fn free_empty_is_noop() {
    let mut alloc = Allocator::new(4096, 1 << 20).unwrap();
    let total = alloc.global.inner.total_bytes();
    alloc.free(8192, 0);
    assert_eq!(alloc.global.inner.total_bytes(), total);
}

#[test]
fn inplace_failure_leaves_state() {
    let mut alloc = Allocator::new(4096, 1 << 20).unwrap();
    let a = alloc.allocate(100, 1).unwrap();
    let b = alloc.allocate(100, 1).unwrap();
    let mut i = 0;
    while i < 100 {
        alloc.write_byte(a + i, 7);
        i += 1;
    }

    // The live neighbor blocks growing in place.
    assert!(alloc.realloc_inplace(a, 100, 5000).is_err());
    let mut i = 0;
    while i < 100 {
        assert_eq!(alloc.read_byte(a + i), 7);
        i += 1;
    }
    alloc.free(a, 100);
    alloc.free(b, 100);
}
