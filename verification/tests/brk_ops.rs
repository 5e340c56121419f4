//! Tests for the break arbiter over the data segment.

use ralloc::brk::BrkLock;
use ralloc::sys::Segment;

#[test]
fn test_ordered() {
    let mut seg = Segment::new(4096, 1 << 20);
    let mut brk = BrkLock::new();
    let (a, b, c) = brk.canonical_brk(&mut seg, 20, 1).unwrap();

    assert!(a <= b);
    assert!(b <= c);
}

#[test]
fn test_brk_grow_up() {
    let mut seg = Segment::new(4096, 1 << 20);
    let mut brk = BrkLock::new();
    let brk1 = brk.sbrk(&mut seg, 5).unwrap();
    let brk2 = brk.sbrk(&mut seg, 100).unwrap();

    assert!(brk1 < brk2);
}

#[test]
fn test_oom() {
    let mut seg = Segment::new(4096, 1 << 20);
    let mut brk = BrkLock::new();
    assert!(brk.sbrk(&mut seg, 9999999999999).is_err());
}
