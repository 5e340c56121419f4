//! Tests for the fixed-size arena.

use ralloc::arena::Arena;
use ralloc::block::Block;
use ralloc::ptr::Pointer;

fn make_arena() -> Arena<i32> {
    let mut arena = Arena::new();
    arena.refill(Block::from_raw_parts(Pointer::new(1024), 826));

    arena
}

#[test]
fn integers() {
    let mut arena = make_arena();

    let mut n = arena.allocate(200).unwrap();
    assert_eq!(*n.get(), 200);
    n.set(400);
    assert_eq!(*n.get(), 400);
    n.set(1);
    assert_eq!(*n.get(), 1);
    arena.free(n);

    let mut n = arena.allocate(543).unwrap();
    assert_eq!(*n.get(), 543);
    n.set(402);
    assert_eq!(*n.get(), 402);
    n.set(2);
    assert_eq!(*n.get(), 2);
    arena.free(n);
}

#[test]
fn oom() {
    let mut arena = make_arena();

    // Make the arena run dry.
    while arena.allocate(0).is_ok() {}

    assert!(arena.allocate(2).is_err());
    assert!(arena.allocate(2).is_err());
    assert!(arena.allocate(2).is_err());
    assert!(arena.allocate(2).is_err());
    assert!(arena.allocate(2).is_err());
    assert!(arena.allocate(2).is_err());
    assert!(arena.allocate(2).is_err());
    assert!(arena.allocate(2).is_err());

    let mut arena2 = make_arena();

    while let Ok(x) = arena2.allocate(0) {
        arena.free(x);
    }

    arena.allocate(2).unwrap();
    arena.allocate(2).unwrap();
    arena.allocate(2).unwrap();
    arena.allocate(2).unwrap();
    arena.allocate(2).unwrap();
    arena.allocate(2).unwrap();
    arena.allocate(2).unwrap();
    arena.allocate(2).unwrap();
}

#[test]
fn cross_arena() {
    let mut arena1 = make_arena();
    let mut arena2 = make_arena();

    let mut n = arena1.allocate(200).unwrap();
    assert_eq!(*n.get(), 200);
    n.set(400);
    assert_eq!(*n.get(), 400);
    n.set(1);
    assert_eq!(*n.get(), 1);
    arena2.free(n);

    let mut n = arena2.allocate(543).unwrap();
    assert_eq!(*n.get(), 543);
    n.set(402);
    assert_eq!(*n.get(), 402);
    n.set(2);
    assert_eq!(*n.get(), 2);
    arena1.free(n);

    // The slot travelled from one arena to the other and back: both
    // arenas are balanced and still serve allocations.
    assert!(arena2.allocate(22).is_ok());
    assert!(arena1.allocate(22).is_ok());
}
