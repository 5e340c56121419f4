//! Tests for the small primitives: lazy initialization, pointers and the
//! pseudorandom generator.

use std::cell::Cell;

use ralloc::lazy_init::LazyInit;
use ralloc::ptr::Pointer;
use ralloc::random::{get, Xorshift};

#[test]
fn test_init() {
    let mut lazy = LazyInit::new(|| 300);

    assert_eq!(*lazy.get(), 300);
    *lazy.get() = 400;
    assert_eq!(*lazy.get(), 400);
}

#[test]
fn test_laziness() {
    let is_called = Cell::new(false);
    let mut lazy = LazyInit::new(|| is_called.set(true));
    assert!(!is_called.get());
    lazy.get();
    assert!(is_called.get());
}

#[test]
fn test_empty() {
    assert_eq!(Pointer::empty().get(), 1);
}

#[test]
fn distinct() {
    let mut rng = Xorshift::new();
    assert!(get(&mut rng) != get(&mut rng));
    assert!(get(&mut rng) != get(&mut rng));
    assert!(get(&mut rng) != get(&mut rng));
    assert!(get(&mut rng) != get(&mut rng));
    assert!(get(&mut rng) != get(&mut rng));
    assert!(get(&mut rng) != get(&mut rng));
    assert!(get(&mut rng) != get(&mut rng));
    assert!(get(&mut rng) != get(&mut rng));
    assert!(get(&mut rng) != get(&mut rng));
    assert!(get(&mut rng) != get(&mut rng));
}
