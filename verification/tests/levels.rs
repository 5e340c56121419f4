//! Tests for the skip-list level primitives.

use ralloc::lv::{Array, Iter, Level, NonBottomLevel};
use ralloc::random::Xorshift;

#[test]
fn level_generation_dist() {
    // The number of generated `None`s.
    let mut nones: isize = 0;
    // Occurrences of each level.
    let mut occ: [isize; 8] = [0; 8];
    let mut rng = Xorshift::new();
    // Simulate a thousand level generations.
    for _ in 0..1000 {
        if let Some(lv) = Level::generate(&mut rng) {
            occ[lv.0] += 1;
        } else {
            nones += 1;
        }
    }

    // Ensure that the number of `None`s is within the expected margin.
    assert!((490..510).contains(&nones));

    // Each level should occur about half as often as the one below it.
    let mut expected: isize = 250;
    let mut it = Iter::all();
    while let Some(lv) = it.next() {
        assert!((expected - 10..expected + 10).contains(&occ[lv.0]));
        expected /= 2;
    }
}

#[test]
fn above() {
    assert!(Level::max().above().is_none());
    assert_eq!(Level::min().above().unwrap().0 .0, 1);
}

#[test]
fn iter() {
    let mut all: Vec<usize> = Vec::new();
    let mut it = Iter::all();
    while let Some(lv) = it.next() {
        all.push(lv.0);
    }
    assert_eq!(all, (0..8).collect::<Vec<usize>>());

    let mut nb: Vec<usize> = Vec::new();
    let mut it = Iter::non_bottom();
    while let Some(lv) = it.next() {
        nb.push(lv.0);
    }
    assert_eq!(nb, (1..8).collect::<Vec<usize>>());
}

#[test]
fn array_max_index() {
    assert_eq!(Array::<&str>::new("").get(Level::max()), "");
    assert_eq!(Array::<u32>::new(0).get(Level::max()), 0);
    let mut a = Array::<&str>::new("");
    a.set(Level::max(), "x");
    assert_eq!(a.get(Level::max()), "x");
    let mut b = Array::<u32>::new(0);
    b.set(Level::max(), 7);
    assert_eq!(b.get(Level::max()), 7);
}

#[test]
fn array_iter() {
    let mut arr = Array::new(0usize);
    let mut it = Iter::all();
    while let Some(lv) = it.next() {
        arr.set(lv, lv.0);
    }

    let mut it = Iter::all();
    while let Some(lv) = it.next() {
        assert_eq!(arr.get(lv), lv.0);

        let mut upper = Iter::start_at(lv);
        while let Some(lv2) = upper.next() {
            assert_eq!(arr.get(lv2), lv2.0);
        }
        let mut lower = Iter::all().to(lv);
        while let Some(lv2) = lower.next() {
            assert_eq!(arr.get(lv2), lv2.0);
        }
    }

    let mut it = Iter::non_bottom();
    while let Some(lv) = it.next() {
        assert_eq!(arr.get(lv), lv.0);
    }
}

#[test]
fn non_bottom_below() {
    let above: NonBottomLevel = Level::min().above().unwrap();
    let lv: Level = above.below();

    assert_eq!(lv, Level::min());
}
