//! Tests for the block primitives.

use ralloc::block::Block;
use ralloc::ptr::Pointer;

#[test]
fn test_array() {
    let arr = b"Lorem ipsum dolor sit amet";
    let base = arr.as_ptr() as usize;
    let block = Block::from_raw_parts(Pointer::new(base), arr.len());

    // Test split.
    let (mut lorem, mut rest) = block.split(5);
    assert_eq!(lorem.size(), 5);
    assert_eq!(lorem.size() + rest.size(), arr.len());
    assert!(lorem < rest);

    assert_eq!(lorem, lorem);
    assert!(!rest.is_empty());
    assert!(lorem.align(2).unwrap().1.aligned_to(2));
    assert!(rest.align(15).unwrap().1.aligned_to(15));
    assert_eq!(base + 5, rest.ptr.get());
}

#[test]
fn test_merge() {
    let arr = b"Lorem ipsum dolor sit amet";
    let base = arr.as_ptr() as usize;
    let block = Block::from_raw_parts(Pointer::new(base), arr.len());

    let (mut lorem, mut rest) = block.split(5);
    lorem.merge_right(&mut rest).unwrap();

    let mut tmp = rest.split(0).0;
    assert!(tmp.is_empty());
    lorem.split(2).0.merge_right(&mut tmp).unwrap();
}

#[test]
fn test_empty_lr() {
    let arr = b"Lorem ipsum dolor sit amet";
    let base = arr.as_ptr() as usize;
    let block = Block::from_raw_parts(Pointer::new(base), arr.len());

    assert!(block.empty_left().is_empty());
    assert!(block.empty_right().is_empty());
    assert_eq!(block.empty_left().ptr.get(), base);
    assert_eq!(block.empty_right(), block.split(arr.len()).1);
}
