//! Tests for the pool vector over explicit backing storage.

use ralloc::block::Block;
use ralloc::pool::PoolVec;
use ralloc::ptr::Pointer;

fn blk(addr: usize, size: usize) -> Block {
    Block::from_raw_parts(Pointer::new(addr), size)
}

#[test]
fn test_vec() {
    // A backing block of 512 bytes holds 32 block slots.
    let mut vec = PoolVec::from_raw_parts(blk(4096, 512), 0);
    assert_eq!(vec.capacity(), 32);
    assert_eq!(vec.len(), 0);

    let mut i = 0;
    while i < 32 {
        vec.push(blk(8192 + 16 * i, 16)).unwrap();
        i += 1;
    }
    // The vector is full: pushing fails without touching it.
    assert!(vec.push(blk(1, 1)).is_err());
    assert_eq!(vec.len(), 32);
    assert_eq!(vec.get(0), blk(8192, 16));
    assert_eq!(vec.get(31), blk(8192 + 16 * 31, 16));

    // Refilling carries the elements to the new storage and hands the old
    // storage block back.
    let old = vec.refill(blk(16384, 1024));
    assert_eq!(old, blk(4096, 512));
    assert_eq!(vec.capacity(), 64);
    assert_eq!(vec.len(), 32);
    assert_eq!(vec.get(31), blk(8192 + 16 * 31, 16));

    assert_eq!(vec.pop(), Some(blk(8192 + 16 * 31, 16)));
    vec.truncate(14);
    assert_eq!(vec.len(), 14);
    assert_eq!(vec.get(13), blk(8192 + 16 * 13, 16));
}
