//! End-to-end tests driving the allocator machine.

use ralloc::Allocator;

fn make() -> Allocator {
    Allocator::new(4096, 1 << 26).unwrap()
}

fn write_bytes(a: &mut Allocator, p: usize, value: u8, count: usize) {
    let mut i = 0;
    while i < count {
        a.write_byte(p + i, value);
        i += 1;
    }
}

#[test]
fn minimal() {
    let mut alloc = make();

    let a = alloc.allocate(1, 1).unwrap();
    let b = alloc.allocate(1, 1).unwrap();
    let c = alloc.allocate(1, 1).unwrap();
    alloc.write_byte(a, 1);
    alloc.write_byte(b, 2);
    alloc.write_byte(c, 3);

    assert_eq!(alloc.read_byte(a), 1);
    assert_eq!(alloc.read_byte(b), 2);
    assert_eq!(alloc.read_byte(c), 3);
}

#[test]
fn manual() {
    let mut alloc = make();

    let ptr1 = alloc.allocate(30, 3).unwrap();
    let ptr2 = alloc.allocate(500, 20).unwrap();

    assert_eq!(0, ptr1 % 3);
    assert_eq!(0, ptr2 % 20);

    write_bytes(&mut alloc, ptr1, 0x22, 30);
    let mut i = 0;
    while i < 500 {
        alloc.write_byte(ptr2 + i, i as u8);
        i += 1;
    }

    assert_eq!(alloc.read_byte(ptr1), 0x22);
    assert_eq!(alloc.read_byte(ptr1 + 5), 0x22);

    assert_eq!(alloc.read_byte(ptr2), 0);
    assert_eq!(alloc.read_byte(ptr2 + 15), 15);

    let ptr1 = alloc.realloc(ptr1, 30, 300, 3).unwrap();
    let mut i = 0;
    while i < 300 {
        alloc.write_byte(ptr1 + i, i as u8);
        i += 1;
    }
    assert_eq!(alloc.read_byte(ptr1), 0);
    assert_eq!(alloc.read_byte(ptr1 + 200), 200);

    alloc.free(ptr1, 300);
    alloc.free(ptr2, 500);
}

#[test]
fn manual2() {
    let mut alloc = make();

    let ptr = alloc.allocate(1723, 8).unwrap();
    assert!(ptr != 0);
    for offset in 0..1723 {
        alloc.write_byte(ptr + offset, 0);
    }
}

#[test]
fn partial_free() {
    let mut alloc = make();

    let buf = alloc.allocate(63, 3).unwrap();

    write_bytes(&mut alloc, buf, 0, 63);
    alloc.write_byte(buf, 4);

    alloc.free(buf + 8, 55);
    alloc.write_byte(buf, 5);

    alloc.free(buf, 4);
    alloc.write_byte(buf + 4, 3);

    assert_eq!(alloc.read_byte(buf + 4), 3);
}

#[test]
fn partial_free_double() {
    let mut alloc = make();

    let buf = alloc.allocate(64, 4).unwrap();

    write_bytes(&mut alloc, buf, 0, 64);

    alloc.free(buf + 32, 32);
    alloc.write_byte(buf, 5);

    assert_eq!(alloc.read_byte(buf), 5);

    alloc.write_byte(buf, 0xAA);
    alloc.free(buf, 32);
}
