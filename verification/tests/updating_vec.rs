use arc_log::arcu::ArcuHeap;
use arc_log::updating_vec::{SRawVec, SVecWriter, TryReserveError};

#[test]
fn writer_reader_share_length() {
    let mut heap: ArcuHeap<SRawVec<i32>> = ArcuHeap::new();
    let mut w = SVecWriter::new(&mut heap);
    let r = w.new_reader(&mut heap);
    assert_eq!(w.len(&heap), 0);
    assert_eq!(r.len(&heap), 0);
    w.push(&mut heap, 1);
    w.push(&mut heap, 2);
    w.push(&mut heap, 3);
    assert_eq!(w.len(&heap), 3);
    assert_eq!(r.len(&heap), 3);
}

#[test]
fn writer_with_capacity() {
    let mut heap: ArcuHeap<SRawVec<u8>> = ArcuHeap::new();
    let mut w = SVecWriter::with_capacity(2, &mut heap);
    w.push(&mut heap, 1);
    w.push(&mut heap, 2);
    w.push(&mut heap, 3);
    assert_eq!(w.len(&heap), 3);
}

// The amortized growth policy: doubling, but never below the minimum block
// worth allocating for the element size.
#[test]
fn amortized_growth_values() {
    let mut raw: SRawVec<u8> = SRawVec::new();
    assert_eq!(raw.capacity(), 0);
    assert!(raw.needs_to_grow(1));
    assert_eq!(raw.grow_amortized(0, 1), Ok(()));
    // one-byte elements start at eight slots
    assert_eq!(raw.capacity(), 8);
    assert_eq!(raw.grow_amortized(0, 9), Ok(()));
    // doubling wins over the requirement
    assert_eq!(raw.capacity(), 16);

    let mut raw4: SRawVec<u32> = SRawVec::with_capacity(3);
    assert_eq!(raw4.capacity(), 3);
    assert_eq!(raw4.grow_amortized(0, 1), Ok(()));
    // four-byte elements start at four slots; 2 * 3 = 6 wins
    assert_eq!(raw4.capacity(), 6);

    let mut raw_big: SRawVec<[u64; 200]> = SRawVec::new();
    assert_eq!(raw_big.grow_amortized(0, 1), Ok(()));
    // elements above a kibibyte get no slack
    assert_eq!(raw_big.capacity(), 1);
}

#[test]
fn exact_growth_values() {
    let mut raw: SRawVec<u32> = SRawVec::new();
    assert_eq!(raw.grow_exact(0, 5), Ok(()));
    assert_eq!(raw.capacity(), 5);
    assert_eq!(raw.try_reserve_exact(0, 3), Ok(()));
    assert_eq!(raw.capacity(), 5);
    raw.reserve_exact(0, 9);
    assert_eq!(raw.capacity(), 9);
}

// A zero-sized element type reports unbounded capacity and can only fail to
// grow: such a buffer is already as large as it can get.
#[test]
fn zero_sized_capacity() {
    let mut raw: SRawVec<()> = SRawVec::new();
    assert_eq!(raw.capacity(), usize::MAX);
    assert!(!raw.needs_to_grow(1));
    assert_eq!(raw.grow_amortized(0, 1), Err(TryReserveError::CapacityOverflow));
    assert_eq!(raw.grow_exact(0, 1), Err(TryReserveError::CapacityOverflow));
}

// Overflowing requests report a capacity overflow and leave the buffer as
// it was.
#[test]
fn capacity_overflow_reported() {
    let mut raw: SRawVec<u64> = SRawVec::new();
    assert_eq!(raw.try_reserve(0, usize::MAX), Err(TryReserveError::CapacityOverflow));
    assert_eq!(raw.capacity(), 0);
    assert_eq!(raw.grow_exact(0, usize::MAX / 4), Err(TryReserveError::CapacityOverflow));
    assert_eq!(raw.capacity(), 0);
}

#[test]
fn shrink_and_reserve() {
    let mut raw: SRawVec<u32> = SRawVec::with_capacity(16);
    raw.shrink_to_fit(4);
    assert_eq!(raw.capacity(), 4);
    raw.shrink_to_fit(0);
    assert_eq!(raw.capacity(), 0);
    assert_eq!(raw.reserve_one(), Ok(()));
    assert!(raw.capacity() >= 1);
    let elems = [1u32, 2, 3];
    assert_eq!(raw.reserve(&elems), Ok(()));
    assert!(raw.capacity() >= 3);
    assert_eq!(raw.len(), 0);
}

#[test]
fn capacity_from_bytes_divides() {
    assert_eq!(SRawVec::<u32>::capacity_from_bytes(12), 3);
    assert_eq!(SRawVec::<u32>::capacity_from_bytes(13), 3);
    assert_eq!(SRawVec::<u64>::capacity_from_bytes(64), 8);
}
