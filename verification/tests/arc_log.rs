use arc_log::arc_log::{
    add_forward_to_len, get_len, has_forward, has_forward_or_lock, is_locked, lock_len, ArcLog,
    LogHeap,
};

#[derive(Debug)]
struct DropTest(usize);

impl Drop for DropTest {
    fn drop(&mut self) {}
}

#[test]
fn arc_log_it_works() {
    let mut heap: LogHeap<DropTest> = LogHeap::new();
    let mut v = ArcLog::new(&mut heap);

    v.push_spin(&mut heap, DropTest(1));
    v.push_spin(&mut heap, DropTest(2));
    v.push_spin(&mut heap, DropTest(3));
    v.push_spin(&mut heap, DropTest(4));
    v.push_spin(&mut heap, DropTest(5));
    v.push_spin(&mut heap, DropTest(6));

    assert_eq!(v.get(&heap, 1).0, 2);
}

#[test]
fn clone_len() {
    let mut heap: LogHeap<DropTest> = LogHeap::new();
    let mut v = ArcLog::new(&mut heap);
    let mut v2 = v.clone_handle(&mut heap);
    v.push_spin(&mut heap, DropTest(1));
    v.push_spin(&mut heap, DropTest(2));
    assert_eq!(v2.len(&heap), 0);
    v2.update(&mut heap);
    assert_eq!(v2.len(&heap), 2);
}

#[test]
fn shared_data() {
    let mut heap: LogHeap<i32> = LogHeap::new();
    let mut copy_1 = ArcLog::new(&mut heap);
    let mut copy_2 = copy_1.clone_handle(&mut heap);
    copy_1.push_spin(&mut heap, 1);
    copy_2.push_spin(&mut heap, 2);
    copy_1.update(&mut heap);
    assert_eq!(*copy_1.get(&heap, 1), 2);
    assert_eq!(*copy_2.get(&heap, 0), 1);
    let data = [1, 2];
    assert_eq!(copy_1.len(&heap), 2);
    assert_eq!(data[0], *copy_1.get(&heap, 0));
    assert_eq!(data[1], *copy_1.get(&heap, 1));
    assert_eq!(copy_2.len(&heap), 2);
    assert_eq!(data[0], *copy_2.get(&heap, 0));
    assert_eq!(data[1], *copy_2.get(&heap, 1));
}

// Four cloned handles and the original interleave their appends; after an
// update every element is accounted for exactly once.
#[test]
fn fanout_four_handles() {
    let mut heap: LogHeap<i32> = LogHeap::new();
    let mut v = ArcLog::new(&mut heap);
    let mut h1 = v.clone_handle(&mut heap);
    let mut h2 = v.clone_handle(&mut heap);
    let mut h3 = v.clone_handle(&mut heap);
    let mut h4 = v.clone_handle(&mut heap);
    for _i in 0..100 {
        h1.push_spin(&mut heap, 1);
        h2.push_spin(&mut heap, 2);
        h3.push_spin(&mut heap, 3);
        h4.push_spin(&mut heap, 4);
    }
    for _i in 0..50 {
        v.push_spin(&mut heap, 0);
    }
    v.update(&mut heap);
    assert_eq!(v.len(&heap), 450);
    let mut counts = [0usize; 5];
    for i in 0..450 {
        counts[*v.get(&heap, i) as usize] += 1;
    }
    assert_eq!(counts[0], 50);
    assert_eq!(counts[1], 100);
    assert_eq!(counts[2], 100);
    assert_eq!(counts[3], 100);
    assert_eq!(counts[4], 100);
    h1.drop_handle(&mut heap);
    h2.drop_handle(&mut heap);
    h3.drop_handle(&mut heap);
    h4.drop_handle(&mut heap);
    v.drop_handle(&mut heap);
}

// A zero-capacity log must allocate a forward generation on its first
// append: the heap hands out a second block.
#[test]
fn zero_capacity_append_forwards() {
    let mut heap: LogHeap<i32> = LogHeap::new();
    let mut v = ArcLog::with_capacity(0, &mut heap);
    assert_eq!(heap.block_count(), 1);
    let idx = v.push_spin(&mut heap, 7);
    assert_eq!(idx, 0);
    assert_eq!(heap.block_count(), 2);
    assert_eq!(*v.get(&heap, 0), 7);
}

// A zero-sized element type never grows: the capacity is effectively
// unbounded, so no forward generation is ever allocated.
#[test]
fn zero_sized_never_forwards() {
    let mut heap: LogHeap<()> = LogHeap::new();
    let mut v = ArcLog::new(&mut heap);
    for _i in 0..1000 {
        v.push_spin(&mut heap, ());
    }
    assert_eq!(v.len(&heap), 1000);
    assert_eq!(heap.block_count(), 1);
}

// An index fence below the current length refuses the append and hands the
// element back; at the current length the append succeeds.
#[test]
fn index_fenced_append() {
    let mut heap: LogHeap<i32> = LogHeap::new();
    let mut v = ArcLog::with_capacity(4, &mut heap);
    assert_eq!(v.push_spin(&mut heap, 10), 0);
    assert_eq!(v.push_spin(&mut heap, 11), 1);
    assert_eq!(v.push_spin_by_index(&mut heap, 99, 1), Err(99));
    assert_eq!(v.len(&heap), 2);
    assert_eq!(v.push_or_return_by_index(&mut heap, 98, 1), Err(98));
    assert_eq!(v.len(&heap), 2);
    assert_eq!(v.push_spin_by_index(&mut heap, 12, 2), Ok(2));
    assert_eq!(v.push_or_return_by_index(&mut heap, 13, 3), Ok(3));
    assert_eq!(v.len(&heap), 4);
    assert_eq!(*v.get(&heap, 3), 13);
}

// The one-shot append with no fence always lands.
#[test]
fn push_or_return_lands() {
    let mut heap: LogHeap<i32> = LogHeap::new();
    let mut v = ArcLog::new(&mut heap);
    assert_eq!(v.push_or_return(&mut heap, 5), Ok(0));
    assert_eq!(v.push_or_return(&mut heap, 6), Ok(1));
    assert_eq!(*v.get(&heap, 0), 5);
    assert_eq!(*v.get(&heap, 1), 6);
}

// Calling update twice in a row with no intervening growth: the second call
// reports no advance.
#[test]
fn update_twice_settles() {
    let mut heap: LogHeap<i32> = LogHeap::new();
    let mut v = ArcLog::with_capacity(1, &mut heap);
    let mut v2 = v.clone_handle(&mut heap);
    v.push_spin(&mut heap, 1);
    v.push_spin(&mut heap, 2);
    assert!(v2.update(&mut heap));
    assert!(!v2.update(&mut heap));
    assert_eq!(v2.len(&heap), 2);
}

// A dropped handle releases its generation; dropping the last one reclaims
// the whole chain and the heap stays consistent for fresh logs.
#[test]
fn drop_reclaims() {
    let mut heap: LogHeap<i32> = LogHeap::new();
    let mut v = ArcLog::new(&mut heap);
    v.push_spin(&mut heap, 1);
    v.push_spin(&mut heap, 2);
    let v2 = v.clone_handle(&mut heap);
    v.drop_handle(&mut heap);
    assert_eq!(v2.len(&heap), 2);
    assert_eq!(*v2.get(&heap, 0), 1);
    v2.drop_handle(&mut heap);
    let mut w = ArcLog::new(&mut heap);
    w.push_spin(&mut heap, 9);
    assert_eq!(*w.get(&heap, 0), 9);
}

#[test]
fn packed_word_helpers() {
    assert_eq!(get_len(5), 5);
    assert!(!is_locked(5));
    assert!(!has_forward(5));
    assert!(is_locked(lock_len(5)));
    assert_eq!(get_len(lock_len(5)), 5);
    assert!(has_forward(add_forward_to_len(5)));
    assert_eq!(get_len(add_forward_to_len(5)), 5);
    assert!(!has_forward_or_lock(5));
    assert!(has_forward_or_lock(lock_len(5)));
    assert!(has_forward_or_lock(add_forward_to_len(5)));
}

// Single-thread append and read: six spin-appends, then the committed
// length and every element, in order.
#[test]
fn single_thread_append_and_read() {
    let mut heap: LogHeap<i32> = LogHeap::new();
    let mut v = ArcLog::new(&mut heap);
    for i in 1..=6 {
        v.push_spin(&mut heap, i);
    }
    assert_eq!(v.len(&heap), 6);
    assert_eq!(*v.get(&heap, 0), 1);
    assert_eq!(*v.get(&heap, 1), 2);
    assert_eq!(*v.get(&heap, 2), 3);
    assert_eq!(*v.get(&heap, 3), 4);
    assert_eq!(*v.get(&heap, 4), 5);
    assert_eq!(*v.get(&heap, 5), 6);
}
