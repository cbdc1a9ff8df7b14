use arc_log::arcu::{Arcu, ArcuHeap};

#[test]
fn arcu_it_works() {
    let mut heap: ArcuHeap<i32> = ArcuHeap::new();
    let v = Arcu::new(5, &mut heap);
    let v1 = v.clone_handle(&mut heap);
    v.drop_handle(&mut heap);
    assert!(5 == *v1.read(&heap));
}

#[test]
fn arcu_update_doesnt_update_ref() {
    let mut heap: ArcuHeap<i32> = ArcuHeap::new();
    let mut v = Arcu::new(5, &mut heap);
    v.update_value(&mut heap, 10);
    assert!(5 == *v.read(&heap));
    v.update(&mut heap);
    assert!(10 == *v.read(&heap));
}

#[test]
fn arcu_clone_update_drop_clone() {
    let mut heap: ArcuHeap<i32> = ArcuHeap::new();
    let v = Arcu::new(5, &mut heap);
    assert!(v.ref_count(&heap) == 1);
    let mut v2 = v.clone_handle(&mut heap);
    assert!(v2.ref_count(&heap) == 2);
    assert!(v.ref_count(&heap) == 2);
    v2.update_value(&mut heap, 10);
    assert!(5 == *v.read(&heap));
    assert!(v.ref_count(&heap) == 2);
    v2.update(&mut heap);
    assert!(10 == *v2.read(&heap));
    assert!(v2.ref_count(&heap) == 2);
    assert!(v.ref_count(&heap) == 1);
    v2.drop_handle(&mut heap);
    assert!(v.ref_count(&heap) == 1);
    let mut v2 = v.clone_handle(&mut heap);
    assert!(v.ref_count(&heap) == 2);
    assert!(v2.ref_count(&heap) == 2);
    v2.update(&mut heap);
    assert!(v.ref_count(&heap) == 1);
    v.drop_handle(&mut heap);
    assert!(v2.ref_count(&heap) == 1);
    assert!(10 == *v2.read(&heap));
}

// Replace, then advance one hop: the handle reads the replacement.
#[test]
fn replace_update_read() {
    let mut heap: ArcuHeap<i32> = ArcuHeap::new();
    let mut a = Arcu::new(5, &mut heap);
    a.update_value(&mut heap, 10);
    assert_eq!(*a.read(&heap), 5);
    assert!(a.update(&mut heap));
    assert_eq!(*a.read(&heap), 10);
}

// has_update answers whether a replacement is pending; advancing to the
// latest generation skips every intermediate one.
#[test]
fn update_latest_skips_hops() {
    let mut heap: ArcuHeap<i32> = ArcuHeap::new();
    let mut a = Arcu::new(1, &mut heap);
    assert!(!a.has_update(&heap));
    a.update_value(&mut heap, 2);
    a.update_value(&mut heap, 3);
    a.update_value(&mut heap, 4);
    assert!(a.has_update(&heap));
    assert!(a.update_latest(&mut heap));
    assert_eq!(*a.read(&heap), 4);
    assert!(!a.update_latest(&mut heap));
    assert!(!a.update(&mut heap));
}

// A parked observation ticket is handed back by the next replacement, and an
// observation with a replacement pending completes at once.
#[test]
fn observe_and_wake() {
    let mut heap: ArcuHeap<i32> = ArcuHeap::new();
    let mut a = Arcu::new(1, &mut heap);
    assert!(!a.observe(&mut heap, 7));
    let mut b = a.clone_handle(&mut heap);
    let woken = b.update_value(&mut heap, 2);
    assert_eq!(woken, Some(7));
    assert!(a.observe(&mut heap, 8));
    assert_eq!(*a.read(&heap), 2);
    let woken2 = b.update_value(&mut heap, 3);
    assert_eq!(woken2, None);
    a.drop_handle(&mut heap);
    b.drop_handle(&mut heap);
}
