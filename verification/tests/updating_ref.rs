use arc_log::updating_ref::{Ref, RefHeap, UpdatingRef};

#[test]
fn lib_it_works() {
    let mut heap: RefHeap<i32> = RefHeap::new();
    let v = Ref::new(5, &mut heap);
    let v1 = v.clone_handle(&mut heap);
    let mut v2 = v.clone_to_updating(&mut heap);
    let v3 = v2.clone_to_ref(&mut heap);
    v.drop_handle(&mut heap);
    v1.drop_handle(&mut heap);
    v2.drop_handle(&mut heap);
    assert!(5 == *v3.read(&heap));
}

#[test]
fn lib_update_doesnt_update_ref() {
    let mut heap: RefHeap<i32> = RefHeap::new();
    let v = Ref::new(5, &mut heap);
    let v2 = v.clone_to_updating(&mut heap);
    v2.update_to(&mut heap, 10);
    v2.drop_handle(&mut heap);
    assert!(5 == *v.read(&heap));
}

#[test]
fn lib_clone_update_drop_clone() {
    let mut heap: RefHeap<i32> = RefHeap::new();
    let v = Ref::new(5, &mut heap);
    assert!(v.ref_count(&heap) == 1);
    let mut v2 = v.clone_to_updating(&mut heap);
    assert!(v2.ref_count(&mut heap) == 2);
    assert!(v.ref_count(&heap) == 2);
    v2.update_to(&mut heap, 10);
    assert!(5 == *v.read(&heap));
    assert!(v.ref_count(&heap) == 2);
    assert!(10 == *v2.read(&mut heap));
    assert!(v2.ref_count(&mut heap) == 2);
    assert!(v.ref_count(&heap) == 1);
    v2.drop_handle(&mut heap);
    assert!(v.ref_count(&heap) == 1);
    let mut v2 = v.clone_to_updating(&mut heap);
    assert!(v.ref_count(&heap) == 2);
    assert!(v2.ref_count(&mut heap) == 2);
    assert!(v.ref_count(&heap) == 1);
    v.drop_handle(&mut heap);
    assert!(v2.ref_count(&mut heap) == 1);
    assert!(10 == *v2.read(&mut heap));
}
