use virtual_gc::cell::AllocError;
use virtual_gc::heap::Heap;

#[test]
fn populate_fills_every_free_slot() {
    let mut h = Heap::new(6);
    h.set_roots(0, 1);
    h.allocate_at(-3, None, 4).unwrap();
    let v = h.populate_remaining();
    assert!((0..1000).contains(&v));
    for i in [2, 3, 5] {
        assert_eq!(h.cell(i).data, Some(v));
        assert!(!h.cell(i).freed && !h.cell(i).marked);
    }
    assert_eq!(h.cell(4).data, Some(-3));
    assert_eq!(h.cell(0).data, None);
    assert_eq!(h.allocate_first_free(1, None), Err(AllocError::NoFreeMemory));
}

#[test]
fn populate_with_given_value() {
    let mut h = Heap::new(3);
    h.allocate_at(1, None, 1).unwrap();
    h.populate_remaining_with(77);
    assert_eq!(h.cell(0).data, Some(77));
    assert_eq!(h.cell(1).data, Some(1));
    assert_eq!(h.cell(2).data, Some(77));
}

#[test]
fn arbitrary_allocation_at_slot() {
    let mut h = Heap::new(4);
    assert_eq!(h.allocate_arbitrary_at(2), Ok(2));
    let d = h.cell(2).data.unwrap();
    assert!((0..50).contains(&d));
    assert!(h.cell(2).will_ref.is_empty());
    assert_eq!(h.allocate_arbitrary_at(2), Err(AllocError::Occupied));
    assert_eq!(h.cell(2).data, Some(d));
}

#[test]
fn free_refs_point_at_a_root() {
    let mut h = Heap::new(10);
    h.set_roots(3, 7);
    let r = h.create_free_ref(4);
    assert_eq!(r, vec![Ok(0), Ok(1), Ok(2), Ok(4)]);
    let d3 = h.cell(3).data.unwrap();
    let d7 = h.cell(7).data.unwrap();
    assert!((1..50).contains(&d3) && (1..50).contains(&d7));
    let target = h.cell(0).will_ref[0];
    assert!(target == 3 || target == 7);
    let d = h.cell(target).data.unwrap();
    for i in [0, 1, 2, 4] {
        assert_eq!(h.cell(i).data, Some(d * d));
        assert_eq!(h.cell(i).will_ref, vec![target]);
        assert_eq!(h.cell(i).reference_count, 1);
    }
    assert!(h.cell(5).freed);
}

#[test]
fn free_refs_need_a_root() {
    let mut h = Heap::new(4);
    h.allocate_first_free(1, None).unwrap();
    let before = h.snapshot();
    assert!(h.create_free_ref(3).is_empty());
    assert_eq!(h.snapshot(), before);
}

#[test]
fn free_refs_stop_when_full() {
    let mut h = Heap::new(3);
    h.set_roots(0, 1);
    let r = h.create_free_ref(3);
    assert_eq!(
        r,
        vec![Ok(2), Err(AllocError::NoFreeMemory), Err(AllocError::NoFreeMemory)]
    );
}
