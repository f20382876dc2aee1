use virtual_gc::cell::AllocError;
use virtual_gc::heap::Heap;

fn is_default(h: &Heap, i: usize) -> bool {
    let c = h.cell(i);
    c.freed
        && c.data.is_none()
        && !c.is_root
        && !c.marked
        && c.reference_count == 0
        && c.will_ref.is_empty()
        && c.by_ref.is_empty()
}

#[test]
fn mark_sets_exactly_reachable_cells() {
    let mut h = Heap::new(8);
    h.set_roots(0, 1);
    for v in 2..7 {
        h.allocate_at(v, None, v as usize).unwrap();
    }
    h.link(0, 2).unwrap();
    h.link(2, 3).unwrap();
    h.link(3, 2).unwrap();
    h.link(5, 6).unwrap();
    h.link(4, 0).unwrap();
    h.mark();
    let marked: Vec<usize> = (0..8).filter(|&i| h.cell(i).marked).collect();
    assert_eq!(marked, vec![0, 1, 2, 3]);
    assert!(!h.cell(4).freed);
}

#[test]
fn mark_clears_stale_marks() {
    let mut h = Heap::new(4);
    h.set_roots(0, 1);
    h.allocate_at(1, None, 2).unwrap();
    h.link(0, 2).unwrap();
    h.mark();
    assert!(h.cell(2).marked);
    h.unroot_all();
    h.set_roots(1, 3);
    h.mark();
    assert!(!h.cell(0).marked);
    assert!(!h.cell(2).marked);
    assert!(h.cell(1).marked && h.cell(3).marked);
}

#[test]
fn mark_skips_dangling_targets() {
    let mut h = Heap::new(4);
    h.set_roots(0, 1);
    h.allocate_at(3, Some(99), 2).unwrap();
    h.allocate_at(4, Some(3), 3).unwrap();
    h.free(3);
    h.link(0, 2).unwrap();
    h.mark();
    assert!(h.cell(2).marked);
    assert!(!h.cell(3).marked && h.cell(3).freed);
}

#[test]
fn sweep_frees_unmarked_only() {
    let mut h = Heap::new(4);
    h.allocate_at(1, None, 0).unwrap();
    h.allocate_at(2, None, 1).unwrap();
    h.link(1, 0).unwrap();
    h.set_roots(0, 2);
    h.sweep();
    assert!(is_default(&h, 1));
    assert!(is_default(&h, 3));
    assert!(!h.cell(0).freed && h.cell(0).marked);
    assert!(h.cell(0).by_ref.is_empty());
    assert!(!h.cell(2).freed);
}

#[test]
fn cycle_from_root_survives_collection() {
    let mut h = Heap::new(10);
    h.set_roots(0, 1);
    h.allocate_at(7, None, 5).unwrap();
    h.link(0, 5).unwrap();
    h.link(5, 0).unwrap();
    h.collect();
    assert!(!h.cell(0).freed && !h.cell(5).freed);
    assert_eq!(h.cell(5).data, Some(7));
    assert!(h.cell(5).marked);
    assert_eq!(h.cell(5).will_ref, vec![0]);
}

#[test]
fn unrooted_cycle_is_reclaimed() {
    let mut h = Heap::new(5);
    h.set_roots(0, 1);
    h.allocate_at(1, None, 2).unwrap();
    h.allocate_at(2, None, 3).unwrap();
    h.link(2, 3).unwrap();
    h.link(3, 2).unwrap();
    assert_eq!(h.cell(2).reference_count, 2);
    h.collect();
    assert!(is_default(&h, 2));
    assert!(is_default(&h, 3));
}

#[test]
fn unreachable_cell_is_reclaimed() {
    let mut h = Heap::new(6);
    h.set_roots(0, 1);
    let i = h.allocate_first_free(11, Some(0)).unwrap();
    assert_eq!(i, 2);
    h.link(1, 0).unwrap();
    h.collect();
    assert!(is_default(&h, 2));
    assert!(!h.cell(0).freed && !h.cell(1).freed);
    assert!(h.cell(0).by_ref.contains(&1));
}

#[test]
fn collection_excises_reclaimed_indices() {
    let mut h = Heap::new(4);
    h.set_roots(0, 1);
    h.allocate_at(5, None, 2).unwrap();
    h.link(2, 0).unwrap();
    assert_eq!(h.cell(0).by_ref, vec![2]);
    h.collect();
    assert!(is_default(&h, 2));
    assert!(h.cell(0).by_ref.is_empty());
}

#[test]
fn end_to_end_scenario() {
    let mut h = Heap::new(5);
    h.set_roots(0, 1);
    assert_eq!(h.allocate(9, None, Some(2)), Ok(2));
    assert_eq!(h.link(0, 2), Ok(()));
    assert_eq!(h.link(3, 4), Err(AllocError::DataIsFree));
    h.collect();
    assert!(!h.cell(2).freed);
    assert_eq!(h.cell(2).data, Some(9));
    assert!(h.cell(2).marked);
    assert!(is_default(&h, 3));
    assert!(is_default(&h, 4));
    assert!(h.cell(0).is_root && h.cell(1).is_root);
}

#[test]
fn collect_on_rootless_heap_frees_everything() {
    let mut h = Heap::new(3);
    h.allocate_first_free(1, None).unwrap();
    h.allocate_first_free(2, Some(0)).unwrap();
    h.collect();
    for i in 0..3 {
        assert!(is_default(&h, i));
    }
}
