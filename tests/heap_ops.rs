use virtual_gc::cell::{AllocError, Cell};
use virtual_gc::heap::Heap;

fn occupied(h: &Heap) -> Vec<usize> {
    (0..h.len()).filter(|&i| !h.cell(i).freed).collect()
}

#[test]
fn new_heap_is_all_free() {
    let h = Heap::new(20);
    assert_eq!(h.len(), 20);
    for i in 0..20 {
        let c = h.cell(i);
        assert!(c.freed);
        assert_eq!(c.data, None);
        assert!(!c.is_root && !c.marked);
        assert_eq!(c.reference_count, 0);
        assert!(c.will_ref.is_empty() && c.by_ref.is_empty());
    }
}

#[test]
fn empty_heap_has_no_slots() {
    let mut h = Heap::new(0);
    assert_eq!(h.len(), 0);
    assert_eq!(h.allocate_first_free(1, None), Err(AllocError::NoFreeMemory));
}

#[test]
fn fresh_cell_is_free() {
    let c = Cell::new();
    assert!(c.freed && c.data.is_none() && c.will_ref.is_empty());
}

#[test]
fn first_free_takes_lowest_slot() {
    let mut h = Heap::new(5);
    assert_eq!(h.allocate_at(1, None, 0), Ok(0));
    assert_eq!(h.allocate_at(2, None, 2), Ok(2));
    assert_eq!(h.allocate_first_free(7, None), Ok(1));
    assert_eq!(h.allocate_first_free(8, None), Ok(3));
    assert_eq!(h.cell(1).data, Some(7));
    assert_eq!(h.cell(3).data, Some(8));
}

#[test]
fn allocation_with_target_points_one_way() {
    let mut h = Heap::new(4);
    assert_eq!(h.allocate_first_free(5, None), Ok(0));
    assert_eq!(h.allocate_first_free(6, Some(0)), Ok(1));
    let c = h.cell(1);
    assert_eq!(c.reference_count, 1);
    assert_eq!(c.will_ref, vec![0]);
    assert!(c.by_ref.is_empty());
    assert!(!c.marked && !c.is_root && !c.freed);
    assert!(h.cell(0).by_ref.is_empty());
    assert_eq!(h.cell(0).reference_count, 0);
}

#[test]
fn full_heap_refuses_first_fit() {
    let mut h = Heap::new(3);
    for v in 0..3 {
        assert!(h.allocate_first_free(v, None).is_ok());
    }
    h.link(0, 1).unwrap();
    let before = h.snapshot();
    assert_eq!(h.allocate_first_free(99, Some(2)), Err(AllocError::NoFreeMemory));
    assert_eq!(h.allocate_first_free(98, None), Err(AllocError::NoFreeMemory));
    assert_eq!(h.snapshot(), before);
    assert_eq!(h.cell(2).data, Some(2));
}

#[test]
fn allocate_at_occupied_slot_fails() {
    let mut h = Heap::new(4);
    assert_eq!(h.allocate_at(3, None, 2), Ok(2));
    let before = h.snapshot();
    assert_eq!(h.allocate_at(4, Some(1), 2), Err(AllocError::Occupied));
    assert_eq!(h.snapshot(), before);
    assert_eq!(h.cell(2).data, Some(3));
}

#[test]
fn allocate_dispatches_on_position() {
    let mut h = Heap::new(4);
    assert_eq!(h.allocate(1, None, Some(3)), Ok(3));
    assert_eq!(h.allocate(2, None, None), Ok(0));
    assert_eq!(h.allocate(3, Some(0), Some(3)), Err(AllocError::Occupied));
    assert_eq!(h.cell(3).data, Some(1));
}

#[test]
fn free_resets_slot_and_excises_index() {
    let mut h = Heap::new(4);
    for v in 0..3 {
        h.allocate_first_free(v, None).unwrap();
    }
    h.link(0, 1).unwrap();
    h.link(1, 2).unwrap();
    h.link(2, 1).unwrap();
    h.free(1);
    let c = h.cell(1);
    assert!(c.freed && c.data.is_none() && !c.is_root && !c.marked);
    assert_eq!(c.reference_count, 0);
    assert!(c.will_ref.is_empty() && c.by_ref.is_empty());
    assert!(h.cell(0).will_ref.is_empty());
    assert!(h.cell(2).will_ref.is_empty());
    assert!(h.cell(2).by_ref.is_empty());
    assert_eq!(occupied(&h), vec![0, 2]);
}

#[test]
fn viable_reports_free_cells() {
    let mut h = Heap::new(3);
    h.allocate_at(1, None, 0).unwrap();
    h.allocate_at(1, None, 2).unwrap();
    assert_eq!(h.viable(&vec![0, 2]), Ok(()));
    assert_eq!(h.viable(&vec![]), Ok(()));
    assert_eq!(h.viable(&vec![0, 1]), Err(AllocError::DataIsFree));
}

#[test]
fn link_records_both_sides() {
    let mut h = Heap::new(3);
    h.allocate_first_free(1, None).unwrap();
    h.allocate_first_free(2, None).unwrap();
    assert_eq!(h.link(0, 1), Ok(()));
    assert_eq!(h.cell(0).will_ref, vec![1]);
    assert_eq!(h.cell(1).by_ref, vec![0]);
    assert_eq!(h.cell(0).reference_count, 1);
    assert_eq!(h.cell(1).reference_count, 1);
    assert!(h.cell(0).by_ref.is_empty());
    assert!(h.cell(1).will_ref.is_empty());
}

#[test]
fn link_twice_keeps_one_entry() {
    let mut h = Heap::new(3);
    h.allocate_first_free(1, None).unwrap();
    h.allocate_first_free(2, None).unwrap();
    h.link(0, 1).unwrap();
    h.link(0, 1).unwrap();
    assert_eq!(h.cell(0).will_ref, vec![1]);
    assert_eq!(h.cell(1).by_ref, vec![0]);
    assert_eq!(h.cell(0).reference_count, 2);
    assert_eq!(h.cell(1).reference_count, 2);
}

#[test]
fn self_link_counts_twice() {
    let mut h = Heap::new(2);
    h.allocate_first_free(1, None).unwrap();
    h.link(0, 0).unwrap();
    assert_eq!(h.cell(0).will_ref, vec![0]);
    assert_eq!(h.cell(0).by_ref, vec![0]);
    assert_eq!(h.cell(0).reference_count, 2);
}

#[test]
fn link_to_free_cell_fails() {
    let mut h = Heap::new(3);
    h.allocate_first_free(1, None).unwrap();
    let before = h.snapshot();
    assert_eq!(h.link(0, 2), Err(AllocError::DataIsFree));
    assert_eq!(h.link(2, 0), Err(AllocError::DataIsFree));
    assert_eq!(h.snapshot(), before);
}

#[test]
fn links_keep_edges_symmetric() {
    let n = 6;
    let mut h = Heap::new(n);
    for v in 0..5 {
        h.allocate_first_free(v, None).unwrap();
    }
    let pairs = [(0, 1), (1, 2), (2, 0), (3, 3), (4, 1), (0, 1), (5, 0), (1, 4)];
    for (a, b) in pairs {
        let _ = h.link(a, b);
        for x in 0..n {
            for y in 0..n {
                assert_eq!(h.cell(x).will_ref.contains(&y), h.cell(y).by_ref.contains(&x));
            }
        }
    }
}

#[test]
fn set_roots_makes_live_marked_roots() {
    let mut h = Heap::new(20);
    h.allocate_at(4, None, 7).unwrap();
    h.set_roots(3, 7);
    for i in [3, 7] {
        let c = h.cell(i);
        assert!(c.is_root && !c.freed && c.marked);
    }
    assert_eq!(h.cell(3).data, None);
    assert_eq!(h.cell(7).data, Some(4));
    assert_eq!(occupied(&h), vec![3, 7]);
}

#[test]
fn set_roots_out_of_range_falls_back() {
    let mut h = Heap::new(20);
    h.set_roots(25, 3);
    assert!(h.cell(0).is_root && h.cell(1).is_root);
    assert!(!h.cell(0).freed && h.cell(0).marked);
    assert!(!h.cell(1).freed && h.cell(1).marked);
    let c = h.cell(3);
    assert!(!c.is_root && c.freed && !c.marked);
    assert_eq!(occupied(&h), vec![0, 1]);
}

#[test]
fn unroot_all_keeps_marks() {
    let mut h = Heap::new(4);
    h.set_roots(1, 2);
    h.unroot_all();
    for i in 0..4 {
        assert!(!h.cell(i).is_root);
    }
    assert!(h.cell(1).marked && h.cell(2).marked);
    assert!(!h.cell(1).freed);
}

#[test]
fn root_indices_in_order() {
    let mut h = Heap::new(6);
    assert!(h.root_indices().is_empty());
    h.set_roots(4, 1);
    assert_eq!(h.root_indices(), vec![1, 4]);
}

#[test]
fn set_data_on_live_cell() {
    let mut h = Heap::new(3);
    h.set_roots(0, 1);
    h.set_data(1, 42);
    assert_eq!(h.cell(1).data, Some(42));
    assert_eq!(h.cell(0).data, None);
}

#[test]
fn allocate_many_fills_then_fails() {
    let mut h = Heap::new(4);
    h.allocate_at(0, None, 1).unwrap();
    let r = h.allocate_many(9, Some(1), 5);
    assert_eq!(
        r,
        vec![Ok(0), Ok(2), Ok(3), Err(AllocError::NoFreeMemory), Err(AllocError::NoFreeMemory)]
    );
    for i in [0, 2, 3] {
        assert_eq!(h.cell(i).data, Some(9));
        assert_eq!(h.cell(i).will_ref, vec![1]);
    }
}

#[test]
fn snapshot_summarises_cells() {
    let mut h = Heap::new(3);
    h.set_roots(0, 1);
    h.allocate_at(5, Some(0), 2).unwrap();
    h.link(2, 1).unwrap();
    let s = h.snapshot();
    assert_eq!(s.len(), 3);
    assert!(!s[0].has_data && s[0].is_root && !s[0].freed && s[0].marked);
    assert!(!s[0].refs_other && !s[0].referenced_by);
    assert!(s[1].referenced_by && !s[1].refs_other);
    assert_eq!(s[1].reference_count, 1);
    assert!(s[2].has_data && s[2].refs_other && !s[2].referenced_by && !s[2].is_root);
    assert_eq!(s[2].reference_count, 2);
}

#[test]
fn errors_describe_themselves() {
    assert_eq!(AllocError::Occupied.describe(), "Space is occupied");
    assert_eq!(AllocError::NoFreeMemory.describe(), "No free memory available");
    assert_eq!(
        AllocError::DataIsFree.describe(),
        "The memory was free, not suitable for use"
    );
}

#[test]
fn root_pair_falls_back_out_of_range() {
    let h = Heap::new(20);
    assert_eq!(h.root_pair_for(3, 7), (3, 7));
    assert_eq!(h.root_pair_for(25, 3), (0, 1));
    assert_eq!(h.root_pair_for(3, 20), (0, 1));
}
