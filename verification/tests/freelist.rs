use immix_rust::heap::freelist::{alloc_large, FreeListSpace, NodeMark};
use immix_rust::heap::immix::{ImmixMutatorLocal, ImmixSpace};
use immix_rust::heap::ImmixGC;

#[test]
fn new_space_is_empty() {
    let space = FreeListSpace::new(1000);
    assert_eq!(space.used_bytes(), 0);
    assert!(space.current_nodes().is_empty());
}

#[test]
fn allocate_counts_bytes_and_aligns() {
    let mut space = FreeListSpace::new(1000);
    let a = space.allocate(100, 64).unwrap();
    assert_eq!(a.as_usize() % 64, 0);
    assert_ne!(a.as_usize(), 0);
    assert_eq!(space.used_bytes(), 100);
    let b = space.allocate(900, 8).unwrap();
    assert_eq!(b.as_usize() % 8, 0);
    assert_eq!(space.used_bytes(), 1000);
    let nodes = space.current_nodes();
    assert_eq!(nodes.len(), 2);
    // The object allocated last comes first.
    assert_eq!(nodes[0].start(), b);
    assert_eq!(nodes[0].size(), 900);
    assert_eq!(nodes[0].mark(), NodeMark::FreshAlloc);
    assert_eq!(nodes[1].start(), a);
    assert_eq!(nodes[1].size(), 100);
}

#[test]
fn allocate_refuses_what_does_not_fit() {
    let mut space = FreeListSpace::new(1000);
    assert!(space.allocate(1001, 8).is_none());
    assert!(space.allocate(600, 8).is_some());
    assert!(space.allocate(401, 8).is_none());
    assert_eq!(space.used_bytes(), 600);
    assert!(space.allocate(400, 8).is_some());
    assert!(space.allocate(1, 1).is_none());
    assert!(space.allocate(usize::MAX, 8).is_none());
}

#[test]
fn allocate_succeeds_whenever_there_is_room() {
    let mut space = FreeListSpace::new(1 << 20);
    let mut used = 0;
    for (size, align) in [(0, 1), (1, 1), (7, 8), (4096, 4096), (100_000, 65536), (3, 2)] {
        let a = space.allocate(size, align).unwrap();
        assert!(!a.is_zero());
        assert_eq!(a.as_usize() % align, 0);
        used += size;
        assert_eq!(space.used_bytes(), used);
    }
    assert_eq!(space.current_nodes().len(), 6);
}

#[test]
fn allocate_refuses_invalid_layouts() {
    let mut space = FreeListSpace::new(1000);
    assert!(space.allocate(8, 0).is_none());
    assert!(space.allocate(8, 3).is_none());
    assert!(space.allocate(8, 24).is_none());
    assert!(space.allocate(8, 1).is_some());
    assert_eq!(space.used_bytes(), 8);
}

#[test]
fn place_puts_the_object_at_the_aligned_address() {
    let mut space = FreeListSpace::new(1000);
    let a = space.place(vec![0u8; 100 + 63], 1001, 100, 64).unwrap();
    assert_eq!(a.as_usize(), 1024);
    // The buffer has to hold the object from the aligned address on.
    assert!(space.place(vec![0u8; 100], 1001, 100, 64).is_none());
    assert!(space.place(vec![0u8; 100], 1024, 100, 64).is_some());
    assert!(space.place(vec![0u8; 8], usize::MAX - 4, 8, 1).is_none());
    assert!(space.place(vec![0u8; 8], 64, 8, 0).is_none());
    assert!(space.place(vec![0u8; 8], 0, 8, 8).is_none());
    assert!(space.place(vec![0u8; 2000], 64, 801, 1).is_none());
    assert_eq!(space.used_bytes(), 200);
}

#[test]
fn sweep_gives_up_fresh_objects() {
    let mut space = FreeListSpace::new(1000);
    space.allocate(100, 8).unwrap();
    space.allocate(200, 8).unwrap();
    space.sweep();
    assert_eq!(space.used_bytes(), 0);
    assert!(space.current_nodes().is_empty());
}

#[test]
fn sweep_keeps_live_objects_once() {
    let mut space = FreeListSpace::new(1000);
    let a = space.allocate(100, 8).unwrap();
    let b = space.allocate(200, 8).unwrap();
    let c = space.allocate(300, 8).unwrap();
    space.mark_live(a);
    space.mark_live(c);
    assert_eq!(space.current_nodes()[0].mark(), NodeMark::Live);
    assert_eq!(space.current_nodes()[1].mark(), NodeMark::FreshAlloc);
    assert_eq!(space.current_nodes()[2].mark(), NodeMark::Live);
    space.sweep();
    assert_eq!(space.used_bytes(), 400);
    let nodes = space.current_nodes();
    assert_eq!(nodes.len(), 2);
    assert_eq!(nodes[0].start(), c);
    assert_eq!(nodes[1].start(), a);
    assert_eq!(nodes[0].mark(), NodeMark::PrevLive);
    assert_eq!(nodes[1].mark(), NodeMark::PrevLive);
    let _ = b;
    // An object that is not traced again is given up by the next sweep.
    space.mark_live(a);
    space.sweep();
    assert_eq!(space.used_bytes(), 100);
    assert_eq!(space.current_nodes().len(), 1);
    assert_eq!(space.current_nodes()[0].start(), a);
    space.sweep();
    assert_eq!(space.used_bytes(), 0);
}

#[test]
fn mark_live_of_unknown_address_changes_nothing() {
    let mut space = FreeListSpace::new(1000);
    let a = space.allocate(100, 8).unwrap();
    space.mark_live(a.plus(8));
    assert_eq!(space.current_nodes()[0].mark(), NodeMark::FreshAlloc);
}

#[test]
fn sweep_makes_room_again() {
    let mut space = FreeListSpace::new(1000);
    space.allocate(1000, 8).unwrap();
    assert!(space.allocate(1, 1).is_none());
    space.sweep();
    assert!(space.allocate(1000, 8).is_some());
}

#[test]
fn node_mark_can_be_set() {
    let mut space = FreeListSpace::new(1000);
    let a = space.allocate(16, 16).unwrap();
    space.allocate(32, 16).unwrap();
    space.current_nodes_mut()[1].set_mark(NodeMark::Live);
    assert_eq!(space.current_nodes()[1].mark(), NodeMark::Live);
    assert_eq!(space.current_nodes()[0].mark(), NodeMark::FreshAlloc);
    space.sweep();
    assert_eq!(space.current_nodes().len(), 1);
    assert_eq!(space.current_nodes()[0].start(), a);
    assert_eq!(space.used_bytes(), 16);
}

#[test]
fn alloc_large_asks_for_a_collection_under_pressure() {
    let mut gc = ImmixGC::new(ImmixSpace::new(65536).unwrap(), FreeListSpace::new(1000));
    let mut m = ImmixMutatorLocal::new(&mut gc);
    let a = alloc_large(600, 8, &mut m, &mut gc).unwrap();
    assert_eq!(a.as_usize() % 8, 0);
    assert_eq!(gc.lo_space.used_bytes(), 600);
    assert!(!gc.coordinator.take_yield(m.id()));
    assert_eq!(alloc_large(600, 8, &mut m, &mut gc), None);
    assert!(gc.coordinator.take_yield(m.id()));
    // A mutator that is asked to yield gets nothing, though there is room.
    assert_eq!(alloc_large(100, 8, &mut m, &mut gc), None);
    assert_eq!(gc.lo_space.used_bytes(), 600);
}
