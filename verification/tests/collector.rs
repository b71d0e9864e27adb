use immix_rust::common::{Address, ObjectReference};
use immix_rust::heap::freelist::{alloc_large, FreeListSpace};
use immix_rust::heap::gc::{
    collect, gc_count, sync_barrier, trigger_gc, BarrierOutcome, CollectOutcome,
};
use immix_rust::heap::immix::{ImmixMutatorLocal, ImmixSpace, LineMark};
use immix_rust::heap::ImmixGC;

const BLOCK: usize = 65536;

fn new_gc(blocks: usize) -> ImmixGC {
    ImmixGC::new(ImmixSpace::new(blocks * BLOCK).unwrap(), FreeListSpace::new(1 << 20))
}

/// Allocates an object of three words with its first word set.
fn new_object(gc: &mut ImmixGC, m: &mut ImmixMutatorLocal, encode: u8, first: u64) -> Address {
    let a = m.allocate(gc, 24, 8).unwrap();
    m.init_object(gc, a, encode);
    gc.space.store_word(a, first);
    a
}

#[test]
fn yieldpoint_without_request_goes_on() {
    let mut gc = new_gc(2);
    let mut m = ImmixMutatorLocal::new(&mut gc);
    let a = new_object(&mut gc, &mut m, 0b1100_0001, 0);
    assert_eq!(m.yieldpoint(&mut gc, &vec![a.as_usize()]), None);
    assert_eq!(gc_count(&gc), 0);
    // The mutator still has its region.
    assert_eq!(m.allocate(&mut gc, 24, 8), Some(a.plus(24)));
}

#[test]
fn trigger_gc_asks_every_mutator_to_yield() {
    let mut gc = new_gc(2);
    let a = ImmixMutatorLocal::new(&mut gc);
    let b = ImmixMutatorLocal::new(&mut gc);
    assert!(!gc.coordinator.take_yield(a.id()));
    trigger_gc(&mut gc);
    assert!(gc.coordinator.take_yield(a.id()));
    assert!(gc.coordinator.take_yield(b.id()));
    assert!(!gc.coordinator.is_still_blocked(a.id()));
    let flags = gc.coordinator.global(b.id()).unwrap();
    assert!(flags.take_yield());
    assert!(!flags.is_still_blocked());
    assert!(gc.coordinator.global((99, 0)).is_none());
    assert!(!gc.coordinator.take_yield((99, 0)));
}

#[test]
fn single_mutator_collects_at_once() {
    let mut gc = new_gc(2);
    let mut m = ImmixMutatorLocal::new(&mut gc);
    let child = new_object(&mut gc, &mut m, 0b1100_0001, 0);
    let _garbage = new_object(&mut gc, &mut m, 0b1100_0001, 0);
    // Enough filler that the root lies in a line of its own.
    for _ in 0..40 {
        new_object(&mut gc, &mut m, 0b1100_0001, 0);
    }
    let root = new_object(&mut gc, &mut m, 0b1100_0001, child.as_usize() as u64);
    let outcome = m.request_gc(&mut gc, &vec![1, root.as_usize(), 2]);
    assert_eq!(outcome, Some(BarrierOutcome::Collected(CollectOutcome::Done)));
    assert_eq!(gc_count(&gc), 1);
    assert_eq!(gc.coordinator.controller(), None);
    assert!(!gc.coordinator.take_yield(m.id()));
    assert!(!gc.coordinator.is_still_blocked(m.id()));
    // The marks of the collection are those of the mark state before the
    // flip: what was traced counts as untraced now.
    assert!(gc.space.is_untraced_and_valid(root));
    assert!(gc.space.is_untraced_and_valid(child));
    assert!(!gc.space.is_untraced_and_valid(child.plus(24)));
    let start = gc.space.start();
    let table = gc.space.line_mark_table();
    assert_eq!(table.get(child.diff(start) / 256), LineMark::Live);
    assert_eq!(table.get(child.diff(start) / 256 + 1), LineMark::ConservLive);
    assert_eq!(table.get(root.diff(start) / 256), LineMark::Live);
    assert_eq!(table.get(root.diff(start) / 256 + 1), LineMark::ConservLive);
    for line in 5..256 {
        assert_eq!(table.get(line), LineMark::Free);
    }
    // The block of the mutator went back, was swept and is usable again.
    assert_eq!(gc.space.used_len(), 0);
    assert_eq!(gc.space.usable_len(), 2);
    // The mutator starts anew, in the block that waited longest.
    assert_eq!(m.allocate(&mut gc, 24, 8), Some(start.plus(BLOCK)));
}

#[test]
fn reference_in_a_register_keeps_the_object() {
    let mut gc = new_gc(1);
    let mut m = ImmixMutatorLocal::new(&mut gc);
    for _ in 0..100 {
        new_object(&mut gc, &mut m, 0b1100_0001, 0);
    }
    let kept = new_object(&mut gc, &mut m, 0b1100_0011, 0);
    for _ in 0..100 {
        new_object(&mut gc, &mut m, 0b1100_0001, 0);
    }
    // The words of the stack hold no reference; those of the registers, which
    // come behind them, hold one.
    let stack = vec![0usize, 12, 13];
    let registers = vec![5usize, kept.as_usize(), 0];
    let words: Vec<usize> = stack.into_iter().chain(registers).collect();
    trigger_gc(&mut gc);
    assert_eq!(
        m.yieldpoint(&mut gc, &words),
        Some(BarrierOutcome::Collected(CollectOutcome::Done))
    );
    let line = kept.diff(gc.space.start()) / 256;
    assert_eq!(gc.space.line_mark_table().get(line), LineMark::Live);
    assert!(gc.space.is_untraced_and_valid(kept));
    assert_eq!(gc.space.get_ref_byte(kept), 0b1100_0011);
    assert_eq!(gc.space.line_mark_table().get(0), LineMark::Free);
}

#[test]
fn words_that_are_no_roots_keep_nothing() {
    let mut gc = new_gc(1);
    let mut m = ImmixMutatorLocal::new(&mut gc);
    let a = new_object(&mut gc, &mut m, 0b1100_0001, 0);
    let no_object = m.allocate(&mut gc, 24, 8).unwrap();
    let words = vec![a.as_usize() + 1, a.as_usize() + 8, no_object.as_usize(), 0];
    assert_eq!(
        m.request_gc(&mut gc, &words),
        Some(BarrierOutcome::Collected(CollectOutcome::Done))
    );
    for line in 0..256 {
        assert_eq!(gc.space.line_mark_table().get(line), LineMark::Free);
    }
}

#[test]
fn first_mutator_at_the_barrier_is_the_controller() {
    let mut gc = new_gc(4);
    let mut a = ImmixMutatorLocal::new(&mut gc);
    let mut b = ImmixMutatorLocal::new(&mut gc);
    let mut c = ImmixMutatorLocal::new(&mut gc);
    let root_a = new_object(&mut gc, &mut a, 0b1100_0001, 0);
    let root_b = new_object(&mut gc, &mut b, 0b1100_0001, 0);
    let _lost = new_object(&mut gc, &mut c, 0b1100_0001, 0);
    trigger_gc(&mut gc);
    assert_eq!(
        b.yieldpoint(&mut gc, &vec![root_b.as_usize()]),
        Some(BarrierOutcome::AwaitParked)
    );
    assert_eq!(gc.coordinator.controller(), Some(b.id()));
    assert_eq!(collect(&mut gc, &mut b), CollectOutcome::NotReady);
    assert_eq!(collect(&mut gc, &mut a), CollectOutcome::NotController);
    assert_eq!(a.yieldpoint(&mut gc, &vec![root_a.as_usize()]), Some(BarrierOutcome::Parked));
    assert!(gc.coordinator.is_still_blocked(a.id()));
    assert!(!gc.coordinator.is_still_blocked(b.id()));
    assert!(!gc.coordinator.all_parked());
    assert_eq!(collect(&mut gc, &mut b), CollectOutcome::NotReady);
    assert_eq!(c.yieldpoint(&mut gc, &Vec::new()), Some(BarrierOutcome::Parked));
    assert!(gc.coordinator.all_parked());
    assert_eq!(gc_count(&gc), 0);
    assert_eq!(collect(&mut gc, &mut b), CollectOutcome::Done);
    assert_eq!(gc_count(&gc), 1);
    assert_eq!(gc.coordinator.controller(), None);
    for id in [a.id(), b.id(), c.id()] {
        assert!(!gc.coordinator.is_still_blocked(id));
        assert!(!gc.coordinator.take_yield(id));
    }
    let start = gc.space.start();
    assert_eq!(gc.space.line_mark_table().get(root_a.diff(start) / 256), LineMark::Live);
    assert_eq!(gc.space.line_mark_table().get(root_b.diff(start) / 256), LineMark::Live);
    assert_eq!(gc.space.line_mark_table().get(2 * 256), LineMark::Free);
    // Every block is usable again.
    assert_eq!(gc.space.usable_len(), 4);
    assert_eq!(gc.space.used_len(), 0);
    assert_eq!(a.yieldpoint(&mut gc, &Vec::new()), None);
}

#[test]
fn last_mutator_at_the_barrier_may_be_parked() {
    let mut gc = new_gc(2);
    let mut a = ImmixMutatorLocal::new(&mut gc);
    let mut b = ImmixMutatorLocal::new(&mut gc);
    trigger_gc(&mut gc);
    assert_eq!(sync_barrier(&mut gc, &mut a, &Vec::new()), BarrierOutcome::AwaitParked);
    assert_eq!(sync_barrier(&mut gc, &mut b, &Vec::new()), BarrierOutcome::Parked);
    // The controller comes back and finds everyone parked.
    assert_eq!(
        sync_barrier(&mut gc, &mut a, &Vec::new()),
        BarrierOutcome::Collected(CollectOutcome::Done)
    );
    assert_eq!(gc_count(&gc), 1);
}

#[test]
fn destroyed_mutator_scans_no_roots() {
    let mut gc = new_gc(2);
    let mut gone = ImmixMutatorLocal::new(&mut gc);
    let mut stays = ImmixMutatorLocal::new(&mut gc);
    let kept_by_gone = new_object(&mut gc, &mut gone, 0b1100_0001, 0);
    gone.destroy(&mut gc);
    assert_eq!(gc.coordinator.mutators_registered(), 1);
    trigger_gc(&mut gc);
    assert_eq!(
        sync_barrier(&mut gc, &mut gone, &vec![kept_by_gone.as_usize()]),
        BarrierOutcome::NotRegistered
    );
    assert_eq!(gone.yieldpoint(&mut gc, &vec![kept_by_gone.as_usize()]), None);
    assert_eq!(gc.coordinator.controller(), None);
    assert_eq!(
        stays.yieldpoint(&mut gc, &Vec::new()),
        Some(BarrierOutcome::Collected(CollectOutcome::Done))
    );
    let line = kept_by_gone.diff(gc.space.start()) / 256;
    assert_eq!(gc.space.line_mark_table().get(line), LineMark::Free);
}

#[test]
fn request_of_a_destroyed_mutator_stops_the_others_only() {
    let mut gc = new_gc(2);
    let mut gone = ImmixMutatorLocal::new(&mut gc);
    let stays = ImmixMutatorLocal::new(&mut gc);
    gone.destroy(&mut gc);
    assert_eq!(gone.request_gc(&mut gc, &Vec::new()), None);
    assert!(gc.coordinator.take_yield(stays.id()));
    assert_eq!(gc_count(&gc), 0);
}

#[test]
fn exhausted_space_asks_for_a_collection_at_the_yieldpoint() {
    let mut gc = new_gc(1);
    let mut a = ImmixMutatorLocal::new(&mut gc);
    let b = ImmixMutatorLocal::new(&mut gc);
    while a.allocate(&mut gc, 64, 8).is_some() {}
    assert!(!gc.coordinator.take_yield(a.id()));
    assert!(!gc.coordinator.take_yield(b.id()));
    assert_eq!(a.yieldpoint(&mut gc, &Vec::new()), Some(BarrierOutcome::AwaitParked));
    assert!(gc.coordinator.take_yield(b.id()));
}

#[test]
fn collection_reports_malformed_objects() {
    let mut gc = new_gc(1);
    let mut m = ImmixMutatorLocal::new(&mut gc);
    let bad = new_object(&mut gc, &mut m, 0b1100_0101, 0);
    let root = new_object(&mut gc, &mut m, 0b1100_0001, bad.as_usize() as u64);
    assert_eq!(
        m.request_gc(&mut gc, &vec![root.as_usize()]),
        Some(BarrierOutcome::Collected(CollectOutcome::Malformed(bad.to_object_reference())))
    );
    assert_eq!(gc_count(&gc), 0);
    assert_eq!(gc.coordinator.controller(), Some(m.id()));
}

#[test]
fn collection_reports_a_full_space() {
    let mut gc = new_gc(1);
    let mut m = ImmixMutatorLocal::new(&mut gc);
    // One live object in every second line: no line is left free.
    let mut roots = Vec::new();
    for i in 0..256 {
        let a = m.allocate(&mut gc, 256, 256).unwrap();
        m.init_object(&mut gc, a, 0b1100_0001);
        if i % 2 == 0 {
            roots.push(a.as_usize());
        }
    }
    assert_eq!(
        m.request_gc(&mut gc, &roots),
        Some(BarrierOutcome::Collected(CollectOutcome::OutOfMemory))
    );
    assert_eq!(gc.space.used_len(), 1);
    assert_eq!(gc.space.usable_len(), 0);
}

#[test]
fn after_a_collection_usable_blocks_have_free_lines_and_used_blocks_none() {
    let mut gc = new_gc(4);
    let mut m = ImmixMutatorLocal::new(&mut gc);
    let mut roots = Vec::new();
    // Block 0 gets a live object in every second line, block 1 a single live
    // object, block 2 only garbage; block 3 is never handed out.
    for i in 0..3 * 256 {
        let a = m.allocate(&mut gc, 256, 256).unwrap();
        m.init_object(&mut gc, a, 0b1100_0001);
        if (i < 256 && i % 2 == 0) || i == 300 {
            roots.push(a.as_usize());
        }
    }
    assert_eq!(
        m.request_gc(&mut gc, &roots),
        Some(BarrierOutcome::Collected(CollectOutcome::Done))
    );
    assert_eq!(gc.space.usable_len() + gc.space.used_len(), 4);
    assert_eq!(gc.space.used_len(), 1);
    let mut usable = Vec::new();
    while let Some(block) = gc.space.get_next_usable_block() {
        let free = (0..256)
            .filter(|l| gc.space.line_mark_table().get(block.id() * 256 + l) == LineMark::Free)
            .count();
        assert!(free > 0);
        usable.push((block.id(), free));
    }
    assert_eq!(usable, vec![(3, 256), (1, 254), (2, 256)]);
    for line in 0..256 {
        let mark = gc.space.line_mark_table().get(line);
        assert!(mark == LineMark::Live || mark == LineMark::ConservLive);
    }
}

#[test]
fn large_objects_are_swept_by_the_collection() {
    let mut gc =
        ImmixGC::new(ImmixSpace::new(BLOCK).unwrap(), FreeListSpace::new(1000));
    let mut m = ImmixMutatorLocal::new(&mut gc);
    let kept = alloc_large(400, 8, &mut m, &mut gc).unwrap();
    alloc_large(400, 8, &mut m, &mut gc).unwrap();
    gc.lo_space.mark_live(kept);
    assert_eq!(alloc_large(400, 8, &mut m, &mut gc), None);
    assert_eq!(
        m.yieldpoint(&mut gc, &Vec::new()),
        Some(BarrierOutcome::Collected(CollectOutcome::Done))
    );
    assert_eq!(gc.lo_space.used_bytes(), 400);
    assert_eq!(gc.lo_space.current_nodes().len(), 1);
    assert_eq!(gc.lo_space.current_nodes()[0].start(), kept);
    assert!(alloc_large(400, 8, &mut m, &mut gc).is_some());
}

#[test]
fn roots_of_all_mutators_are_traced() {
    let mut gc = new_gc(4);
    let mut a = ImmixMutatorLocal::new(&mut gc);
    let mut b = ImmixMutatorLocal::new(&mut gc);
    let shared = new_object(&mut gc, &mut a, 0b1100_0001, 0);
    let from_b = new_object(&mut gc, &mut b, 0b1100_0001, shared.as_usize() as u64);
    trigger_gc(&mut gc);
    assert_eq!(a.yieldpoint(&mut gc, &Vec::new()), Some(BarrierOutcome::AwaitParked));
    assert_eq!(b.yieldpoint(&mut gc, &vec![from_b.as_usize()]), Some(BarrierOutcome::Parked));
    assert_eq!(collect(&mut gc, &mut a), CollectOutcome::Done);
    let start = gc.space.start();
    assert_eq!(gc.space.line_mark_table().get(shared.diff(start) / 256), LineMark::Live);
    assert_eq!(gc.space.line_mark_table().get(from_b.diff(start) / 256), LineMark::Live);
    let _ = ObjectReference::from_usize(0);
}
