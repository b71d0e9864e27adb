use immix_rust::common::Address;
use immix_rust::heap::freelist::FreeListSpace;
use immix_rust::heap::immix::{ImmixMutatorGlobal, ImmixMutatorLocal, ImmixSpace, LineMark};
use immix_rust::heap::ImmixGC;

const BLOCK: usize = 65536;

fn new_gc(blocks: usize) -> ImmixGC {
    ImmixGC::new(ImmixSpace::new(blocks * BLOCK).unwrap(), FreeListSpace::new(1 << 20))
}

#[test]
fn first_allocation_is_at_the_start_of_the_space() {
    let mut gc = new_gc(2);
    let start = gc.space.start();
    let mut m = ImmixMutatorLocal::new(&mut gc);
    assert_eq!(m.allocate(&mut gc, 24, 8), Some(start));
    assert_eq!(m.allocate(&mut gc, 24, 8), Some(start.plus(24)));
    assert_eq!(m.allocate(&mut gc, 24, 8), Some(start.plus(48)));
}

#[test]
fn allocation_is_aligned() {
    let mut gc = new_gc(2);
    let start = gc.space.start();
    let mut m = ImmixMutatorLocal::new(&mut gc);
    assert_eq!(m.allocate(&mut gc, 24, 8), Some(start));
    assert_eq!(m.allocate(&mut gc, 8, 16), Some(start.plus(32)));
    assert_eq!(m.allocate(&mut gc, 1, 1), Some(start.plus(40)));
    assert_eq!(m.allocate(&mut gc, 4, 4096), Some(start.plus(4096)));
    // The start of the space is no multiple of three in general.
    let odd = m.allocate(&mut gc, 3, 3).unwrap();
    assert_eq!(odd.as_usize() % 3, 0);
    assert!(odd >= start.plus(4100) && odd < start.plus(4103));
}

#[test]
fn every_allocation_lies_in_the_space_and_is_aligned() {
    let mut gc = new_gc(4);
    let (start, end) = (gc.space.start(), gc.space.end());
    let mut m = ImmixMutatorLocal::new(&mut gc);
    let mut last_end = start.as_usize();
    let mut n = 0;
    loop {
        let (size, align) = [(24, 8), (40, 16), (7, 1), (256, 64), (1000, 8)][n % 5];
        match m.allocate(&mut gc, size, align) {
            Some(a) => {
                assert!(a >= start);
                assert!(a.as_usize() + size <= end.as_usize());
                assert!(a < end);
                assert_eq!(a.as_usize() % align, 0);
                // Nothing is handed out twice.
                assert!(a.as_usize() >= last_end);
                last_end = a.as_usize() + size;
            }
            None => break,
        }
        n += 1;
    }
    assert!(n > 4 * BLOCK / 1000);
}

#[test]
fn taking_a_block_marks_its_free_lines_fresh() {
    let mut gc = new_gc(2);
    let mut m = ImmixMutatorLocal::new(&mut gc);
    m.allocate(&mut gc, 24, 8).unwrap();
    for line in 0..256 {
        assert_eq!(gc.space.line_mark_table().get(line), LineMark::FreshAlloc);
    }
    for line in 256..512 {
        assert_eq!(gc.space.line_mark_table().get(line), LineMark::Free);
    }
}

#[test]
fn full_block_is_handed_back_and_the_next_taken() {
    let mut gc = new_gc(2);
    let start = gc.space.start();
    let mut m = ImmixMutatorLocal::new(&mut gc);
    // 2730 objects of 24 bytes fill a block but for 16 bytes.
    for i in 0..2730 {
        assert_eq!(m.allocate(&mut gc, 24, 8), Some(start.plus(24 * i)));
    }
    assert_eq!(gc.space.used_len(), 0);
    assert_eq!(m.allocate(&mut gc, 24, 8), Some(start.plus(BLOCK)));
    assert_eq!(gc.space.used_len(), 1);
    assert_eq!(gc.space.usable_len(), 0);
}

#[test]
fn allocation_skips_lines_that_are_taken() {
    let mut gc = new_gc(1);
    let start = gc.space.start();
    // Lines 0 to 1 and line 4 are live; a mutator allocates in the holes.
    gc.space.mark_line_live(start);
    gc.space.mark_line_live(start.plus(4 * 256));
    assert_eq!(gc.space.line_mark_table().get(5), LineMark::ConservLive);
    let mut m = ImmixMutatorLocal::new(&mut gc);
    assert_eq!(m.allocate(&mut gc, 256, 8), Some(start.plus(2 * 256)));
    assert_eq!(gc.space.line_mark_table().get(2), LineMark::FreshAlloc);
    assert_eq!(gc.space.line_mark_table().get(3), LineMark::FreshAlloc);
    assert_eq!(gc.space.line_mark_table().get(4), LineMark::Live);
    assert_eq!(m.allocate(&mut gc, 256, 8), Some(start.plus(3 * 256)));
    // The hole is used up: the next object goes behind the live lines.
    assert_eq!(m.allocate(&mut gc, 256, 8), Some(start.plus(6 * 256)));
    assert_eq!(gc.space.line_mark_table().get(255), LineMark::FreshAlloc);
}

#[test]
fn object_too_large_for_a_hole_goes_to_the_next_hole() {
    let mut gc = new_gc(1);
    let start = gc.space.start();
    gc.space.mark_line_live(start.plus(2 * 256));
    let mut m = ImmixMutatorLocal::new(&mut gc);
    // The first hole has two lines: 600 bytes do not fit.
    assert_eq!(m.allocate(&mut gc, 600, 8), Some(start.plus(4 * 256)));
}

#[test]
fn allocation_answers_none_when_no_block_is_left() {
    let mut gc = new_gc(1);
    let mut m = ImmixMutatorLocal::new(&mut gc);
    for _ in 0..2730 {
        assert!(m.allocate(&mut gc, 24, 8).is_some());
    }
    assert_eq!(m.allocate(&mut gc, 24, 8), None);
    // The block went back to the space and a collection is asked for.
    assert_eq!(gc.space.used_len(), 1);
    assert!(gc.space.take_gc_request());
    assert_eq!(m.allocate(&mut gc, 24, 8), None);
}

#[test]
fn object_larger_than_a_block_is_never_allocated() {
    let mut gc = new_gc(2);
    let mut m = ImmixMutatorLocal::new(&mut gc);
    assert_eq!(m.allocate(&mut gc, BLOCK + 1, 8), None);
    assert_eq!(gc.space.usable_len(), 0);
    assert_eq!(gc.space.used_len(), 2);
}

#[test]
fn a_whole_block_can_be_allocated() {
    let mut gc = new_gc(2);
    let start = gc.space.start();
    let mut m = ImmixMutatorLocal::new(&mut gc);
    assert_eq!(m.allocate(&mut gc, BLOCK, 8), Some(start));
    assert_eq!(m.allocate(&mut gc, BLOCK, 8), Some(start.plus(BLOCK)));
    assert_eq!(m.allocate(&mut gc, 1, 1), None);
}

#[test]
fn mutator_that_is_asked_to_yield_takes_no_block() {
    let mut gc = new_gc(2);
    let mut m = ImmixMutatorLocal::new(&mut gc);
    gc.trigger_gc();
    assert_eq!(m.allocate(&mut gc, 24, 8), None);
    assert_eq!(gc.space.usable_len(), 2);
}

#[test]
fn init_object_writes_the_encoding_byte() {
    let mut gc = new_gc(1);
    let mut m = ImmixMutatorLocal::new(&mut gc);
    let a = m.allocate(&mut gc, 24, 8).unwrap();
    let b = m.allocate(&mut gc, 24, 8).unwrap();
    assert_eq!(gc.space.get_ref_byte(a), 0);
    m.init_object(&mut gc, a, 0b1100_0011);
    assert_eq!(gc.space.get_ref_byte(a), 0b1100_0011);
    assert_ne!(gc.space.get_ref_byte(a) & (1 << 6), 0);
    assert_eq!(gc.space.get_ref_byte(b), 0);
    m.init_object_no_inline(&mut gc, b, 0b0100_0001);
    assert_eq!(gc.space.get_ref_byte(b), 0b0100_0001);
    assert_eq!(gc.space.get_ref_byte(a.plus(8)), 0);
}

#[test]
fn registering_and_destroying_mutators_is_counted() {
    let mut gc = new_gc(2);
    assert_eq!(gc.coordinator.mutators_registered(), 0);
    let mut a = ImmixMutatorLocal::new(&mut gc);
    let mut b = ImmixMutatorLocal::new(&mut gc);
    assert_ne!(a.id(), b.id());
    assert_eq!(gc.coordinator.mutators_registered(), 2);
    assert!(gc.coordinator.is_registered(a.id()));
    a.allocate(&mut gc, 24, 8).unwrap();
    a.destroy(&mut gc);
    assert_eq!(gc.coordinator.mutators_registered(), 1);
    assert!(!gc.coordinator.is_registered(a.id()));
    assert!(gc.coordinator.is_registered(b.id()));
    // The block that the mutator held went back to the space.
    assert_eq!(gc.space.used_len(), 1);
    b.destroy(&mut gc);
    assert_eq!(gc.coordinator.mutators_registered(), 0);
    let c = ImmixMutatorLocal::new(&mut gc);
    assert_ne!(c.id(), a.id());
    assert_ne!(c.id(), b.id());
    assert_eq!(gc.coordinator.mutators_registered(), 1);
}

#[test]
fn reset_forgets_the_region() {
    let mut gc = new_gc(2);
    let start = gc.space.start();
    let mut m = ImmixMutatorLocal::new(&mut gc);
    assert_eq!(m.allocate(&mut gc, 24, 8), Some(start));
    m.prepare_for_gc(&mut gc);
    m.reset();
    // The next allocation takes a new block.
    assert_eq!(m.allocate(&mut gc, 24, 8), Some(start.plus(BLOCK)));
}

#[test]
fn two_mutators_allocate_in_blocks_of_their_own() {
    let mut gc = new_gc(4);
    let start = gc.space.start();
    let mut a = ImmixMutatorLocal::new(&mut gc);
    let mut b = ImmixMutatorLocal::new(&mut gc);
    assert_eq!(a.allocate(&mut gc, 24, 8), Some(start));
    assert_eq!(b.allocate(&mut gc, 24, 8), Some(start.plus(BLOCK)));
    assert_eq!(a.allocate(&mut gc, 24, 8), Some(start.plus(24)));
    assert_eq!(b.allocate(&mut gc, 24, 8), Some(start.plus(BLOCK + 24)));
}

#[test]
fn mutator_flags_are_set_and_read() {
    let mut g = ImmixMutatorGlobal::new();
    assert!(!g.take_yield());
    assert!(!g.is_still_blocked());
    g.set_take_yield(true);
    assert!(g.take_yield());
    assert!(!g.is_still_blocked());
    g.set_still_blocked(true);
    g.set_take_yield(false);
    assert!(!g.take_yield());
    assert!(g.is_still_blocked());
    assert_eq!(ImmixMutatorGlobal::default(), ImmixMutatorGlobal::new());
}

#[test]
fn null_address_is_never_allocated() {
    let mut gc = new_gc(1);
    let mut m = ImmixMutatorLocal::new(&mut gc);
    while let Some(a) = m.allocate(&mut gc, 1, 1) {
        assert_ne!(a, Address::null());
    }
}

#[test]
fn slow_path_takes_the_next_hole_whatever_room_is_left() {
    let mut gc = new_gc(1);
    let start = gc.space.start();
    // Lines 2 and 3 are taken; the block has a hole before and one behind.
    gc.space.mark_line_live(start.plus(2 * 256));
    let mut m = ImmixMutatorLocal::new(&mut gc);
    assert_eq!(m.allocate(&mut gc, 8, 8), Some(start));
    // The region has room for 504 bytes more, and is given up.
    assert_eq!(m.try_alloc_from_local(&mut gc, 8, 8), Some(start.plus(4 * 256)));
    assert_eq!(gc.space.line_mark_table().get(0), LineMark::FreshAlloc);
    assert_eq!(gc.space.line_mark_table().get(1), LineMark::FreshAlloc);
    assert_eq!(gc.space.line_mark_table().get(2), LineMark::Live);
    assert_eq!(gc.space.line_mark_table().get(3), LineMark::ConservLive);
    assert_eq!(gc.space.line_mark_table().get(4), LineMark::FreshAlloc);
    assert_eq!(gc.space.line_mark_table().get(255), LineMark::FreshAlloc);
    assert_eq!(m.allocate(&mut gc, 8, 8), Some(start.plus(4 * 256 + 8)));
    // No run of free lines is left: the slow path asks the space for a block.
    assert_eq!(m.try_alloc_from_local(&mut gc, 8, 8), None);
    assert_eq!(gc.space.used_len(), 1);
}

#[test]
fn slow_path_on_a_fresh_mutator_takes_a_block() {
    let mut gc = new_gc(2);
    let start = gc.space.start();
    let mut m = ImmixMutatorLocal::new(&mut gc);
    assert_eq!(m.try_alloc_from_local(&mut gc, 24, 8), Some(start));
    assert_eq!(m.try_alloc_from_local(&mut gc, 24, 8), Some(start.plus(BLOCK)));
    assert_eq!(gc.space.used_len(), 1);
}
