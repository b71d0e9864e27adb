use immix_rust::common::Address;
use immix_rust::heap::immix::immix_space::{SpaceError, SweepOutcome, SPACE_ALIGN};
use immix_rust::heap::immix::{ImmixSpace, LineMark};
use immix_rust::heap::{fill_alignment_gap, ALIGNMENT_VALUE};
use memmap2::MmapMut;

const BLOCK: usize = 65536;

#[test]
fn new_space_is_aligned_and_sized() {
    let space = ImmixSpace::new(4 * BLOCK).unwrap();
    assert_eq!(space.start().as_usize() % SPACE_ALIGN, 0);
    assert!(!space.start().is_zero());
    assert_eq!(space.end().diff(space.start()), 4 * BLOCK);
    assert_eq!(space.total_blocks(), 4);
    assert_eq!(space.usable_len(), 4);
    assert_eq!(space.used_len(), 0);
    assert_eq!(space.line_mark_table().len(), 4 * 256);
}

#[test]
fn new_space_refuses_invalid_sizes() {
    assert_eq!(ImmixSpace::new(0).err(), Some(SpaceError::InvalidSize));
    assert_eq!(ImmixSpace::new(BLOCK + 1).err(), Some(SpaceError::InvalidSize));
    assert_eq!(ImmixSpace::new(BLOCK - 1).err(), Some(SpaceError::InvalidSize));
    assert_eq!(ImmixSpace::new(usize::MAX - BLOCK + 1).err(), Some(SpaceError::InvalidSize));
}

#[test]
fn new_space_reports_a_mapping_that_the_system_refuses() {
    // No mapping is as long as half the address space.
    let size = (isize::MAX as usize) + 1;
    assert_eq!(size % BLOCK, 0);
    assert_eq!(ImmixSpace::new(size).err(), Some(SpaceError::MapFailed));
}

#[test]
fn fresh_space_has_free_lines_and_zero_maps() {
    let space = ImmixSpace::new(2 * BLOCK).unwrap();
    let start = space.start();
    for line in 0..512 {
        assert_eq!(space.line_mark_table().get(line), LineMark::Free);
    }
    for word in (0..2 * BLOCK).step_by(8 * 97) {
        assert_eq!(space.get_ref_byte(start.plus(word)), 0);
        assert!(!space.is_traced(start.plus(word)));
        assert!(space.is_untraced_and_valid(start.plus(word)));
    }
}

#[test]
fn from_mapping_places_space_at_aligned_address() {
    let map = MmapMut::map_anon(BLOCK + SPACE_ALIGN).unwrap();
    let base = map.as_ptr() as usize;
    let space = ImmixSpace::from_mapping(map, base, BLOCK).unwrap();
    let expected = (base + SPACE_ALIGN - 1) / SPACE_ALIGN * SPACE_ALIGN;
    assert_eq!(space.start().as_usize(), expected);
    assert_eq!(space.end().as_usize(), expected + BLOCK);
}

#[test]
fn from_mapping_refuses_a_mapping_that_is_too_short() {
    // A space of two blocks needs two blocks from an aligned address on.
    let map = MmapMut::map_anon(2 * BLOCK - 1).unwrap();
    assert_eq!(
        ImmixSpace::from_mapping(map, SPACE_ALIGN, 2 * BLOCK).err(),
        Some(SpaceError::BadMapping)
    );
    let map = MmapMut::map_anon(2 * BLOCK).unwrap();
    assert_eq!(
        ImmixSpace::from_mapping(map, SPACE_ALIGN + 1, 2 * BLOCK).err(),
        Some(SpaceError::BadMapping)
    );
    let map = MmapMut::map_anon(2 * BLOCK).unwrap();
    assert!(ImmixSpace::from_mapping(map, SPACE_ALIGN, 2 * BLOCK).is_ok());
    // No space starts at the null address.
    let map = MmapMut::map_anon(2 * BLOCK).unwrap();
    assert_eq!(
        ImmixSpace::from_mapping(map, 0, 2 * BLOCK).err(),
        Some(SpaceError::BadMapping)
    );
    let map = MmapMut::map_anon(2 * BLOCK).unwrap();
    assert_eq!(
        ImmixSpace::from_mapping(map, usize::MAX - BLOCK, 2 * BLOCK).err(),
        Some(SpaceError::BadMapping)
    );
    let map = MmapMut::map_anon(2 * BLOCK).unwrap();
    assert_eq!(
        ImmixSpace::from_mapping(map, SPACE_ALIGN, BLOCK + 1).err(),
        Some(SpaceError::InvalidSize)
    );
}

#[test]
fn addr_in_space_is_half_open() {
    let space = ImmixSpace::new(BLOCK).unwrap();
    let start = space.start();
    assert!(space.addr_in_space(start));
    assert!(space.addr_in_space(start.plus(BLOCK - 1)));
    assert!(!space.addr_in_space(start.plus(BLOCK)));
    assert!(!space.addr_in_space(Address::from_usize(start.as_usize() - 1)));
    assert!(!space.addr_in_space(Address::null()));
}

#[test]
fn store_word_then_load_word() {
    let mut space = ImmixSpace::new(BLOCK).unwrap();
    let a = space.start().plus(1024);
    assert_eq!(space.load_word(a), 0);
    space.store_word(a, 0x0102_0304_0506_0708);
    assert_eq!(space.load_word(a), 0x0102_0304_0506_0708);
    // The byte of least weight comes first.
    assert_eq!(space.load_word(a.plus(1)), 0x0001_0203_0405_0607);
    assert_eq!(space.load_word(a.plus(8)), 0);
    space.store_word(a.plus(8), u64::MAX);
    assert_eq!(space.load_word(a.plus(8)), u64::MAX);
    assert_eq!(space.load_word(a), 0x0102_0304_0506_0708);
}

#[test]
fn store_byte_changes_one_byte() {
    let mut space = ImmixSpace::new(BLOCK).unwrap();
    let a = space.start().plus(64);
    space.store_byte(a.plus(2), 0xab);
    assert_eq!(space.load_word(a), 0x0000_0000_00ab_0000);
}

#[test]
fn fill_alignment_gap_fills_the_gap_only() {
    let mut space = ImmixSpace::new(BLOCK).unwrap();
    let a = space.start().plus(256);
    assert_eq!(ALIGNMENT_VALUE, 1);
    fill_alignment_gap(&mut space, a.plus(3), a.plus(6));
    assert_eq!(space.load_word(a), 0x0000_0101_0100_0000);
    fill_alignment_gap(&mut space, a, a);
    assert_eq!(space.load_word(a), 0x0000_0101_0100_0000);
}

#[test]
fn blocks_are_handed_out_in_order() {
    let mut space = ImmixSpace::new(3 * BLOCK).unwrap();
    let start = space.start();
    for id in 0..3 {
        let block = space.get_next_usable_block().unwrap();
        assert_eq!(block.id(), id);
        assert_eq!(block.start(), start.plus(id * BLOCK));
        assert_eq!(block.line_mark_table().len(), 256);
        assert_eq!(space.usable_len(), 2 - id);
    }
    assert!(!space.take_gc_request());
    assert!(space.get_next_usable_block().is_none());
    assert!(space.take_gc_request());
    assert!(!space.take_gc_request());
}

#[test]
fn block_knows_its_lines() {
    let mut space = ImmixSpace::new(2 * BLOCK).unwrap();
    space.get_next_usable_block().unwrap();
    let mut block = space.get_next_usable_block().unwrap();
    space.set_line_mark(&block, 7, LineMark::Live);
    let table = space.line_mark_table();
    assert_eq!(block.line_mark_table().get(table, 7), LineMark::Live);
    assert_eq!(block.line_mark_table_mut().len(), 256);
    assert_eq!(block.get_next_available_line(table, 0), Some(0));
    assert_eq!(block.get_next_unavailable_line(table, 0), 7);
    assert_eq!(block.get_next_available_line(table, 7), Some(8));
    assert_eq!(block.get_next_unavailable_line(table, 8), 256);
    block.set_state(immix_rust::heap::immix::BlockMark::Full);
    assert_eq!(block.id(), 1);
}

#[test]
fn returned_blocks_wait_among_the_used() {
    let mut space = ImmixSpace::new(2 * BLOCK).unwrap();
    let a = space.get_next_usable_block().unwrap();
    let b = space.get_next_usable_block().unwrap();
    assert_eq!(space.used_len(), 0);
    space.return_used_block(b);
    space.return_used_block(a);
    assert_eq!(space.used_len(), 2);
    assert_eq!(space.usable_len(), 0);
}

#[test]
fn sweep_frees_lines_that_are_not_kept() {
    let mut space = ImmixSpace::new(2 * BLOCK).unwrap();
    let block = space.get_next_usable_block().unwrap();
    space.set_line_mark(&block, 0, LineMark::Live);
    space.set_line_mark(&block, 1, LineMark::ConservLive);
    space.set_line_mark(&block, 2, LineMark::FreshAlloc);
    space.set_line_mark(&block, 3, LineMark::PrevLive);
    space.return_used_block(block);
    assert_eq!(space.sweep(), SweepOutcome::Swept);
    let table = space.line_mark_table();
    assert_eq!(table.get(0), LineMark::Live);
    assert_eq!(table.get(1), LineMark::ConservLive);
    assert_eq!(table.get(2), LineMark::Free);
    assert_eq!(table.get(3), LineMark::Free);
    assert_eq!(table.get(4), LineMark::Free);
    // The swept block has free lines: it waits behind the block that was
    // never handed out.
    assert_eq!(space.used_len(), 0);
    assert_eq!(space.usable_len(), 2);
    assert_eq!(space.get_next_usable_block().unwrap().id(), 1);
    assert_eq!(space.get_next_usable_block().unwrap().id(), 0);
}

#[test]
fn sweep_keeps_full_blocks_among_the_used() {
    let mut space = ImmixSpace::new(3 * BLOCK).unwrap();
    let full = space.get_next_usable_block().unwrap();
    let holey = space.get_next_usable_block().unwrap();
    for line in 0..256 {
        let mark = if line % 2 == 0 { LineMark::Live } else { LineMark::ConservLive };
        space.set_line_mark(&full, line, mark);
        space.set_line_mark(&holey, line, mark);
    }
    space.set_line_mark(&holey, 200, LineMark::FreshAlloc);
    space.return_used_block(full);
    space.return_used_block(holey);
    assert_eq!(space.sweep(), SweepOutcome::Swept);
    assert_eq!(space.used_len(), 1);
    assert_eq!(space.usable_len(), 2);
    assert_eq!(space.line_mark_table().get(256 + 200), LineMark::Free);
    assert_eq!(space.line_mark_table().get(200), LineMark::Live);
    assert_eq!(space.get_next_usable_block().unwrap().id(), 2);
    assert_eq!(space.get_next_usable_block().unwrap().id(), 1);
    assert!(space.get_next_usable_block().is_none());
}

#[test]
fn sweep_reports_out_of_memory_when_every_block_is_full() {
    let mut space = ImmixSpace::new(2 * BLOCK).unwrap();
    let a = space.get_next_usable_block().unwrap();
    let b = space.get_next_usable_block().unwrap();
    for line in 0..256 {
        space.set_line_mark(&a, line, LineMark::Live);
        space.set_line_mark(&b, line, LineMark::ConservLive);
    }
    space.return_used_block(a);
    space.return_used_block(b);
    assert_eq!(space.sweep(), SweepOutcome::OutOfMemory);
    assert_eq!(space.used_len(), 2);
    assert_eq!(space.usable_len(), 0);
}

#[test]
fn sweep_with_nothing_used_changes_nothing() {
    let mut space = ImmixSpace::new(2 * BLOCK).unwrap();
    assert_eq!(space.sweep(), SweepOutcome::Swept);
    assert_eq!(space.usable_len(), 2);
    assert_eq!(space.used_len(), 0);
}

#[test]
fn second_sweep_changes_no_line() {
    let mut space = ImmixSpace::new(4 * BLOCK).unwrap();
    let mut blocks = Vec::new();
    for _ in 0..3 {
        blocks.push(space.get_next_usable_block().unwrap());
    }
    for (n, block) in blocks.iter().enumerate() {
        for line in 0..256 {
            let mark = match (line + n) % 4 {
                0 => LineMark::Live,
                1 => LineMark::ConservLive,
                2 => LineMark::FreshAlloc,
                _ => LineMark::PrevLive,
            };
            space.set_line_mark(block, line, if n == 1 { LineMark::Live } else { mark });
        }
    }
    for block in blocks {
        space.return_used_block(block);
    }
    assert_eq!(space.sweep(), SweepOutcome::Swept);
    let lines: Vec<LineMark> = (0..4 * 256).map(|i| space.line_mark_table().get(i)).collect();
    let (usable, used) = (space.usable_len(), space.used_len());
    assert_eq!((usable, used), (3, 1));
    assert_eq!(space.sweep(), SweepOutcome::Swept);
    let again: Vec<LineMark> = (0..4 * 256).map(|i| space.line_mark_table().get(i)).collect();
    assert_eq!(lines, again);
    assert_eq!((space.usable_len(), space.used_len()), (usable, used));
}

#[test]
fn flip_mark_state_twice_is_no_change() {
    let mut space = ImmixSpace::new(BLOCK).unwrap();
    let a = space.start().plus(48);
    let b = space.start().plus(96);
    space.mark_as_traced(a);
    assert!(space.is_traced(a));
    assert!(!space.is_traced(b));
    space.flip_mark_state();
    assert!(!space.is_traced(a));
    assert!(space.is_traced(b));
    space.flip_mark_state();
    assert!(space.is_traced(a));
    assert!(!space.is_traced(b));
}
