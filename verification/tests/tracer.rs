use immix_rust::common::{Address, ObjectReference};
use crossbeam::deque::Injector;
use immix_rust::heap::gc::multi_thread_trace::{
    idle_action, worker_batch_steal_trace, IdleAction, ParallelTraceError, WorkerExit,
};
use immix_rust::heap::gc::single_thread_trace::{start_trace, TraceError};
use immix_rust::heap::gc::{is_valid_object, multi_thread_trace, stack_scan};
use immix_rust::heap::immix::{ImmixSpace, LineMark};
use immix_rust::objectmodel::{get_ref_byte, is_traced, mark_as_traced};

const BLOCK: usize = 65536;

/// An object at `offset` with the encoding `encode` and the given words.
fn put(space: &mut ImmixSpace, offset: usize, encode: u8, words: &[u64]) -> ObjectReference {
    let addr = space.start().plus(offset);
    space.set_ref_byte(addr, encode);
    for (i, word) in words.iter().enumerate() {
        space.store_word(addr.plus(8 * i), *word);
    }
    addr.to_object_reference()
}

fn at(space: &ImmixSpace, offset: usize) -> u64 {
    space.start().plus(offset).as_usize() as u64
}

#[test]
fn trace_marks_a_chain() {
    let mut space = ImmixSpace::new(BLOCK).unwrap();
    let (b, c) = (at(&space, 1024), at(&space, 4096));
    let a = put(&mut space, 0, 0b1100_0001, &[b, 7, 7]);
    put(&mut space, 1024, 0b1100_0001, &[c]);
    put(&mut space, 4096, 0b1100_0001, &[0]);
    let lonely = put(&mut space, 8192, 0b1100_0001, &[0]);
    let mut roots = vec![a];
    assert_eq!(start_trace(&mut roots, &mut space), Ok(()));
    assert!(roots.is_empty());
    for offset in [0, 1024, 4096] {
        assert!(space.is_traced(space.start().plus(offset)));
        assert_eq!(space.line_mark_table().get(offset / 256), LineMark::Live);
        assert_eq!(space.line_mark_table().get(offset / 256 + 1), LineMark::ConservLive);
    }
    assert!(!is_traced(&space, lonely));
    assert_eq!(space.line_mark_table().get(32), LineMark::Free);
    // The second word of the first object holds no reference.
    assert!(!space.is_traced(space.start().plus(8)));
}

#[test]
fn trace_follows_two_and_four_references() {
    let mut space = ImmixSpace::new(BLOCK).unwrap();
    let targets: Vec<u64> = (1..=6).map(|i| at(&space, 512 * i)).collect();
    let two = put(&mut space, 0, 0b1100_0011, &[targets[0], targets[1], targets[2]]);
    let four = put(
        &mut space,
        256,
        0b1100_1111,
        &[targets[2], targets[3], targets[4], 0, targets[5]],
    );
    for i in 1..=6 {
        put(&mut space, 512 * i, 0b1100_0001, &[0]);
    }
    let mut roots = vec![two];
    start_trace(&mut roots, &mut space).unwrap();
    assert!(space.is_traced(space.start().plus(512)));
    assert!(space.is_traced(space.start().plus(1024)));
    assert!(!space.is_traced(space.start().plus(1536)));
    let mut roots = vec![four];
    start_trace(&mut roots, &mut space).unwrap();
    assert!(space.is_traced(space.start().plus(1536)));
    assert!(space.is_traced(space.start().plus(2048)));
    assert!(space.is_traced(space.start().plus(2560)));
    // The fifth word is not among the four that hold references.
    assert!(!space.is_traced(space.start().plus(3072)));
}

#[test]
fn trace_walks_a_long_encoding() {
    let mut space = ImmixSpace::new(BLOCK).unwrap();
    let (x, y, z) = (at(&space, 2048), at(&space, 4096), at(&space, 8192));
    // Two parts of six words each: the first holds one reference, the
    // second two.
    let long = put(&mut space, 0, 0b0100_0001, &[x, 0, 0, 0, 0, 0, y, z]);
    let second = space.start().plus(48);
    space.set_ref_byte(second, 0b1000_0011);
    for offset in [2048, 4096, 8192] {
        put(&mut space, offset, 0b1100_0001, &[0]);
    }
    let mut roots = vec![long];
    assert_eq!(start_trace(&mut roots, &mut space), Ok(()));
    for offset in [0, 2048, 4096, 8192] {
        assert!(space.is_traced(space.start().plus(offset)));
    }
    assert!(!space.is_traced(second));
}

#[test]
fn trace_passes_over_what_lies_outside() {
    let mut space = ImmixSpace::new(BLOCK).unwrap();
    let outside = space.end().as_usize() as u64;
    let a = put(&mut space, 0, 0b1100_0011, &[outside, u64::MAX]);
    let mut roots = vec![
        ObjectReference::from_usize(0),
        a,
        ObjectReference::from_usize(space.end().as_usize()),
        ObjectReference::from_usize(8),
    ];
    assert_eq!(start_trace(&mut roots, &mut space), Ok(()));
    assert!(space.is_traced(space.start()));
    let traced = (0..BLOCK / 8).filter(|i| space.is_traced(space.start().plus(8 * i))).count();
    assert_eq!(traced, 1);
}

#[test]
fn trace_visits_each_object_once() {
    let mut space = ImmixSpace::new(BLOCK).unwrap();
    let (a, b) = (at(&space, 0), at(&space, 512));
    // Two objects that refer to each other and to themselves.
    let first = put(&mut space, 0, 0b1100_0011, &[b, a]);
    let second = put(&mut space, 512, 0b1100_0011, &[a, b]);
    let mut roots = vec![first, second, first, first];
    assert_eq!(start_trace(&mut roots, &mut space), Ok(()));
    let traced = (0..BLOCK / 8).filter(|i| space.is_traced(space.start().plus(8 * i))).count();
    assert_eq!(traced, 2);
}

#[test]
fn trace_stops_at_unrecognized_reference_bits() {
    for bits in [0b0000_0000u8, 0b0000_0010, 0b0000_0111, 0b0001_1111, 0b0011_1111] {
        let mut space = ImmixSpace::new(BLOCK).unwrap();
        let b = at(&space, 512);
        let a = put(&mut space, 0, 0b1100_0001, &[b]);
        let bad = put(&mut space, 512, 0b1100_0000 | bits, &[0]);
        let mut roots = vec![a];
        assert_eq!(start_trace(&mut roots, &mut space), Err(TraceError::Malformed(bad)));
    }
}

#[test]
fn trace_stops_at_an_object_that_leaves_the_space() {
    let mut space = ImmixSpace::new(BLOCK).unwrap();
    // Four reference words from the last word of the space on.
    let bad = put(&mut space, BLOCK - 8, 0b1100_1111, &[0]);
    let mut roots = vec![bad];
    assert_eq!(start_trace(&mut roots, &mut space), Err(TraceError::Malformed(bad)));
    // A long encoding whose next part would start outside.
    let mut space = ImmixSpace::new(BLOCK).unwrap();
    let bad = put(&mut space, BLOCK - 48, 0b0100_0001, &[0]);
    let mut roots = vec![bad];
    assert_eq!(start_trace(&mut roots, &mut space), Err(TraceError::Malformed(bad)));
}

#[test]
fn trace_does_not_follow_objects_that_count_as_traced() {
    let mut space = ImmixSpace::new(BLOCK).unwrap();
    let (b, c) = (at(&space, 512), at(&space, 1024));
    let a = put(&mut space, 0, 0b1100_0001, &[b]);
    let middle = put(&mut space, 512, 0b1100_0001, &[c]);
    put(&mut space, 1024, 0b1100_0001, &[0]);
    mark_as_traced(&mut space, middle);
    let mut roots = vec![a];
    assert_eq!(start_trace(&mut roots, &mut space), Ok(()));
    assert!(space.is_traced(space.start()));
    assert!(!space.is_traced(space.start().plus(1024)));
    assert_eq!(space.line_mark_table().get(2), LineMark::Free);
}

#[test]
fn parallel_trace_marks_what_the_single_trace_marks() {
    let mut single = ImmixSpace::new(4 * BLOCK).unwrap();
    let mut parallel = ImmixSpace::new(4 * BLOCK).unwrap();
    let mut roots = (Vec::new(), Vec::new());
    for (space, roots) in [(&mut single, &mut roots.0), (&mut parallel, &mut roots.1)] {
        // A tree of 341 objects with four children each, in breadth-first
        // order, every object 64 bytes from the one before.
        for n in 0..341usize {
            let children: Vec<u64> = (1..=4)
                .map(|k| if 4 * n + k < 341 { at(space, 64 * (4 * n + k)) } else { 0 })
                .collect();
            put(space, 64 * n, 0b1100_1111, &children);
        }
        roots.push(space.start().to_object_reference());
        roots.push(ObjectReference::from_usize(16));
    }
    assert_eq!(start_trace(&mut roots.0, &mut single), Ok(()));
    assert_eq!(multi_thread_trace::start_trace(&mut roots.1, &mut parallel), Ok(()));
    assert!(roots.1.is_empty());
    for word in 0..4 * BLOCK / 8 {
        assert_eq!(
            single.is_traced(single.start().plus(8 * word)),
            parallel.is_traced(parallel.start().plus(8 * word))
        );
        assert_eq!(word % 8 == 0 && word < 8 * 341, parallel.is_traced(parallel.start().plus(8 * word)));
    }
    for line in 0..4 * 256 {
        assert_eq!(single.line_mark_table().get(line), parallel.line_mark_table().get(line));
    }
    assert_eq!(parallel.line_mark_table().get(85), LineMark::Live);
    assert_eq!(parallel.line_mark_table().get(86), LineMark::ConservLive);
    assert_eq!(parallel.line_mark_table().get(87), LineMark::Free);
}

#[test]
fn parallel_trace_stops_at_malformed_objects() {
    let mut space = ImmixSpace::new(BLOCK).unwrap();
    let b = at(&space, 512);
    let a = put(&mut space, 0, 0b1100_0001, &[b]);
    let bad = put(&mut space, 512, 0b1100_0101, &[0]);
    let mut roots = vec![a];
    assert_eq!(
        multi_thread_trace::start_trace(&mut roots, &mut space),
        Err(ParallelTraceError::Malformed(bad))
    );
}

#[test]
fn idle_worker_resumes_waits_or_exits() {
    assert_eq!(idle_action(false, 0), IdleAction::Resume);
    assert_eq!(idle_action(false, 3), IdleAction::Resume);
    assert_eq!(idle_action(true, 0), IdleAction::Exit);
    assert_eq!(idle_action(true, 1), IdleAction::Wait);
}

#[test]
fn valid_objects_are_aligned_in_space_and_started() {
    let mut space = ImmixSpace::new(BLOCK).unwrap();
    let obj = put(&mut space, 64, 0b1100_0001, &[0]);
    put(&mut space, 128, 0b1000_0001, &[0]);
    let (start, end) = (space.start(), space.end());
    let map = space.alloc_map();
    assert!(is_valid_object(obj.to_address(), start, end, map));
    assert!(!is_valid_object(start.plus(65), start, end, map));
    assert!(!is_valid_object(start.plus(72), start, end, map));
    assert!(!is_valid_object(start.plus(128), start, end, map));
    assert!(!is_valid_object(end, start, end, map));
    assert!(!is_valid_object(Address::null(), start, end, map));
    assert_eq!(get_ref_byte(&space, obj), 0b1100_0001);
}

#[test]
fn stack_scan_keeps_the_roots_in_order() {
    let mut space = ImmixSpace::new(BLOCK).unwrap();
    let a = put(&mut space, 64, 0b1100_0001, &[0]);
    let b = put(&mut space, 4096, 0b0100_0011, &[0]);
    let s = space.start().as_usize();
    let words = vec![0, b.as_usize(), s + 8, 17, a.as_usize(), s + 65, usize::MAX, b.as_usize()];
    assert_eq!(stack_scan(&space, &words), vec![b, a, b]);
    assert_eq!(stack_scan(&space, &Vec::new()), Vec::new());
}

#[test]
fn worker_traces_what_waits_in_the_queue() {
    let mut space = ImmixSpace::new(BLOCK).unwrap();
    let (b, c) = (at(&space, 1024), at(&space, 4096));
    let a = put(&mut space, 0, 0b1100_0011, &[b, c]);
    put(&mut space, 1024, 0b1100_0001, &[c]);
    put(&mut space, 4096, 0b1100_0001, &[0]);
    let mut injector = Injector::new();
    injector.push(a.as_usize());
    // Two workers are active: this one finds no work left and has to wait.
    let mut active = 2;
    assert_eq!(
        worker_batch_steal_trace(&mut injector, &mut active, &mut space),
        Ok(WorkerExit::Waiting)
    );
    assert_eq!(active, 1);
    assert!(injector.is_empty());
    for offset in [0, 1024, 4096] {
        assert!(space.is_traced(space.start().plus(offset)));
    }
    // The last worker that runs out of work ends the trace.
    assert_eq!(
        worker_batch_steal_trace(&mut injector, &mut active, &mut space),
        Ok(WorkerExit::Finished)
    );
    assert_eq!(active, 0);
}
