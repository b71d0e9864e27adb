//! The collector: roots, the trace, the sweep, and the protocol by which the
//! mutators stop for a collection.
use crate::common::{Address, AddressMap, ObjectReference};
use crate::heap::freelist::{survivors, total_size, FreeListSpaceView};
use crate::heap::gc::single_thread_trace::{start_trace, traced, TraceError};
use crate::heap::immix::immix_mutator::with_returned;
use crate::heap::immix::immix_space::{ImmixSpaceView, SweepOutcome};
use crate::heap::immix::{ImmixMutatorLocal, ImmixSpace};
use crate::heap::{CoordinatorView, ImmixGC};
use crate::objectmodel::{is_object_start, reachable, ref_fields, starts_object};
use vstd::prelude::*;

pub mod multi_thread_trace;
pub mod single_thread_trace;

verus! {

/// Asks every registered mutator to yield, so that a collection can start.
pub fn trigger_gc(gc: &mut ImmixGC)
    requires
        old(gc).wf(),
    ensures
        final(gc).wf(),
        final(gc).space == old(gc).space,
        final(gc).lo_space == old(gc).lo_space,
        final(gc).coordinator@ == (CoordinatorView {
            mutators: crate::heap::all_yielding(old(gc).coordinator@.mutators),
            ..old(gc).coordinator@
        }),
{
    gc.trigger_gc();
}

/// The number of collections that have been completed.
pub fn gc_count(gc: &ImmixGC) -> (r: usize)
    ensures
        r == gc.coordinator@.gc_count,
{
    gc.coordinator.gc_count()
}

/// The word `word` counts as a root in the space: it is a multiple of the word
/// size, lies in the space, and an object starts at it by the alloc map.
pub open spec fn is_root(space: ImmixSpaceView, word: int) -> bool {
    &&& word % 8 == 0
    &&& space.contains(word)
    &&& is_object_start(space.alloc_map[space.word_of(word)])
}

/// The roots among `words`, in their order.
pub open spec fn scanned(space: ImmixSpaceView, words: Seq<usize>) -> Seq<ObjectReference>
    decreases words.len(),
{
    if words.len() == 0 {
        Seq::empty()
    } else if is_root(space, words.last() as int) {
        scanned(space, words.drop_last()).push(ObjectReference::at(words.last() as int))
    } else {
        scanned(space, words.drop_last())
    }
}

/// Whether `addr` counts as a reference to an object in the space from `start`
/// up to `end`: it is a multiple of the word size, lies in the space, and an
/// object starts at it by the alloc map `live_map`.
pub fn is_valid_object(addr: Address, start: Address, end: Address, live_map: &AddressMap<u8>) -> (r:
    bool)
    requires
        live_map.wf(),
        live_map.start() == start@,
        end@ <= start@ + 8 * live_map@.len(),
    ensures
        r == (addr@ % 8 == 0 && start@ <= addr@ < end@ && is_object_start(
            live_map@[live_map.slot(addr@)],
        )),
{
    if addr.as_usize() >= end.as_usize() || addr.as_usize() < start.as_usize() {
        return false;
    }
    if addr.as_usize() % 8 != 0 {
        return false;
    }
    starts_object(live_map.get(addr))
}

/// The roots among `words`, the words that a mutator found on its stack and in
/// its registers.
pub fn stack_scan(immix_space: &ImmixSpace, words: &Vec<usize>) -> (r: Vec<ObjectReference>)
    requires
        immix_space.wf(),
    ensures
        r@ == scanned(immix_space@, words@),
{
    broadcast use ImmixSpace::lemma_wf;

    let mut ret: Vec<ObjectReference> = Vec::new();
    let mut i: usize = 0;
    assert(words@.take(0) =~= Seq::<usize>::empty());
    while i < words.len()
        invariant
            i <= words@.len(),
            immix_space.wf(),
            ret@ == scanned(immix_space@, words@.take(i as int)),
        decreases words@.len() - i,
    {
        let value = Address::from_usize(words[i]);
        proof {
            assert(words@.take(i as int + 1).drop_last() =~= words@.take(i as int));
            assert(words@.take(i as int + 1).last() == words@[i as int]);
        }
        let live_map = immix_space.alloc_map();
        proof {
            immix_space.lemma_wf();
            immix_space@.lemma_layout();
        }
        if is_valid_object(value, immix_space.start(), immix_space.end(), live_map) {
            let root = value.to_object_reference();
            proof {
                ObjectReference::lemma_at(words@[i as int] as int);
                root.lemma_same(ObjectReference::at(words@[i as int] as int));
            }
            ret.push(root);
        }
        i += 1;
    }
    assert(words@.take(words@.len() as int) =~= words@);
    ret
}

/// How a collection ended.
#[derive(PartialEq, Eq, Structural, Debug, Copy, Clone)]
pub enum CollectOutcome {
    /// The collection is complete and the mutators are let go.
    Done,
    /// The mutator is not the controller: nothing was done.
    NotController,
    /// Not every other mutator is parked yet: nothing was done.
    NotReady,
    /// The trace met an object whose encoding is malformed, and stopped.
    Malformed(ObjectReference),
    /// After the sweep every block of the space is full.
    OutOfMemory,
    /// The queue of used blocks turned the sweep away before its end.
    Contended,
}

/// What came of a mutator's arrival at the barrier.
#[derive(PartialEq, Eq, Structural, Debug, Copy, Clone)]
pub enum BarrierOutcome {
    /// The mutator is not registered: nothing was done.
    NotRegistered,
    /// Another mutator is the controller. This one is parked: it has to wait
    /// until it is no longer marked as blocked.
    Parked,
    /// The mutator is the controller, and not every other mutator is parked
    /// yet: it has to wait until they are, and then collect.
    AwaitParked,
    /// The mutator is the controller and has run the collection.
    Collected(CollectOutcome),
}

/// The space `space` once the trace and the sweep of a collection are done and
/// the mark state is turned over.
pub open spec fn turned_over(space: ImmixSpaceView) -> ImmixSpaceView {
    ImmixSpaceView { gc_requested: false, ..space.swept(space.used.len() as int).flipped() }
}

/// After a collection, every object that could be reached from the roots is
/// marked: its trace byte holds the mark state of the collection, which is
/// not the mark state any more, its line is `Live`, and the line after it, if
/// there is one, is `Live` or `ConservLive`. This holds of a space in which no
/// object that can be reached counted as traced when the collection began,
/// and in which references are multiples of the word size above the start of
/// the space.
pub proof fn lemma_collection_marks_reachable(
    before: ImmixSpaceView,
    after: ImmixSpaceView,
    roots: Seq<ObjectReference>,
    addr: int,
)
    requires
        exists|mid: ImmixSpaceView| #[trigger]
            traced(before, mid, roots) && after == turned_over(mid),
        crate::heap::gc::single_thread_trace::ready_to_trace(before, roots),
        reachable(before, roots, addr),
    ensures
        after.contains(addr),
        after.trace_cells[after.word_of(addr)] == before.mark_state,
        after.mark_state != before.mark_state,
        after.lines[after.line_of(addr)] == crate::heap::immix::LineMark::Live,
        after.line_of(addr) + 1 < after.lines.len() ==> crate::heap::immix::line_mark::is_kept(
            after.lines[after.line_of(addr) + 1],
        ),
{
    let mid = choose|mid: ImmixSpaceView| #[trigger]
        traced(before, mid, roots) && after == turned_over(mid);
    crate::heap::gc::single_thread_trace::lemma_trace_marks_reachable(before, mid, roots, addr);
    let visited = choose|visited: Set<int>| #[trigger]
        crate::heap::gc::single_thread_trace::tracing(
            before,
            mid,
            roots,
            Seq::<ObjectReference>::empty(),
            visited,
        );
    mid.lemma_layout();
}


/// What a collection by the controller `id` comes to, from the Immix space
/// `s0`, in which the controller holds no block, the coordinator `c0` and the
/// large-object space `l0` to `s1`, `c1` and `l1`.
pub open spec fn collected(
    s0: ImmixSpaceView,
    c0: CoordinatorView,
    l0: FreeListSpaceView,
    s1: ImmixSpaceView,
    c1: CoordinatorView,
    l1: FreeListSpaceView,
    id: (usize, u64),
    outcome: CollectOutcome,
) -> bool {
    match outcome {
        CollectOutcome::NotController => c0.controller != Some(id) && c1 == c0 && l1 == l0,
        CollectOutcome::NotReady => c0.controller == Some(id) && !c0.all_parked() && c1 == c0
            && l1 == l0,
        CollectOutcome::Malformed(obj) => {
            &&& c0.controller == Some(id) && c0.all_parked()
            &&& s0.contains(obj@)
            &&& reachable(s0, c0.roots, obj@)
            &&& ref_fields(s0, obj@) is None
            &&& crate::heap::gc::single_thread_trace::marks_kept(s0, s1)
            &&& c1 == (CoordinatorView { roots: Seq::empty(), ..c0 })
            &&& l1 == l0
        },
        CollectOutcome::OutOfMemory => {
            &&& c0.controller == Some(id) && c0.all_parked()
            &&& exists|mid: ImmixSpaceView| #[trigger]
                traced(s0, mid, c0.roots) && s1 == mid.swept(mid.used.len() as int)
            &&& s1.used.len() == s1.total_blocks()
            &&& c1 == (CoordinatorView { roots: Seq::empty(), ..c0 })
            &&& l1 == l0
        },
        CollectOutcome::Contended => {
            &&& c0.controller == Some(id) && c0.all_parked()
            &&& exists|mid: ImmixSpaceView, count: int| #[trigger]
                traced(s0, mid, c0.roots) && 0 <= count < mid.used.len() && s1 == #[trigger] mid.swept(
                    count,
                )
            &&& c1 == (CoordinatorView { roots: Seq::empty(), ..c0 })
            &&& l1 == l0
        },
        CollectOutcome::Done => {
            &&& c0.controller == Some(id) && c0.all_parked()
            &&& exists|mid: ImmixSpaceView| #[trigger]
                traced(s0, mid, c0.roots) && s1 == turned_over(mid)
            &&& s1.used.len() < s1.total_blocks()
            &&& c1 == (CoordinatorView { roots: Seq::empty(), ..c0 }).finished()
            &&& l1 == (FreeListSpaceView {
                nodes: survivors(l0.nodes),
                used_bytes: total_size(survivors(l0.nodes)),
                ..l0
            })
        },
    }
}

/// Runs a collection, if the mutator is the controller and every other
/// mutator is parked: hands back the block of the mutator, if it holds one,
/// traces from the roots that the mutators found, sweeps
/// the Immix space and the large-object space, counts the collection, turns
/// the mark state over, and lets the mutators go. A malformed object, a space
/// that is full after the sweep, or a sweep that was turned away ends the
/// collection early, with the mutators still stopped.
pub fn collect(gc: &mut ImmixGC, mutator: &mut ImmixMutatorLocal) -> (r: CollectOutcome)
    requires
        old(gc).wf(),
        old(mutator)@.wf(old(gc).space@),
    ensures
        final(gc).wf(),
        final(mutator)@.wf(final(gc).space@),
        final(mutator)@.id == old(mutator)@.id,
        r != CollectOutcome::NotController && r != CollectOutcome::NotReady
            ==> final(mutator)@.is_reset(),
        r == CollectOutcome::NotController || r == CollectOutcome::NotReady ==> final(mutator)@
            == old(mutator)@ && final(gc).space@ == old(gc).space@,
        collected(
            with_returned(old(gc).space@, old(mutator)@.block),
            old(gc).coordinator@,
            old(gc).lo_space@,
            final(gc).space@,
            final(gc).coordinator@,
            final(gc).lo_space@,
            old(mutator)@.id,
            r,
        ),
{
    broadcast use ImmixSpace::lemma_wf;

    let ghost c0 = gc.coordinator@;
    let id = mutator.id();
    match gc.coordinator.controller() {
        Some(controller) => {
            if controller.0 != id.0 || controller.1 != id.1 {
                return CollectOutcome::NotController;
            }
        },
        None => {
            return CollectOutcome::NotController;
        },
    }
    if !gc.coordinator.all_parked() {
        return CollectOutcome::NotReady;
    }
    mutator.prepare_for_gc(gc);
    let ghost s0 = gc.space@;
    let mut roots = gc.coordinator.take_roots();
    match start_trace(&mut roots, &mut gc.space) {
        Err(TraceError::Malformed(obj)) => {
            proof {
                lemma_marks_keep_mutator(s0, gc.space@, mutator@);
            }
            return CollectOutcome::Malformed(obj);
        },
        Ok(_) => {},
    }
    let ghost mid = gc.space@;
    proof {
        lemma_marks_keep_mutator(s0, mid, mutator@);
    }
    match gc.space.sweep() {
        SweepOutcome::Interrupted(count) => {
            proof {
                lemma_sweep_keeps_mutator(mid, count as int, mutator@);
            }
            return CollectOutcome::Contended;
        },
        SweepOutcome::OutOfMemory => {
            proof {
                lemma_sweep_keeps_mutator(mid, mid.used.len() as int, mutator@);
            }
            return CollectOutcome::OutOfMemory;
        },
        SweepOutcome::Swept => {},
    }
    gc.lo_space.sweep();
    gc.coordinator.finish();
    gc.space.flip_mark_state();
    let _ = gc.space.take_gc_request();
    mutator.reset();
    proof {
        assert(gc.space@ == turned_over(mid));
    }
    CollectOutcome::Done
}

/// What the arrival at the barrier of the mutator with the number `id` comes
/// to, which held `block` and found `words` on its stack and in its registers.
///
/// A mutator that is not registered does nothing. Any other hands back its
/// block, adds the roots among `words` to those of the collection, and becomes
/// the controller if there is none. A mutator that is not the controller is
/// parked. The controller runs the collection if every other mutator is
/// parked.
pub open spec fn arrived(
    s0: ImmixSpaceView,
    c0: CoordinatorView,
    l0: FreeListSpaceView,
    block: Option<crate::heap::immix::immix_space::ImmixBlockView>,
    id: (usize, u64),
    words: Seq<usize>,
    s1: ImmixSpaceView,
    c1: CoordinatorView,
    l1: FreeListSpaceView,
    r: BarrierOutcome,
) -> bool {
    let sb = with_returned(s0, block);
    let cb = c0.with_arrival(id, scanned(s0, words));
    match r {
        BarrierOutcome::NotRegistered => !c0.mutators.contains_key(id) && s1 == s0 && c1 == c0
            && l1 == l0,
        BarrierOutcome::Parked => c0.mutators.contains_key(id) && cb.controller != Some(id) && s1
            == sb && c1 == cb.with_parked(id) && l1 == l0,
        BarrierOutcome::AwaitParked => c0.mutators.contains_key(id) && cb.controller == Some(id)
            && !cb.all_parked() && s1 == sb && c1 == cb && l1 == l0,
        BarrierOutcome::Collected(outcome) => c0.mutators.contains_key(id) && cb.controller
            == Some(id) && cb.all_parked() && collected(sb, cb, l0, s1, c1, l1, id, outcome),
    }
}

/// Brings the mutator to the barrier of a collection, with the words `words`
/// that it found on its stack and in its registers.
pub fn sync_barrier(gc: &mut ImmixGC, mutator: &mut ImmixMutatorLocal, words: &Vec<usize>) -> (r:
    BarrierOutcome)
    requires
        old(gc).wf(),
        old(mutator)@.wf(old(gc).space@),
    ensures
        final(gc).wf(),
        final(mutator)@.wf(final(gc).space@),
        final(mutator)@.id == old(mutator)@.id,
        r == BarrierOutcome::NotRegistered ==> final(mutator)@ == old(mutator)@,
        r != BarrierOutcome::NotRegistered ==> final(mutator)@.is_reset(),
        arrived(
            old(gc).space@,
            old(gc).coordinator@,
            old(gc).lo_space@,
            old(mutator)@.block,
            old(mutator)@.id,
            words@,
            final(gc).space@,
            final(gc).coordinator@,
            final(gc).lo_space@,
            r,
        ),
{
    let id = mutator.id();
    if !gc.coordinator.is_registered(id) {
        return BarrierOutcome::NotRegistered;
    }
    let is_controller = gc.coordinator.claim_control(id);
    let mut thread_roots = stack_scan(&gc.space, words);
    mutator.prepare_for_gc(gc);
    gc.coordinator.append_roots(&mut thread_roots);
    if !is_controller {
        gc.coordinator.park(id);
        return BarrierOutcome::Parked;
    }
    if !gc.coordinator.all_parked() {
        return BarrierOutcome::AwaitParked;
    }
    proof {
        assert(mutator@.block is None);
        assert(with_returned(gc.space@, mutator@.block) == gc.space@);
    }
    let outcome = collect(gc, mutator);
    BarrierOutcome::Collected(outcome)
}

/// A collection keeps what it has marked: an object of no more than a line's
/// length that the trace has marked lies, after the sweep and the flip, in
/// lines that are `Live` or `ConservLive`, none of them free. So no
/// allocation after the collection overlaps it.
pub proof fn lemma_collection_keeps_marked(mid: ImmixSpaceView, addr: int, size: int)
    requires
        mid.wf(),
        crate::heap::gc::single_thread_trace::object_marked(mid, addr),
        0 < size <= 256,
        addr + size <= mid.end,
    ensures
        crate::heap::immix::immix_mutator::in_taken_lines(turned_over(mid), addr, size),
        forall|l: int|
            mid.line_of(addr) <= l <= mid.line_of(addr + size - 1)
                ==> crate::heap::immix::line_mark::is_kept(#[trigger] turned_over(mid).lines[l]),
{
    mid.lemma_layout();
    let after = turned_over(mid);
    let first = mid.line_of(addr);
    assert(mid.line_of(addr + size - 1) <= first + 1);
    assert forall|l: int|
        first <= l <= mid.line_of(addr + size - 1) implies crate::heap::immix::line_mark::is_kept(
        #[trigger] after.lines[l],
    ) by {
        assert(0 <= l < mid.lines.len());
        assert(crate::heap::immix::line_mark::is_kept(mid.lines[l]));
    }
}

/// A mutator that has been destroyed takes no part in a collection: its
/// arrival at the barrier changes nothing, so no root comes from its stack or
/// its registers, it is not counted among the parked, and it cannot become
/// the controller.
pub proof fn lemma_destroyed_takes_no_part(
    s0: ImmixSpaceView,
    c0: CoordinatorView,
    l0: FreeListSpaceView,
    block: Option<crate::heap::immix::immix_space::ImmixBlockView>,
    id: (usize, u64),
    words: Seq<usize>,
    s1: ImmixSpaceView,
    c1: CoordinatorView,
    l1: FreeListSpaceView,
    r: BarrierOutcome,
)
    requires
        !c0.mutators.contains_key(id),
        arrived(s0, c0, l0, block, id, words, s1, c1, l1, r),
    ensures
        r == BarrierOutcome::NotRegistered,
        s1 == s0,
        c1 == c0,
        l1 == l0,
{
}

/// The controller waits for the registered mutators only: the collection is
/// ready when all of them but one are parked, and the roots that it traces
/// are those that the mutators brought to the barrier since the collection
/// before, which took its roots out.
pub proof fn lemma_collection_counts_registered(
    s0: ImmixSpaceView,
    c0: CoordinatorView,
    l0: FreeListSpaceView,
    s1: ImmixSpaceView,
    c1: CoordinatorView,
    l1: FreeListSpaceView,
    id: (usize, u64),
)
    requires
        collected(s0, c0, l0, s1, c1, l1, id, CollectOutcome::Done),
    ensures
        c0.parked + 1 >= c0.mutators.dom().len(),
        c1.roots.len() == 0,
        c1.parked == 0,
        c1.controller is None,
        c1.mutators.dom() == c0.mutators.dom(),
        c0.gc_count <= c1.gc_count <= c0.gc_count + 1,
        exists|mid: ImmixSpaceView| #[trigger] traced(s0, mid, c0.roots),
{
    assert(c1.mutators.dom() =~= c0.mutators.dom());
}

/// A trace leaves a mutator that holds no block as it was.
proof fn lemma_marks_keep_mutator(
    before: ImmixSpaceView,
    after: ImmixSpaceView,
    mutator: crate::heap::immix::immix_mutator::ImmixMutatorView,
)
    requires
        crate::heap::gc::single_thread_trace::marks_kept(before, after),
        mutator.wf(before),
        mutator.block is None,
    ensures
        mutator.wf(after),
{
}

/// A sweep leaves a mutator that holds no block as it was.
proof fn lemma_sweep_keeps_mutator(
    before: ImmixSpaceView,
    count: int,
    mutator: crate::heap::immix::immix_mutator::ImmixMutatorView,
)
    requires
        mutator.wf(before),
        mutator.block is None,
    ensures
        mutator.wf(before.swept(count)),
{
}

} // verus!
