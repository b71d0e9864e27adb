//! The mutator: the state with which one thread allocates in the Immix space.
use crate::common::{align_up_spec, lemma_align_up, Address};
use crate::heap::immix::immix_space::{holds, ImmixBlock, ImmixBlockView, ImmixSpaceView};
use crate::heap::immix::line_mark::{lemma_next_free, lemma_next_taken, next_free, next_taken, LineMark};
use crate::heap::immix::{ImmixSpace, BYTES_IN_LINE, LINES_IN_BLOCK};
use crate::heap::freelist::FreeListSpaceView;
use crate::heap::gc::{arrived, sync_barrier, BarrierOutcome};
use crate::heap::{all_yielding, CoordinatorView, ImmixGC};
use vstd::prelude::*;

verus! {

/// The flags by which the collector and a mutator speak to each other.
#[derive(Default, Debug, Clone, Copy, PartialEq, Eq, Structural)]
pub struct ImmixMutatorGlobal {
    take_yield: bool,
    still_blocked: bool,
}

impl View for ImmixMutatorGlobal {
    type V = (bool, bool);

    /// Whether the mutator has been asked to yield, and whether it is parked.
    closed spec fn view(&self) -> (bool, bool) {
        (self.take_yield, self.still_blocked)
    }
}

impl ImmixMutatorGlobal {
    /// The flags of a mutator that is neither asked to yield nor parked.
    pub fn new() -> (r: ImmixMutatorGlobal)
        ensures
            r@ == (false, false),
    {
        ImmixMutatorGlobal { take_yield: false, still_blocked: false }
    }

    /// Whether the mutator is parked.
    pub fn is_still_blocked(&self) -> (r: bool)
        ensures
            r == self@.1,
    {
        self.still_blocked
    }

    pub fn set_still_blocked(&mut self, b: bool)
        ensures
            final(self)@ == (old(self)@.0, b),
    {
        self.still_blocked = b;
    }

    pub fn set_take_yield(&mut self, b: bool)
        ensures
            final(self)@ == (b, old(self)@.1),
    {
        self.take_yield = b;
    }

    /// Whether the mutator has been asked to yield.
    pub fn take_yield(&self) -> (r: bool)
        ensures
            r == self@.0,
    {
        self.take_yield
    }
}

/// The state with which one thread allocates: the block it holds, and in it
/// the region from `cursor` up to `limit` into which it bumps.
pub struct ImmixMutatorLocal {
    id: (usize, u64),
    space_start: Address,
    cursor: Address,
    limit: Address,
    line: usize,
    block: Option<ImmixBlock>,
}

/// What a mutator is.
pub ghost struct ImmixMutatorView {
    /// The number under which the mutator is registered.
    pub id: (usize, u64),
    /// The address at which the space of the mutator starts.
    pub space_start: int,
    /// The address at which the next object is put.
    pub cursor: int,
    /// The address at which the region for allocation ends.
    pub limit: int,
    /// The line of the block from which the next region is looked for.
    pub line: int,
    /// The block that the mutator holds.
    pub block: Option<ImmixBlockView>,
}

impl ImmixMutatorView {
    /// The mutator holds no block and has no region to allocate in.
    pub open spec fn is_reset(self) -> bool {
        self.cursor == 0 && self.limit == 0 && self.line == 256 && self.block is None
    }

    /// The mutator belongs to the space `space`: the block it holds is a block
    /// of the space that waits in neither queue, the region from `cursor` up
    /// to `limit` lies in that block and ends where line `line` starts, and
    /// the lines of the region are marked `FreshAlloc`. Without a block the
    /// mutator is reset.
    pub open spec fn wf(self, space: ImmixSpaceView) -> bool {
        &&& self.space_start == space.start
        &&& match self.block {
            None => self.is_reset(),
            Some(block) => {
                &&& space.has_block(block)
                &&& space.is_out(block.id)
                &&& 0 <= self.line <= 256
                &&& block.start <= self.cursor <= self.limit
                &&& self.limit == block.start + self.line * 256
                &&& forall|l: int|
                    block.first_line + (self.cursor - block.start) / 256 <= l < block.first_line
                        + self.line ==> #[trigger] space.lines[l] == LineMark::FreshAlloc
            },
        }
    }

    /// The `size` bytes from `addr` on lie outside the region of the mutator:
    /// below its cursor, or at or above its limit.
    pub open spec fn region_spares(self, addr: int, size: int) -> bool {
        addr + size <= self.cursor || self.limit <= addr
    }

    /// An object of `size` bytes aligned to `align` fits between `cursor` and
    /// `limit`.
    pub open spec fn fits(self, size: int, align: int) -> bool {
        align_up_spec(self.cursor, align) + size <= self.limit
    }
}

impl View for ImmixMutatorLocal {
    type V = ImmixMutatorView;

    closed spec fn view(&self) -> ImmixMutatorView {
        ImmixMutatorView {
            id: self.id,
            space_start: self.space_start@,
            cursor: self.cursor@,
            limit: self.limit@,
            line: self.line as int,
            block: match self.block {
                Some(block) => Some(block@),
                None => None,
            },
        }
    }
}

/// What allocation may do to a space: lines that were free are taken, blocks
/// leave the front of the usable queue, blocks join the end of the used queue,
/// and a collection may be asked for. Nothing else changes.
pub open spec fn space_step(before: ImmixSpaceView, after: ImmixSpaceView) -> bool {
    &&& after == (ImmixSpaceView {
        lines: after.lines,
        usable: after.usable,
        used: after.used,
        gc_requested: after.gc_requested,
        ..before
    })
    &&& after.lines.len() == before.lines.len()
    &&& forall|l: int|
        0 <= l < before.lines.len() ==> #[trigger] after.lines[l] == before.lines[l] || (
        before.lines[l] == LineMark::Free && after.lines[l] == LineMark::FreshAlloc)
    &&& after.usable.len() <= before.usable.len()
    &&& after.usable == before.usable.skip(before.usable.len() - after.usable.len())
    &&& before.used.len() <= after.used.len()
    &&& after.used.take(before.used.len() as int) == before.used
    &&& before.gc_requested ==> after.gc_requested
}

/// Every line that the `size` bytes from `addr` on touch has the mark `mark`.
pub open spec fn lines_marked(
    space: ImmixSpaceView,
    addr: int,
    size: int,
    mark: LineMark,
) -> bool {
    forall|l: int|
        space.line_of(addr) <= l <= space.line_of(addr + size - 1) ==> #[trigger] space.lines[l]
            == mark
}

/// The lines of the region of the mutator `m1`, from the line of `addr` on,
/// were free in the space `s0`.
pub open spec fn region_was_free(s0: ImmixSpaceView, m1: ImmixMutatorView, addr: int) -> bool {
    forall|l: int|
        s0.line_of(addr) <= l < m1.block->0.first_line + m1.line ==> #[trigger] s0.lines[l]
            == LineMark::Free
}

/// The blocks that pass through the hands of a mutator during an allocation,
/// from the mutator `m0` in the space `s0` to the mutator `m1` in the space
/// `s1`: each block that has joined the used blocks, and the block that the
/// mutator holds in the end, is the block that it held at first or was among
/// the usable blocks.
pub open spec fn handed_on(
    m0: ImmixMutatorView,
    s0: ImmixSpaceView,
    m1: ImmixMutatorView,
    s1: ImmixSpaceView,
) -> bool {
    &&& forall|i: int|
        s0.used.len() <= i < s1.used.len() ==> (m0.block is Some && (#[trigger] s1.used[i])
            == m0.block->0.id) || holds(s0.usable, s1.used[i] as int)
    &&& m1.block is Some ==> m1.block == m0.block || holds(s0.usable, m1.block->0.id)
}

/// What an allocation of `size` bytes aligned to `align` comes to, from the
/// mutator `m0` in the space `s0` to the mutator `m1` in the space `s1`.
///
/// An address that is given is not null and a multiple of `align`, and the
/// object lies in the space, in the block that the mutator then holds, and ends at its
/// cursor. The object lies either in the region that the mutator had before,
/// at or above its cursor, or in lines that were free before and are now
/// marked `FreshAlloc`: so it overlaps no object allocated earlier.
///
/// Where no address is given the mutator is reset, having handed back its
/// block, and unless it was asked to yield or blocks are left in the usable
/// queue, a collection has been asked for.
pub open spec fn allocated(
    m0: ImmixMutatorView,
    s0: ImmixSpaceView,
    m1: ImmixMutatorView,
    s1: ImmixSpaceView,
    yielding: bool,
    size: int,
    align: int,
    r: Option<Address>,
) -> bool {
    &&& m1.id == m0.id
    &&& m1.wf(s1)
    &&& s1.wf()
    &&& space_step(s0, s1)
    &&& handed_on(m0, s0, m1, s1)
    &&& match r {
        Some(addr) => {
            &&& addr@ > 0
            &&& addr@ % align == 0
            &&& s1.start <= addr@
            &&& addr@ + size <= s1.end
            &&& m1.block is Some
            &&& m1.block->0.start <= addr@
            &&& m1.cursor == addr@ + size
            &&& lines_marked(s1, addr@, size, LineMark::FreshAlloc)
            &&& {
                ||| m1.block == m0.block && m0.cursor <= addr@ && m1.limit == m0.limit
                ||| region_was_free(s0, m1, addr@)
            }
        },
        None => {
            &&& m1.is_reset()
            &&& !yielding && s1.usable.len() == 0 ==> s1.gc_requested
        },
    }
}

/// What the fast path of an allocation of `size` bytes aligned to `align`
/// comes to, from the mutator `m0` in the space `s0`: the object is put at the
/// cursor, rounded up to a multiple of `align`, the cursor goes to the end of
/// the object, and nothing else changes.
pub open spec fn bumped(
    m0: ImmixMutatorView,
    s0: ImmixSpaceView,
    m1: ImmixMutatorView,
    s1: ImmixSpaceView,
    size: int,
    align: int,
    r: Option<Address>,
) -> bool {
    &&& r == Some(Address::at(align_up_spec(m0.cursor, align)))
    &&& s1 == s0
    &&& m1 == (ImmixMutatorView { cursor: align_up_spec(m0.cursor, align) + size, ..m0 })
}

/// The space `space` once a mutator that held `block` has handed it back.
pub open spec fn with_returned(space: ImmixSpaceView, block: Option<ImmixBlockView>) -> ImmixSpaceView {
    ImmixSpaceView {
        used: match block {
            Some(block) => space.used.push(block.id as usize),
            None => space.used,
        },
        ..space
    }
}

/// The mutator `m` without block and region.
pub open spec fn reset(m: ImmixMutatorView) -> ImmixMutatorView {
    ImmixMutatorView { cursor: 0, limit: 0, line: 256, block: None, ..m }
}

/// The mutator `m` and the space `s` once the lines from `from` up to `to` of
/// the block that the mutator holds have become its region: the lines are
/// marked `FreshAlloc`.
pub open spec fn in_hole(m: ImmixMutatorView, s: ImmixSpaceView, from: int, to: int) -> (
    ImmixMutatorView,
    ImmixSpaceView,
) {
    let block = m.block->0;
    (
        ImmixMutatorView {
            cursor: block.start + from * 256,
            limit: block.start + to * 256,
            line: to,
            ..m
        },
        ImmixSpaceView {
            lines: Seq::new(
                s.lines.len(),
                |l: int|
                    if block.first_line + from <= l < block.first_line + to {
                        LineMark::FreshAlloc
                    } else {
                        s.lines[l]
                    },
            ),
            ..s
        },
    )
}

/// The mutator `m`, which holds no block, and the space `s` once the mutator
/// has taken the block that waited longest: its region is empty and starts
/// with the block.
pub open spec fn in_new_block(m: ImmixMutatorView, s: ImmixSpaceView) -> (
    ImmixMutatorView,
    ImmixSpaceView,
) {
    let id = s.usable[0] as int;
    let block = ImmixBlockView {
        id: id,
        state: crate::heap::immix::BlockMark::Usable,
        start: s.start + id * 65536,
        first_line: id * 256,
        lines: 256,
    };
    (
        ImmixMutatorView {
            cursor: block.start,
            limit: block.start,
            line: 0,
            block: Some(block),
            ..m
        },
        ImmixSpaceView { usable: s.usable.skip(1), ..s },
    )
}

/// The course of an allocation of `size` bytes aligned to `align` by the
/// mutator `m0` in the space `s0`, which ends with the mutator `m1`, the space
/// `s1` and the answer `r`.
///
/// In its first phase (`phase` 2) the allocation takes the fast path if the
/// object fits between the cursor and the limit: the object is put at the
/// cursor, rounded up. Else it goes on in the second phase (`phase` 1): the
/// next run of free lines of the block, from line `line` on, becomes the
/// region, and the allocation starts anew. Where the block has no such run,
/// the third phase (`phase` 0) hands the block back. A mutator that is asked
/// to yield stops there without an address. Any other takes the block that
/// waited longest and starts anew in it; where none waits, a collection is
/// asked for, and where the queue turns the mutator away, nothing more
/// happens: either way the allocation ends without an address.
pub open spec fn allocation(
    m0: ImmixMutatorView,
    s0: ImmixSpaceView,
    yielding: bool,
    size: int,
    align: int,
    m1: ImmixMutatorView,
    s1: ImmixSpaceView,
    r: Option<Address>,
    phase: int,
) -> bool
    decreases s0.usable.len(), 257 - m0.line, phase,
{
    if phase >= 2 {
        if m0.fits(size, align) {
            bumped(m0, s0, m1, s1, size, align, r)
        } else {
            allocation(m0, s0, yielding, size, align, m1, s1, r, 1)
        }
    } else if phase == 1 {
        if m0.block is Some && 0 <= m0.line < 256 {
            let first = m0.block->0.first_line;
            let marks = s0.lines.subrange(first, first + 256);
            let from = next_free(marks, m0.line, 256);
            let to = next_taken(marks, from, 256);
            if m0.line <= from < to <= 256 {
                allocation(
                    in_hole(m0, s0, from, to).0,
                    in_hole(m0, s0, from, to).1,
                    yielding,
                    size,
                    align,
                    m1,
                    s1,
                    r,
                    2,
                )
            } else {
                allocation(m0, s0, yielding, size, align, m1, s1, r, 0)
            }
        } else {
            allocation(m0, s0, yielding, size, align, m1, s1, r, 0)
        }
    } else {
        let sr = with_returned(s0, m0.block);
        let mr = reset(m0);
        if yielding {
            r is None && m1 == mr && s1 == sr
        } else if sr.usable.len() == 0 {
            r is None && m1 == mr && s1 == (ImmixSpaceView { gc_requested: true, ..sr })
        } else {
            ||| r is None && m1 == mr && s1 == sr
            ||| allocation(
                in_new_block(mr, sr).0,
                in_new_block(mr, sr).1,
                yielding,
                size,
                align,
                m1,
                s1,
                r,
                2,
            )
        }
    }
}

/// What a yieldpoint of the mutator with the number `id` comes to, which held
/// `block` and found `words` on its stack and in its registers.
///
/// If the space has asked for a collection, every registered mutator is first
/// asked to yield. A mutator that is not asked to yield goes on. Any other
/// comes to the barrier.
pub open spec fn yielded(
    s0: ImmixSpaceView,
    c0: CoordinatorView,
    l0: FreeListSpaceView,
    block: Option<ImmixBlockView>,
    id: (usize, u64),
    words: Seq<usize>,
    s1: ImmixSpaceView,
    c1: CoordinatorView,
    l1: FreeListSpaceView,
    r: Option<BarrierOutcome>,
) -> bool {
    let sr = ImmixSpaceView { gc_requested: false, ..s0 };
    let cr = if s0.gc_requested {
        CoordinatorView { mutators: all_yielding(c0.mutators), ..c0 }
    } else {
        c0
    };
    match r {
        None => !cr.asked_to_yield(id) && s1 == sr && c1 == cr && l1 == l0,
        Some(outcome) => cr.asked_to_yield(id) && arrived(
            sr,
            cr,
            l0,
            block,
            id,
            words,
            s1,
            c1,
            l1,
            outcome,
        ),
    }
}

/// The slow path takes the next run of free lines of the block that the
/// mutator holds: where the block has a free line from line `line` on, and the
/// object fits into the run of free lines that starts there, the object is put
/// at the start of the run, rounded up; the lines of the run are marked
/// `FreshAlloc` and no other line changes; the run is the region of the
/// mutator, which still holds the block.
pub proof fn lemma_next_hole_taken(
    m0: ImmixMutatorView,
    s0: ImmixSpaceView,
    yielding: bool,
    size: int,
    align: int,
    m1: ImmixMutatorView,
    s1: ImmixSpaceView,
    r: Option<Address>,
) -> (hole: (int, int))
    requires
        s0.wf(),
        m0.wf(s0),
        m0.block is Some,
        0 <= m0.line < 256,
        allocation(m0, s0, yielding, size, align, m1, s1, r, 1),
        ({
            let first = m0.block->0.first_line;
            let marks = s0.lines.subrange(first, first + 256);
            let from = next_free(marks, m0.line, 256);
            let to = next_taken(marks, from, 256);
            from < 256 && in_hole(m0, s0, from, to).0.fits(size, align)
        }),
    ensures
        ({
            let first = m0.block->0.first_line;
            let marks = s0.lines.subrange(first, first + 256);
            hole.0 == next_free(marks, m0.line, 256) && hole.1 == next_taken(marks, hole.0, 256)
        }),
        m0.line <= hole.0 < hole.1 <= 256,
        bumped(
            in_hole(m0, s0, hole.0, hole.1).0,
            in_hole(m0, s0, hole.0, hole.1).1,
            m1,
            s1,
            size,
            align,
            r,
        ),
        r == Some(Address::at(align_up_spec(m0.block->0.start + 256 * hole.0, align))),
        m1.block == m0.block,
        m1.line == hole.1,
        m1.limit == m0.block->0.start + 256 * hole.1,
        m1.cursor == align_up_spec(m0.block->0.start + 256 * hole.0, align) + size,
        forall|l: int|
            0 <= l < s0.lines.len() ==> #[trigger] s1.lines[l] == (if m0.block->0.first_line
                + hole.0 <= l < m0.block->0.first_line + hole.1 {
                LineMark::FreshAlloc
            } else {
                s0.lines[l]
            }),
{
    let first = m0.block->0.first_line;
    let marks = s0.lines.subrange(first, first + 256);
    let from = next_free(marks, m0.line, 256);
    let to = next_taken(marks, from, 256);
    s0.lemma_layout();
    lemma_next_free(marks, m0.line, 256);
    lemma_next_taken(marks, from, 256);
    reveal_with_fuel(allocation, 3);
    (from, to)
}

/// A space steps to itself.
pub proof fn lemma_space_step_refl(space: ImmixSpaceView)
    ensures
        space_step(space, space),
{
    assert(space.usable.skip(0) =~= space.usable);
    assert(space.used.take(space.used.len() as int) =~= space.used);
}

/// Two steps of a space one after the other are a step.
pub proof fn lemma_space_step_trans(a: ImmixSpaceView, b: ImmixSpaceView, c: ImmixSpaceView)
    requires
        space_step(a, b),
        space_step(b, c),
    ensures
        space_step(a, c),
{
    assert(c.usable =~= a.usable.skip(a.usable.len() - c.usable.len()));
    assert(c.used.take(a.used.len() as int) =~= a.used) by {
        assert forall|i: int| 0 <= i < a.used.len() implies c.used.take(a.used.len() as int)[i]
            == a.used[i] by {
            assert(c.used.take(b.used.len() as int)[i] == b.used[i]);
            assert(b.used.take(a.used.len() as int)[i] == a.used[i]);
        }
    }
    assert forall|l: int| 0 <= l < a.lines.len() implies #[trigger] c.lines[l] == a.lines[l] || (
    a.lines[l] == LineMark::Free && c.lines[l] == LineMark::FreshAlloc) by {
        assert(b.lines[l] == a.lines[l] || (a.lines[l] == LineMark::Free && b.lines[l]
            == LineMark::FreshAlloc));
        assert(c.lines[l] == b.lines[l] || (b.lines[l] == LineMark::Free && c.lines[l]
            == LineMark::FreshAlloc));
    }
}

impl ImmixMutatorLocal {
    /// Registers a mutator with the collector. It holds no block yet.
    pub fn new(gc: &mut ImmixGC) -> (r: ImmixMutatorLocal)
        requires
            old(gc).wf(),
        ensures
            final(gc).wf(),
            final(gc).space == old(gc).space,
            final(gc).lo_space == old(gc).lo_space,
            r@.is_reset(),
            r@.wf(final(gc).space@),
            !old(gc).coordinator@.mutators.contains_key(r@.id),
            final(gc).coordinator@ == (CoordinatorView {
                mutators: old(gc).coordinator@.mutators.insert(r@.id, (false, false)),
                ..old(gc).coordinator@
            }),
            final(gc).coordinator@.mutators.dom().len() == old(gc).coordinator@.mutators.dom().len()
                + 1,
    {
        let id = gc.coordinator.add_mutator();
        ImmixMutatorLocal {
            id,
            space_start: gc.space.start(),
            cursor: Address::null(),
            limit: Address::null(),
            line: LINES_IN_BLOCK,
            block: None,
        }
    }

    /// The number under which the mutator is registered.
    pub fn id(&self) -> (r: (usize, u64))
        ensures
            r == self@.id,
    {
        self.id
    }

    /// Forgets the region and the block of the mutator, so that the next
    /// allocation takes the slow path. A block that the mutator still holds is
    /// lost to the space: hand it back first, with `prepare_for_gc`.
    pub fn reset(&mut self)
        ensures
            final(self)@.is_reset(),
            final(self)@.id == old(self)@.id,
            final(self)@.space_start == old(self)@.space_start,
    {
        self.cursor = Address::null();
        self.limit = Address::null();
        self.line = LINES_IN_BLOCK;
        self.block = None;
    }

    /// Hands the block of the mutator, if it holds one, back to the space, and
    /// resets the mutator.
    fn return_block(&mut self, gc: &mut ImmixGC)
        requires
            old(gc).wf(),
            old(self)@.wf(old(gc).space@),
        ensures
            final(gc).wf(),
            final(gc).lo_space == old(gc).lo_space,
            final(gc).coordinator == old(gc).coordinator,
            final(self)@.is_reset(),
            final(self)@.id == old(self)@.id,
            final(self)@.wf(final(gc).space@),
            final(gc).space@ == (ImmixSpaceView {
                used: match old(self)@.block {
                    Some(block) => old(gc).space@.used.push(block.id as usize),
                    None => old(gc).space@.used,
                },
                ..old(gc).space@
            }),
            space_step(old(gc).space@, final(gc).space@),
    {
        broadcast use ImmixSpace::lemma_wf;

        let ghost before = gc.space@;
        match self.block.take() {
            Some(block) => {
                gc.space.return_used_block(block);
                proof {
                    assert(gc.space@.usable.skip(0) =~= before.usable);
                    assert(gc.space@.used.take(before.used.len() as int) =~= before.used);
                }
            },
            None => {
                proof {
                    lemma_space_step_refl(before);
                }
            },
        }
        self.cursor = Address::null();
        self.limit = Address::null();
        self.line = LINES_IN_BLOCK;
    }

    /// Gets the mutator ready for a collection: it hands back its block.
    pub fn prepare_for_gc(&mut self, gc: &mut ImmixGC)
        requires
            old(gc).wf(),
            old(self)@.wf(old(gc).space@),
        ensures
            final(gc).wf(),
            final(gc).lo_space == old(gc).lo_space,
            final(gc).coordinator == old(gc).coordinator,
            final(self)@.is_reset(),
            final(self)@.id == old(self)@.id,
            final(self)@.wf(final(gc).space@),
            final(gc).space@ == (ImmixSpaceView {
                used: match old(self)@.block {
                    Some(block) => old(gc).space@.used.push(block.id as usize),
                    None => old(gc).space@.used,
                },
                ..old(gc).space@
            }),
    {
        self.return_block(gc);
    }

    /// Ends the mutator: it hands back its block and leaves the register.
    pub fn destroy(&mut self, gc: &mut ImmixGC)
        requires
            old(gc).wf(),
            old(self)@.wf(old(gc).space@),
        ensures
            final(gc).wf(),
            final(gc).lo_space == old(gc).lo_space,
            final(self)@.is_reset(),
            final(self)@.id == old(self)@.id,
            final(gc).space@ == (ImmixSpaceView {
                used: match old(self)@.block {
                    Some(block) => old(gc).space@.used.push(block.id as usize),
                    None => old(gc).space@.used,
                },
                ..old(gc).space@
            }),
            final(gc).coordinator@ == (CoordinatorView {
                mutators: old(gc).coordinator@.mutators.remove(old(self)@.id),
                ..old(gc).coordinator@
            }),
            old(gc).coordinator@.mutators.contains_key(old(self)@.id)
                ==> final(gc).coordinator@.mutators.dom().len() + 1
                == old(gc).coordinator@.mutators.dom().len(),
    {
        self.return_block(gc);
        gc.coordinator.remove_mutator(self.id);
    }

    /// Writes `encode` to the byte of the alloc map for `addr`: an object with
    /// that encoding starts there.
    pub fn init_object(&mut self, gc: &mut ImmixGC, addr: Address, encode: u8)
        requires
            old(gc).wf(),
            old(gc).space@.contains(addr@),
        ensures
            *final(self) == *old(self),
            final(gc).wf(),
            final(gc).lo_space == old(gc).lo_space,
            final(gc).coordinator == old(gc).coordinator,
            final(gc).space@ == (ImmixSpaceView {
                alloc_map: old(gc).space@.alloc_map.update(
                    old(gc).space@.word_of(addr@),
                    encode,
                ),
                ..old(gc).space@
            }),
            final(gc).space@.alloc_map[final(gc).space@.word_of(addr@)] == encode,
            crate::objectmodel::is_object_start(encode) ==> crate::objectmodel::is_object_start(
                final(gc).space@.alloc_map[final(gc).space@.word_of(addr@)],
            ),
    {
        broadcast use ImmixSpace::lemma_wf;

        gc.space.set_ref_byte(addr, encode);
    }

    /// As `init_object`.
    pub fn init_object_no_inline(&mut self, gc: &mut ImmixGC, addr: Address, encode: u8)
        requires
            old(gc).wf(),
            old(gc).space@.contains(addr@),
        ensures
            *final(self) == *old(self),
            final(gc).wf(),
            final(gc).lo_space == old(gc).lo_space,
            final(gc).coordinator == old(gc).coordinator,
            final(gc).space@ == (ImmixSpaceView {
                alloc_map: old(gc).space@.alloc_map.update(
                    old(gc).space@.word_of(addr@),
                    encode,
                ),
                ..old(gc).space@
            }),
    {
        self.init_object(gc, addr, encode);
    }

    /// The point at which the mutator can be stopped for a collection. If the
    /// space has asked for a collection, every registered mutator is first
    /// asked to yield. The answer is `None` where this mutator is not asked to
    /// yield; else it comes to the barrier, with the words `words` that it
    /// found on its stack and in its registers, and the answer is what came of
    /// that.
    pub fn yieldpoint(&mut self, gc: &mut ImmixGC, words: &Vec<usize>) -> (r: Option<
        BarrierOutcome,
    >)
        requires
            old(gc).wf(),
            old(self)@.wf(old(gc).space@),
        ensures
            final(gc).wf(),
            final(self)@.wf(final(gc).space@),
            final(self)@.id == old(self)@.id,
            r is None || r == Some(BarrierOutcome::NotRegistered) ==> final(self)@ == old(self)@,
            r is Some && r != Some(BarrierOutcome::NotRegistered) ==> final(self)@.is_reset(),
            yielded(
                old(gc).space@,
                old(gc).coordinator@,
                old(gc).lo_space@,
                old(self)@.block,
                old(self)@.id,
                words@,
                final(gc).space@,
                final(gc).coordinator@,
                final(gc).lo_space@,
                r,
            ),
    {
        if gc.space.take_gc_request() {
            gc.trigger_gc();
        }
        if gc.coordinator.take_yield(self.id) {
            Some(self.yieldpoint_slow(gc, words))
        } else {
            None
        }
    }

    /// Brings the mutator to the barrier of a collection, with the words
    /// `words` that it found on its stack and in its registers.
    pub fn yieldpoint_slow(&mut self, gc: &mut ImmixGC, words: &Vec<usize>) -> (r: BarrierOutcome)
        requires
            old(gc).wf(),
            old(self)@.wf(old(gc).space@),
        ensures
            final(gc).wf(),
            final(self)@.wf(final(gc).space@),
            final(self)@.id == old(self)@.id,
            r == BarrierOutcome::NotRegistered ==> final(self)@ == old(self)@,
            r != BarrierOutcome::NotRegistered ==> final(self)@.is_reset(),
            arrived(
                old(gc).space@,
                old(gc).coordinator@,
                old(gc).lo_space@,
                old(self)@.block,
                old(self)@.id,
                words@,
                final(gc).space@,
                final(gc).coordinator@,
                final(gc).lo_space@,
                r,
            ),
    {
        sync_barrier(gc, self, words)
    }

    /// Asks for a collection and comes to the barrier: every registered
    /// mutator is asked to yield, and this one, if it is registered, yields at
    /// once.
    pub fn request_gc(&mut self, gc: &mut ImmixGC, words: &Vec<usize>) -> (r: Option<
        BarrierOutcome,
    >)
        requires
            old(gc).wf(),
            old(self)@.wf(old(gc).space@),
        ensures
            final(gc).wf(),
            final(self)@.wf(final(gc).space@),
            final(self)@.id == old(self)@.id,
            r is Some <==> old(gc).coordinator@.mutators.contains_key(old(self)@.id),
            yielded(
                old(gc).space@,
                (CoordinatorView {
                    mutators: all_yielding(old(gc).coordinator@.mutators),
                    ..old(gc).coordinator@
                }),
                old(gc).lo_space@,
                old(self)@.block,
                old(self)@.id,
                words@,
                final(gc).space@,
                final(gc).coordinator@,
                final(gc).lo_space@,
                r,
            ),
    {
        gc.trigger_gc();
        proof {
            let marked = all_yielding(old(gc).coordinator@.mutators);
            assert(all_yielding(marked) =~= marked);
        }
        self.yieldpoint(gc, words)
    }

    /// Allocates `size` bytes aligned to `align`. The object is put at the
    /// cursor if it fits below the limit. Otherwise the next run of free lines
    /// in the block is taken, then the next usable block of the space, until
    /// the object fits. The answer is `None` where the mutator has to yield
    /// first: it was asked to, or the space gave no block.
    pub fn allocate(&mut self, gc: &mut ImmixGC, size: usize, align: usize) -> (r: Option<Address>)
        requires
            old(gc).wf(),
            old(self)@.wf(old(gc).space@),
            size > 0,
            align > 0,
        ensures
            final(gc).wf(),
            final(gc).lo_space == old(gc).lo_space,
            final(gc).coordinator == old(gc).coordinator,
            allocated(
                old(self)@,
                old(gc).space@,
                final(self)@,
                final(gc).space@,
                old(gc).coordinator@.asked_to_yield(old(self)@.id),
                size as int,
                align as int,
                r,
            ),
            allocation(
                old(self)@,
                old(gc).space@,
                old(gc).coordinator@.asked_to_yield(old(self)@.id),
                size as int,
                align as int,
                final(self)@,
                final(gc).space@,
                r,
                2,
            ),
            old(self)@.fits(size as int, align as int) ==> bumped(
                old(self)@,
                old(gc).space@,
                final(self)@,
                final(gc).space@,
                size as int,
                align as int,
                r,
            ),
        decreases old(gc).space@.usable.len(), 257 - old(self)@.line, 2int,
    {
        broadcast use ImmixSpace::lemma_wf;

        proof {
            lemma_align_up(self.cursor@, align as int);
            Address::lemma_view(self.cursor);
            Address::lemma_view(self.limit);
            lemma_space_step_refl(gc.space@);
        }
        let cursor = self.cursor.as_usize();
        let limit = self.limit.as_usize();
        let rem = cursor % align;
        let pad = if rem == 0 { 0 } else { align - rem };
        if pad <= limit - cursor && size <= limit - cursor - pad {
            let start = self.cursor.plus(pad);
            self.cursor = start.plus(size);
            proof {
                Address::lemma_view(start);
                assert(self@.block == old(self)@.block);
            }
            Some(start)
        } else {
            self.try_alloc_from_local(gc, size, align)
        }
    }

    /// Allocates `size` bytes aligned to `align` on the slow path, whatever
    /// room the region still has: the next run of free lines in the block,
    /// from line `line` on, becomes the region for allocation and its lines
    /// are marked `FreshAlloc`; where the block has no free line left, a block
    /// is asked of the space.
    pub fn try_alloc_from_local(&mut self, gc: &mut ImmixGC, size: usize, align: usize) -> (r:
        Option<Address>)
        requires
            old(gc).wf(),
            old(self)@.wf(old(gc).space@),
            size > 0,
            align > 0,
        ensures
            final(gc).wf(),
            final(gc).lo_space == old(gc).lo_space,
            final(gc).coordinator == old(gc).coordinator,
            allocated(
                old(self)@,
                old(gc).space@,
                final(self)@,
                final(gc).space@,
                old(gc).coordinator@.asked_to_yield(old(self)@.id),
                size as int,
                align as int,
                r,
            ),
            allocation(
                old(self)@,
                old(gc).space@,
                old(gc).coordinator@.asked_to_yield(old(self)@.id),
                size as int,
                align as int,
                final(self)@,
                final(gc).space@,
                r,
                1,
            ),
        decreases old(gc).space@.usable.len(), 257 - old(self)@.line, 1int,
    {
        broadcast use ImmixSpace::lemma_wf;

        let ghost s0 = gc.space@;
        let ghost m0 = self@;
        if self.line < LINES_IN_BLOCK {
            let found = match &self.block {
                Some(block) => {
                    proof {
                        block.lemma_lines();
                    }
                    let table = gc.space.line_mark_table();
                    match block.get_next_available_line(table, self.line) {
                        Some(next_available_line) => {
                            let end_line = block.get_next_unavailable_line(
                                table,
                                next_available_line,
                            );
                            proof {
                                let marks = block.slice().marks(table@);
                                lemma_next_free(marks, self.line as int, 256);
                                lemma_next_taken(marks, next_available_line as int, 256);
                                assert(marks[next_available_line as int] == LineMark::Free);
                            }
                            Some((next_available_line, end_line, block.start()))
                        },
                        None => None,
                    }
                },
                None => None,
            };
            match found {
                Some((next_available_line, end_line, block_start)) => {
                    let ghost block = m0.block->0;
                    let ghost marks = s0.lines.subrange(block.first_line, block.first_line + 256);
                    assert(next_available_line == next_free(marks, m0.line, 256));
                    assert(end_line == next_taken(marks, next_available_line as int, 256));
                    assert(m0.line <= next_available_line < end_line <= 256);
                    assert(forall|i: int|
                        next_available_line <= i < end_line ==> marks[i] == LineMark::Free);
                    self.cursor = block_start.plus(next_available_line * BYTES_IN_LINE);
                    self.limit = block_start.plus(end_line * BYTES_IN_LINE);
                    self.line = end_line;
                    let mut line = next_available_line;
                    while line < end_line
                        invariant
                            next_available_line <= line <= end_line <= 256,
                            gc.wf(),
                            gc.lo_space == old(gc).lo_space,
                            gc.coordinator == old(gc).coordinator,
                            s0 == old(gc).space@,
                            s0.wf(),
                            s0.has_block(block),
                            self@ == (ImmixMutatorView {
                                cursor: block.start + next_available_line * 256,
                                limit: block.start + end_line * 256,
                                line: end_line as int,
                                ..m0
                            }),
                            m0.block == Some(block),
                            marks == s0.lines.subrange(block.first_line, block.first_line + 256),
                            forall|i: int|
                                next_available_line <= i < end_line ==> marks[i] == LineMark::Free,
                            gc.space@ == (ImmixSpaceView { lines: gc.space@.lines, ..s0 }),
                            gc.space@.lines.len() == s0.lines.len(),
                            forall|l: int|
                                0 <= l < s0.lines.len() ==> #[trigger] gc.space@.lines[l] == (if
                                    block.first_line + next_available_line <= l
                                    < block.first_line + line {
                                    LineMark::FreshAlloc
                                } else {
                                    s0.lines[l]
                                }),
                        decreases end_line - line,
                    {
                        match &self.block {
                            Some(block) => {
                                gc.space.set_line_mark(block, line, LineMark::FreshAlloc);
                            },
                            None => {},
                        }
                        line += 1;
                    }
                    let ghost s1 = gc.space@;
                    let ghost m1 = self@;
                    proof {
                        assert(s1.usable.skip(0) =~= s0.usable);
                        assert(s1.used.take(s0.used.len() as int) =~= s0.used);
                        assert forall|l: int| 0 <= l < s0.lines.len() implies #[trigger] s1.lines[l]
                            == s0.lines[l] || (s0.lines[l] == LineMark::Free && s1.lines[l]
                            == LineMark::FreshAlloc) by {
                            if block.first_line + next_available_line <= l < block.first_line
                                + end_line {
                                assert(marks[l - block.first_line] == LineMark::Free);
                            }
                        }
                        assert(space_step(s0, s1));
                        let hole = in_hole(m0, s0, next_available_line as int, end_line as int);
                        assert(s1.lines =~= hole.1.lines);
                        assert(m1 == hole.0 && s1 == hole.1);
                    }
                    let r = self.allocate(gc, size, align);
                    proof {
                        let s2 = gc.space@;
                        let m2 = self@;
                        lemma_space_step_trans(s0, s1, s2);
                        match r {
                            Some(addr) => {
                                s0.lemma_layout();
                                assert forall|l: int|
                                    s0.line_of(addr@) <= l < m2.block->0.first_line
                                        + m2.line implies #[trigger] s0.lines[l]
                                    == LineMark::Free by {
                                    if m2.block == m1.block && m1.cursor <= addr@ && m2.limit
                                        == m1.limit {
                                        // The object lies in the run of lines
                                        // that was taken for it.
                                        assert(m2.line == end_line);
                                        assert(block.first_line + next_available_line <= l);
                                        assert(marks[l - block.first_line] == LineMark::Free);
                                    } else {
                                        assert(region_was_free(s1, m2, addr@));
                                        assert(s1.lines[l] == LineMark::Free);
                                    }
                                }
                            },
                            None => {},
                        }
                    }
                    r
                },
                None => self.alloc_from_global(gc, size, align),
            }
        } else {
            self.alloc_from_global(gc, size, align)
        }
    }

    /// Allocates `size` bytes aligned to `align` in a new block: the block of
    /// the mutator goes back to the space, and unless the mutator was asked to
    /// yield, the next usable block is taken and allocation goes on in it.
    fn alloc_from_global(&mut self, gc: &mut ImmixGC, size: usize, align: usize) -> (r: Option<
        Address,
    >)
        requires
            old(gc).wf(),
            old(self)@.wf(old(gc).space@),
            size > 0,
            align > 0,
        ensures
            final(gc).wf(),
            final(gc).lo_space == old(gc).lo_space,
            final(gc).coordinator == old(gc).coordinator,
            allocated(
                old(self)@,
                old(gc).space@,
                final(self)@,
                final(gc).space@,
                old(gc).coordinator@.asked_to_yield(old(self)@.id),
                size as int,
                align as int,
                r,
            ),
            allocation(
                old(self)@,
                old(gc).space@,
                old(gc).coordinator@.asked_to_yield(old(self)@.id),
                size as int,
                align as int,
                final(self)@,
                final(gc).space@,
                r,
                0,
            ),
        decreases old(gc).space@.usable.len(), 0int, 0int,
    {
        broadcast use ImmixSpace::lemma_wf;

        let ghost s0 = gc.space@;
        self.return_block(gc);
        let ghost s1 = gc.space@;
        if gc.coordinator.take_yield(self.id) {
            return None;
        }
        match gc.space.get_next_usable_block() {
            Some(block) => {
                let ghost s2 = gc.space@;
                proof {
                    assert(s2.usable =~= s1.usable.skip(s1.usable.len() - s2.usable.len()));
                    assert(s2.used.take(s1.used.len() as int) =~= s1.used);
                    assert(space_step(s1, s2));
                    lemma_space_step_trans(s0, s1, s2);
                }
                self.cursor = block.start();
                self.limit = block.start();
                self.line = 0;
                self.block = Some(block);
                let ghost m2 = self@;
                let r = self.allocate(gc, size, align);
                proof {
                    let s3 = gc.space@;
                    lemma_space_step_trans(s0, s2, s3);
                    let m0 = old(self)@;
                    let taken = s0.usable[0];
                    assert(holds(s0.usable, taken as int));
                    assert forall|i: int| s0.used.len() <= i < s3.used.len() implies (m0.block
                        is Some && (#[trigger] s3.used[i]) == m0.block->0.id) || holds(
                        s0.usable,
                        s3.used[i] as int,
                    ) by {
                        if i < s2.used.len() {
                            assert(s3.used.take(s2.used.len() as int)[i] == s3.used[i]);
                        } else if s3.used[i] != taken {
                            let k = choose|k: int|
                                0 <= k < s2.usable.len() && #[trigger] s2.usable[k]
                                    == s3.used[i] as int;
                            assert(s0.usable[k + 1] == s3.used[i]);
                        }
                    }
                    if self@.block is Some && self@.block != m2.block {
                        let k = choose|k: int|
                            0 <= k < s2.usable.len() && #[trigger] s2.usable[k]
                                == self@.block->0.id;
                        assert(s0.usable[k + 1] == self@.block->0.id);
                    }
                    match r {
                        Some(addr) => {
                            // A new block starts with an empty region, so the
                            // object lies in lines that were taken for it.
                            if self@.block == m2.block && m2.cursor <= addr@ && self@.limit
                                == m2.limit {
                                assert(false);
                            }
                            assert forall|l: int|
                                s0.line_of(addr@) <= l <= s0.line_of(
                                    addr@ + size - 1,
                                ) implies #[trigger] s0.lines[l] == LineMark::Free by {
                                assert(s2.lines[l] == LineMark::Free);
                            }
                        },
                        None => {},
                    }
                }
                r
            },
            None => {
                let ghost s2 = gc.space@;
                proof {
                    assert(s2.usable.skip(0) =~= s1.usable);
                    assert(s2.used.take(s1.used.len() as int) =~= s1.used);
                    assert(space_step(s1, s2));
                    lemma_space_step_trans(s0, s1, s2);
                }
                None
            },
        }
    }
}

/// The `size` bytes from `addr` on lie in the space, in lines none of which
/// is free.
pub open spec fn in_taken_lines(space: ImmixSpaceView, addr: int, size: int) -> bool {
    &&& space.start <= addr
    &&& addr + size <= space.end
    &&& forall|l: int|
        space.line_of(addr) <= l <= space.line_of(addr + size - 1) ==> #[trigger] space.lines[l]
            != LineMark::Free
}

/// An allocation overlaps no object that lies in lines that are not free and
/// outside the region of the mutator: an object allocated earlier, by this
/// mutator or another, or a live object that a collection has kept. After the
/// allocation the same holds of that object still, and the new object lies in
/// lines that are not free and below the cursor of the mutator.
pub proof fn lemma_allocation_apart(
    m0: ImmixMutatorView,
    s0: ImmixSpaceView,
    m1: ImmixMutatorView,
    s1: ImmixSpaceView,
    yielding: bool,
    size: int,
    align: int,
    addr: Address,
    other: int,
    other_size: int,
)
    requires
        s0.wf(),
        m0.wf(s0),
        size > 0,
        other_size > 0,
        allocated(m0, s0, m1, s1, yielding, size, align, Some(addr)),
        in_taken_lines(s0, other, other_size),
        m0.region_spares(other, other_size),
    ensures
        addr@ + size <= other || other + other_size <= addr@,
        in_taken_lines(s1, other, other_size),
        m1.region_spares(other, other_size),
        in_taken_lines(s1, addr@, size),
        m1.region_spares(addr@, size),
{
    s0.lemma_layout();
    let block = m1.block->0;
    let first = s0.line_of(other);
    let last = s0.line_of(other + other_size - 1);
    assert forall|l: int| first <= l <= last implies #[trigger] s1.lines[l] != LineMark::Free by {
        assert(s0.lines[l] != LineMark::Free);
        assert(s1.lines[l] == s0.lines[l] || (s0.lines[l] == LineMark::Free && s1.lines[l]
            == LineMark::FreshAlloc));
    }
    assert forall|l: int|
        s1.line_of(addr@) <= l <= s1.line_of(addr@ + size - 1) implies #[trigger] s1.lines[l]
        != LineMark::Free by {
        assert(s1.lines[l] == LineMark::FreshAlloc);
    }
    if !(m1.block == m0.block && m0.cursor <= addr@ && m1.limit == m0.limit) {
        // The region is new: its lines were free, those of the other object
        // were not, so the other object lies below the new object or above
        // the region.
        assert(region_was_free(s0, m1, addr@));
        let from = s0.line_of(addr@);
        let to = block.first_line + m1.line;
        if first < to && from <= last {
            let l = if first >= from {
                first
            } else {
                from
            };
            assert(s0.lines[l] == LineMark::Free);
            assert(s0.lines[l] != LineMark::Free);
        }
    }
}

/// An allocation by one mutator leaves another mutator of the same space as
/// it was: the other mutator still belongs to the space, and the two hold
/// different blocks.
pub proof fn lemma_allocation_spares_mutator(
    m0: ImmixMutatorView,
    s0: ImmixSpaceView,
    m1: ImmixMutatorView,
    s1: ImmixSpaceView,
    yielding: bool,
    size: int,
    align: int,
    r: Option<Address>,
    other: ImmixMutatorView,
)
    requires
        s0.wf(),
        m0.wf(s0),
        other.wf(s0),
        allocated(m0, s0, m1, s1, yielding, size, align, r),
        m0.block is Some && other.block is Some ==> m0.block->0.id != other.block->0.id,
    ensures
        other.wf(s1),
        m1.block is Some && other.block is Some ==> m1.block->0.id != other.block->0.id,
{
    if other.block is Some {
        let id = other.block->0.id;
        assert(!holds(s0.usable, id));
        assert forall|i: int| 0 <= i < s1.usable.len() implies s1.usable[i] != id by {
            assert(s1.usable[i] == s0.usable[s0.usable.len() - s1.usable.len() + i]);
        }
        assert forall|i: int| 0 <= i < s1.used.len() implies s1.used[i] != id by {
            if i < s0.used.len() {
                assert(s1.used.take(s0.used.len() as int)[i] == s1.used[i]);
            } else {
                assert((m0.block is Some && s1.used[i] == m0.block->0.id) || holds(
                    s0.usable,
                    s1.used[i] as int,
                ));
            }
        }
        let block = other.block->0;
        assert forall|l: int|
            block.first_line + (other.cursor - block.start) / 256 <= l < block.first_line
                + other.line implies #[trigger] s1.lines[l] == LineMark::FreshAlloc by {
            s0.lemma_layout();
            assert(s0.lines[l] == LineMark::FreshAlloc);
            assert(s1.lines[l] == s0.lines[l] || (s0.lines[l] == LineMark::Free && s1.lines[l]
                == LineMark::FreshAlloc));
        }
    }
}

} // verus!
