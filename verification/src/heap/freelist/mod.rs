//! The large-object space: objects too large for a block, each in memory of
//! its own, kept in a list and swept by their marks.
use crate::common::Address;
use crate::heap::immix::ImmixMutatorLocal;
use crate::heap::{all_yielding, CoordinatorView, ImmixGC};
use vstd::prelude::*;

verus! {

/// What is known of a large object.
#[derive(PartialEq, Eq, Structural, Copy, Clone, Debug)]
pub enum NodeMark {
    /// The object was allocated since the last sweep.
    FreshAlloc,
    /// The object was live at the sweep before last and has not been traced
    /// since.
    PrevLive,
    /// The object has been traced since the last sweep.
    Live,
}

/// `align` is a power of two: exactly one of its bits is set.
pub open spec fn is_power_of_two(align: usize) -> bool {
    align != 0 && align & ((align - 1) as usize) == 0
}

/// A large object of `size` bytes aligned to `align` can be asked for: `align`
/// is a power of two, and `size` rounded up to a multiple of it is no more
/// than the largest size of an object.
pub open spec fn valid_layout(size: usize, align: usize) -> bool {
    is_power_of_two(align) && size + align - 1 <= isize::MAX
}

/// A large object.
pub struct FreeListNode {
    id: usize,
    start: Address,
    size: usize,
    align: usize,
    mark: NodeMark,
    memory: Vec<u8>,
}

/// What a large object is.
pub ghost struct FreeListNodeView {
    /// The number of the object, counted over all that the space has made.
    pub id: int,
    /// The address of its first byte.
    pub start: int,
    /// Its size in bytes.
    pub size: int,
    /// Its alignment.
    pub align: int,
    /// The number of bytes of the memory, its own, in which it lies.
    pub buffer: int,
    /// Its mark.
    pub mark: NodeMark,
}

impl View for FreeListNode {
    type V = FreeListNodeView;

    closed spec fn view(&self) -> FreeListNodeView {
        FreeListNodeView {
            id: self.id as int,
            start: self.start@,
            size: self.size as int,
            align: self.align as int,
            buffer: self.memory@.len() as int,
            mark: self.mark,
        }
    }
}

impl FreeListNode {
    /// Gives the object the mark `mark`.
    pub fn set_mark(&mut self, mark: NodeMark)
        ensures
            final(self)@ == (FreeListNodeView { mark: mark, ..old(self)@ }),
    {
        self.mark = mark;
    }

    /// The mark of the object.
    pub fn mark(&self) -> (r: NodeMark)
        ensures
            r == self@.mark,
    {
        self.mark
    }

    /// The address of the first byte of the object.
    pub fn start(&self) -> (r: Address)
        ensures
            r@ == self@.start,
    {
        self.start
    }

    /// The size of the object in bytes.
    pub fn size(&self) -> (r: usize)
        ensures
            r == self@.size,
    {
        self.size
    }
}

/// The sum of the sizes of the objects `nodes`.
pub open spec fn total_size(nodes: Seq<FreeListNodeView>) -> int
    decreases nodes.len(),
{
    if nodes.len() == 0 {
        0
    } else {
        total_size(nodes.drop_last()) + nodes.last().size
    }
}

/// The objects of `nodes` that a sweep keeps: those marked `Live`, in their
/// order, each now marked `PrevLive`.
pub open spec fn survivors(nodes: Seq<FreeListNodeView>) -> Seq<FreeListNodeView>
    decreases nodes.len(),
{
    if nodes.len() == 0 {
        nodes
    } else if nodes.last().mark == NodeMark::Live {
        survivors(nodes.drop_last()).push(
            FreeListNodeView { mark: NodeMark::PrevLive, ..nodes.last() },
        )
    } else {
        survivors(nodes.drop_last())
    }
}

/// The objects `nodes` once every one of them that starts at `addr` is marked
/// `Live`.
pub open spec fn marked_at(nodes: Seq<FreeListNodeView>, addr: int) -> Seq<FreeListNodeView> {
    Seq::new(
        nodes.len(),
        |i: int|
            if nodes[i].start == addr {
                FreeListNodeView { mark: NodeMark::Live, ..nodes[i] }
            } else {
                nodes[i]
            },
    )
}

/// What a large-object space is.
pub ghost struct FreeListSpaceView {
    /// The objects of the space, the one allocated last first.
    pub nodes: Seq<FreeListNodeView>,
    /// The number that the next object gets.
    pub node_id: int,
    /// The number of bytes that the objects of the space may take in all.
    pub size: int,
    /// The number of bytes that its objects take.
    pub used_bytes: int,
}

impl FreeListSpaceView {
    /// The objects take the bytes that the space counts as used, and no more
    /// than the space may hold.
    pub open spec fn wf(self) -> bool {
        &&& self.used_bytes == total_size(self.nodes)
        &&& 0 <= self.used_bytes <= self.size
        &&& forall|i: int| 0 <= i < self.nodes.len() ==> 0 <= (#[trigger] self.nodes[i]).size
    }
}

/// The large-object space.
pub struct FreeListSpace {
    current_nodes: Vec<FreeListNode>,
    node_id: usize,
    size: usize,
    used_bytes: usize,
}

/// The views of the objects in `nodes`.
pub open spec fn node_views(nodes: Seq<FreeListNode>) -> Seq<FreeListNodeView> {
    Seq::new(nodes.len(), |i: int| nodes[i]@)
}

impl View for FreeListSpace {
    type V = FreeListSpaceView;

    closed spec fn view(&self) -> FreeListSpaceView {
        FreeListSpaceView {
            nodes: node_views(self.current_nodes@),
            node_id: self.node_id as int,
            size: self.size as int,
            used_bytes: self.used_bytes as int,
        }
    }
}

/// `Vec::as_ptr`: the machine address of the first byte of the buffer. The
/// pointer of a vector is never null, and its bytes, a slice, end at or below
/// the largest address. Where the buffer lies is not known here.
#[verifier::external_body]
fn buffer_address(buffer: &Vec<u8>) -> (r: usize)
    ensures
        r > 0,
        r + buffer@.len() <= usize::MAX,
{
    buffer.as_ptr() as usize
}

/// The sizes of some objects that are marked anew add up as before.
proof fn lemma_marked_size(nodes: Seq<FreeListNodeView>, marked: Seq<FreeListNodeView>)
    requires
        nodes.len() == marked.len(),
        forall|i: int| 0 <= i < nodes.len() ==> (#[trigger] marked[i]).size == nodes[i].size,
    ensures
        total_size(marked) == total_size(nodes),
    decreases nodes.len(),
{
    if nodes.len() > 0 {
        lemma_marked_size(nodes.drop_last(), marked.drop_last());
    }
}

/// The first objects of a list take no more bytes than the whole list.
proof fn lemma_prefix_size(nodes: Seq<FreeListNodeView>, count: int)
    requires
        0 <= count <= nodes.len(),
        forall|i: int| 0 <= i < nodes.len() ==> 0 <= (#[trigger] nodes[i]).size,
    ensures
        0 <= total_size(nodes.take(count)) <= total_size(nodes),
    decreases nodes.len() - count,
{
    if count == nodes.len() {
        assert(nodes.take(count) =~= nodes);
        lemma_size_positive(nodes);
    } else {
        lemma_prefix_size(nodes, count + 1);
        assert(nodes.take(count + 1).drop_last() =~= nodes.take(count));
        assert(nodes.take(count + 1).last() == nodes[count]);
        assert forall|i: int| 0 <= i < nodes.take(count).len() implies 0 <= (#[trigger] nodes.take(
            count,
        )[i]).size by {
            assert(nodes.take(count)[i] == nodes[i]);
        }
        lemma_size_positive(nodes.take(count));
    }
}

/// Objects of sizes that are not negative take a number of bytes that is not
/// negative.
proof fn lemma_size_positive(nodes: Seq<FreeListNodeView>)
    requires
        forall|i: int| 0 <= i < nodes.len() ==> 0 <= (#[trigger] nodes[i]).size,
    ensures
        0 <= total_size(nodes),
    decreases nodes.len(),
{
    if nodes.len() > 0 {
        lemma_size_positive(nodes.drop_last());
    }
}

/// The objects that a sweep keeps take no more bytes than those it went
/// through, and they have sizes that are not negative.
proof fn lemma_survivors_size(nodes: Seq<FreeListNodeView>)
    requires
        forall|i: int| 0 <= i < nodes.len() ==> 0 <= (#[trigger] nodes[i]).size,
    ensures
        0 <= total_size(survivors(nodes)) <= total_size(nodes),
        forall|i: int|
            0 <= i < survivors(nodes).len() ==> 0 <= (#[trigger] survivors(nodes)[i]).size,
    decreases nodes.len(),
{
    if nodes.len() > 0 {
        lemma_survivors_size(nodes.drop_last());
        if nodes.last().mark == NodeMark::Live {
            let kept = survivors(nodes.drop_last());
            let node = FreeListNodeView { mark: NodeMark::PrevLive, ..nodes.last() };
            assert(kept.push(node).drop_last() =~= kept);
        }
    }
}

impl FreeListSpace {
    /// The space keeps count of its objects and of their bytes.
    pub closed spec fn wf(&self) -> bool {
        self@.wf()
    }

    /// A well-formed space has a well-formed view.
    pub broadcast proof fn lemma_wf(&self)
        requires
            #[trigger] self.wf(),
        ensures
            self@.wf(),
    {
    }

    /// A space whose objects may take `size` bytes in all, with no object yet.
    pub fn new(size: usize) -> (r: FreeListSpace)
        ensures
            r.wf(),
            r@ == (FreeListSpaceView {
                nodes: Seq::empty(),
                node_id: 0,
                size: size as int,
                used_bytes: 0,
            }),
    {
        let r = FreeListSpace { current_nodes: Vec::new(), node_id: 0, size, used_bytes: 0 };
        assert(r@.nodes =~= Seq::empty());
        r
    }

    /// Makes an object of `size` bytes aligned to `align`, marked
    /// `FreshAlloc`, in memory of its own, and gives its address. The answer
    /// is `None`, and the space as it was, exactly where the object would take
    /// the space over its size, `size` and `align` make no valid layout, or
    /// the space has no number left for the object.
    pub fn allocate(&mut self, size: usize, align: usize) -> (r: Option<Address>)
        requires
            old(self).wf(),
        ensures
            final(self).wf(),
            r is Some <==> old(self)@.can_allocate(size, align),
            match r {
                Some(addr) => {
                    &&& addr@ > 0
                    &&& addr@ % (align as int) == 0
                    &&& addr@ + size <= usize::MAX
                    &&& final(self)@ == old(self)@.with_node(
                        addr@,
                        size as int,
                        align as int,
                        size + align - 1,
                    )
                },
                None => final(self)@ == old(self)@,
            },
    {
        if self.node_id == usize::MAX {
            return None;
        }
        if size > self.size - self.used_bytes {
            return None;
        }
        if align == 0 || align & (align - 1) != 0 {
            return None;
        }
        if align - 1 > isize::MAX as usize || size > isize::MAX as usize - (align - 1) {
            return None;
        }
        let memory: Vec<u8> = vec![0u8; size + (align - 1)];
        let base = buffer_address(&memory);
        proof {
            crate::common::lemma_align_up(base as int, align as int);
        }
        self.place(memory, base, size, align)
    }

    /// Makes an object of `size` bytes aligned to `align` in `memory`, a
    /// buffer whose first byte is at the address `base`: the object starts at
    /// the first multiple of `align` from `base` on. The answer is `None`, and
    /// the space as it was, where the object would take the space over its
    /// size, the space has no number left for it, `align` is zero, `base` is
    /// the null address, or the buffer does not hold the object at or below
    /// the largest address.
    pub fn place(&mut self, memory: Vec<u8>, base: usize, size: usize, align: usize) -> (r: Option<
        Address,
    >)
        requires
            old(self).wf(),
        ensures
            final(self).wf(),
            r.is_some() <==> old(self)@.can_place(
                memory@.len() as int,
                base as int,
                size as int,
                align as int,
            ),
            match r {
                Some(addr) => addr@ == crate::common::align_up_spec(base as int, align as int)
                    && addr@ > 0
                    && final(self)@ == old(self)@.with_node(
                    addr@,
                    size as int,
                    align as int,
                    memory@.len() as int,
                ),
                None => final(self)@ == old(self)@,
            },
    {
        if size > self.size - self.used_bytes || align == 0 || self.node_id == usize::MAX
            || base == 0 {
            return None;
        }
        proof {
            crate::common::lemma_align_up(base as int, align as int);
        }
        let rem = base % align;
        let pad = if rem == 0 { 0 } else { align - rem };
        if pad > memory.len() || size > memory.len() - pad {
            return None;
        }
        if memory.len() > usize::MAX - base {
            return None;
        }
        let start = Address::from_usize(base).align_up(align);
        let ghost old_memory_len = memory@.len();
        let node = FreeListNode {
            id: self.node_id,
            start,
            size,
            align,
            mark: NodeMark::FreshAlloc,
            memory,
        };
        let ghost before = self@;
        self.current_nodes.insert(0, node);
        self.node_id += 1;
        self.used_bytes += size;
        proof {
            let after = before.with_node(
                start@,
                size as int,
                align as int,
                old_memory_len as int,
            );
            assert(self@.nodes =~= after.nodes);
            lemma_size_front(before.nodes, after.nodes[0]);
        }
        Some(start)
    }

    /// Marks `Live` every object that starts at `addr`: a trace has reached
    /// it.
    pub fn mark_live(&mut self, addr: Address)
        requires
            old(self).wf(),
        ensures
            final(self).wf(),
            final(self)@ == (FreeListSpaceView {
                nodes: marked_at(old(self)@.nodes, addr@),
                ..old(self)@
            }),
    {
        let ghost before = self@.nodes;
        let mut i: usize = 0;
        while i < self.current_nodes.len()
            invariant
                i <= self.current_nodes@.len(),
                self.current_nodes@.len() == before.len(),
                self.node_id == old(self).node_id,
                self.size == old(self).size,
                self.used_bytes == old(self).used_bytes,
                before == old(self)@.nodes,
                forall|j: int| 0 <= j < i ==> (#[trigger] self.current_nodes@[j])@ == marked_at(
                    before,
                    addr@,
                )[j],
                forall|j: int|
                    i <= j < before.len() ==> (#[trigger] self.current_nodes@[j])@ == before[j],
            decreases self.current_nodes@.len() - i,
        {
            if self.current_nodes[i].start.as_usize() == addr.as_usize() {
                let mut node = self.current_nodes.remove(i);
                node.set_mark(NodeMark::Live);
                self.current_nodes.insert(i, node);
            }
            i += 1;
        }
        proof {
            assert(self@.nodes =~= marked_at(before, addr@));
            lemma_marked_size(before, self@.nodes);
        }
    }

    /// Goes through the objects: one marked `Live` stays and is now marked
    /// `PrevLive`; every other is given up. The bytes in use are those of the
    /// objects that stay.
    pub fn sweep(&mut self)
        requires
            old(self).wf(),
        ensures
            final(self).wf(),
            final(self)@ == (FreeListSpaceView {
                nodes: survivors(old(self)@.nodes),
                used_bytes: total_size(survivors(old(self)@.nodes)),
                ..old(self)@
            }),
    {
        let ghost before = self@.nodes;
        let mut nodes: Vec<FreeListNode> = Vec::new();
        std::mem::swap(&mut nodes, &mut self.current_nodes);
        let count = nodes.len();
        let mut used_bytes: usize = 0;
        let mut done: usize = 0;
        proof {
            assert(before.take(0) =~= Seq::<FreeListNodeView>::empty());
            assert(node_views(self.current_nodes@) =~= survivors(before.take(0)));
        }
        while done < count
            invariant
                done <= count,
                count == before.len(),
                nodes@.len() == count - done,
                self.node_id == old(self).node_id,
                self.size == old(self).size,
                before == old(self)@.nodes,
                old(self)@.wf(),
                forall|j: int|
                    0 <= j < nodes@.len() ==> (#[trigger] nodes@[j])@ == before[done + j],
                node_views(self.current_nodes@) == survivors(before.take(done as int)),
                used_bytes == total_size(survivors(before.take(done as int))),
            decreases count - done,
        {
            let mut node = nodes.remove(0);
            proof {
                assert(before.take(done as int + 1).drop_last() =~= before.take(done as int));
                assert(before.take(done as int + 1).last() == before[done as int]);
                lemma_prefix_size(before, done as int + 1);
                lemma_survivors_size(before.take(done as int + 1));
                assert forall|i: int| 0 <= i < before.take(done as int + 1).len() implies 0 <= (
                #[trigger] before.take(done as int + 1)[i]).size by {}
            }
            match node.mark {
                NodeMark::Live => {
                    node.set_mark(NodeMark::PrevLive);
                    let ghost kept = survivors(before.take(done as int));
                    proof {
                        assert(kept.push(node@).drop_last() =~= kept);
                    }
                    used_bytes += node.size;
                    self.current_nodes.push(node);
                    proof {
                        assert(node_views(self.current_nodes@) =~= kept.push(node@));
                    }
                },
                _ => {},
            }
            done += 1;
        }
        proof {
            assert(before.take(count as int) =~= before);
            lemma_survivors_size(before);
        }
        self.used_bytes = used_bytes;
    }

    /// The objects of the space, the one allocated last first, for marks to be
    /// set. The space counts the bytes of the objects as they are when the
    /// borrow ends: whoever adds or takes away objects leaves the count
    /// wrong.
    pub fn current_nodes_mut(&mut self) -> (r: &mut Vec<FreeListNode>)
        ensures
            node_views(r@) == old(self)@.nodes,
            final(self)@ == (FreeListSpaceView {
                nodes: node_views(final(r)@),
                ..old(self)@
            }),
    {
        &mut self.current_nodes
    }

    /// The objects of the space, the one allocated last first.
    pub fn current_nodes(&self) -> (r: &Vec<FreeListNode>)
        ensures
            node_views(r@) == self@.nodes,
    {
        &self.current_nodes
    }

    /// The number of bytes that the objects of the space take.
    pub fn used_bytes(&self) -> (r: usize)
        ensures
            r == self@.used_bytes,
    {
        self.used_bytes
    }
}

impl FreeListSpaceView {
    /// The space can make an object of `size` bytes aligned to `align`: it has
    /// room for the object and a number left to give it, and `size` and
    /// `align` make a valid layout.
    pub open spec fn can_allocate(self, size: usize, align: usize) -> bool {
        &&& self.used_bytes + size <= self.size
        &&& valid_layout(size, align)
        &&& self.node_id < usize::MAX
    }

    /// The space with one more object, marked `FreshAlloc`, in front of the
    /// others, in memory of `buffer` bytes.
    pub open spec fn with_node(
        self,
        start: int,
        size: int,
        align: int,
        buffer: int,
    ) -> FreeListSpaceView {
        FreeListSpaceView {
            nodes: seq![
                FreeListNodeView {
                    id: self.node_id,
                    start: start,
                    size: size,
                    align: align,
                    buffer: buffer,
                    mark: NodeMark::FreshAlloc,
                },
            ] + self.nodes,
            node_id: self.node_id + 1,
            size: self.size,
            used_bytes: self.used_bytes + size,
        }
    }

    /// An object of `size` bytes aligned to `align` can be made in a buffer of
    /// `len` bytes whose first byte is at `base`: the space has room for it
    /// and a number left to give it, `base` is not the null address, and the
    /// buffer holds the object at or below the largest address.
    pub open spec fn can_place(self, len: int, base: int, size: int, align: int) -> bool {
        &&& self.used_bytes + size <= self.size
        &&& align > 0
        &&& self.node_id < usize::MAX
        &&& 0 < base
        &&& base + len <= usize::MAX
        &&& crate::common::align_up_spec(base, align) + size <= base + len
    }
}

/// An object put in front of others adds its size to theirs.
proof fn lemma_size_front(nodes: Seq<FreeListNodeView>, node: FreeListNodeView)
    ensures
        total_size(seq![node] + nodes) == total_size(nodes) + node.size,
    decreases nodes.len(),
{
    let all = seq![node] + nodes;
    if nodes.len() == 0 {
        assert(all.drop_last() =~= Seq::<FreeListNodeView>::empty());
        assert(total_size(all.drop_last()) == 0);
    } else {
        lemma_size_front(nodes.drop_last(), node);
        assert(all.drop_last() =~= seq![node] + nodes.drop_last());
    }
}

/// Allocates a large object of `size` bytes aligned to `align` for the
/// mutator. The answer is `None` where the mutator has to yield first: it was
/// asked to, and nothing is done; or the large-object space cannot make the
/// object, and every registered mutator is now asked to yield, so that a
/// collection can make room.
pub fn alloc_large(
    size: usize,
    align: usize,
    mutator: &mut ImmixMutatorLocal,
    gc: &mut ImmixGC,
) -> (r: Option<Address>)
    requires
        old(gc).wf(),
    ensures
        final(gc).wf(),
        *final(mutator) == *old(mutator),
        final(gc).space == old(gc).space,
        r is Some <==> !old(gc).coordinator@.asked_to_yield(old(mutator)@.id)
            && old(gc).lo_space@.can_allocate(size, align),
        old(gc).coordinator@.asked_to_yield(old(mutator)@.id) ==> final(gc).coordinator@
            == old(gc).coordinator@ && final(gc).lo_space@ == old(gc).lo_space@,
        !old(gc).coordinator@.asked_to_yield(old(mutator)@.id) ==> match r {
            Some(addr) => {
                &&& addr@ > 0
                &&& addr@ % (align as int) == 0
                &&& final(gc).lo_space@ == old(gc).lo_space@.with_node(
                    addr@,
                    size as int,
                    align as int,
                    size + align - 1,
                )
                &&& final(gc).coordinator@ == old(gc).coordinator@
            },
            None => {
                &&& final(gc).lo_space@ == old(gc).lo_space@
                &&& final(gc).coordinator@ == (CoordinatorView {
                    mutators: all_yielding(old(gc).coordinator@.mutators),
                    ..old(gc).coordinator@
                })
            },
        },
{
    if gc.coordinator.take_yield(mutator.id()) {
        return None;
    }
    match gc.lo_space.allocate(size, align) {
        Some(addr) => Some(addr),
        None => {
            gc.trigger_gc();
            None
        },
    }
}

} // verus!
