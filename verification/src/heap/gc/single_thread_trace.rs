//! The marker: from the roots it follows the references of each object it
//! meets, marks the object traced and its line live, until no object is left
//! to visit.
use crate::common::{Address, ObjectReference};
use crate::heap::immix::immix_space::{word_at, ImmixSpaceView};
use crate::heap::immix::line_mark::{is_kept, marked_live, LineMark};
use crate::heap::immix::ImmixSpace;
use crate::objectmodel::{
    decode, is_child, is_path, is_short_encoded, lemma_ref_fields, reachable, ref_bits, ref_count,
    ref_fields,
};
use vstd::prelude::*;

verus! {

/// What stops a trace.
#[derive(PartialEq, Eq, Structural, Debug, Copy, Clone)]
pub enum TraceError {
    /// The encoding of the object is malformed.
    Malformed(ObjectReference),
}

/// What a trace leaves of a space as it was: nothing changes but trace bytes,
/// which take the mark state, and line marks, which become `Live` or
/// `ConservLive`; a line that was `Live` stays so.
pub open spec fn marks_kept(before: ImmixSpaceView, now: ImmixSpaceView) -> bool {
    &&& now == (ImmixSpaceView { trace_cells: now.trace_cells, lines: now.lines, ..before })
    &&& now.trace_cells.len() == before.trace_cells.len()
    &&& now.lines.len() == before.lines.len()
    &&& forall|k: int|
        0 <= k < before.trace_cells.len() ==> #[trigger] now.trace_cells[k]
            == before.trace_cells[k] || now.trace_cells[k] == before.mark_state
    &&& forall|l: int|
        0 <= l < before.lines.len() ==> #[trigger] now.lines[l] == before.lines[l] || is_kept(
            now.lines[l],
        )
    &&& forall|l: int|
        0 <= l < before.lines.len() && before.lines[l] == LineMark::Live ==> #[trigger] now.lines[l]
            == LineMark::Live
    &&& forall|l: int|
        0 <= l < before.lines.len() && is_kept(before.lines[l]) ==> is_kept(#[trigger] now.lines[l])
}

/// The object at `addr` is marked: it lies in the space, its trace byte holds
/// the mark state, its line is `Live`, and the line after that, if there is
/// one, is `Live` or `ConservLive`.
pub open spec fn object_marked(space: ImmixSpaceView, addr: int) -> bool {
    &&& space.contains(addr)
    &&& space.is_traced(addr)
    &&& space.lines[space.line_of(addr)] == LineMark::Live
    &&& space.line_of(addr) + 1 < space.lines.len() ==> is_kept(
        space.lines[space.line_of(addr) + 1],
    )
}

/// `addr` waits in `queue`.
pub open spec fn in_queue(queue: Seq<ObjectReference>, addr: int) -> bool {
    exists|j: int| 0 <= j < queue.len() && (#[trigger] queue[j])@ == addr
}

/// The reference `child` has been seen to: if it points into the space, its
/// object is traced or waits in `queue`.
pub open spec fn child_settled(space: ImmixSpaceView, queue: Seq<ObjectReference>, child: int) -> bool {
    space.contains(child) ==> space.is_traced(child) || in_queue(queue, child)
}

/// The references in the words at `fields` have all been seen to.
pub open spec fn fields_settled(
    space: ImmixSpaceView,
    queue: Seq<ObjectReference>,
    fields: Seq<int>,
) -> bool {
    forall|i: int|
        0 <= i < fields.len() ==> child_settled(
            space,
            queue,
            word_at(space.memory, #[trigger] fields[i] - space.start),
        )
}

/// The trace byte at index `k` belongs to an object that has been visited.
pub open spec fn slot_visited(space: ImmixSpaceView, visited: Set<int>, k: int) -> bool {
    exists|a: int| #[trigger] visited.contains(a) && space.word_of(a) == k
}

/// The line with the index `l` is the line of a visited object, or it is the
/// line after that of a visited object and is marked `ConservLive`.
pub open spec fn line_visited(space: ImmixSpaceView, visited: Set<int>, l: int) -> bool {
    exists|a: int| #[trigger]
        visited.contains(a) && (space.line_of(a) == l || (space.line_of(a) + 1 == l
            && space.lines[l] == LineMark::ConservLive))
}

/// The state of a trace that started from `roots` in the space `before`, has
/// visited the objects `visited`, and has `queue` left to visit.
///
/// Every visited object is marked, can be reached from the roots, has a
/// well-formed encoding, and each of its references into the space points to
/// an object that is traced or waits in the queue. Every trace byte that has
/// changed belongs to a visited object, and every line mark that has changed
/// is that of the line of a visited object, or that of the line after it and
/// now `ConservLive`. Every root in the space has been
/// visited or waits in the queue, and what waits in the queue and lies in the
/// space can be reached from the roots.
pub open spec fn tracing(
    before: ImmixSpaceView,
    now: ImmixSpaceView,
    roots: Seq<ObjectReference>,
    queue: Seq<ObjectReference>,
    visited: Set<int>,
) -> bool {
    &&& before.wf()
    &&& now.wf()
    &&& marks_kept(before, now)
    &&& forall|a: int| #[trigger]
        visited.contains(a) ==> {
            &&& object_marked(now, a)
            &&& reachable(before, roots, a)
            &&& ref_fields(before, a) matches Some(fields) && fields_settled(now, queue, fields)
        }
    &&& forall|k: int|
        0 <= k < now.trace_cells.len() && #[trigger] now.trace_cells[k] != before.trace_cells[k]
            ==> slot_visited(now, visited, k)
    &&& forall|l: int|
        0 <= l < now.lines.len() && #[trigger] now.lines[l] != before.lines[l] ==> line_visited(
            now,
            visited,
            l,
        )
    &&& forall|j: int|
        0 <= j < queue.len() && now.contains((#[trigger] queue[j])@) ==> reachable(
            before,
            roots,
            queue[j]@,
        )
    &&& forall|i: int|
        0 <= i < roots.len() && now.contains((#[trigger] roots[i])@) ==> visited.contains(
            roots[i]@,
        ) || in_queue(queue, roots[i]@)
}

/// What a trace from `roots` has come to when nothing is left to visit: the
/// state of a trace with an empty queue. Then every reference into the space
/// that a visited object holds points to a traced object.
pub open spec fn traced(
    before: ImmixSpaceView,
    after: ImmixSpaceView,
    roots: Seq<ObjectReference>,
) -> bool {
    exists|visited: Set<int>| #[trigger]
        tracing(before, after, roots, Seq::<ObjectReference>::empty(), visited)
}

/// The number of trace bytes in `cells` that do not hold `state`.
pub open spec fn untraced_count(cells: Seq<u8>, state: u8) -> nat
    decreases cells.len(),
{
    if cells.len() == 0 {
        0
    } else {
        untraced_count(cells.drop_last(), state) + if cells.last() != state {
            1nat
        } else {
            0nat
        }
    }
}

/// A visit of the object at `addr` is due: it lies in the space and is not
/// traced.
pub open spec fn is_due(space: ImmixSpaceView, addr: int) -> bool {
    space.contains(addr) && !space.is_traced(addr)
}

/// The number of entries of `queue` whose visit is not due.
pub open spec fn stale_count(space: ImmixSpaceView, queue: Seq<ObjectReference>) -> nat
    decreases queue.len(),
{
    if queue.len() == 0 {
        0
    } else {
        stale_count(space, queue.drop_last()) + if is_due(space, queue.last()@) {
            0nat
        } else {
            1nat
        }
    }
}

/// Storing the mark state in a trace byte that did not hold it leaves one
/// untraced byte fewer.
proof fn lemma_mark_counts(cells: Seq<u8>, state: u8, k: int)
    requires
        0 <= k < cells.len(),
        cells[k] != state,
    ensures
        untraced_count(cells.update(k, state), state) + 1 == untraced_count(cells, state),
    decreases cells.len(),
{
    let marked = cells.update(k, state);
    if k == cells.len() - 1 {
        assert(marked.drop_last() =~= cells.drop_last());
    } else {
        lemma_mark_counts(cells.drop_last(), state, k);
        assert(marked.drop_last() =~= cells.drop_last().update(k, state));
    }
}

/// The count of stale entries depends on the range, the trace bytes and the
/// mark state of the space alone.
proof fn lemma_stale_frame(a: ImmixSpaceView, b: ImmixSpaceView, queue: Seq<ObjectReference>)
    requires
        a.start == b.start,
        a.end == b.end,
        a.trace_cells == b.trace_cells,
        a.mark_state == b.mark_state,
    ensures
        stale_count(a, queue) == stale_count(b, queue),
    decreases queue.len(),
{
    if queue.len() > 0 {
        lemma_stale_frame(a, b, queue.drop_last());
    }
}

/// Following one more reference from an object that can be reached reaches
/// the object it points to.
proof fn lemma_reach_child(
    space: ImmixSpaceView,
    roots: Seq<ObjectReference>,
    parent: int,
    child: int,
)
    requires
        reachable(space, roots, parent),
        is_child(space, parent, child),
    ensures
        reachable(space, roots, child),
{
    reveal(reachable);
    let path = choose|path: Seq<int>| is_path(space, roots, path) && #[trigger] path.last() == parent;
    let longer = path.push(child);
    assert forall|i: int| 0 <= i < longer.len() - 1 implies is_child(
        space,
        #[trigger] longer[i],
        longer[i + 1],
    ) by {
        if i < path.len() - 1 {
            assert(is_child(space, path[i], path[i + 1]));
        }
    }
    assert(longer[0] == path[0]);
    assert(is_path(space, roots, longer));
    assert(longer.last() == child);
}

/// A root in the space can be reached.
proof fn lemma_reach_root(space: ImmixSpaceView, roots: Seq<ObjectReference>, i: int)
    requires
        0 <= i < roots.len(),
        space.contains(roots[i]@),
    ensures
        reachable(space, roots, roots[i]@),
{
    reveal(reachable);
    let path = seq![roots[i]@];
    assert(is_path(space, roots, path));
    assert(path.last() == roots[i]@);
}

/// The state of a trace while it visits the object at `obj`, which it has
/// marked: as the state of a trace, with `obj` counted among the visited
/// objects but for its references, which are still to be seen to.
spec fn visiting(
    before: ImmixSpaceView,
    now: ImmixSpaceView,
    roots: Seq<ObjectReference>,
    queue: Seq<ObjectReference>,
    visited: Set<int>,
    obj: int,
) -> bool {
    &&& before.wf()
    &&& now.wf()
    &&& marks_kept(before, now)
    &&& object_marked(now, obj)
    &&& reachable(before, roots, obj)
    &&& forall|a: int| #[trigger]
        visited.contains(a) ==> {
            &&& object_marked(now, a)
            &&& reachable(before, roots, a)
            &&& ref_fields(before, a) matches Some(fields) && fields_settled(now, queue, fields)
        }
    &&& forall|k: int|
        0 <= k < now.trace_cells.len() && #[trigger] now.trace_cells[k] != before.trace_cells[k]
            ==> slot_visited(now, visited.insert(obj), k)
    &&& forall|l: int|
        0 <= l < now.lines.len() && #[trigger] now.lines[l] != before.lines[l] ==> line_visited(
            now,
            visited.insert(obj),
            l,
        )
    &&& forall|j: int|
        0 <= j < queue.len() && now.contains((#[trigger] queue[j])@) ==> reachable(
            before,
            roots,
            queue[j]@,
        )
    &&& forall|i: int|
        0 <= i < roots.len() && now.contains((#[trigger] roots[i])@) ==> visited.insert(
            obj,
        ).contains(roots[i]@) || in_queue(queue, roots[i]@)
}

/// The space `s0` with the object at `obj` marked traced and its line live.
#[verifier::opaque]
spec fn with_mark(s0: ImmixSpaceView, obj: int) -> ImmixSpaceView {
    ImmixSpaceView {
        trace_cells: s0.trace_cells.update(s0.word_of(obj), s0.mark_state),
        lines: marked_live(s0.lines, s0.line_of(obj)),
        ..s0
    }
}

/// `queue` is `q0` with references pushed behind it that were read from the
/// words at `fields` and whose visit is due.
spec fn grown(
    space: ImmixSpaceView,
    q0: Seq<ObjectReference>,
    queue: Seq<ObjectReference>,
    fields: Seq<int>,
) -> bool {
    &&& q0.len() <= queue.len()
    &&& queue.take(q0.len() as int) == q0
    &&& forall|j: int|
        q0.len() <= j < queue.len() ==> is_due(space, (#[trigger] queue[j])@) && exists|i: int|
            0 <= i < fields.len() && word_at(space.memory, #[trigger] fields[i] - space.start)
                == queue[j]@
}

/// What waits in a queue waits in the queue once it has grown.
proof fn lemma_in_queue_grown(q0: Seq<ObjectReference>, queue: Seq<ObjectReference>, addr: int)
    requires
        q0.len() <= queue.len(),
        queue.take(q0.len() as int) == q0,
        in_queue(q0, addr),
    ensures
        in_queue(queue, addr),
{
    let j = choose|j: int| 0 <= j < q0.len() && (#[trigger] q0[j])@ == addr;
    assert(queue.take(q0.len() as int)[j] == queue[j]);
}

/// Pushing entries whose visit is due leaves the count of stale entries as it
/// was.
proof fn lemma_stale_grown(
    space: ImmixSpaceView,
    q0: Seq<ObjectReference>,
    queue: Seq<ObjectReference>,
)
    requires
        q0.len() <= queue.len(),
        queue.take(q0.len() as int) == q0,
        forall|j: int| q0.len() <= j < queue.len() ==> is_due(space, (#[trigger] queue[j])@),
    ensures
        stale_count(space, queue) == stale_count(space, q0),
    decreases queue.len() - q0.len(),
{
    if queue.len() == q0.len() {
        assert(queue.take(q0.len() as int) =~= queue);
    } else {
        let shorter = queue.drop_last();
        assert(shorter.take(q0.len() as int) =~= queue.take(q0.len() as int));
        assert forall|j: int| q0.len() <= j < shorter.len() implies is_due(
            space,
            (#[trigger] shorter[j])@,
        ) by {
            assert(shorter[j] == queue[j]);
        }
        lemma_stale_grown(space, q0, shorter);
        assert(is_due(space, queue[queue.len() - 1]@));
    }
}

/// What marking the object at `obj` does to a space: the object is marked,
/// every object that was marked stays so, and no trace byte changes but that
/// of the object.
proof fn lemma_with_mark(before: ImmixSpaceView, s0: ImmixSpaceView, obj: int)
    requires
        before.wf(),
        s0.wf(),
        marks_kept(before, s0),
        s0.contains(obj),
    ensures
        with_mark(s0, obj).wf(),
        marks_kept(before, with_mark(s0, obj)),
        object_marked(with_mark(s0, obj), obj),
        with_mark(s0, obj).start == s0.start,
        with_mark(s0, obj).end == s0.end,
        with_mark(s0, obj).memory == s0.memory,
        with_mark(s0, obj).mark_state == s0.mark_state,
        with_mark(s0, obj).trace_cells.len() == s0.trace_cells.len(),
        with_mark(s0, obj).trace_cells == s0.trace_cells.update(s0.word_of(obj), s0.mark_state),
        with_mark(s0, obj).lines.len() == s0.lines.len(),
        forall|l: int|
            0 <= l < s0.lines.len() && l != s0.line_of(obj) && l != s0.line_of(obj) + 1
                ==> #[trigger] with_mark(s0, obj).lines[l] == s0.lines[l],
        s0.line_of(obj) + 1 < s0.lines.len() ==> with_mark(s0, obj).lines[s0.line_of(obj) + 1]
            == s0.lines[s0.line_of(obj) + 1] || with_mark(s0, obj).lines[s0.line_of(obj) + 1]
            == LineMark::ConservLive,
        forall|a: int| #[trigger] object_marked(s0, a) ==> object_marked(with_mark(s0, obj), a),
        forall|c: int|
            s0.contains(c) && #[trigger] s0.is_traced(c) ==> with_mark(s0, obj).is_traced(c),
{
    reveal(with_mark);
    let s1 = with_mark(s0, obj);
    let line = s0.line_of(obj);
    let word = s0.word_of(obj);
    assert(0 <= word < s0.trace_cells.len());
    assert(0 <= line < s0.lines.len());
    assert forall|l: int| 0 <= l < s0.lines.len() implies (#[trigger] s1.lines[l] == s0.lines[l]
        || is_kept(s1.lines[l])) && (s0.lines[l] == LineMark::Live ==> s1.lines[l]
        == LineMark::Live) && (is_kept(s0.lines[l]) ==> is_kept(s1.lines[l])) by {}
    assert forall|k: int| 0 <= k < before.trace_cells.len() implies #[trigger] s1.trace_cells[k]
        == before.trace_cells[k] || s1.trace_cells[k] == before.mark_state by {
        assert(s0.trace_cells[k] == before.trace_cells[k] || s0.trace_cells[k]
            == before.mark_state);
    }
    assert forall|l: int| 0 <= l < before.lines.len() implies (#[trigger] s1.lines[l]
        == before.lines[l] || is_kept(s1.lines[l])) && (before.lines[l] == LineMark::Live
        ==> s1.lines[l] == LineMark::Live) && (is_kept(before.lines[l]) ==> is_kept(
        s1.lines[l],
    )) by {
        assert(s0.lines[l] == before.lines[l] || is_kept(s0.lines[l]));
        assert(before.lines[l] == LineMark::Live ==> s0.lines[l] == LineMark::Live);
        assert(is_kept(before.lines[l]) ==> is_kept(s0.lines[l]));
    }
    assert forall|a: int| #[trigger] object_marked(s0, a) implies object_marked(s1, a) by {
        let l = s0.line_of(a);
        assert(0 <= l < s0.lines.len());
        assert(s0.lines[l] == LineMark::Live ==> s1.lines[l] == LineMark::Live);
        if l + 1 < s0.lines.len() {
            assert(is_kept(s0.lines[l + 1]) ==> is_kept(s1.lines[l + 1]));
        }
    }
}

/// Marking the object that was taken from the queue turns the state of a
/// trace into the state of a trace that visits the object.
proof fn lemma_start_object(
    before: ImmixSpaceView,
    s0: ImmixSpaceView,
    roots: Seq<ObjectReference>,
    queue: Seq<ObjectReference>,
    visited: Set<int>,
    obj: ObjectReference,
)
    requires
        tracing(before, s0, roots, queue.push(obj), visited),
        s0.contains(obj@),
    ensures
        with_mark(s0, obj@).wf(),
        visiting(before, with_mark(s0, obj@), roots, queue, visited, obj@),
{
    let s1 = with_mark(s0, obj@);
    let word = s0.word_of(obj@);
    let longer = queue.push(obj);
    lemma_with_mark(before, s0, obj@);
    assert(longer[queue.len() as int] == obj);
    assert(reachable(before, roots, obj@));
    assert forall|a: int| #[trigger] visited.contains(a) implies object_marked(s1, a) && reachable(
        before,
        roots,
        a,
    ) && (ref_fields(before, a) matches Some(fields) && fields_settled(s1, queue, fields)) by {
        assert(object_marked(s0, a));
        let fields = ref_fields(before, a)->0;
        assert(fields_settled(s0, longer, fields));
        assert forall|i: int| 0 <= i < fields.len() implies child_settled(
            s1,
            queue,
            word_at(s1.memory, #[trigger] fields[i] - s1.start),
        ) by {
            let child = word_at(s0.memory, fields[i] - s0.start);
            assert(child_settled(s0, longer, child));
            if s0.contains(child) {
                if s0.is_traced(child) {
                    assert(s1.is_traced(child));
                } else {
                    let j = choose|j: int|
                        0 <= j < longer.len() && (#[trigger] longer[j])@ == child;
                    if j < queue.len() {
                        assert(queue[j]@ == child);
                    } else {
                        assert(child == obj@);
                        assert(object_marked(s1, obj@));
                    }
                }
            }
        }
    }
    assert forall|k: int|
        0 <= k < s1.trace_cells.len() && #[trigger] s1.trace_cells[k]
            != before.trace_cells[k] implies slot_visited(s1, visited.insert(obj@), k) by {
        if k == word {
            assert(visited.insert(obj@).contains(obj@));
        } else {
            assert(s0.trace_cells[k] != before.trace_cells[k]);
            assert(slot_visited(s0, visited, k));
            let a = choose|a: int| #[trigger] visited.contains(a) && s0.word_of(a) == k;
            assert(visited.insert(obj@).contains(a));
        }
    }
    assert forall|l: int|
        0 <= l < s1.lines.len() && #[trigger] s1.lines[l] != before.lines[l] implies line_visited(
            s1,
            visited.insert(obj@),
            l,
        ) by {
        if l == s0.line_of(obj@) {
            assert(visited.insert(obj@).contains(obj@));
        } else if l == s0.line_of(obj@) + 1 && s1.lines[l] != s0.lines[l] {
            assert(visited.insert(obj@).contains(obj@));
        } else {
            assert(s1.lines[l] == s0.lines[l]);
            assert(line_visited(s0, visited, l));
            let a = choose|a: int| #[trigger]
                visited.contains(a) && (s0.line_of(a) == l || (s0.line_of(a) + 1 == l
                    && s0.lines[l] == LineMark::ConservLive));
            assert(visited.insert(obj@).contains(a));
        }
    }
    assert forall|j: int| 0 <= j < queue.len() && s1.contains((#[trigger] queue[j])@) implies reachable(
        before,
        roots,
        queue[j]@,
    ) by {
        assert(longer[j] == queue[j]);
    }
    assert forall|i: int|
        0 <= i < roots.len() && s1.contains((#[trigger] roots[i])@) implies visited.insert(
            obj@,
        ).contains(roots[i]@) || in_queue(queue, roots[i]@) by {
        if !visited.contains(roots[i]@) {
            assert(in_queue(longer, roots[i]@));
            let j = choose|j: int| 0 <= j < longer.len() && (#[trigger] longer[j])@ == roots[i]@;
            if j < queue.len() {
                assert(queue[j]@ == roots[i]@);
            }
        }
    }
}

/// Once every reference of the object under visit has been seen to, the state
/// is that of a trace which has visited the object.
proof fn lemma_finish_object(
    before: ImmixSpaceView,
    now: ImmixSpaceView,
    roots: Seq<ObjectReference>,
    q0: Seq<ObjectReference>,
    queue: Seq<ObjectReference>,
    visited: Set<int>,
    obj: int,
    fields: Seq<int>,
)
    requires
        visiting(before, now, roots, q0, visited, obj),
        ref_fields(before, obj) == Some(fields),
        fields_settled(now, queue, fields),
        grown(now, q0, queue, fields),
    ensures
        tracing(before, now, roots, queue, visited.insert(obj)),
{
    let all = visited.insert(obj);
    assert forall|a: int| #[trigger] all.contains(a) implies object_marked(now, a) && reachable(
        before,
        roots,
        a,
    ) && (ref_fields(before, a) matches Some(fs) && fields_settled(now, queue, fs)) by {
        if a != obj {
            assert(visited.contains(a));
            let fs = ref_fields(before, a)->0;
            assert(fields_settled(now, q0, fs));
            assert forall|i: int| 0 <= i < fs.len() implies child_settled(
                now,
                queue,
                word_at(now.memory, #[trigger] fs[i] - now.start),
            ) by {
                let child = word_at(now.memory, fs[i] - now.start);
                assert(child_settled(now, q0, child));
                if in_queue(q0, child) {
                    lemma_in_queue_grown(q0, queue, child);
                }
            }
        }
    }
    assert forall|j: int| 0 <= j < queue.len() && now.contains((#[trigger] queue[j])@) implies reachable(
        before,
        roots,
        queue[j]@,
    ) by {
        if j < q0.len() {
            assert(queue.take(q0.len() as int)[j] == queue[j]);
            assert(reachable(before, roots, q0[j]@));
        } else {
            let i = choose|i: int|
                0 <= i < fields.len() && word_at(now.memory, #[trigger] fields[i] - now.start)
                    == queue[j]@;
            crate::objectmodel::lemma_is_child(before, obj, fields, i, queue[j]@);
            lemma_reach_child(before, roots, obj, queue[j]@);
        }
    }
    assert forall|i: int|
        0 <= i < roots.len() && now.contains((#[trigger] roots[i])@) implies all.contains(
            roots[i]@,
        ) || in_queue(queue, roots[i]@) by {
        if in_queue(q0, roots[i]@) {
            lemma_in_queue_grown(q0, queue, roots[i]@);
        }
    }
}

/// Dropping from the queue an entry that lies outside the space leaves the
/// state of the trace as it was.
proof fn lemma_skip_object(
    before: ImmixSpaceView,
    now: ImmixSpaceView,
    roots: Seq<ObjectReference>,
    queue: Seq<ObjectReference>,
    visited: Set<int>,
    obj: ObjectReference,
)
    requires
        tracing(before, now, roots, queue.push(obj), visited),
        !now.contains(obj@),
    ensures
        tracing(before, now, roots, queue, visited),
{
    let longer = queue.push(obj);
    assert forall|a: int| #[trigger] visited.contains(a) implies object_marked(now, a) && reachable(
        before,
        roots,
        a,
    ) && (ref_fields(before, a) matches Some(fs) && fields_settled(now, queue, fs)) by {
        let fs = ref_fields(before, a)->0;
        assert(fields_settled(now, longer, fs));
        assert forall|i: int| 0 <= i < fs.len() implies child_settled(
            now,
            queue,
            word_at(now.memory, #[trigger] fs[i] - now.start),
        ) by {
            let child = word_at(now.memory, fs[i] - now.start);
            assert(child_settled(now, longer, child));
            if now.contains(child) && !now.is_traced(child) {
                let j = choose|j: int| 0 <= j < longer.len() && (#[trigger] longer[j])@ == child;
                assert(queue[j]@ == child);
            }
        }
    }
    assert forall|j: int| 0 <= j < queue.len() && now.contains((#[trigger] queue[j])@) implies reachable(
        before,
        roots,
        queue[j]@,
    ) by {
        assert(longer[j] == queue[j]);
    }
    assert forall|i: int|
        0 <= i < roots.len() && now.contains((#[trigger] roots[i])@) implies visited.contains(
            roots[i]@,
        ) || in_queue(queue, roots[i]@) by {
        if !visited.contains(roots[i]@) {
            let j = choose|j: int| 0 <= j < longer.len() && (#[trigger] longer[j])@ == roots[i]@;
            assert(queue[j]@ == roots[i]@);
        }
    }
}

/// A trace starts in the state of a trace: nothing is visited, and the roots
/// wait in the queue.
pub proof fn lemma_tracing_start(before: ImmixSpaceView, roots: Seq<ObjectReference>)
    requires
        before.wf(),
    ensures
        tracing(before, before, roots, roots, Set::empty()),
{
    assert forall|j: int| 0 <= j < roots.len() && before.contains((#[trigger] roots[j])@) implies reachable(
        before,
        roots,
        roots[j]@,
    ) by {
        lemma_reach_root(before, roots, j);
    }
}

/// A step of a trace has made progress: fewer trace bytes are untraced, or as
/// many are and fewer entries of the queue are stale.
pub open spec fn progress(
    s0: ImmixSpaceView,
    q0: Seq<ObjectReference>,
    s1: ImmixSpaceView,
    q1: Seq<ObjectReference>,
) -> bool {
    let before = untraced_count(s0.trace_cells, s0.mark_state);
    let after = untraced_count(s1.trace_cells, s1.mark_state);
    after < before || (after == before && stale_count(s1, q1) < stale_count(s0, q0))
}

/// Sees to the reference in the word at `addr`: if it points into the space
/// to an object that is not traced, the object joins the queue.
fn process_edge(
    addr: Address,
    local_queue: &mut Vec<ObjectReference>,
    space: &ImmixSpace,
    Ghost(rest): Ghost<Seq<ObjectReference>>,
    Ghost(q0): Ghost<Seq<ObjectReference>>,
    Ghost(seen): Ghost<Seq<int>>,
)
    requires
        space.wf(),
        space@.wf(),
        space@.start <= addr@,
        addr@ + 8 <= space@.end,
        grown(space@, q0, rest + old(local_queue)@, seen),
        fields_settled(space@, rest + old(local_queue)@, seen),
    ensures
        grown(space@, q0, rest + final(local_queue)@, seen.push(addr@)),
        fields_settled(space@, rest + final(local_queue)@, seen.push(addr@)),
        final(local_queue)@.len() >= old(local_queue)@.len(),
        final(local_queue)@.take(old(local_queue)@.len() as int) == old(local_queue)@,
{
    let ghost before = rest + local_queue@;
    let ghost more = seen.push(addr@);
    let ghost child = word_at(space@.memory, addr@ - space@.start);
    let word = space.load_word(addr);
    let mut pushed = false;
    if word <= usize::MAX as u64 {
        let target = Address::from_usize(word as usize);
        if space.is_untraced_and_valid(target) {
            local_queue.push(target.to_object_reference());
            pushed = true;
        }
    }
    proof {
        let queue = rest + local_queue@;
        assert(local_queue@.take(old(local_queue)@.len() as int) =~= old(local_queue)@);
        if pushed {
            assert(queue =~= before.push(local_queue@.last()));
        }
        assert(queue.take(q0.len() as int) =~= before.take(q0.len() as int));
        assert forall|j: int| q0.len() <= j < queue.len() implies is_due(
            space@,
            (#[trigger] queue[j])@,
        ) && exists|i: int|
            0 <= i < more.len() && word_at(space@.memory, #[trigger] more[i] - space@.start)
                == queue[j]@ by {
            if j < before.len() {
                assert(queue[j] == before[j]);
                let i = choose|i: int|
                    0 <= i < seen.len() && word_at(space@.memory, #[trigger] seen[i] - space@.start)
                        == before[j]@;
                assert(more[i] == seen[i]);
            } else {
                assert(more[seen.len() as int] == addr@);
            }
        }
        assert forall|i: int| 0 <= i < more.len() implies child_settled(
            space@,
            queue,
            word_at(space@.memory, #[trigger] more[i] - space@.start),
        ) by {
            let c = word_at(space@.memory, more[i] - space@.start);
            if i < seen.len() {
                assert(more[i] == seen[i]);
                assert(child_settled(space@, before, c));
                if in_queue(before, c) {
                    let j = choose|j: int| 0 <= j < before.len() && (#[trigger] before[j])@ == c;
                    assert(queue[j]@ == c);
                }
            } else {
                if pushed {
                    assert(queue[before.len() as int]@ == c);
                }
            }
        }
    }
}

/// Visits the object `obj`, which was taken from the queue: marks it traced
/// and its line live, and sees to each of its references. An entry that lies
/// outside the space is passed over. The queue of the trace is `rest` followed
/// by `local_queue`, which takes the references that are found.
pub(crate) fn trace_object(
    obj: ObjectReference,
    local_queue: &mut Vec<ObjectReference>,
    space: &mut ImmixSpace,
    Ghost(rest): Ghost<Seq<ObjectReference>>,
    Ghost(before): Ghost<ImmixSpaceView>,
    Ghost(roots): Ghost<Seq<ObjectReference>>,
    Ghost(visited): Ghost<Set<int>>,
) -> (r: Result<Ghost<Set<int>>, TraceError>)
    requires
        old(space).wf(),
        tracing(before, old(space)@, roots, (rest + old(local_queue)@).push(obj), visited),
    ensures
        final(space).wf(),
        marks_kept(before, final(space)@),
        final(local_queue)@.len() >= old(local_queue)@.len(),
        final(local_queue)@.take(old(local_queue)@.len() as int) == old(local_queue)@,
        match r {
            Ok(v) => tracing(before, final(space)@, roots, rest + final(local_queue)@, v@)
                && progress(
                old(space)@,
                (rest + old(local_queue)@).push(obj),
                final(space)@,
                rest + final(local_queue)@,
            ),
            Err(e) => e == TraceError::Malformed(obj) && before.contains(obj@) && reachable(
                before,
                roots,
                obj@,
            ) && ref_fields(before, obj@) is None,
        },
{
    let ghost s0 = space@;
    let ghost q0 = rest + local_queue@;
    let addr = obj.to_address();
    proof {
        assert(local_queue@.take(local_queue@.len() as int) =~= local_queue@);
    }
    proof {
        assert(q0.push(obj).drop_last() =~= q0);
    }
    if !space.addr_in_space(addr) {
        proof {
            lemma_skip_object(before, s0, roots, q0, visited, obj);
        }
        return Ok(Ghost(visited));
    }
    space.mark_as_traced(addr);
    space.mark_line_live(addr);
    let ghost s1 = space@;
    proof {
        reveal(with_mark);
        assert(s1 == with_mark(s0, obj@));
        lemma_start_object(before, s0, roots, q0, visited, obj);
        let word = s0.word_of(obj@);
        if s0.is_traced(obj@) {
            assert(s1.trace_cells =~= s0.trace_cells);
            lemma_stale_frame(s0, s1, q0);
        } else {
            lemma_mark_counts(s0.trace_cells, s0.mark_state, word);
        }
        assert(grown(s1, q0, q0, Seq::<int>::empty())) by {
            assert(q0.take(q0.len() as int) =~= q0);
        }
    }
    let end = space.end();
    let mut base = addr;
    let ghost mut seen: Seq<int> = Seq::empty();
    proof {
        match ref_fields(before, base@) {
            Some(rest) => {
                assert(seen + rest =~= rest);
            },
            None => {},
        }
    }
    loop
        invariant
            space.wf(),
            space@ == s1,
            s1.wf(),
            end@ == s1.end,
            s1.contains(base@),
            s1.contains(obj@),
            grown(s1, q0, rest + local_queue@, seen),
            fields_settled(s1, rest + local_queue@, seen),
            local_queue@.len() >= old(local_queue)@.len(),
            local_queue@.take(old(local_queue)@.len() as int) == old(local_queue)@,
            ref_fields(before, obj@) == match ref_fields(before, base@) {
                Some(rest) => Some(seen + rest),
                None => None,
            },
            visiting(before, s1, roots, q0, visited, obj@),
            q0 == rest + old(local_queue)@,
            s0 == old(space)@,
            tracing(before, s0, roots, q0.push(obj), visited),
            s0.is_traced(obj@) ==> untraced_count(s1.trace_cells, s1.mark_state) == untraced_count(
                s0.trace_cells,
                s0.mark_state,
            ) && stale_count(s1, q0) == stale_count(s0, q0),
            !s0.is_traced(obj@) ==> untraced_count(s1.trace_cells, s1.mark_state) < untraced_count(
                s0.trace_cells,
                s0.mark_state,
            ),
            s0.contains(obj@),
            s0.is_traced(obj@) ==> stale_count(s0, q0.push(obj)) == stale_count(s0, q0) + 1,
        decreases s1.end - base@,
    {
        let value = space.get_ref_byte(base);
        let (bits, short_encode) = decode(value);
        proof {
            lemma_ref_fields(before, base@);
        }
        let count: usize = if bits == 0b0000_0001 {
            1
        } else if bits == 0b0000_0011 {
            2
        } else if bits == 0b0000_1111 {
            4
        } else {
            return Err(TraceError::Malformed(obj));
        };
        if count * 8 > end.diff(base) {
            return Err(TraceError::Malformed(obj));
        }
        let ghost here = Seq::new(count as nat, |i: int| base@ + 8 * i);
        let mut i: usize = 0;
        proof {
            assert(seen + here.take(0) =~= seen);
        }
        while i < count
            invariant
                i <= count <= 4,
                count * 8 <= s1.end - base@,
                space.wf(),
                space@ == s1,
                s1.wf(),
                s1.contains(base@),
                here == Seq::new(count as nat, |i: int| base@ + 8 * i),
                grown(s1, q0, rest + local_queue@, seen + here.take(i as int)),
                fields_settled(s1, rest + local_queue@, seen + here.take(i as int)),
                local_queue@.len() >= old(local_queue)@.len(),
                local_queue@.take(old(local_queue)@.len() as int) == old(local_queue)@,
            decreases count - i,
        {
            let ghost earlier = local_queue@;
            process_edge(
                base.plus(8 * i),
                local_queue,
                space,
                Ghost(rest),
                Ghost(q0),
                Ghost(seen + here.take(i as int)),
            );
            proof {
                assert(local_queue@.take(old(local_queue)@.len() as int) =~= earlier.take(
                    old(local_queue)@.len() as int,
                ));
                assert((seen + here.take(i as int)).push(base@ + 8 * i) =~= seen + here.take(
                    i as int + 1,
                ));
            }
            i += 1;
        }
        proof {
            assert(here.take(count as int) =~= here);
            match ref_fields(before, base@ + 48) {
                Some(rest) => {
                    assert((seen + here) + rest =~= seen + (here + rest));
                },
                None => {},
            }
            seen = seen + here;
        }
        if short_encode {
            proof {
                lemma_finish_object(
                    before,
                    s1,
                    roots,
                    q0,
                    rest + local_queue@,
                    visited,
                    obj@,
                    seen,
                );
                lemma_stale_grown(s1, q0, rest + local_queue@);
            }
            return Ok(Ghost(visited.insert(obj@)));
        }
        if 48 >= end.diff(base) {
            return Err(TraceError::Malformed(obj));
        }
        base = base.plus(48);
    }
}

/// Traces from the roots in `local_queue`: every object that the trace meets
/// is marked traced and its line live, until the queue is empty. A root or a
/// reference that points outside the space is passed over. The trace stops
/// with an error at the first object it meets whose encoding is malformed.
pub fn start_trace(local_queue: &mut Vec<ObjectReference>, space: &mut ImmixSpace) -> (r: Result<
    (),
    TraceError,
>)
    requires
        old(space).wf(),
    ensures
        final(space).wf(),
        marks_kept(old(space)@, final(space)@),
        match r {
            Ok(_) => traced(old(space)@, final(space)@, old(local_queue)@)
                && final(local_queue)@.len() == 0,
            Err(e) => e matches TraceError::Malformed(obj) && old(space)@.contains(obj@)
                && reachable(old(space)@, old(local_queue)@, obj@) && ref_fields(
                old(space)@,
                obj@,
            ) is None,
        },
{
    broadcast use ImmixSpace::lemma_wf;

    let ghost before = space@;
    let ghost roots = local_queue@;
    let ghost mut visited: Set<int> = Set::empty();
    proof {
        lemma_tracing_start(before, roots);
    }
    while local_queue.len() > 0
        invariant
            space.wf(),
            before == old(space)@,
            roots == old(local_queue)@,
            tracing(before, space@, roots, local_queue@, visited),
        decreases
                untraced_count(space@.trace_cells, space@.mark_state),
                stale_count(space@, local_queue@),
    {
        let ghost queue = local_queue@;
        let obj = local_queue.pop().unwrap();
        proof {
            assert(local_queue@.push(obj) =~= queue);
        }
        proof {
            assert(Seq::<ObjectReference>::empty() + local_queue@ =~= local_queue@);
        }
        let traced_one = trace_object(
            obj,
            local_queue,
            space,
            Ghost(Seq::empty()),
            Ghost(before),
            Ghost(roots),
            Ghost(visited),
        );
        proof {
            assert(Seq::<ObjectReference>::empty() + local_queue@ =~= local_queue@);
        }
        match traced_one {
            Ok(v) => {
                proof {
                    visited = v@;
                }
            },
            Err(e) => {
                return Err(e);
            },
        }
    }
    proof {
        assert(local_queue@ =~= Seq::<ObjectReference>::empty());
    }
    Ok(())
}

/// No object that can be reached from `roots` counts as traced in `space`,
/// and every reference to such an object is a multiple of the word size above
/// the start of the space.
pub open spec fn ready_to_trace(space: ImmixSpaceView, roots: Seq<ObjectReference>) -> bool {
    forall|a: int| #[trigger]
        reachable(space, roots, a) ==> !space.is_traced(a) && (a - space.start) % 8 == 0
}

/// Two addresses in the same word that are both multiples of the word size
/// above the start of the space are the same address.
proof fn lemma_same_word(start: int, a: int, b: int)
    requires
        start <= a,
        start <= b,
        (a - start) / 8 == (b - start) / 8,
        (a - start) % 8 == 0,
        (b - start) % 8 == 0,
    ensures
        a == b,
{
}

/// A reference into the space that a visited object holds points to a traced
/// object, once a trace has nothing left to visit.
proof fn lemma_child_traced(
    before: ImmixSpaceView,
    after: ImmixSpaceView,
    roots: Seq<ObjectReference>,
    visited: Set<int>,
    parent: int,
    child: int,
)
    requires
        tracing(before, after, roots, Seq::<ObjectReference>::empty(), visited),
        visited.contains(parent),
        is_child(before, parent, child),
    ensures
        after.contains(child),
        after.is_traced(child),
        0 <= after.word_of(child) < after.trace_cells.len(),
        after.trace_cells.len() == before.trace_cells.len(),
        after.start == before.start,
        after.mark_state == before.mark_state,
{
    let empty = Seq::<ObjectReference>::empty();
    reveal(is_child);
    let fields = ref_fields(before, parent)->0;
    let i = choose|i: int|
        0 <= i < fields.len() && word_at(before.memory, #[trigger] fields[i] - before.start)
            == child;
    assert(fields_settled(after, empty, fields));
    assert(child_settled(after, empty, word_at(after.memory, fields[i] - after.start)));
    assert(!in_queue(empty, child));
    after.lemma_layout();
}

/// The visited object to which a trace byte belongs that a trace has changed.
proof fn lemma_slot_owner(
    before: ImmixSpaceView,
    after: ImmixSpaceView,
    roots: Seq<ObjectReference>,
    visited: Set<int>,
    k: int,
) -> (owner: int)
    requires
        tracing(before, after, roots, Seq::<ObjectReference>::empty(), visited),
        0 <= k < after.trace_cells.len(),
        after.trace_cells[k] != before.trace_cells[k],
    ensures
        visited.contains(owner),
        after.word_of(owner) == k,
        after.contains(owner),
        reachable(before, roots, owner),
{
    assert(slot_visited(after, visited, k));
    let owner = choose|a: int| #[trigger] visited.contains(a) && after.word_of(a) == k;
    assert(object_marked(after, owner));
    owner
}

/// An object to which a visited object holds a reference has been visited
/// itself, by a trace that has nothing left to visit.
proof fn lemma_child_visited(
    before: ImmixSpaceView,
    after: ImmixSpaceView,
    roots: Seq<ObjectReference>,
    visited: Set<int>,
    parent: int,
    child: int,
)
    requires
        tracing(before, after, roots, Seq::<ObjectReference>::empty(), visited),
        ready_to_trace(before, roots),
        visited.contains(parent),
        is_child(before, parent, child),
        reachable(before, roots, child),
    ensures
        visited.contains(child),
{
    lemma_child_traced(before, after, roots, visited, parent, child);
    let k = after.word_of(child);
    assert(!before.is_traced(child));
    assert(after.trace_cells[k] != before.trace_cells[k]);
    let owner = lemma_slot_owner(before, after, roots, visited, k);
    lemma_same_word(before.start, owner, child);
}

/// A path without its last object is a path.
proof fn lemma_path_prefix(space: ImmixSpaceView, roots: Seq<ObjectReference>, path: Seq<int>)
    requires
        is_path(space, roots, path),
        path.len() > 1,
    ensures
        is_path(space, roots, path.drop_last()),
        is_child(space, path.drop_last().last(), path.last()),
        reachable(space, roots, path.last()),
{
    let shorter = path.drop_last();
    assert forall|i: int| 0 <= i < shorter.len() - 1 implies is_child(
        space,
        #[trigger] shorter[i],
        shorter[i + 1],
    ) by {
        assert(is_child(space, path[i], path[i + 1]));
    }
    assert(shorter[0] == path[0]);
    assert(is_child(space, path[path.len() - 2], path[path.len() - 2 + 1]));
    assert(reachable(space, roots, path.last())) by {
        reveal(reachable);
    }
}

/// The last object of a path from the roots has been visited by a trace that
/// has nothing left to visit.
proof fn lemma_path_visited(
    before: ImmixSpaceView,
    after: ImmixSpaceView,
    roots: Seq<ObjectReference>,
    visited: Set<int>,
    path: Seq<int>,
)
    requires
        tracing(before, after, roots, Seq::<ObjectReference>::empty(), visited),
        ready_to_trace(before, roots),
        is_path(before, roots, path),
    ensures
        visited.contains(path.last()),
    decreases path.len(),
{
    let empty = Seq::<ObjectReference>::empty();
    if path.len() == 1 {
        let i = choose|i: int| 0 <= i < roots.len() && (#[trigger] roots[i])@ == path[0];
        assert(after.contains(roots[i]@));
        assert(!in_queue(empty, roots[i]@));
    } else {
        lemma_path_prefix(before, roots, path);
        lemma_path_visited(before, after, roots, visited, path.drop_last());
        lemma_child_visited(
            before,
            after,
            roots,
            visited,
            path.drop_last().last(),
            path.last(),
        );
    }
}

/// A trace marks every object that can be reached from its roots: the trace
/// byte of the object holds the mark state, its line is `Live`, and the line
/// after it, if there is one, is `Live` or `ConservLive`. This holds of a
/// space in which no object that can be reached counted as traced when the
/// trace began, and in which references are multiples of the word size above
/// the start of the space.
pub proof fn lemma_trace_marks_reachable(
    before: ImmixSpaceView,
    after: ImmixSpaceView,
    roots: Seq<ObjectReference>,
    addr: int,
)
    requires
        traced(before, after, roots),
        ready_to_trace(before, roots),
        reachable(before, roots, addr),
    ensures
        object_marked(after, addr),
        after.trace_cells[after.word_of(addr)] == before.mark_state,
{
    let visited = choose|visited: Set<int>| #[trigger]
        tracing(before, after, roots, Seq::<ObjectReference>::empty(), visited);
    reveal(reachable);
    let path = choose|path: Seq<int>| is_path(before, roots, path) && #[trigger] path.last() == addr;
    lemma_path_visited(before, after, roots, visited, path);
}

/// A trace that ends without error has met no malformed object: every object
/// that can be reached from its roots has a well-formed encoding. This holds
/// under the conditions of `lemma_trace_marks_reachable`.
pub proof fn lemma_trace_meets_well_formed(
    before: ImmixSpaceView,
    after: ImmixSpaceView,
    roots: Seq<ObjectReference>,
    addr: int,
)
    requires
        traced(before, after, roots),
        ready_to_trace(before, roots),
        reachable(before, roots, addr),
    ensures
        ref_fields(before, addr) is Some,
{
    let visited = choose|visited: Set<int>| #[trigger]
        tracing(before, after, roots, Seq::<ObjectReference>::empty(), visited);
    reveal(reachable);
    let path = choose|path: Seq<int>| is_path(before, roots, path) && #[trigger] path.last() == addr;
    lemma_path_visited(before, after, roots, visited, path);
}

/// A trace marks the objects that can be reached from its roots and no
/// others: after it, an address counts as traced exactly where its word is
/// that of an object that can be reached. So the number of traced words is
/// the number of objects that can be reached. This holds of a space in which
/// nothing counted as traced when the trace began, and in which references
/// are multiples of the word size above the start of the space.
pub proof fn lemma_traced_are_the_reachable(
    before: ImmixSpaceView,
    after: ImmixSpaceView,
    roots: Seq<ObjectReference>,
    addr: int,
)
    requires
        traced(before, after, roots),
        ready_to_trace(before, roots),
        forall|a: int| before.contains(a) ==> !#[trigger] before.is_traced(a),
        before.contains(addr),
    ensures
        after.is_traced(addr) <==> exists|a: int| #[trigger]
            reachable(before, roots, a) && before.contains(a) && before.word_of(a)
                == before.word_of(addr),
{
    let visited = choose|visited: Set<int>| #[trigger]
        tracing(before, after, roots, Seq::<ObjectReference>::empty(), visited);
    before.lemma_layout();
    let k = before.word_of(addr);
    assert(0 <= k < before.trace_cells.len());
    if after.is_traced(addr) {
        assert(!before.is_traced(addr));
        assert(after.trace_cells[k] != before.trace_cells[k]);
        let owner = lemma_slot_owner(before, after, roots, visited, k);
        assert(reachable(before, roots, owner) && before.contains(owner) && before.word_of(owner)
            == before.word_of(addr));
    }
    if exists|a: int| #[trigger]
        reachable(before, roots, a) && before.contains(a) && before.word_of(a) == before.word_of(
            addr,
        ) {
        let a = choose|a: int| #[trigger]
            reachable(before, roots, a) && before.contains(a) && before.word_of(a)
                == before.word_of(addr);
        lemma_trace_marks_reachable(before, after, roots, a);
    }
}

} // verus!
