//! The marker in the shape of a parallel trace: the references to visit wait in
//! an injector queue that workers share, and each worker takes batches of them
//! into a deque of its own. A worker visits an object as the single-threaded
//! marker does, and puts the references that it finds back into the injector
//! queue.
use crate::common::ObjectReference;
use crate::heap::deque::{
    held, is_fifo, new_queue, new_worker, pop, push, queued, steal_batch_and_pop, Stolen,
    STEAL_ATTEMPTS,
};
use crate::heap::gc::single_thread_trace::{
    child_settled, fields_settled, in_queue, marks_kept, object_marked, progress, stale_count,
    trace_object, traced, tracing, untraced_count, TraceError,
};
use crate::heap::immix::immix_space::{word_at, ImmixSpaceView};
use crate::heap::immix::ImmixSpace;
use crate::objectmodel::{reachable, ref_fields};
use crossbeam::deque::{Injector, Worker};
use vstd::prelude::*;

verus! {

/// How a parallel trace ended that did not run to its end.
#[derive(PartialEq, Eq, Structural, Debug, Copy, Clone)]
pub enum ParallelTraceError {
    /// The trace met an object whose encoding is malformed.
    Malformed(ObjectReference),
    /// The injector queue turned the worker away `STEAL_ATTEMPTS` times in a
    /// row.
    Contended,
}

/// What a worker that finds no work does next.
#[derive(PartialEq, Eq, Structural, Debug, Copy, Clone)]
pub enum IdleAction {
    /// Work has come in: the worker counts as active again and goes on.
    Resume,
    /// No work is left and no worker is active: the trace is over.
    Exit,
    /// No work has come in, but a worker is active and may find some: wait.
    Wait,
}

/// What a worker does that found the injector queue empty and no longer counts
/// as active: it goes on if work has come in, ends if no worker is active,
/// and waits otherwise.
pub fn idle_action(injector_is_empty: bool, active_threads: usize) -> (r: IdleAction)
    ensures
        r == if !injector_is_empty {
            IdleAction::Resume
        } else if active_threads == 0 {
            IdleAction::Exit
        } else {
            IdleAction::Wait
        },
{
    if !injector_is_empty {
        IdleAction::Resume
    } else if active_threads == 0 {
        IdleAction::Exit
    } else {
        IdleAction::Wait
    }
}

/// The references that the items of a queue stand for.
pub open spec fn refs(items: Seq<usize>) -> Seq<ObjectReference> {
    Seq::new(items.len(), |i: int| ObjectReference::at(items[i] as int))
}

/// Two queues hold the same references.
spec fn same_members(a: Seq<ObjectReference>, b: Seq<ObjectReference>) -> bool {
    forall|addr: int| in_queue(a, addr) <==> in_queue(b, addr)
}

/// The state of a trace does not depend on the order of its queue.
proof fn lemma_tracing_members(
    before: ImmixSpaceView,
    now: ImmixSpaceView,
    roots: Seq<ObjectReference>,
    a: Seq<ObjectReference>,
    b: Seq<ObjectReference>,
    visited: Set<int>,
)
    requires
        tracing(before, now, roots, a, visited),
        same_members(a, b),
    ensures
        tracing(before, now, roots, b, visited),
{
    assert forall|x: int| #[trigger] visited.contains(x) implies object_marked(now, x) && reachable(
        before,
        roots,
        x,
    ) && (ref_fields(before, x) matches Some(fs) && fields_settled(now, b, fs)) by {
        let fs = ref_fields(before, x)->0;
        assert(fields_settled(now, a, fs));
        assert forall|i: int| 0 <= i < fs.len() implies child_settled(
            now,
            b,
            word_at(now.memory, #[trigger] fs[i] - now.start),
        ) by {
            let child = word_at(now.memory, fs[i] - now.start);
            assert(child_settled(now, a, child));
            assert(in_queue(a, child) <==> in_queue(b, child));
        }
    }
    assert forall|j: int| 0 <= j < b.len() && now.contains((#[trigger] b[j])@) implies reachable(
        before,
        roots,
        b[j]@,
    ) by {
        assert(in_queue(b, b[j]@));
        assert(in_queue(a, b[j]@));
        let k = choose|k: int| 0 <= k < a.len() && (#[trigger] a[k])@ == b[j]@;
        assert(reachable(before, roots, a[k]@));
    }
    assert forall|i: int|
        0 <= i < roots.len() && now.contains((#[trigger] roots[i])@) implies visited.contains(
            roots[i]@,
        ) || in_queue(b, roots[i]@) by {
        assert(in_queue(a, roots[i]@) <==> in_queue(b, roots[i]@));
    }
}

/// The stale entries of two queues, one behind the other, are those of the
/// one and those of the other.
proof fn lemma_stale_add(space: ImmixSpaceView, a: Seq<ObjectReference>, b: Seq<ObjectReference>)
    ensures
        stale_count(space, a + b) == stale_count(space, a) + stale_count(space, b),
    decreases b.len(),
{
    if b.len() == 0 {
        assert(a + b =~= a);
    } else {
        lemma_stale_add(space, a, b.drop_last());
        assert((a + b).drop_last() =~= a + b.drop_last());
        assert((a + b).last() == b.last());
    }
}

/// Taking one entry out of a queue, at whatever place, and putting it at the
/// end leaves the state of the trace and the count of stale entries as they
/// were.
proof fn lemma_move_to_end(
    before: ImmixSpaceView,
    now: ImmixSpaceView,
    roots: Seq<ObjectReference>,
    front: Seq<ObjectReference>,
    obj: ObjectReference,
    back: Seq<ObjectReference>,
    visited: Set<int>,
)
    requires
        tracing(before, now, roots, front + seq![obj] + back, visited),
    ensures
        tracing(before, now, roots, (front + back).push(obj), visited),
        stale_count(now, (front + back).push(obj)) == stale_count(
            now,
            front + seq![obj] + back,
        ),
{
    let from = front + seq![obj] + back;
    let to = (front + back).push(obj);
    assert forall|addr: int| in_queue(from, addr) <==> in_queue(to, addr) by {
        if in_queue(from, addr) {
            let j = choose|j: int| 0 <= j < from.len() && (#[trigger] from[j])@ == addr;
            if j < front.len() {
                assert(to[j] == from[j]);
            } else if j == front.len() {
                assert(to[to.len() - 1] == from[j]);
            } else {
                assert(to[j - 1] == from[j]);
            }
        }
        if in_queue(to, addr) {
            let j = choose|j: int| 0 <= j < to.len() && (#[trigger] to[j])@ == addr;
            if j < front.len() {
                assert(from[j] == to[j]);
            } else if j == to.len() - 1 {
                assert(from[front.len() as int] == to[j]);
            } else {
                assert(from[j + 1] == to[j]);
            }
        }
    }
    lemma_tracing_members(before, now, roots, from, to, visited);
    lemma_stale_add(now, front + seq![obj], back);
    lemma_stale_add(now, front, seq![obj]);
    lemma_stale_add(now, front, back);
    lemma_stale_add(now, front + back, seq![obj]);
    assert(to =~= (front + back) + seq![obj]);
}

/// How a worker of a parallel trace left off.
#[derive(PartialEq, Eq, Structural, Debug, Copy, Clone)]
pub enum WorkerExit {
    /// No work is left and no worker is active: the trace is over.
    Finished,
    /// This worker found no work left, but other workers are active and may
    /// put references into the injector queue: it has to wait for that.
    Waiting,
}

/// Runs one worker of a parallel trace until the injector queue and the deque
/// of the worker are empty. The worker takes the reference that waits first in
/// its deque, or, if the deque is empty, a batch from the injector queue;
/// visits the object; and puts the references that it finds into the injector
/// queue. When it finds no work, it no longer counts among the active workers,
/// of which there are `active_threads`. The references that wait in the
/// injector queue at the start are the roots of what the worker traces.
pub fn worker_batch_steal_trace(
    injector: &mut Injector<usize>,
    active_threads: &mut usize,
    space: &mut ImmixSpace,
) -> (r: Result<WorkerExit, ParallelTraceError>)
    requires
        old(space).wf(),
        *old(active_threads) > 0,
    ensures
        final(space).wf(),
        marks_kept(old(space)@, final(space)@),
        match r {
            Ok(exit) => {
                &&& traced(old(space)@, final(space)@, refs(queued(*old(injector))))
                &&& queued(*final(injector)).len() == 0
                &&& *final(active_threads) == *old(active_threads) - 1
                &&& exit == if *final(active_threads) == 0 {
                    WorkerExit::Finished
                } else {
                    WorkerExit::Waiting
                }
            },
            Err(ParallelTraceError::Malformed(obj)) => old(space)@.contains(obj@) && reachable(
                old(space)@,
                refs(queued(*old(injector))),
                obj@,
            ) && ref_fields(old(space)@, obj@) is None && *final(active_threads) == *old(active_threads),
            Err(ParallelTraceError::Contended) => *final(active_threads) == *old(active_threads),
        },
{
    let ghost before = space@;
    let ghost roots = refs(queued(*injector));
    proof {
        space.lemma_wf();
        crate::heap::gc::single_thread_trace::lemma_tracing_start(before, roots);
    }
    let mut worker = new_worker();
    let ghost mut visited: Set<int> = Set::empty();
    let mut attempts: usize = 0;
    proof {
        assert(held(worker) =~= Seq::<usize>::empty());
        assert(refs(held(worker)) + refs(queued(*injector)) =~= refs(queued(*injector)));
    }
    loop
        invariant
            space.wf(),
            is_fifo(worker),
            attempts < STEAL_ATTEMPTS,
            *active_threads == *old(active_threads),
            *active_threads > 0,
            before == old(space)@,
            roots == refs(queued(*old(injector))),
            tracing(
                before,
                space@,
                roots,
                refs(held(worker)) + refs(queued(*injector)),
                visited,
            ),
        decreases
                untraced_count(space@.trace_cells, space@.mark_state),
                stale_count(space@, refs(held(worker)) + refs(queued(*injector))),
                STEAL_ATTEMPTS - attempts,
    {
        let ghost s0 = space@;
        let ghost w0 = held(worker);
        let ghost i0 = queued(*injector);
        let ghost q0 = refs(w0) + refs(i0);
        let next = match pop(&mut worker) {
            Some(item) => {
                proof {
                    let rest = refs(held(worker)) + refs(i0);
                    let front = Seq::<ObjectReference>::empty();
                    assert(q0 =~= front + seq![ObjectReference::at(item as int)] + rest);
                    assert(front + rest =~= rest);
                    lemma_move_to_end(
                        before,
                        s0,
                        roots,
                        front,
                        ObjectReference::at(item as int),
                        rest,
                        visited,
                    );
                }
                item
            },
            None => match steal_batch_and_pop(injector, &mut worker) {
                Stolen::Success(item) => {
                    proof {
                        let count = choose|count: int|
                            1 <= count <= i0.len() && item == i0[0] && #[trigger] i0.skip(count)
                                == queued(*injector) && held(worker) == w0 + i0.subrange(1, count);
                        let batch = refs(i0.subrange(1, count));
                        let tail = refs(i0.skip(count));
                        assert(refs(w0) =~= Seq::<ObjectReference>::empty());
                        assert(refs(held(worker)) =~= batch);
                        let front = Seq::<ObjectReference>::empty();
                        assert(q0 =~= front + seq![ObjectReference::at(item as int)] + (batch
                            + tail));
                        assert(front + (batch + tail) =~= batch + tail);
                        lemma_move_to_end(
                            before,
                            s0,
                            roots,
                            front,
                            ObjectReference::at(item as int),
                            batch + tail,
                            visited,
                        );
                    }
                    item
                },
                Stolen::Empty => {
                    proof {
                        assert(q0 =~= Seq::<ObjectReference>::empty());
                    }
                    *active_threads = *active_threads - 1;
                    return match idle_action(true, *active_threads) {
                        IdleAction::Exit => Ok(WorkerExit::Finished),
                        _ => Ok(WorkerExit::Waiting),
                    };
                },
                Stolen::Retry => {
                    attempts += 1;
                    if attempts >= STEAL_ATTEMPTS {
                        return Err(ParallelTraceError::Contended);
                    }
                    continue ;
                },
            },
        };
        attempts = 0;
        let obj = ObjectReference::from_usize(next);
        let ghost rest = refs(held(worker)) + refs(queued(*injector));
        let mut found: Vec<ObjectReference> = Vec::new();
        proof {
            ObjectReference::lemma_at(next as int);
            obj.lemma_same(ObjectReference::at(next as int));
            assert(rest + found@ =~= rest);
        }
        match trace_object(
            obj,
            &mut found,
            space,
            Ghost(rest),
            Ghost(before),
            Ghost(roots),
            Ghost(visited),
        ) {
            Ok(v) => {
                proof {
                    visited = v@;
                }
            },
            Err(TraceError::Malformed(bad)) => {
                return Err(ParallelTraceError::Malformed(bad));
            },
        }
        let ghost i1 = queued(*injector);
        let mut i: usize = 0;
        proof {
            assert(found@.take(0) =~= Seq::<ObjectReference>::empty());
            assert(refs(i1) + found@.take(0) =~= refs(i1));
        }
        while i < found.len()
            invariant
                i <= found@.len(),
                is_fifo(worker),
                refs(queued(*injector)) == refs(i1) + found@.take(i as int),
            decreases found@.len() - i,
        {
            let child = found[i];
            let ghost earlier = queued(*injector);
            push(injector, child.as_usize());
            proof {
                ObjectReference::lemma_view(child);
                ObjectReference::lemma_at(child@);
                child.lemma_same(ObjectReference::at(child@));
                assert(refs(earlier.push(child@ as usize)) =~= refs(earlier).push(child));
                assert(found@.take(i as int + 1) =~= found@.take(i as int).push(child));
                assert(refs(queued(*injector)) =~= refs(i1) + found@.take(i as int + 1));
            }
            i += 1;
        }
        proof {
            assert(found@.take(found@.len() as int) =~= found@);
            assert(refs(held(worker)) + refs(queued(*injector)) =~= rest + found@);
        }
    }
}

/// Traces from the roots in `work_stack` as a parallel trace does, with one
/// worker: the roots go into an injector queue, and the worker runs until the
/// queue is empty. Every object that the trace meets is marked traced and its
/// line live. The trace stops with an error at the first object it meets whose
/// encoding is malformed, or when the queue turns the worker away.
pub fn start_trace(work_stack: &mut Vec<ObjectReference>, space: &mut ImmixSpace) -> (r: Result<
    (),
    ParallelTraceError,
>)
    requires
        old(space).wf(),
    ensures
        final(space).wf(),
        marks_kept(old(space)@, final(space)@),
        final(work_stack)@.len() == 0,
        match r {
            Ok(_) => traced(old(space)@, final(space)@, old(work_stack)@),
            Err(ParallelTraceError::Malformed(obj)) => old(space)@.contains(obj@) && reachable(
                old(space)@,
                old(work_stack)@,
                obj@,
            ) && ref_fields(old(space)@, obj@) is None,
            Err(ParallelTraceError::Contended) => true,
        },
{
    broadcast use ImmixSpace::lemma_wf;

    let ghost before = space@;
    let ghost roots = work_stack@;
    let mut injector = new_queue();
    // The roots go into the queue in the order in which draining the stack
    // from its start gives them.
    let mut i: usize = 0;
    proof {
        assert(roots.take(0) =~= Seq::<ObjectReference>::empty());
        assert(refs(queued(injector)) =~= roots.take(0));
    }
    while i < work_stack.len()
        invariant
            i <= work_stack@.len(),
            work_stack@ == roots,
            refs(queued(injector)) == roots.take(i as int),
        decreases work_stack@.len() - i,
    {
        let root = work_stack[i];
        let ghost earlier = queued(injector);
        push(&mut injector, root.as_usize());
        proof {
            ObjectReference::lemma_view(root);
            ObjectReference::lemma_at(root@);
            root.lemma_same(ObjectReference::at(root@));
            assert(refs(earlier.push(root@ as usize)) =~= refs(earlier).push(root));
            assert(roots.take(i as int + 1) =~= roots.take(i as int).push(root));
        }
        i += 1;
    }
    work_stack.clear();
    proof {
        assert(roots.take(roots.len() as int) =~= roots);
    }
    let mut active_threads: usize = 1;
    match worker_batch_steal_trace(&mut injector, &mut active_threads, space) {
        Ok(_) => Ok(()),
        Err(e) => Err(e),
    }
}

} // verus!
