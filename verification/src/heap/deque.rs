//! The queues of work: the injector queue, in which the Immix space keeps its
//! idle blocks and a parallel trace its references, and the deque of one
//! worker of such a trace.
use crossbeam::deque::{Injector, Steal, Worker};
use vstd::prelude::*;

verus! {

#[verifier::external_type_specification]
#[verifier::external_body]
#[verifier::reject_recursive_types(T)]
pub struct ExInjector<T>(Injector<T>);

/// The items waiting in a queue, the one that leaves next first.
pub uninterp spec fn queued(queue: Injector<usize>) -> Seq<usize>;

/// What one attempt to take an item from a queue came to.
#[derive(Clone, Copy, Debug, PartialEq, Eq, Structural)]
pub enum Stolen {
    /// The queue held nothing.
    Empty,
    /// The item that was taken.
    Success(usize),
    /// Nothing was taken and the attempt has to be made again.
    Retry,
}

/// `Injector::new`: a queue that holds nothing.
#[verifier::external_body]
pub(crate) fn new_queue() -> (r: Injector<usize>)
    ensures
        queued(r) == Seq::<usize>::empty(),
{
    Injector::new()
}

/// `Injector::push`: `item` joins the queue behind all that wait in it.
#[verifier::external_body]
pub(crate) fn push(queue: &mut Injector<usize>, item: usize)
    ensures
        queued(*final(queue)) == queued(*old(queue)).push(item),
{
    queue.push(item);
}

/// `Injector::steal`, on a queue that no other thread can reach: takes the
/// item at the front, or reports that the queue is empty, or gives up without
/// having changed the queue.
#[verifier::external_body]
pub(crate) fn steal(queue: &mut Injector<usize>) -> (r: Stolen)
    ensures
        match r {
            Stolen::Empty => queued(*old(queue)).len() == 0
                && queued(*final(queue)) == queued(*old(queue)),
            Stolen::Success(item) => queued(*old(queue)).len() > 0
                && item == queued(*old(queue))[0]
                && queued(*final(queue)) == queued(*old(queue)).skip(1),
            Stolen::Retry => queued(*final(queue)) == queued(*old(queue)),
        },
{
    match queue.steal() {
        Steal::Empty => Stolen::Empty,
        Steal::Success(item) => Stolen::Success(item),
        Steal::Retry => Stolen::Retry,
    }
}

/// `Injector::len`: the number of items that wait in the queue.
#[verifier::external_body]
pub(crate) fn queue_len(queue: &Injector<usize>) -> (r: usize)
    ensures
        r == queued(*queue).len(),
{
    queue.len()
}

/// How often in a row an attempt to take an item is made before giving up.
pub const STEAL_ATTEMPTS: usize = 64;

/// Takes the item at the front of the queue, in `STEAL_ATTEMPTS` attempts at
/// most. The answer is `Empty` exactly where the queue holds nothing. Else it
/// is the item at the front, which leaves the queue, or `Retry` where every
/// attempt was turned away: the queue then holds what it held.
pub(crate) fn take(queue: &mut Injector<usize>) -> (r: Stolen)
    ensures
        r == Stolen::Empty <==> queued(*old(queue)).len() == 0,
        match r {
            Stolen::Empty => queued(*final(queue)) == queued(*old(queue)),
            Stolen::Success(item) => queued(*old(queue)).len() > 0
                && item == queued(*old(queue))[0]
                && queued(*final(queue)) == queued(*old(queue)).skip(1),
            Stolen::Retry => queued(*old(queue)).len() > 0
                && queued(*final(queue)) == queued(*old(queue)),
        },
{
    let ghost before = queued(*queue);
    let mut attempts: usize = 0;
    while attempts < STEAL_ATTEMPTS
        invariant
            queued(*queue) == before,
            before == queued(*old(queue)),
        decreases STEAL_ATTEMPTS - attempts,
    {
        match steal(queue) {
            Stolen::Retry => {
                attempts += 1;
            },
            Stolen::Empty => {
                return Stolen::Empty;
            },
            Stolen::Success(item) => {
                return Stolen::Success(item);
            },
        }
    }
    // Every attempt was turned away. An empty queue has nothing to take,
    // whatever the attempts came to.
    if queue_len(queue) == 0 {
        Stolen::Empty
    } else {
        Stolen::Retry
    }
}

#[verifier::external_type_specification]
#[verifier::external_body]
#[verifier::reject_recursive_types(T)]
pub struct ExWorker<T>(Worker<T>);

/// The items in the deque of a worker, the one that was put there first
/// first.
pub uninterp spec fn held(worker: Worker<usize>) -> Seq<usize>;

/// The worker takes its items out in the order in which they came in.
pub uninterp spec fn is_fifo(worker: Worker<usize>) -> bool;

/// `Worker::new_fifo`: a worker that holds nothing and takes its items out in
/// the order in which they come in.
#[verifier::external_body]
pub(crate) fn new_worker() -> (r: Worker<usize>)
    ensures
        is_fifo(r) && held(r).len() == 0,
{
    Worker::new_fifo()
}

/// `Worker::pop`, on a worker that takes its items out in the order in which
/// they came in and from which no other thread steals: takes the item that
/// came in first, or answers `None` where the worker holds nothing.
#[verifier::external_body]
pub(crate) fn pop(worker: &mut Worker<usize>) -> (r: Option<usize>)
    requires
        is_fifo(*old(worker)),
    ensures
        is_fifo(*final(worker)),
        match r {
            Some(item) => held(*old(worker)).len() > 0 && item == held(*old(worker))[0]
                && held(*final(worker)) == held(*old(worker)).skip(1),
            None => held(*old(worker)).len() == 0 && held(*final(worker)) == held(*old(worker)),
        },
{
    worker.pop()
}

/// `Injector::steal_batch_and_pop`, on a queue that no other thread can reach
/// and a worker that takes its items out in the order in which they came in:
/// takes some items from the front of the queue, one at least, answers with
/// the first of them and puts the others, in their order, behind the items of
/// the worker; or reports that the queue is empty; or gives up without having
/// changed the queue or the worker. How many items are taken is not known
/// here.
#[verifier::external_body]
pub(crate) fn steal_batch_and_pop(queue: &mut Injector<usize>, dest: &mut Worker<usize>) -> (r:
    Stolen)
    requires
        is_fifo(*old(dest)),
    ensures
        is_fifo(*final(dest)),
        match r {
            Stolen::Empty => queued(*old(queue)).len() == 0
                && queued(*final(queue)) == queued(*old(queue))
                && held(*final(dest)) == held(*old(dest)),
            Stolen::Success(item) => exists|count: int|
                1 <= count <= queued(*old(queue)).len() && item == queued(*old(queue))[0]
                    && #[trigger] queued(*old(queue)).skip(count) == queued(*final(queue))
                    && held(*final(dest)) == held(*old(dest))
                    + queued(*old(queue)).subrange(1, count),
            Stolen::Retry => queued(*final(queue)) == queued(*old(queue))
                && held(*final(dest)) == held(*old(dest)),
        },
{
    match queue.steal_batch_and_pop(dest) {
        Steal::Empty => Stolen::Empty,
        Steal::Success(item) => Stolen::Success(item),
        Steal::Retry => Stolen::Retry,
    }
}

} // verus!
