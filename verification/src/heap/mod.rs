//! The heap: the Immix space, the large-object space, and the collector that
//! keeps them.
use crate::common::{Address, ObjectReference};
use crate::heap::freelist::{FreeListSpace, FreeListSpaceView};
use crate::heap::immix::immix_space::ImmixSpaceView;
use crate::heap::immix::{ImmixMutatorGlobal, ImmixSpace};
use crate::heap::registry::entries;
use generational_arena::Arena;
use vstd::prelude::*;

pub mod deque;
pub mod freelist;
pub mod gc;
pub mod immix;
pub mod registry;

verus! {

/// The byte that fills the gap which an alignment leaves in front of an
/// object.
pub const ALIGNMENT_VALUE: u8 = 1;

/// The size of the heap where none is asked for: 500 MiB.
pub const DEFAULT_HEAP_SIZE: usize = 524288000;

/// The share of the heap, in hundredths, that the large-object space gets.
pub const LO_SPACE_PERCENT: usize = 20;

/// The sizes of the Immix space and of the large-object space in a heap of
/// `heap_size` bytes: the large-object space gets a fifth, the Immix space the
/// rest.
pub fn split_heap(heap_size: usize) -> (r: (usize, usize))
    ensures
        r.1 == heap_size / 5,
        r.0 == heap_size - heap_size / 5,
{
    let lo = heap_size / (100 / LO_SPACE_PERCENT);
    (heap_size - lo, lo)
}

/// The number that the decimal digits `digits` spell.
pub open spec fn decimal(digits: Seq<u8>) -> int
    decreases digits.len(),
{
    if digits.len() == 0 {
        0
    } else {
        10 * decimal(digits.drop_last()) + (digits.last() - 48)
    }
}

/// Every byte of `text` is a decimal digit.
pub open spec fn is_digits(text: Seq<u8>) -> bool {
    forall|i: int| 0 <= i < text.len() ==> 48 <= #[trigger] text[i] <= 57
}

/// The heap size in bytes that `value` asks for: `value` is a number of MiB in
/// decimal digits, one at least, followed by the letter `M`. `None` where it
/// has another form or the size does not fit.
pub open spec fn heap_size(value: Seq<u8>) -> Option<int> {
    if value.len() >= 2 && value.last() == 77 && is_digits(value.drop_last()) && decimal(
        value.drop_last(),
    ) * 1048576 <= usize::MAX {
        Some(decimal(value.drop_last()) * 1048576)
    } else {
        None
    }
}

/// More digits spell no smaller number.
proof fn lemma_decimal_grows(digits: Seq<u8>, count: int)
    requires
        is_digits(digits),
        0 <= count <= digits.len(),
    ensures
        0 <= decimal(digits.take(count)) <= decimal(digits),
    decreases digits.len() - count,
{
    if count == digits.len() {
        assert(digits.take(count) =~= digits);
        lemma_decimal_positive(digits);
    } else {
        lemma_decimal_grows(digits, count + 1);
        assert(digits.take(count + 1).drop_last() =~= digits.take(count));
        assert(digits.take(count + 1).last() == digits[count]);
        assert forall|i: int| 0 <= i < count implies 48 <= #[trigger] digits.take(count)[i]
            <= 57 by {
            assert(digits.take(count)[i] == digits[i]);
        }
        lemma_decimal_positive(digits.take(count));
    }
}

/// Digits spell a number that is not negative.
proof fn lemma_decimal_positive(digits: Seq<u8>)
    requires
        is_digits(digits),
    ensures
        0 <= decimal(digits),
    decreases digits.len(),
{
    if digits.len() > 0 {
        assert forall|i: int| 0 <= i < digits.len() - 1 implies 48 <= #[trigger] digits.drop_last()[i]
            <= 57 by {
            assert(digits.drop_last()[i] == digits[i]);
        }
        lemma_decimal_positive(digits.drop_last());
    }
}

/// Reads a heap size of the form `<N>M`, a number of MiB, and gives it in
/// bytes. The answer is `None` where `value` has another form or the size
/// does not fit.
pub fn parse_heap_size(value: &[u8]) -> (r: Option<usize>)
    ensures
        match r {
            Some(size) => heap_size(value@) == Some(size as int),
            None => heap_size(value@) is None,
        },
{
    let len = value.len();
    if len < 2 || value[len - 1] != 77 {
        return None;
    }
    let ghost digits = value@.drop_last();
    let limit: usize = usize::MAX / 1048576;
    let mut number: usize = 0;
    let mut i: usize = 0;
    assert(digits.take(0) =~= Seq::<u8>::empty());
    while i < len - 1
        invariant
            i <= len - 1,
            len == value@.len(),
            len >= 2,
            digits == value@.drop_last(),
            limit == usize::MAX / 1048576,
            is_digits(digits.take(i as int)),
            number == decimal(digits.take(i as int)),
            number <= limit,
        decreases len - 1 - i,
    {
        let byte = value[i];
        if byte < 48 || byte > 57 {
            assert(digits[i as int] == byte);
            return None;
        }
        let digit = (byte - 48) as usize;
        proof {
            assert(digits.take(i as int + 1).drop_last() =~= digits.take(i as int));
            assert(digits.take(i as int + 1).last() == byte);
            assert forall|j: int| 0 <= j < i + 1 implies 48 <= #[trigger] digits.take(
                i as int + 1,
            )[j] <= 57 by {
                if j < i {
                    assert(digits.take(i as int)[j] == digits[j]);
                }
            }
        }
        if number > (limit - digit) / 10 {
            proof {
                // The number spelled so far is too large, and more digits
                // make it no smaller.
                if is_digits(digits) {
                    lemma_decimal_grows(digits, i as int + 1);
                }
            }
            return None;
        }
        number = number * 10 + digit;
        i += 1;
    }
    proof {
        assert(digits.take(len as int - 1) =~= digits);
    }
    Some(number * 1048576)
}

/// The bytes `memory` with `value` in each place from `from` up to `to`.
pub open spec fn filled(memory: Seq<u8>, from: int, to: int, value: u8) -> Seq<u8> {
    Seq::new(memory.len(), |i: int| if from <= i < to { value } else { memory[i] })
}

/// Fills the bytes of the space from `start` up to `end` with
/// `ALIGNMENT_VALUE`.
pub fn fill_alignment_gap(space: &mut ImmixSpace, start: Address, end: Address)
    requires
        old(space).wf(),
        old(space)@.start <= start@ <= end@ <= old(space)@.end,
    ensures
        final(space).wf(),
        final(space)@ == (ImmixSpaceView {
            memory: filled(
                old(space)@.memory,
                start@ - old(space)@.start,
                end@ - old(space)@.start,
                ALIGNMENT_VALUE,
            ),
            ..old(space)@
        }),
{
    broadcast use ImmixSpace::lemma_wf;

    let ghost before = space@;
    let ghost from = start@ - before.start;
    let mut cursor = start;
    assert(before.memory =~= filled(before.memory, from, from, ALIGNMENT_VALUE));
    while cursor.as_usize() < end.as_usize()
        invariant
            space.wf(),
            before == old(space)@,
            before.wf(),
            from == start@ - before.start,
            before.start <= start@ <= cursor@ <= end@ <= before.end,
            space@ == (ImmixSpaceView {
                memory: filled(before.memory, from, cursor@ - before.start, ALIGNMENT_VALUE),
                ..before
            }),
        decreases end@ - cursor@,
    {
        space.store_byte(cursor, ALIGNMENT_VALUE);
        cursor = cursor.plus(1);
        assert(space@.memory =~= filled(
            before.memory,
            from,
            cursor@ - before.start,
            ALIGNMENT_VALUE,
        ));
    }
}

/// What a coordinator is.
pub ghost struct CoordinatorView {
    /// For each registered mutator, by its number: whether it has been asked
    /// to yield, and whether it is parked until the collection under way is
    /// over.
    pub mutators: Map<(usize, u64), (bool, bool)>,
    /// The mutator that runs the collection under way.
    pub controller: Option<(usize, u64)>,
    /// The number of mutators that are parked.
    pub parked: nat,
    /// The roots that the mutators have found for the collection under way.
    pub roots: Seq<ObjectReference>,
    /// The number of collections that have been completed.
    pub gc_count: nat,
}

impl CoordinatorView {
    /// The mutator with the number `id` is registered and has been asked to
    /// yield.
    pub open spec fn asked_to_yield(self, id: (usize, u64)) -> bool {
        self.mutators.contains_key(id) && self.mutators[id].0
    }

    /// The mutator with the number `id` is registered and parked.
    pub open spec fn is_parked(self, id: (usize, u64)) -> bool {
        self.mutators.contains_key(id) && self.mutators[id].1
    }
}

/// The coordinator of collections: it keeps the register of mutators and
/// carries the state of the collection under way.
pub struct Coordinator {
    mutators: Arena<(bool, bool)>,
    controller: Option<(usize, u64)>,
    parked: usize,
    roots: Vec<ObjectReference>,
    gc_count: usize,
}

impl View for Coordinator {
    type V = CoordinatorView;

    closed spec fn view(&self) -> CoordinatorView {
        CoordinatorView {
            mutators: entries(self.mutators),
            controller: self.controller,
            parked: self.parked as nat,
            roots: self.roots@,
            gc_count: self.gc_count as nat,
        }
    }
}

/// The mutators `mutators`, each asked to yield.
pub open spec fn all_yielding(mutators: Map<(usize, u64), (bool, bool)>) -> Map<
    (usize, u64),
    (bool, bool),
> {
    mutators.map_values(|flags: (bool, bool)| (true, flags.1))
}

/// The mutators `mutators`, each neither asked to yield nor parked.
pub open spec fn all_released(mutators: Map<(usize, u64), (bool, bool)>) -> Map<
    (usize, u64),
    (bool, bool),
> {
    mutators.map_values(|flags: (bool, bool)| (false, false))
}

impl Coordinator {
    /// The register holds a finite number of mutators.
    pub closed spec fn wf(&self) -> bool {
        entries(self.mutators).dom().finite()
    }

    /// The register of a well-formed coordinator is finite.
    pub broadcast proof fn lemma_wf(&self)
        requires
            #[trigger] self.wf(),
        ensures
            self@.mutators.dom().finite(),
    {
    }

    /// A coordinator with no mutator registered and no collection under way.
    pub fn new() -> (r: Coordinator)
        ensures
            r.wf(),
            r@ == (CoordinatorView {
                mutators: Map::empty(),
                controller: None,
                parked: 0,
                roots: Seq::empty(),
                gc_count: 0,
            }),
    {
        let mutators = crate::heap::registry::new_arena(1024);
        assert(entries(mutators) =~= Map::empty());
        Coordinator { mutators, controller: None, parked: 0, roots: Vec::new(), gc_count: 0 }
    }

    /// Asks every registered mutator to yield.
    pub fn trigger_gc(&mut self)
        requires
            old(self).wf(),
        ensures
            final(self).wf(),
            final(self)@ == (CoordinatorView {
                mutators: all_yielding(old(self)@.mutators),
                ..old(self)@
            }),
    {
        let ghost before = entries(self.mutators);
        let keys = crate::heap::registry::keys(&self.mutators);
        let mut i: usize = 0;
        while i < keys.len()
            invariant
                i <= keys@.len(),
                before == entries(old(self).mutators),
                forall|key: (usize, u64)| keys@.contains(key) <==> before.contains_key(key),
                keys@.no_duplicates(),
                entries(self.mutators).dom() == before.dom(),
                forall|j: int|
                    0 <= j < i ==> entries(self.mutators)[#[trigger] keys@[j]] == (
                        true,
                        before[keys@[j]].1,
                    ),
                forall|j: int|
                    i <= j < keys@.len() ==> entries(self.mutators)[#[trigger] keys@[j]]
                        == before[keys@[j]],
                self.controller == old(self).controller,
                self.parked == old(self).parked,
                self.roots == old(self).roots,
                self.gc_count == old(self).gc_count,
            decreases keys@.len() - i,
        {
            let key = keys[i];
            assert(keys@.contains(key));
            let flags = crate::heap::registry::get(&self.mutators, key);
            let still_blocked = match flags {
                Some(f) => f.1,
                None => false,
            };
            crate::heap::registry::set(&mut self.mutators, key, (true, still_blocked));
            assert(entries(self.mutators).dom() =~= before.dom());
            i += 1;
        }
        proof {
            let after = entries(self.mutators);
            assert forall|key: (usize, u64)| after.contains_key(key) implies #[trigger] after[key]
                == all_yielding(before)[key] by {
                assert(keys@.contains(key));
                let j = choose|j: int| 0 <= j < keys@.len() && keys@[j] == key;
                assert(after[keys@[j]] == (true, before[keys@[j]].1));
            }
            assert(after =~= all_yielding(before));
        }
    }

    /// Lets every registered mutator go: none is asked to yield or parked.
    fn release_all(&mut self)
        requires
            old(self).wf(),
        ensures
            final(self).wf(),
            final(self)@ == (CoordinatorView {
                mutators: all_released(old(self)@.mutators),
                ..old(self)@
            }),
    {
        let ghost before = entries(self.mutators);
        let keys = crate::heap::registry::keys(&self.mutators);
        let mut i: usize = 0;
        while i < keys.len()
            invariant
                i <= keys@.len(),
                before == entries(old(self).mutators),
                forall|key: (usize, u64)| keys@.contains(key) <==> before.contains_key(key),
                entries(self.mutators).dom() == before.dom(),
                forall|j: int|
                    0 <= j < i ==> entries(self.mutators)[#[trigger] keys@[j]] == (false, false),
                self.controller == old(self).controller,
                self.parked == old(self).parked,
                self.roots == old(self).roots,
                self.gc_count == old(self).gc_count,
            decreases keys@.len() - i,
        {
            let key = keys[i];
            assert(keys@.contains(key));
            let ghost now = entries(self.mutators);
            crate::heap::registry::set(&mut self.mutators, key, (false, false));
            assert(entries(self.mutators).dom() =~= before.dom());
            assert forall|j: int| 0 <= j < i + 1 implies entries(self.mutators)[#[trigger] keys@[j]]
                == (false, false) by {
                if j < i && keys@[j] != key {
                    assert(now[keys@[j]] == (false, false));
                }
            }
            i += 1;
        }
        proof {
            let after = entries(self.mutators);
            assert forall|key: (usize, u64)| after.contains_key(key) implies #[trigger] after[key]
                == all_released(before)[key] by {
                assert(keys@.contains(key));
                let j = choose|j: int| 0 <= j < keys@.len() && keys@[j] == key;
                assert(after[keys@[j]] == (false, false));
            }
            assert(after =~= all_released(before));
        }
    }

    /// Registers a mutator, neither asked to yield nor parked, and gives its
    /// number.
    pub fn add_mutator(&mut self) -> (r: (usize, u64))
        requires
            old(self).wf(),
        ensures
            final(self).wf(),
            !old(self)@.mutators.contains_key(r),
            final(self)@ == (CoordinatorView {
                mutators: old(self)@.mutators.insert(r, (false, false)),
                ..old(self)@
            }),
            final(self)@.mutators.dom().len() == old(self)@.mutators.dom().len() + 1,
    {
        crate::heap::registry::insert(&mut self.mutators, (false, false))
    }

    /// Takes the mutator with the number `id` off the register.
    pub fn remove_mutator(&mut self, id: (usize, u64))
        requires
            old(self).wf(),
        ensures
            final(self).wf(),
            final(self)@ == (CoordinatorView {
                mutators: old(self)@.mutators.remove(id),
                ..old(self)@
            }),
            old(self)@.mutators.contains_key(id) ==> final(self)@.mutators.dom().len() + 1
                == old(self)@.mutators.dom().len(),
    {
        let _ = crate::heap::registry::remove(&mut self.mutators, id);
    }

    /// The number of registered mutators.
    pub fn mutators_registered(&self) -> (r: usize)
        ensures
            r == self@.mutators.dom().len(),
    {
        crate::heap::registry::len(&self.mutators)
    }

    /// Whether the mutator with the number `id` is registered.
    pub fn is_registered(&self, id: (usize, u64)) -> (r: bool)
        ensures
            r == self@.mutators.contains_key(id),
    {
        crate::heap::registry::get(&self.mutators, id).is_some()
    }

    /// Whether the mutator with the number `id` has been asked to yield; a
    /// mutator that is not registered has not.
    pub fn take_yield(&self, id: (usize, u64)) -> (r: bool)
        ensures
            r == self@.asked_to_yield(id),
    {
        match crate::heap::registry::get(&self.mutators, id) {
            Some(flags) => flags.0,
            None => false,
        }
    }

    /// Whether the mutator with the number `id` is parked until the
    /// collection under way is over; a mutator that is not registered is not.
    pub fn is_still_blocked(&self, id: (usize, u64)) -> (r: bool)
        ensures
            r == self@.is_parked(id),
    {
        match crate::heap::registry::get(&self.mutators, id) {
            Some(flags) => flags.1,
            None => false,
        }
    }

    /// The number of collections that have been completed.
    pub fn gc_count(&self) -> (r: usize)
        ensures
            r == self@.gc_count,
    {
        self.gc_count
    }

    /// The flags of the mutator with the number `id`, or `None` where it is
    /// not registered.
    pub fn global(&self, id: (usize, u64)) -> (r: Option<ImmixMutatorGlobal>)
        ensures
            match r {
                Some(flags) => self@.mutators.contains_key(id) && flags@ == self@.mutators[id],
                None => !self@.mutators.contains_key(id),
            },
    {
        match crate::heap::registry::get(&self.mutators, id) {
            Some(flags) => {
                let mut global = ImmixMutatorGlobal::new();
                global.set_take_yield(flags.0);
                global.set_still_blocked(flags.1);
                Some(global)
            },
            None => None,
        }
    }

    /// The mutator that runs the collection under way.
    pub fn controller(&self) -> (r: Option<(usize, u64)>)
        ensures
            r == self@.controller,
    {
        self.controller
    }

    /// Makes the mutator with the number `id` the controller of a collection
    /// if no collection has one. The answer is whether `id` is the controller
    /// after the call.
    pub fn claim_control(&mut self, id: (usize, u64)) -> (r: bool)
        requires
            old(self).wf(),
        ensures
            final(self).wf(),
            final(self)@ == (CoordinatorView {
                controller: match old(self)@.controller {
                    None => Some(id),
                    Some(other) => Some(other),
                },
                ..old(self)@
            }),
            r == (final(self)@.controller == Some(id)),
    {
        match self.controller {
            None => {
                self.controller = Some(id);
                true
            },
            Some(other) => other.0 == id.0 && other.1 == id.1,
        }
    }

    /// Adds `found` to the roots of the collection under way.
    pub fn append_roots(&mut self, found: &mut Vec<ObjectReference>)
        requires
            old(self).wf(),
        ensures
            final(self).wf(),
            final(self)@ == (CoordinatorView {
                roots: old(self)@.roots + old(found)@,
                ..old(self)@
            }),
            final(found)@.len() == 0,
    {
        self.roots.append(found);
    }

    /// Parks the mutator with the number `id`, which has to be registered:
    /// it counts among the parked mutators until the collection is over.
    pub fn park(&mut self, id: (usize, u64))
        requires
            old(self).wf(),
            old(self)@.mutators.contains_key(id),
        ensures
            final(self).wf(),
            final(self)@ == old(self)@.with_parked(id),
    {
        let flags = crate::heap::registry::get(&self.mutators, id);
        let take_yield = match flags {
            Some(f) => f.0,
            None => false,
        };
        crate::heap::registry::set(&mut self.mutators, id, (take_yield, true));
        if self.parked < usize::MAX {
            self.parked += 1;
        }
    }

    /// Whether every registered mutator but one is parked.
    pub fn all_parked(&self) -> (r: bool)
        ensures
            r == self@.all_parked(),
    {
        let registered = crate::heap::registry::len(&self.mutators);
        self.parked >= registered || registered - self.parked <= 1
    }

    /// Takes the roots of the collection under way out of the coordinator.
    pub fn take_roots(&mut self) -> (r: Vec<ObjectReference>)
        requires
            old(self).wf(),
        ensures
            final(self).wf(),
            r@ == old(self)@.roots,
            final(self)@ == (CoordinatorView { roots: Seq::empty(), ..old(self)@ }),
    {
        let mut roots: Vec<ObjectReference> = Vec::new();
        std::mem::swap(&mut roots, &mut self.roots);
        roots
    }

    /// Ends the collection under way: it counts as completed, there is no
    /// controller, and every mutator is let go.
    pub fn finish(&mut self)
        requires
            old(self).wf(),
        ensures
            final(self).wf(),
            final(self)@ == old(self)@.finished(),
    {
        if self.gc_count < usize::MAX {
            self.gc_count += 1;
        }
        self.controller = None;
        self.parked = 0;
        self.release_all();
    }
}

impl CoordinatorView {
    /// The coordinator once the mutator with the number `id` is parked.
    pub open spec fn with_parked(self, id: (usize, u64)) -> CoordinatorView {
        CoordinatorView {
            mutators: self.mutators.insert(id, (self.mutators[id].0, true)),
            parked: if self.parked < usize::MAX {
                self.parked + 1
            } else {
                self.parked
            },
            ..self
        }
    }

    /// The coordinator once the mutator with the number `id` has come to the
    /// barrier with the roots `found`: it is the controller if there was none.
    pub open spec fn with_arrival(
        self,
        id: (usize, u64),
        found: Seq<ObjectReference>,
    ) -> CoordinatorView {
        CoordinatorView {
            controller: match self.controller {
                None => Some(id),
                Some(other) => Some(other),
            },
            roots: self.roots + found,
            ..self
        }
    }

    /// Every registered mutator but one is parked.
    pub open spec fn all_parked(self) -> bool {
        self.parked + 1 >= self.mutators.dom().len()
    }

    /// The coordinator once the collection under way is over: one more
    /// collection is completed, unless the count is at its largest; there is
    /// no controller; no mutator is parked or asked to yield.
    pub open spec fn finished(self) -> CoordinatorView {
        CoordinatorView {
            mutators: all_released(self.mutators),
            controller: None,
            parked: 0,
            roots: self.roots,
            gc_count: if self.gc_count < usize::MAX {
                self.gc_count + 1
            } else {
                self.gc_count
            },
        }
    }
}

/// The collector: the two spaces and the coordinator of collections.
pub struct ImmixGC {
    /// The Immix space.
    pub space: ImmixSpace,
    /// The large-object space.
    pub lo_space: FreeListSpace,
    /// The register of mutators and the state of the collection under way.
    pub coordinator: Coordinator,
}

impl ImmixGC {
    /// The spaces and the coordinator are well formed.
    pub open spec fn wf(&self) -> bool {
        &&& self.space.wf()
        &&& self.lo_space.wf()
        &&& self.coordinator.wf()
    }

    /// A collector for the two spaces, with no mutator registered and no
    /// collection under way.
    pub fn new(space: ImmixSpace, lo_space: FreeListSpace) -> (r: ImmixGC)
        requires
            space.wf(),
            lo_space.wf(),
        ensures
            r.wf(),
            r.space == space,
            r.lo_space == lo_space,
            r.coordinator@ == (CoordinatorView {
                mutators: Map::empty(),
                controller: None,
                parked: 0,
                roots: Seq::empty(),
                gc_count: 0,
            }),
    {
        ImmixGC { space, lo_space, coordinator: Coordinator::new() }
    }

    /// Asks every registered mutator to yield.
    pub fn trigger_gc(&mut self)
        requires
            old(self).wf(),
        ensures
            final(self).wf(),
            final(self).space == old(self).space,
            final(self).lo_space == old(self).lo_space,
            final(self).coordinator@ == (CoordinatorView {
                mutators: all_yielding(old(self).coordinator@.mutators),
                ..old(self).coordinator@
            }),
    {
        self.coordinator.trigger_gc();
    }
}

} // verus!
