//! Side tables indexed by address: one cell for each word of a range.
use crate::common::{Address, POINTER_SIZE};
use vstd::prelude::*;

verus! {

/// A table with one cell of type `T` for each whole word of the address range
/// from `start` up to `end`.
pub struct AddressMap<T> {
    start: Address,
    end: Address,
    cells: Vec<T>,
}

impl<T> View for AddressMap<T> {
    type V = Seq<T>;

    /// The cells, that of the first word first.
    closed spec fn view(&self) -> Seq<T> {
        self.cells@
    }
}

impl<T> AddressMap<T> {
    /// The address whose word has the first cell.
    pub closed spec fn start(&self) -> int {
        self.start@
    }

    /// The address at which the range ends.
    pub closed spec fn end(&self) -> int {
        self.end@
    }

    /// The table has a cell for each whole word of its range.
    pub closed spec fn wf(&self) -> bool {
        &&& self.start@ <= self.end@
        &&& self.cells@.len() == (self.end@ - self.start@) / 8
    }

    /// The index of the cell for the word that holds `addr`.
    pub open spec fn slot(&self, addr: int) -> int {
        (addr - self.start()) / 8
    }

    /// `addr` lies in a word that has a cell.
    pub open spec fn covers(&self, addr: int) -> bool {
        self.start() <= addr && self.slot(addr) < self@.len()
    }

    /// Stores `value` in the cell of the word that holds `addr`.
    pub fn set(&mut self, addr: Address, value: T)
        requires
            old(self).wf(),
            old(self).covers(addr@),
        ensures
            final(self).wf(),
            final(self).start() == old(self).start(),
            final(self).end() == old(self).end(),
            final(self)@ == old(self)@.update(old(self).slot(addr@), value),
    {
        let index = addr.diff(self.start) / POINTER_SIZE;
        self.cells.set(index, value);
    }
}

impl<T: Copy> AddressMap<T> {
    /// The value in the cell of the word that holds `addr`.
    pub fn get(&self, addr: Address) -> (r: T)
        requires
            self.wf(),
            self.covers(addr@),
        ensures
            r == self@[self.slot(addr@)],
    {
        let index = addr.diff(self.start) / POINTER_SIZE;
        self.cells[index]
    }
}

impl AddressMap<u8> {
    /// A table of bytes for the range from `start` up to `end`, every cell
    /// zero.
    pub fn new(start: Address, end: Address) -> (r: AddressMap<u8>)
        requires
            start@ <= end@,
        ensures
            r.wf(),
            r.start() == start@,
            r.end() == end@,
            r@ == Seq::new(((end@ - start@) / 8) as nat, |i: int| 0u8),
    {
        let len = end.diff(start) / POINTER_SIZE;
        let cells: Vec<u8> = vec![0u8; len];
        assert(cells@ =~= Seq::new(((end@ - start@) / 8) as nat, |i: int| 0u8));
        AddressMap { start, end, cells }
    }
}

/// A table with one cell of type `T` for each word that the range from its
/// first address up to its end touches, reached by address and answering
/// `None` outside the range.
pub struct SafeAddressMap<T> {
    offset: usize,
    addresses: Vec<T>,
}

impl<T> View for SafeAddressMap<T> {
    type V = Seq<T>;

    /// The cells, that of the first word first.
    closed spec fn view(&self) -> Seq<T> {
        self.addresses@
    }
}

/// The number of words that a range of `bytes` bytes touches.
pub open spec fn words_touched(bytes: int) -> int {
    (bytes + 7) / 8
}

impl<T> SafeAddressMap<T> {
    /// The address whose word has the first cell.
    pub closed spec fn offset(&self) -> int {
        self.offset as int
    }

    /// The first address is a machine address.
    pub broadcast proof fn lemma_offset(&self)
        ensures
            0 <= #[trigger] self.offset() <= usize::MAX,
    {
    }

    /// The index of the cell that `index` falls in: its distance from the
    /// first address, in words.
    pub open spec fn slot(&self, index: int) -> int {
        (index - self.offset()) / 8
    }

    /// `index` is in range: it is not below the first address and falls in a
    /// cell of the table.
    pub open spec fn covers(&self, index: int) -> bool {
        self.offset() <= index && self.slot(index) < self@.len()
    }

    /// A table for the range from `start` up to `end`, each cell filled by a
    /// call of `f`.
    pub fn new_of<F: Fn() -> T>(start: usize, end: usize, f: F) -> (r: Self)
        requires
            start <= end,
            f.requires(()),
        ensures
            r.offset() == start,
            r@.len() == words_touched(end - start),
            forall|i: int| 0 <= i < r@.len() ==> f.ensures((), #[trigger] r@[i]),
    {
        let bytes = end - start;
        let len = bytes / POINTER_SIZE + if bytes % POINTER_SIZE != 0 { 1 } else { 0 };
        let mut addresses: Vec<T> = Vec::new();
        let mut i: usize = 0;
        while i < len
            invariant
                i <= len,
                addresses@.len() == i,
                f.requires(()),
                forall|j: int| 0 <= j < i ==> f.ensures((), #[trigger] addresses@[j]),
            decreases len - i,
        {
            let value = f();
            addresses.push(value);
            i += 1;
        }
        SafeAddressMap { offset: start, addresses }
    }

    /// The cell that `index` falls in, or `None` where it falls in none.
    pub fn get(&self, index: usize) -> (r: Option<&T>)
        ensures
            self.covers(index as int) ==> r == Some(&self@[self.slot(index as int)]),
            !self.covers(index as int) ==> r.is_none(),
    {
        if index < self.offset {
            return None;
        }
        let normalized = (index - self.offset) / POINTER_SIZE;
        if normalized < self.addresses.len() {
            Some(&self.addresses[normalized])
        } else {
            None
        }
    }
}

impl<T: Default> SafeAddressMap<T> {
    /// A table for the range from `start` up to `end`, each cell holding the
    /// default value of `T`.
    pub fn new(start: usize, end: usize) -> (r: Self)
        requires
            start <= end,
        ensures
            r.offset() == start,
            r@.len() == words_touched(end - start),
    {
        let bytes = end - start;
        let len = bytes / POINTER_SIZE + if bytes % POINTER_SIZE != 0 { 1 } else { 0 };
        let mut addresses: Vec<T> = Vec::new();
        let mut i: usize = 0;
        while i < len
            invariant
                i <= len,
                addresses@.len() == i,
            decreases len - i,
        {
            addresses.push(T::default());
            i += 1;
        }
        SafeAddressMap { offset: start, addresses }
    }
}

impl<T> SafeAddressMap<T> {
    /// Stores `value` in the cell that `index` falls in.
    pub fn set(&mut self, index: usize, value: T)
        requires
            old(self).covers(index as int),
        ensures
            final(self).offset() == old(self).offset(),
            final(self)@ == old(self)@.update(old(self).slot(index as int), value),
    {
        let normalized = (index - self.offset) / POINTER_SIZE;
        self.addresses.set(normalized, value);
    }
}

/// The trace map: one byte for each word of a range, and the mark state, the
/// value that a byte holds when the object at its word has been traced in the
/// collection under way.
pub struct TraceMap {
    map: SafeAddressMap<u8>,
    mark_state: u8,
}

impl TraceMap {
    /// The bytes, that of the first word first.
    pub closed spec fn cells(&self) -> Seq<u8> {
        self.map@
    }

    /// The address whose word has the first byte.
    pub closed spec fn start(&self) -> int {
        self.map.offset()
    }

    /// The current mark state.
    pub closed spec fn mark_state(&self) -> u8 {
        self.mark_state
    }

    /// The mark state is 0 or 1.
    pub open spec fn wf(&self) -> bool {
        self.mark_state() == 0 || self.mark_state() == 1
    }

    /// The first address is a machine address.
    pub broadcast proof fn lemma_start(&self)
        ensures
            0 <= #[trigger] self.start() <= usize::MAX,
    {
    }

    /// The index of the byte that `addr` falls in: its distance from the first
    /// address, in words.
    pub open spec fn slot(&self, addr: int) -> int {
        (addr - self.start()) / 8
    }

    /// `addr` is in range: it is not below the first address and falls in a
    /// word that has a byte.
    pub open spec fn covers(&self, addr: int) -> bool {
        self.start() <= addr && self.slot(addr) < self.cells().len()
    }

    /// The byte for `addr` holds the mark state.
    pub open spec fn traced(&self, addr: int) -> bool {
        self.cells()[self.slot(addr)] == self.mark_state()
    }

    /// A trace map for the range from `start` up to `end`. Every byte is zero
    /// and the mark state is one, so that nothing counts as traced.
    pub fn new(start: usize, end: usize) -> (r: TraceMap)
        requires
            start <= end,
        ensures
            r.wf(),
            r.start() == start,
            r.mark_state() == 1,
            r.cells() == Seq::new(words_touched(end - start) as nat, |i: int| 0u8),
    {
        let bytes = end - start;
        let len = bytes / POINTER_SIZE + if bytes % POINTER_SIZE != 0 { 1 } else { 0 };
        let addresses: Vec<u8> = vec![0u8; len];
        assert(addresses@ =~= Seq::new(words_touched(end - start) as nat, |i: int| 0u8));
        TraceMap { map: SafeAddressMap { offset: start, addresses }, mark_state: 1 }
    }

    /// Turns the mark state over, from 0 to 1 or from 1 to 0. No byte changes.
    pub fn flip_mark_state(&mut self)
        requires
            old(self).wf(),
        ensures
            final(self).wf(),
            final(self).mark_state() == 1 - old(self).mark_state(),
            final(self).cells() == old(self).cells(),
            final(self).start() == old(self).start(),
    {
        let state = self.mark_state;
        let flipped = state ^ 1;
        assert(flipped == 1 - state) by (bit_vector)
            requires
                flipped == state ^ 1,
                state == 0 || state == 1,
        ;
        self.mark_state = flipped;
    }

    /// Whether the byte for `addr` holds the mark state.
    pub fn is_traced(&self, addr: Address) -> (r: bool)
        requires
            self.covers(addr@),
        ensures
            r == self.traced(addr@),
    {
        match self.map.get(addr.as_usize()) {
            Some(v) => *v == self.mark_state,
            None => false,
        }
    }

    /// Whether `addr` falls in the range and its byte does not hold the mark
    /// state.
    pub fn is_untraced_and_valid(&self, addr: Address) -> (r: bool)
        ensures
            r == (self.covers(addr@) && !self.traced(addr@)),
    {
        match self.map.get(addr.as_usize()) {
            Some(v) => *v != self.mark_state,
            None => false,
        }
    }

    /// Stores the mark state in the byte for `addr`.
    pub fn mark_as_traced(&mut self, addr: Address)
        requires
            old(self).covers(addr@),
        ensures
            final(self).cells() == old(self).cells().update(
                old(self).slot(addr@),
                old(self).mark_state(),
            ),
            final(self).mark_state() == old(self).mark_state(),
            final(self).start() == old(self).start(),
            final(self).traced(addr@),
    {
        let state = self.mark_state;
        self.map.set(addr.as_usize(), state);
    }
}

} // verus!
