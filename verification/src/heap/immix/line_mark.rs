//! The line-mark table: one mark for each line of the space.
use crate::common::Address;
use crate::heap::immix::BYTES_IN_LINE;
use vstd::prelude::*;

verus! {

/// What is known of a line.
#[derive(PartialEq, Eq, Structural, Debug, Copy, Clone)]
pub enum LineMark {
    /// Nothing live is in the line: it can be allocated into.
    Free,
    /// A traced object starts in the line.
    Live,
    /// A mutator took the line for allocation since the last sweep.
    FreshAlloc,
    /// The line follows a live one, into which a live object may reach.
    ConservLive,
    /// The line was live in an earlier collection.
    PrevLive,
}

/// A line is kept by a sweep: it is `Live` or `ConservLive`.
pub open spec fn is_kept(mark: LineMark) -> bool {
    mark == LineMark::Live || mark == LineMark::ConservLive
}

/// The marks of a line and of the one after it once an object in line
/// `index` has been found live: the line is `Live`, and the next line, if
/// there is one and it is not `Live` itself, is `ConservLive`.
pub open spec fn marked_live(marks: Seq<LineMark>, index: int) -> Seq<LineMark> {
    let first = marks.update(index, LineMark::Live);
    if index + 1 < marks.len() && marks[index + 1] != LineMark::Live {
        first.update(index + 1, LineMark::ConservLive)
    } else {
        first
    }
}

/// The least index from `from` on, and below `len`, at which `marks` holds
/// `Free`; `len` where there is none.
pub open spec fn next_free(marks: Seq<LineMark>, from: int, len: int) -> int
    decreases len - from,
{
    if from >= len {
        len
    } else if marks[from] == LineMark::Free {
        from
    } else {
        next_free(marks, from + 1, len)
    }
}

/// The least index from `from` on, and below `len`, at which `marks` holds
/// another mark than `Free`; where there is none, `len`, or `from` if that is
/// larger.
pub open spec fn next_taken(marks: Seq<LineMark>, from: int, len: int) -> int
    decreases len - from,
{
    if from >= len {
        from
    } else if marks[from] != LineMark::Free {
        from
    } else {
        next_taken(marks, from + 1, len)
    }
}

/// `next_free` is the first free line from `from` on: it is not below `from`,
/// no line between the two is free, and it is free itself unless it is `len`.
pub proof fn lemma_next_free(marks: Seq<LineMark>, from: int, len: int)
    requires
        0 <= from <= len <= marks.len(),
    ensures
        from <= next_free(marks, from, len) <= len,
        forall|i: int| from <= i < next_free(marks, from, len) ==> marks[i] != LineMark::Free,
        next_free(marks, from, len) < len ==> marks[next_free(marks, from, len)]
            == LineMark::Free,
    decreases len - from,
{
    if from < len && marks[from] != LineMark::Free {
        lemma_next_free(marks, from + 1, len);
    }
}

/// `next_taken` is the first line from `from` on that is not free: it is not
/// below `from`, every line between the two is free, and it is not free itself
/// unless it is `len`.
pub proof fn lemma_next_taken(marks: Seq<LineMark>, from: int, len: int)
    requires
        0 <= from <= len <= marks.len(),
    ensures
        from <= next_taken(marks, from, len) <= len,
        forall|i: int| from <= i < next_taken(marks, from, len) ==> marks[i] == LineMark::Free,
        next_taken(marks, from, len) < len ==> marks[next_taken(marks, from, len)]
            != LineMark::Free,
    decreases len - from,
{
    if from < len && marks[from] == LineMark::Free {
        lemma_next_taken(marks, from + 1, len);
    }
}

/// The line-mark table of a space: the mark of each of its lines, the line at
/// the start of the space first.
pub struct LineMarkTable {
    space_start: Address,
    marks: Vec<LineMark>,
}

impl View for LineMarkTable {
    type V = Seq<LineMark>;

    closed spec fn view(&self) -> Seq<LineMark> {
        self.marks@
    }
}

impl LineMarkTable {
    /// The address at which the first line starts.
    pub closed spec fn space_start(&self) -> int {
        self.space_start@
    }

    /// The index of the line that holds `addr`.
    pub open spec fn line_of(&self, addr: int) -> int {
        (addr - self.space_start()) / 256
    }

    /// `addr` lies in a line of the table.
    pub open spec fn covers(&self, addr: int) -> bool {
        self.space_start() <= addr && self.line_of(addr) < self@.len()
    }

    /// A table for the space from `space_start` up to `space_end`, with a mark
    /// for each whole line of it, all of them `Free`.
    pub fn new(space_start: Address, space_end: Address) -> (r: LineMarkTable)
        requires
            space_start@ <= space_end@,
        ensures
            r.space_start() == space_start@,
            r@ == Seq::new(((space_end@ - space_start@) / 256) as nat, |i: int| LineMark::Free),
    {
        let len = space_end.diff(space_start) / BYTES_IN_LINE;
        let marks: Vec<LineMark> = vec![LineMark::Free; len];
        assert(marks@ =~= Seq::new(
            ((space_end@ - space_start@) / 256) as nat,
            |i: int| LineMark::Free,
        ));
        LineMarkTable { space_start, marks }
    }

    /// The part of the table that holds the `len` lines from line `start` on.
    pub fn take_slice(&mut self, start: usize, len: usize) -> (r: LineMarkTableSlice)
        requires
            start + len <= old(self)@.len(),
        ensures
            *final(self) == *old(self),
            r.first() == start,
            r.spec_len() == len,
            r.within(final(self)@),
    {
        LineMarkTableSlice { start, len }
    }

    /// The number of lines.
    pub fn len(&self) -> (r: usize)
        ensures
            r == self@.len(),
    {
        self.marks.len()
    }

    /// The mark of line `index`.
    pub fn get(&self, index: usize) -> (r: LineMark)
        requires
            index < self@.len(),
        ensures
            r == self@[index as int],
    {
        self.marks[index]
    }

    /// Gives line `index` the mark `value`.
    pub fn set(&mut self, index: usize, value: LineMark)
        requires
            index < old(self)@.len(),
        ensures
            final(self)@ == old(self)@.update(index as int, value),
            final(self).space_start() == old(self).space_start(),
    {
        self.marks.set(index, value);
    }

    /// Records that a live object starts at `addr`: its line becomes `Live`,
    /// and the line after it, where there is one and it is not `Live`,
    /// `ConservLive`, since the object may reach into it.
    pub fn mark_line_live(&mut self, addr: Address)
        requires
            old(self).covers(addr@),
        ensures
            final(self)@ == marked_live(old(self)@, old(self).line_of(addr@)),
            final(self).space_start() == old(self).space_start(),
    {
        let space_start = self.space_start;
        self.mark_line_live2(space_start, addr);
    }

    /// As `mark_line_live`, with lines counted from `space_start` in place of
    /// the table's own start.
    pub fn mark_line_live2(&mut self, space_start: Address, addr: Address)
        requires
            space_start@ <= addr@,
            (addr@ - space_start@) / 256 < old(self)@.len(),
        ensures
            final(self)@ == marked_live(old(self)@, (addr@ - space_start@) / 256),
            final(self).space_start() == old(self).space_start(),
    {
        let index = addr.diff(space_start) / BYTES_IN_LINE;
        self.set(index, LineMark::Live);
        if index < self.marks.len() - 1 {
            if self.get(index + 1) != LineMark::Live {
                self.set(index + 1, LineMark::ConservLive);
            }
        }
    }
}

/// A run of consecutive lines of a line-mark table: the lines of one block.
/// It names the lines; their marks are read and written in the table.
#[derive(Clone, Copy, Debug)]
pub struct LineMarkTableSlice {
    start: usize,
    len: usize,
}

impl LineMarkTableSlice {
    /// The index in the table of the first line.
    pub closed spec fn first(&self) -> int {
        self.start as int
    }

    /// The number of lines.
    pub closed spec fn spec_len(&self) -> int {
        self.len as int
    }

    /// The lines all lie in a table with the marks `table`.
    pub open spec fn within(&self, table: Seq<LineMark>) -> bool {
        0 <= self.first() && 0 <= self.spec_len() && self.first() + self.spec_len() <= table.len()
    }

    /// The marks of the lines, taken from a table with the marks `table`.
    pub open spec fn marks(&self, table: Seq<LineMark>) -> Seq<LineMark> {
        table.subrange(self.first(), self.first() + self.spec_len())
    }

    /// The mark of line `index` of the run.
    pub fn get(&self, table: &LineMarkTable, index: usize) -> (r: LineMark)
        requires
            self.within(table@),
            index < self.spec_len(),
        ensures
            r == self.marks(table@)[index as int],
    {
        let lines = table.len();
        assert(self.start + index < lines);
        table.get(self.start + index)
    }

    /// Gives line `index` of the run the mark `value`.
    pub fn set(&mut self, table: &mut LineMarkTable, index: usize, value: LineMark)
        requires
            old(self).within(old(table)@),
            index < old(self).spec_len(),
        ensures
            *final(self) == *old(self),
            final(table)@ == old(table)@.update(old(self).first() + index, value),
            final(table).space_start() == old(table).space_start(),
            final(self).marks(final(table)@) == old(self).marks(old(table)@).update(
                index as int,
                value,
            ),
    {
        let lines = table.len();
        assert(self.start + index < lines);
        table.set(self.start + index, value);
        assert(self.marks(table@) =~= old(self).marks(old(table)@).update(index as int, value));
    }

    /// The number of lines.
    pub fn len(&self) -> (r: usize)
        ensures
            r == self.spec_len(),
    {
        self.len
    }

    /// The first free line of the run from `cur_line` on, or `None` where no
    /// line from there on is free.
    pub fn get_next_available_line(&self, table: &LineMarkTable, cur_line: usize) -> (r: Option<
        usize,
    >)
        requires
            self.within(table@),
        ensures
            match r {
                Some(line) => cur_line <= line < self.spec_len() && line == next_free(
                    self.marks(table@),
                    cur_line as int,
                    self.spec_len(),
                ),
                None => cur_line >= self.spec_len() || next_free(
                    self.marks(table@),
                    cur_line as int,
                    self.spec_len(),
                ) == self.spec_len(),
            },
    {
        let ghost marks = self.marks(table@);
        let mut i = cur_line;
        while i < self.len
            invariant
                self.within(table@),
                marks == self.marks(table@),
                cur_line <= i,
                cur_line < self.len ==> i <= self.len,
                cur_line < self.len ==> next_free(marks, cur_line as int, self.len as int)
                    == next_free(marks, i as int, self.len as int),
            decreases self.len - i,
        {
            match self.get(table, i) {
                LineMark::Free => {
                    return Some(i);
                },
                _ => {
                    i += 1;
                },
            }
        }
        None
    }

    /// The first line of the run from `cur_line` on that is not free; the
    /// number of lines where every line from there on is free, and `cur_line`
    /// itself where it is not below that number.
    pub fn get_next_unavailable_line(&self, table: &LineMarkTable, cur_line: usize) -> (r: usize)
        requires
            self.within(table@),
        ensures
            r == next_taken(self.marks(table@), cur_line as int, self.spec_len()),
    {
        let ghost marks = self.marks(table@);
        let mut i = cur_line;
        while i < self.len
            invariant
                self.within(table@),
                marks == self.marks(table@),
                cur_line <= i,
                cur_line < self.len ==> i <= self.len,
                next_taken(marks, cur_line as int, self.len as int) == next_taken(
                    marks,
                    i as int,
                    self.len as int,
                ),
            decreases self.len - i,
        {
            match self.get(table, i) {
                LineMark::Free => {
                    i += 1;
                },
                _ => {
                    return i;
                },
            }
        }
        i
    }
}

} // verus!
