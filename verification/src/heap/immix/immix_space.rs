//! The Immix space: a mapped region cut into blocks, with its side tables and
//! the queues of its idle blocks.
use crate::common::{Address, AddressMap, TraceMap};
use crate::heap::immix::backing::{
    base_address, map_anon, mapped_bytes, mapped_len, read_byte, write_byte,
};
use crate::heap::deque::{new_queue, push, queue_len, queued, take, Stolen};
use crate::heap::immix::line_mark::{is_kept, marked_live, LineMark, LineMarkTable, LineMarkTableSlice};
use crate::heap::immix::{BlockMark, BYTES_IN_BLOCK, BYTES_IN_LINE, LINES_IN_BLOCK};
use crossbeam::deque::Injector;
use memmap2::MmapMut;
use vstd::prelude::*;

verus! {

broadcast use vstd::seq_lib::group_filter_ensures;

/// The alignment of the start of a space.
pub const SPACE_ALIGN: usize = 524288;

/// One block of a space, as a mutator or a queue of the space holds it.
pub struct ImmixBlock {
    id: usize,
    state: BlockMark,
    start: Address,
    line_mark_table: LineMarkTableSlice,
}

/// What a block is.
pub ghost struct ImmixBlockView {
    /// The number of the block, counted from the start of the space.
    pub id: int,
    /// What the last sweep found of the block.
    pub state: BlockMark,
    /// The address of its first byte.
    pub start: int,
    /// The index in the line-mark table of its first line.
    pub first_line: int,
    /// The number of its lines.
    pub lines: int,
}

impl View for ImmixBlock {
    type V = ImmixBlockView;

    closed spec fn view(&self) -> ImmixBlockView {
        ImmixBlockView {
            id: self.id as int,
            state: self.state,
            start: self.start@,
            first_line: self.line_mark_table.first(),
            lines: self.line_mark_table.spec_len(),
        }
    }
}

/// What a space is.
pub ghost struct ImmixSpaceView {
    /// The address of the first byte of the space.
    pub start: int,
    /// The address at which the space ends.
    pub end: int,
    /// The alloc map: for each word of the space, the byte that encodes the
    /// object starting there.
    pub alloc_map: Seq<u8>,
    /// The trace map: for each word of the space, its trace byte.
    pub trace_cells: Seq<u8>,
    /// The current mark state.
    pub mark_state: u8,
    /// The mark of each line of the space.
    pub lines: Seq<LineMark>,
    /// The bytes of the space.
    pub memory: Seq<u8>,
    /// The blocks that wait to be allocated into, the next to leave first.
    pub usable: Seq<usize>,
    /// The blocks that mutators have handed back, the earliest first.
    pub used: Seq<usize>,
    /// Whether a collection has been asked for and not yet been taken note of.
    pub gc_requested: bool,
}

impl ImmixSpaceView {
    /// The number of blocks of the space.
    pub open spec fn total_blocks(self) -> int {
        (self.end - self.start) / 65536
    }

    /// `addr` lies in the space.
    pub open spec fn contains(self, addr: int) -> bool {
        self.start <= addr < self.end
    }

    /// The index of the word that holds `addr`, and so the index of its bytes
    /// in the alloc map and in the trace map.
    pub open spec fn word_of(self, addr: int) -> int {
        (addr - self.start) / 8
    }

    /// The index of the line that holds `addr`.
    pub open spec fn line_of(self, addr: int) -> int {
        (addr - self.start) / 256
    }

    /// Block `id` waits in neither queue: a mutator may hold it.
    pub open spec fn is_out(self, id: int) -> bool {
        &&& 0 <= id < self.total_blocks()
        &&& forall|i: int| 0 <= i < self.usable.len() ==> self.usable[i] != id
        &&& forall|i: int| 0 <= i < self.used.len() ==> self.used[i] != id
    }

    /// `block` is block `block.id` of this space.
    pub open spec fn has_block(self, block: ImmixBlockView) -> bool {
        &&& 0 <= block.id < self.total_blocks()
        &&& block.start == self.start + block.id * 65536
        &&& block.first_line == block.id * 256
        &&& block.lines == 256
    }

    /// The space is laid out as it should be: it starts at a multiple of
    /// `SPACE_ALIGN` that is not the null address and is a whole number of
    /// blocks long, each table has an
    /// entry for each of its units, the mark state is 0 or 1, and the queues
    /// hold blocks of the space, none of them twice.
    pub open spec fn wf(self) -> bool {
        &&& 0 < self.start <= self.end <= usize::MAX
        &&& self.start % 524288 == 0
        &&& (self.end - self.start) % 65536 == 0
        &&& self.alloc_map.len() == (self.end - self.start) / 8
        &&& self.trace_cells.len() == (self.end - self.start) / 8
        &&& self.lines.len() == (self.end - self.start) / 256
        &&& self.memory.len() == self.end - self.start
        &&& (self.mark_state == 0 || self.mark_state == 1)
        &&& forall|i: int| 0 <= i < self.usable.len() ==> 0 <= #[trigger] self.usable[i] < self.total_blocks()
        &&& forall|i: int| 0 <= i < self.used.len() ==> 0 <= #[trigger] self.used[i] < self.total_blocks()
        &&& (self.usable + self.used).no_duplicates()
    }

    /// The byte for `addr` in the trace map holds the mark state.
    pub open spec fn is_traced(self, addr: int) -> bool {
        self.trace_cells[self.word_of(addr)] == self.mark_state
    }

    /// The space with its mark state turned over, from 0 to 1 or from 1 to 0.
    pub open spec fn flipped(self) -> ImmixSpaceView {
        ImmixSpaceView { mark_state: (1 - self.mark_state) as u8, ..self }
    }

    /// Turning the mark state over twice gives the space as it was. Turning
    /// it over once changes no trace byte, and no object that counted as
    /// traced counts as traced after it.
    pub proof fn lemma_flip_mark_state(self)
        requires
            self.wf(),
        ensures
            self.flipped().flipped() == self,
            self.flipped().wf(),
            self.flipped().trace_cells == self.trace_cells,
            forall|addr: int| #[trigger] self.is_traced(addr) ==> !self.flipped().is_traced(addr),
    {
    }

    /// In a space that has just been made no address counts as traced, every
    /// block waits among the usable blocks, and every line is free.
    pub proof fn lemma_fresh(self, size: int)
        requires
            self.wf(),
            self.is_fresh(size),
        ensures
            forall|addr: int| self.contains(addr) ==> !#[trigger] self.is_traced(addr),
            self.usable.len() + self.used.len() == self.total_blocks(),
            forall|i: int|
                0 <= i < self.usable.len() ==> has_free_line(
                    self.lines,
                    (#[trigger] self.usable[i]) as int,
                ),
    {
        self.lemma_layout();
        assert forall|addr: int| self.contains(addr) implies !#[trigger] self.is_traced(addr) by {
            assert(0 <= self.word_of(addr) < self.trace_cells.len());
        }
        assert forall|i: int| 0 <= i < self.usable.len() implies has_free_line(
            self.lines,
            (#[trigger] self.usable[i]) as int,
        ) by {
            let id = self.usable[i] as int;
            assert(self.lines[id * 256] == LineMark::Free);
        }
    }

    /// The words, the lines and the blocks of a well-formed space fill it
    /// exactly.
    pub proof fn lemma_layout(self)
        requires
            self.wf(),
        ensures
            8 * self.alloc_map.len() == self.end - self.start,
            8 * self.trace_cells.len() == self.end - self.start,
            256 * self.lines.len() == self.end - self.start,
            65536 * self.total_blocks() == self.end - self.start,
    {
        let size = self.end - self.start;
        assert(size == 65536 * (size / 65536));
        assert(size / 8 == 8192 * (size / 65536));
        assert(size / 256 == 256 * (size / 65536));
    }
}

/// Why a space could not be made.
#[derive(PartialEq, Eq, Structural, Debug, Copy, Clone)]
pub enum SpaceError {
    /// The size asked for is zero, is not a whole number of blocks, or leaves
    /// no room below the largest address for the alignment of the space.
    InvalidSize,
    /// The system gave no mapping.
    MapFailed,
    /// The mapping cannot hold an aligned space of the size asked for.
    BadMapping,
}

/// A space of `size` bytes can be asked for: `size` is a positive whole number
/// of blocks and leaves room for the alignment of the space.
pub open spec fn valid_space_size(size: int) -> bool {
    0 < size && size % 65536 == 0 && size + 524288 <= usize::MAX
}

/// A mapping of `len` bytes whose first byte is at `base` can hold an aligned
/// space of `size` bytes: `base` is not the null address, the mapping ends at
/// or below the largest address, and the space fits between the first
/// multiple of `SPACE_ALIGN` from `base` on and the end of the mapping.
pub open spec fn mapping_holds(base: int, len: int, size: int) -> bool {
    &&& 0 < base
    &&& base + len <= usize::MAX
    &&& crate::common::align_up_spec(base, 524288) + size <= base + len
}

impl ImmixSpaceView {
    /// The space is as it is when it has just been made with `size` bytes:
    /// every byte of the alloc map and of the trace map is zero, the mark state
    /// is one, every line is free, and every block waits to be allocated into,
    /// block 0 first.
    pub open spec fn is_fresh(self, size: int) -> bool {
        &&& self.end - self.start == size
        &&& self.alloc_map == Seq::new((size / 8) as nat, |i: int| 0u8)
        &&& self.trace_cells == Seq::new((size / 8) as nat, |i: int| 0u8)
        &&& self.mark_state == 1
        &&& self.lines == Seq::new((size / 256) as nat, |i: int| LineMark::Free)
        &&& self.usable == Seq::new((size / 65536) as nat, |i: int| i as usize)
        &&& self.used == Seq::<usize>::empty()
        &&& !self.gc_requested
    }
}

/// The Immix space.
pub struct ImmixSpace {
    start: Address,
    end: Address,
    alloc_map: AddressMap<u8>,
    trace_map: TraceMap,
    line_mark_table: LineMarkTable,
    total_blocks: usize,
    mmap: MmapMut,
    mmap_base: usize,
    usable_blocks: Injector<usize>,
    used_blocks: Injector<usize>,
    gc_requested: bool,
}

impl View for ImmixSpace {
    type V = ImmixSpaceView;

    closed spec fn view(&self) -> ImmixSpaceView {
        ImmixSpaceView {
            start: self.start@,
            end: self.end@,
            alloc_map: self.alloc_map@,
            trace_cells: self.trace_map.cells(),
            mark_state: self.trace_map.mark_state(),
            lines: self.line_mark_table@,
            memory: mapped_bytes(self.mmap).subrange(
                self.start@ - self.mmap_base,
                self.end@ - self.mmap_base,
            ),
            usable: queued(self.usable_blocks),
            used: queued(self.used_blocks),
            gc_requested: self.gc_requested,
        }
    }
}

impl ImmixSpace {
    /// The space is laid out as its view says, and its parts agree with one
    /// another.
    pub closed spec fn wf(&self) -> bool {
        &&& self@.wf()
        &&& self.alloc_map.wf()
        &&& self.alloc_map.start() == self.start@
        &&& self.alloc_map.end() == self.end@
        &&& self.trace_map.start() == self.start@
        &&& self.line_mark_table.space_start() == self.start@
        &&& self.total_blocks == self@.total_blocks()
        &&& self.mmap_base <= self.start@
        &&& self.end@ <= self.mmap_base + mapped_bytes(self.mmap).len()
    }

    /// A well-formed space has a well-formed view.
    pub broadcast proof fn lemma_wf(&self)
        requires
            #[trigger] self.wf(),
        ensures
            self@.wf(),
    {
    }
}

impl ImmixSpace {
    /// The number of bytes of the mapping in which the space lies.
    pub closed spec fn mapping_len(&self) -> int {
        mapped_bytes(self.mmap).len() as int
    }

    /// The address of the first byte of the mapping in which the space lies.
    pub closed spec fn mapping_base(&self) -> int {
        self.mmap_base as int
    }

    /// A space of `space_size` bytes in a fresh anonymous mapping that is
    /// `SPACE_ALIGN` bytes longer, so that the space can start at an aligned
    /// address inside it. A size that is not valid is refused; of a valid
    /// size the space is made unless the system gives no mapping.
    pub fn new(space_size: usize) -> (r: Result<ImmixSpace, SpaceError>)
        ensures
            !valid_space_size(space_size as int) <==> r == Err::<ImmixSpace, SpaceError>(
                SpaceError::InvalidSize,
            ),
            valid_space_size(space_size as int) ==> r is Ok || r == Err::<ImmixSpace, SpaceError>(
                SpaceError::MapFailed,
            ),
            r matches Ok(space) ==> {
                &&& space.wf()
                &&& space@.is_fresh(space_size as int)
                &&& space.mapping_len() == space_size + SPACE_ALIGN
                &&& space@.start == crate::common::align_up_spec(space.mapping_base(), 524288)
            },
    {
        if space_size == 0 || space_size % BYTES_IN_BLOCK != 0 || space_size > usize::MAX
            - SPACE_ALIGN {
            return Err(SpaceError::InvalidSize);
        }
        match map_anon(space_size + SPACE_ALIGN) {
            None => Err(SpaceError::MapFailed),
            Some(mmap) => {
                let base = base_address(&mmap);
                proof {
                    crate::common::lemma_align_up(base as int, 524288);
                }
                ImmixSpace::from_mapping(mmap, base, space_size)
            },
        }
    }

    /// A space of `space_size` bytes inside `mmap`, a mapping whose first byte
    /// is at the address `base`: the space starts at the first multiple of
    /// `SPACE_ALIGN` from `base` on. The space is made exactly where the size
    /// is valid and the mapping can hold the space.
    pub fn from_mapping(mmap: MmapMut, base: usize, space_size: usize) -> (r: Result<
        ImmixSpace,
        SpaceError,
    >)
        ensures
            !valid_space_size(space_size as int) <==> r == Err::<ImmixSpace, SpaceError>(
                SpaceError::InvalidSize,
            ),
            valid_space_size(space_size as int) && !mapping_holds(
                base as int,
                mapped_bytes(mmap).len() as int,
                space_size as int,
            ) <==> r == Err::<ImmixSpace, SpaceError>(SpaceError::BadMapping),
            valid_space_size(space_size as int) && mapping_holds(
                base as int,
                mapped_bytes(mmap).len() as int,
                space_size as int,
            ) <==> r is Ok,
            r matches Ok(space) ==> {
                &&& space.wf()
                &&& space@.is_fresh(space_size as int)
                &&& space.mapping_len() == mapped_bytes(mmap).len()
                &&& space.mapping_base() == base
                &&& space@.start == crate::common::align_up_spec(base as int, 524288)
                &&& space@.memory == mapped_bytes(mmap).subrange(
                    space@.start - base,
                    space@.end - base,
                )
            },
    {
        if space_size == 0 || space_size % BYTES_IN_BLOCK != 0 || space_size > usize::MAX
            - SPACE_ALIGN {
            return Err(SpaceError::InvalidSize);
        }
        if base == 0 {
            return Err(SpaceError::BadMapping);
        }
        if space_size == 0 || space_size % BYTES_IN_BLOCK != 0 || space_size > usize::MAX
            - SPACE_ALIGN {
            return Err(SpaceError::InvalidSize);
        }
        let len = mapped_len(&mmap);
        proof {
            crate::common::lemma_align_up(base as int, 524288);
        }
        if len > usize::MAX - base {
            return Err(SpaceError::BadMapping);
        }
        let rem = base % SPACE_ALIGN;
        let pad = if rem == 0 { 0 } else { SPACE_ALIGN - rem };
        if pad > len || space_size > len - pad {
            return Err(SpaceError::BadMapping);
        }
        let start = Address::from_usize(base).align_up(SPACE_ALIGN);
        let end = start.plus(space_size);
        let total_blocks = space_size / BYTES_IN_BLOCK;
        let mut usable_blocks = new_queue();
        let mut id: usize = 0;
        while id < total_blocks
            invariant
                id <= total_blocks,
                queued(usable_blocks) == Seq::new(id as nat, |i: int| i as usize),
            decreases total_blocks - id,
        {
            push(&mut usable_blocks, id);
            id += 1;
            assert(queued(usable_blocks) =~= Seq::new(id as nat, |i: int| i as usize));
        }
        let space = ImmixSpace {
            start,
            end,
            alloc_map: AddressMap::new(start, end),
            trace_map: TraceMap::new(start.as_usize(), end.as_usize()),
            line_mark_table: LineMarkTable::new(start, end),
            total_blocks,
            mmap,
            mmap_base: base,
            usable_blocks,
            used_blocks: new_queue(),
            gc_requested: false,
        };
        proof {
            let view = space@;
            assert(view.usable + view.used =~= view.usable);
            assert(view.trace_cells =~= Seq::new((space_size as int / 8) as nat, |i: int| 0u8));
        }
        Ok(space)
    }
}

/// The word that the eight bytes of `memory` from `offset` on hold, the byte
/// of least weight first.
pub open spec fn word_at(memory: Seq<u8>, offset: int) -> int {
    memory[offset] + 0x100 * memory[offset + 1] + 0x1_0000 * memory[offset + 2] + 0x100_0000
        * memory[offset + 3] + 0x1_0000_0000 * memory[offset + 4] + 0x100_0000_0000
        * memory[offset + 5] + 0x1_0000_0000_0000 * memory[offset + 6] + 0x100_0000_0000_0000
        * memory[offset + 7]
}

/// Byte `index` of the word `value`, the byte of least weight being byte 0.
pub open spec fn byte_of(value: u64, index: int) -> u8 {
    if index == 0 {
        (value % 0x100) as u8
    } else if index == 1 {
        (value / 0x100 % 0x100) as u8
    } else if index == 2 {
        (value / 0x1_0000 % 0x100) as u8
    } else if index == 3 {
        (value / 0x100_0000 % 0x100) as u8
    } else if index == 4 {
        (value / 0x1_0000_0000 % 0x100) as u8
    } else if index == 5 {
        (value / 0x100_0000_0000 % 0x100) as u8
    } else if index == 6 {
        (value / 0x1_0000_0000_0000 % 0x100) as u8
    } else {
        (value / 0x100_0000_0000_0000 % 0x100) as u8
    }
}

/// The bytes `memory` with the word `value` in the eight bytes from `offset`
/// on.
pub open spec fn with_word(memory: Seq<u8>, offset: int, value: u64) -> Seq<u8> {
    Seq::new(
        memory.len(),
        |i: int|
            if offset <= i < offset + 8 {
                byte_of(value, i - offset)
            } else {
                memory[i]
            },
    )
}

/// A word is the sum of its bytes, each with its weight.
proof fn lemma_bytes_of_word(value: u64)
    by (bit_vector)
    ensures
        value == (value % 0x100) + 0x100 * (value / 0x100 % 0x100) + 0x1_0000 * (value / 0x1_0000
            % 0x100) + 0x100_0000 * (value / 0x100_0000 % 0x100) + 0x1_0000_0000 * (value
            / 0x1_0000_0000 % 0x100) + 0x100_0000_0000 * (value / 0x100_0000_0000 % 0x100)
            + 0x1_0000_0000_0000 * (value / 0x1_0000_0000_0000 % 0x100) + 0x100_0000_0000_0000 * (
        value / 0x100_0000_0000_0000 % 0x100),
{
}

/// The word that was stored at an offset is the word that is there.
pub proof fn lemma_word_stored(memory: Seq<u8>, offset: int, value: u64)
    requires
        0 <= offset,
        offset + 8 <= memory.len(),
    ensures
        word_at(with_word(memory, offset, value), offset) == value,
{
    let stored = with_word(memory, offset, value);
    lemma_bytes_of_word(value);
    assert(stored[offset] == byte_of(value, 0));
    assert(stored[offset + 1] == byte_of(value, 1));
    assert(stored[offset + 2] == byte_of(value, 2));
    assert(stored[offset + 3] == byte_of(value, 3));
    assert(stored[offset + 4] == byte_of(value, 4));
    assert(stored[offset + 5] == byte_of(value, 5));
    assert(stored[offset + 6] == byte_of(value, 6));
    assert(stored[offset + 7] == byte_of(value, 7));
}

/// Taking the first block out of the first of two queues leaves no block twice
/// in them.
proof fn lemma_skip_no_duplicates(a: Seq<usize>, b: Seq<usize>)
    requires
        (a + b).no_duplicates(),
        a.len() > 0,
    ensures
        (a.skip(1) + b).no_duplicates(),
        forall|i: int| 0 <= i < a.skip(1).len() ==> a.skip(1)[i] != a[0],
        forall|i: int| 0 <= i < b.len() ==> b[i] != a[0],
{
    let whole = a + b;
    let rest = a.skip(1) + b;
    assert forall|i: int, j: int| 0 <= i < rest.len() && 0 <= j < rest.len() && i != j implies rest[i]
        != rest[j] by {
        assert(rest[i] == whole[i + 1]);
        assert(rest[j] == whole[j + 1]);
    }
    assert forall|i: int| 0 <= i < a.skip(1).len() implies a.skip(1)[i] != a[0] by {
        assert(a.skip(1)[i] == whole[i + 1]);
        assert(a[0] == whole[0]);
    }
    assert forall|i: int| 0 <= i < b.len() implies b[i] != a[0] by {
        assert(b[i] == whole[a.len() + i]);
        assert(a[0] == whole[0]);
    }
}

/// Adding a block that is in neither of two queues to the second leaves no
/// block twice in them.
proof fn lemma_push_no_duplicates(a: Seq<usize>, b: Seq<usize>, id: usize)
    requires
        (a + b).no_duplicates(),
        forall|i: int| 0 <= i < a.len() ==> a[i] != id,
        forall|i: int| 0 <= i < b.len() ==> b[i] != id,
    ensures
        (a + b.push(id)).no_duplicates(),
{
    let whole = a + b;
    let more = a + b.push(id);
    assert forall|i: int, j: int| 0 <= i < more.len() && 0 <= j < more.len() && i != j implies more[i]
        != more[j] by {
        if i < whole.len() {
            assert(more[i] == whole[i]);
        }
        if j < whole.len() {
            assert(more[j] == whole[j]);
        }
    }
}

impl ImmixBlock {
    /// The first free line of the block from `cur_line` on, or `None` where no
    /// line from there on is free.
    pub fn get_next_available_line(&self, table: &LineMarkTable, cur_line: usize) -> (r: Option<
        usize,
    >)
        requires
            self.slice().within(table@),
        ensures
            match r {
                Some(line) => cur_line <= line < self@.lines && line
                    == crate::heap::immix::line_mark::next_free(
                    self.slice().marks(table@),
                    cur_line as int,
                    self@.lines,
                ),
                None => cur_line >= self@.lines || crate::heap::immix::line_mark::next_free(
                    self.slice().marks(table@),
                    cur_line as int,
                    self@.lines,
                ) == self@.lines,
            },
    {
        self.line_mark_table.get_next_available_line(table, cur_line)
    }

    /// The first line of the block from `cur_line` on that is not free; the
    /// number of lines where every line from there on is free, and `cur_line`
    /// itself where it is not below that number.
    pub fn get_next_unavailable_line(&self, table: &LineMarkTable, cur_line: usize) -> (r: usize)
        requires
            self.slice().within(table@),
        ensures
            r == crate::heap::immix::line_mark::next_taken(
                self.slice().marks(table@),
                cur_line as int,
                self@.lines,
            ),
    {
        self.line_mark_table.get_next_unavailable_line(table, cur_line)
    }

    /// The number of the block.
    pub fn id(&self) -> (r: usize)
        ensures
            r == self@.id,
    {
        self.id
    }

    /// The address of the first byte of the block.
    pub fn start(&self) -> (r: Address)
        ensures
            r@ == self@.start,
    {
        self.start
    }

    /// Notes what a sweep found of the block.
    pub fn set_state(&mut self, mark: BlockMark)
        ensures
            final(self)@ == (ImmixBlockView { state: mark, ..old(self)@ }),
    {
        self.state = mark;
    }

    /// The lines of the block in the line-mark table of its space, for marks
    /// to be set.
    pub fn line_mark_table_mut(&mut self) -> (r: &mut LineMarkTableSlice)
        ensures
            *r == old(self).slice(),
            final(self).slice() == *final(r),
            final(self)@ == (ImmixBlockView {
                first_line: final(r).first(),
                lines: final(r).spec_len(),
                ..old(self)@
            }),
    {
        &mut self.line_mark_table
    }

    /// The lines of the block in the line-mark table of its space.
    pub fn line_mark_table(&self) -> (r: &LineMarkTableSlice)
        ensures
            *r == self.slice(),
    {
        &self.line_mark_table
    }

    /// The lines of the block in the line-mark table of its space.
    pub closed spec fn slice(&self) -> LineMarkTableSlice {
        self.line_mark_table
    }

    /// The lines of the block are those that its view names.
    pub broadcast proof fn lemma_lines(&self)
        ensures
            #[trigger] self.slice().first() == self@.first_line,
            self.slice().spec_len() == self@.lines,
    {
    }
}

impl ImmixSpace {
    /// The address of the first byte of the space.
    pub fn start(&self) -> (r: Address)
        ensures
            r@ == self@.start,
    {
        self.start
    }

    /// The address at which the space ends.
    pub fn end(&self) -> (r: Address)
        ensures
            r@ == self@.end,
    {
        self.end
    }

    /// The number of blocks of the space.
    pub fn total_blocks(&self) -> (r: usize)
        requires
            self.wf(),
        ensures
            r == self@.total_blocks(),
    {
        self.total_blocks
    }

    /// The line-mark table of the space.
    pub fn line_mark_table(&self) -> (r: &LineMarkTable)
        requires
            self.wf(),
        ensures
            r@ == self@.lines,
            r.space_start() == self@.start,
    {
        &self.line_mark_table
    }

    /// The alloc map of the space.
    pub fn alloc_map(&self) -> (r: &AddressMap<u8>)
        requires
            self.wf(),
        ensures
            r@ == self@.alloc_map,
            r.wf(),
            r.start() == self@.start,
            r.end() == self@.end,
    {
        &self.alloc_map
    }

    /// The trace map of the space.
    pub fn trace_map(&self) -> (r: &TraceMap)
        requires
            self.wf(),
        ensures
            r.cells() == self@.trace_cells,
            r.mark_state() == self@.mark_state,
            r.start() == self@.start,
    {
        &self.trace_map
    }

    /// Whether `addr` lies in the space.
    pub fn addr_in_space(&self, addr: Address) -> (r: bool)
        ensures
            r == self@.contains(addr@),
    {
        addr.as_usize() >= self.start.as_usize() && addr.as_usize() < self.end.as_usize()
    }

    /// Takes back a block that a mutator held: it joins the used blocks, which
    /// the next sweep goes through.
    pub fn return_used_block(&mut self, block: ImmixBlock)
        requires
            old(self).wf(),
            old(self)@.is_out(block@.id),
        ensures
            final(self).wf(),
            final(self)@ == (ImmixSpaceView {
                used: old(self)@.used.push(block@.id as usize),
                ..old(self)@
            }),
    {
        proof {
            lemma_push_no_duplicates(self@.usable, self@.used, block.id);
        }
        push(&mut self.used_blocks, block.id);
    }

    /// Hands out the block that has waited longest to be allocated into. Where
    /// none waits, a collection is asked for and the answer is `None`. The
    /// answer is `None` too where the queue turned every attempt away: the
    /// queues are then as they were.
    pub fn get_next_usable_block(&mut self) -> (r: Option<ImmixBlock>)
        requires
            old(self).wf(),
        ensures
            final(self).wf(),
            match r {
                Some(block) => {
                    &&& old(self)@.usable.len() > 0
                    &&& block@.id == old(self)@.usable[0]
                    &&& block@.state == BlockMark::Usable
                    &&& final(self)@.has_block(block@)
                    &&& final(self)@.is_out(block@.id)
                    &&& final(self)@ == (ImmixSpaceView {
                        usable: old(self)@.usable.skip(1),
                        ..old(self)@
                    })
                },
                None => final(self)@ == (ImmixSpaceView {
                    gc_requested: old(self)@.gc_requested || old(self)@.usable.len() == 0,
                    ..old(self)@
                }),
            },
    {
        match take(&mut self.usable_blocks) {
            Stolen::Empty => {
                self.gc_requested = true;
                None
            },
            Stolen::Retry => None,
            Stolen::Success(id) => {
                proof {
                    lemma_skip_no_duplicates(old(self)@.usable, old(self)@.used);
                    assert(old(self)@.usable[0] == id);
                    assert forall|i: int| 0 <= i < self@.usable.len() implies 0 <= #[trigger] self@.usable[i]
                        < self@.total_blocks() by {
                        assert(self@.usable[i] == old(self)@.usable[i + 1]);
                    }
                }
                let start = self.start.plus(id * BYTES_IN_BLOCK);
                let line_mark_table = self.line_mark_table.take_slice(
                    id * LINES_IN_BLOCK,
                    LINES_IN_BLOCK,
                );
                Some(ImmixBlock { id, state: BlockMark::Usable, start, line_mark_table })
            },
        }
    }

    /// Whether a collection has been asked for since the last call. The call
    /// takes note of the request: the next answer is `false` unless a
    /// collection is asked for again.
    pub fn take_gc_request(&mut self) -> (r: bool)
        ensures
            r == old(self)@.gc_requested,
            final(self)@ == (ImmixSpaceView { gc_requested: false, ..old(self)@ }),
            old(self).wf() ==> final(self).wf(),
    {
        let r = self.gc_requested;
        self.gc_requested = false;
        r
    }

    /// Writes `encode` to the byte of the alloc map for `addr`.
    pub fn set_ref_byte(&mut self, addr: Address, encode: u8)
        requires
            old(self).wf(),
            old(self)@.contains(addr@),
        ensures
            final(self).wf(),
            final(self)@ == (ImmixSpaceView {
                alloc_map: old(self)@.alloc_map.update(old(self)@.word_of(addr@), encode),
                ..old(self)@
            }),
    {
        self.alloc_map.set(addr, encode);
    }

    /// The byte of the alloc map for `addr`.
    pub fn get_ref_byte(&self, addr: Address) -> (r: u8)
        requires
            self.wf(),
            self@.contains(addr@),
        ensures
            r == self@.alloc_map[self@.word_of(addr@)],
    {
        self.alloc_map.get(addr)
    }

    /// Gives line `index` of `block` the mark `value`.
    pub fn set_line_mark(&mut self, block: &ImmixBlock, index: usize, value: LineMark)
        requires
            old(self).wf(),
            old(self)@.has_block(block@),
            index < 256,
        ensures
            final(self).wf(),
            final(self)@ == (ImmixSpaceView {
                lines: old(self)@.lines.update(block@.first_line + index, value),
                ..old(self)@
            }),
    {
        let mut slice = block.line_mark_table;
        slice.set(&mut self.line_mark_table, index, value);
    }

    /// Whether the trace byte for `addr` holds the mark state.
    pub fn is_traced(&self, addr: Address) -> (r: bool)
        requires
            self.wf(),
            self@.contains(addr@),
        ensures
            r == self@.is_traced(addr@),
    {
        self.trace_map.is_traced(addr)
    }

    /// Whether `addr` lies in the space and its trace byte does not hold the
    /// mark state.
    pub fn is_untraced_and_valid(&self, addr: Address) -> (r: bool)
        requires
            self.wf(),
        ensures
            r == (self@.contains(addr@) && !self@.is_traced(addr@)),
    {
        proof {
            Address::lemma_view(addr);
        }
        self.trace_map.is_untraced_and_valid(addr)
    }

    /// Stores the mark state in the trace byte for `addr`.
    pub fn mark_as_traced(&mut self, addr: Address)
        requires
            old(self).wf(),
            old(self)@.contains(addr@),
        ensures
            final(self).wf(),
            final(self)@ == (ImmixSpaceView {
                trace_cells: old(self)@.trace_cells.update(
                    old(self)@.word_of(addr@),
                    old(self)@.mark_state,
                ),
                ..old(self)@
            }),
    {
        self.trace_map.mark_as_traced(addr);
    }

    /// Records that a live object starts at `addr`: its line becomes `Live`,
    /// and the line after it, where there is one and it is not `Live`,
    /// `ConservLive`.
    pub fn mark_line_live(&mut self, addr: Address)
        requires
            old(self).wf(),
            old(self)@.contains(addr@),
        ensures
            final(self).wf(),
            final(self)@ == (ImmixSpaceView {
                lines: marked_live(old(self)@.lines, old(self)@.line_of(addr@)),
                ..old(self)@
            }),
    {
        self.line_mark_table.mark_line_live(addr);
    }

    /// Turns the mark state over. The bytes of the trace map stay as they are,
    /// so every byte that held the old mark state now differs from the new.
    pub fn flip_mark_state(&mut self)
        requires
            old(self).wf(),
        ensures
            final(self).wf(),
            final(self)@ == old(self)@.flipped(),
    {
        self.trace_map.flip_mark_state();
    }

    /// The word in the eight bytes of the space from `addr` on.
    pub fn load_word(&self, addr: Address) -> (r: u64)
        requires
            self.wf(),
            self@.start <= addr@,
            addr@ + 8 <= self@.end,
        ensures
            r == word_at(self@.memory, addr@ - self@.start),
    {
        let offset = addr.as_usize() - self.mmap_base;
        let b0 = read_byte(&self.mmap, offset) as u64;
        let b1 = read_byte(&self.mmap, offset + 1) as u64;
        let b2 = read_byte(&self.mmap, offset + 2) as u64;
        let b3 = read_byte(&self.mmap, offset + 3) as u64;
        let b4 = read_byte(&self.mmap, offset + 4) as u64;
        let b5 = read_byte(&self.mmap, offset + 5) as u64;
        let b6 = read_byte(&self.mmap, offset + 6) as u64;
        let b7 = read_byte(&self.mmap, offset + 7) as u64;
        b0 + 0x100 * b1 + 0x1_0000 * b2 + 0x100_0000 * b3 + 0x1_0000_0000 * b4 + 0x100_0000_0000
            * b5 + 0x1_0000_0000_0000 * b6 + 0x100_0000_0000_0000 * b7
    }

    /// Stores the word `value` in the eight bytes of the space from `addr` on,
    /// the byte of least weight first.
    pub fn store_word(&mut self, addr: Address, value: u64)
        requires
            old(self).wf(),
            old(self)@.start <= addr@,
            addr@ + 8 <= old(self)@.end,
        ensures
            final(self).wf(),
            final(self)@ == (ImmixSpaceView {
                memory: with_word(old(self)@.memory, addr@ - old(self)@.start, value),
                ..old(self)@
            }),
            word_at(final(self)@.memory, addr@ - old(self)@.start) == value,
    {
        let ghost before = self@.memory;
        let ghost offset = addr@ - self@.start;
        let mut rest = value;
        let mut i: usize = 0;
        while i < 8
            invariant
                i <= 8,
                self.wf(),
                offset == addr@ - old(self)@.start,
                before == old(self)@.memory,
                old(self)@.start <= addr@,
                addr@ + 8 <= old(self)@.end,
                0 <= offset,
                offset + 8 <= before.len(),
                self@ == (ImmixSpaceView { memory: self@.memory, ..old(self)@ }),
                self@.memory.len() == before.len(),
                forall|j: int|
                    0 <= j < before.len() ==> #[trigger] self@.memory[j] == (if offset <= j < offset
                        + i {
                        byte_of(value, j - offset)
                    } else {
                        before[j]
                    }),
                i == 0 ==> rest == value,
                i == 1 ==> rest == value / 0x100,
                i == 2 ==> rest == value / 0x1_0000,
                i == 3 ==> rest == value / 0x100_0000,
                i == 4 ==> rest == value / 0x1_0000_0000,
                i == 5 ==> rest == value / 0x100_0000_0000,
                i == 6 ==> rest == value / 0x1_0000_0000_0000,
                i == 7 ==> rest == value / 0x100_0000_0000_0000,
            decreases 8 - i,
        {
            self.store_byte(addr.plus(i), (rest % 0x100) as u8);
            rest = rest / 0x100;
            i += 1;
        }
        proof {
            assert(self@.memory =~= with_word(before, offset, value));
            lemma_word_stored(before, offset, value);
        }
    }

    /// The number of blocks that wait to be allocated into.
    pub fn usable_len(&self) -> (r: usize)
        ensures
            r == self@.usable.len(),
    {
        queue_len(&self.usable_blocks)
    }

    /// The number of blocks that mutators have handed back.
    pub fn used_len(&self) -> (r: usize)
        ensures
            r == self@.used.len(),
    {
        queue_len(&self.used_blocks)
    }

    /// Writes byte `value` at `addr`.
    pub fn store_byte(&mut self, addr: Address, value: u8)
        requires
            old(self).wf(),
            old(self)@.contains(addr@),
        ensures
            final(self).wf(),
            final(self)@ == (ImmixSpaceView {
                memory: old(self)@.memory.update(addr@ - old(self)@.start, value),
                ..old(self)@
            }),
    {
        let offset = addr.as_usize() - self.mmap_base;
        write_byte(&mut self.mmap, offset, value);
        assert(self@.memory =~= old(self)@.memory.update(addr@ - old(self)@.start, value));
    }
}

/// How a sweep ended.
#[derive(PartialEq, Eq, Structural, Debug, Copy, Clone)]
pub enum SweepOutcome {
    /// Every used block was swept, and some block has a free line.
    Swept,
    /// Every used block was swept and every block of the space is full: the
    /// space is out of memory.
    OutOfMemory,
    /// The queue of used blocks turned the sweep away after it had swept the
    /// given number of blocks. Another sweep goes on from there.
    Interrupted(usize),
}

/// Block `id` has a line that a sweep leaves free: one that is neither `Live`
/// nor `ConservLive`.
pub open spec fn has_garbage(lines: Seq<LineMark>, id: int) -> bool {
    exists|l: int| id * 256 <= l < id * 256 + 256 && !is_kept(#[trigger] lines[l])
}

/// Every line of block `id` is `Live` or `ConservLive`.
pub open spec fn is_full(lines: Seq<LineMark>, id: int) -> bool {
    forall|l: int| id * 256 <= l < id * 256 + 256 ==> is_kept(#[trigger] lines[l])
}

/// Block `id` has a free line.
pub open spec fn has_free_line(lines: Seq<LineMark>, id: int) -> bool {
    exists|l: int| id * 256 <= l < id * 256 + 256 && #[trigger] lines[l] == LineMark::Free
}

/// The blocks that a sweep of the lines `lines` finds a free line in.
pub open spec fn frees_something(lines: Seq<LineMark>) -> spec_fn(usize) -> bool {
    |id: usize| has_garbage(lines, id as int)
}

/// The blocks that a sweep of the lines `lines` finds full.
pub open spec fn frees_nothing(lines: Seq<LineMark>) -> spec_fn(usize) -> bool {
    |id: usize| !has_garbage(lines, id as int)
}

/// Block `id` is among `blocks`.
pub open spec fn holds(blocks: Seq<usize>, id: int) -> bool {
    exists|k: int| 0 <= k < blocks.len() && #[trigger] blocks[k] == id
}

/// The line marks after a sweep of the blocks `blocks`: in those blocks every
/// line that is neither `Live` nor `ConservLive` is `Free`, and no other line
/// has changed.
pub open spec fn swept_lines(lines: Seq<LineMark>, blocks: Seq<usize>) -> Seq<LineMark> {
    Seq::new(
        lines.len(),
        |l: int|
            if holds(blocks, l / 256) && !is_kept(lines[l]) {
                LineMark::Free
            } else {
                lines[l]
            },
    )
}

impl ImmixSpaceView {
    /// The space after a sweep of the first `count` used blocks: their lines
    /// are swept; those of them with a free line have joined the usable blocks
    /// in the order in which they were swept; the full ones stand behind the
    /// used blocks that were not swept, the one swept last first.
    pub open spec fn swept(self, count: int) -> ImmixSpaceView {
        let gone = self.used.take(count);
        ImmixSpaceView {
            lines: swept_lines(self.lines, gone),
            usable: self.usable + gone.filter(frees_something(self.lines)),
            used: self.used.skip(count) + gone.filter(frees_nothing(self.lines)).reverse(),
            ..self
        }
    }
}

/// Sweeps the lines of block `id`; the answer is whether the block now has a
/// free line.
fn sweep_block(table: &mut LineMarkTable, id: usize) -> (r: bool)
    requires
        id * 256 + 256 <= old(table)@.len(),
    ensures
        final(table)@ == swept_lines(old(table)@, seq![id]),
        final(table).space_start() == old(table).space_start(),
        r == has_garbage(old(table)@, id as int),
{
    let lines = table.len();
    let first = id * LINES_IN_BLOCK;
    let mut has_free_lines = false;
    let mut i: usize = 0;
    while i < LINES_IN_BLOCK
        invariant
            i <= 256,
            first == id * 256,
            first + 256 <= table@.len(),
            table@.len() == old(table)@.len(),
            table.space_start() == old(table).space_start(),
            forall|l: int| 0 <= l < first + i ==> table@[l] == #[trigger] swept_lines(
                old(table)@,
                seq![id],
            )[l],
            forall|l: int| first + i <= l < table@.len() ==> table@[l] == old(table)@[l],
            has_free_lines == exists|l: int|
                first <= l < first + i && !is_kept(#[trigger] old(table)@[l]),
        decreases 256 - i,
    {
        let mark = table.get(first + i);
        let ghost before = table@;
        assert(holds(seq![id], id as int)) by {
            assert(seq![id][0] == id);
        }
        assert((first + i) / 256 == id);
        if mark != LineMark::Live && mark != LineMark::ConservLive {
            has_free_lines = true;
            table.set(first + i, LineMark::Free);
        }
        i += 1;
        assert forall|l: int| 0 <= l < first + i implies table@[l] == #[trigger] swept_lines(
            old(table)@,
            seq![id],
        )[l] by {
            if l < first + i - 1 {
                assert(before[l] == swept_lines(old(table)@, seq![id])[l]);
            }
        }
    }
    assert(table@ =~= swept_lines(old(table)@, seq![id])) by {
        assert forall|l: int| first + 256 <= l < table@.len() implies table@[l] == swept_lines(
            old(table)@,
            seq![id],
        )[l] by {
            if holds(seq![id], l / 256) {
                assert(seq![id][0] == id);
            }
        }
    }
    has_free_lines
}

/// Sweeping one more block after some others is sweeping them all, and whether
/// the block has a line to free does not depend on the sweep of the others.
proof fn lemma_sweep_one_more(lines: Seq<LineMark>, gone: Seq<usize>, id: usize)
    requires
        id * 256 + 256 <= lines.len(),
    ensures
        swept_lines(swept_lines(lines, gone), seq![id]) == swept_lines(lines, gone.push(id)),
        has_garbage(swept_lines(lines, gone), id as int) == has_garbage(lines, id as int),
{
    let once = swept_lines(lines, gone);
    let twice = swept_lines(once, seq![id]);
    let all = swept_lines(lines, gone.push(id));
    assert forall|l: int| 0 <= l < lines.len() implies twice[l] == all[l] by {
        let b = l / 256;
        if holds(gone.push(id), b) {
            let k = choose|k: int| 0 <= k < gone.push(id).len() && #[trigger] gone.push(id)[k] == b;
            if k < gone.len() {
                assert(gone[k] == b);
            } else {
                assert(seq![id][0] == b);
            }
        }
        if holds(gone, b) {
            let k = choose|k: int| 0 <= k < gone.len() && #[trigger] gone[k] == b;
            assert(gone.push(id)[k] == b);
        }
        if holds(seq![id], b) {
            assert(gone.push(id)[gone.len() as int] == b);
        }
    }
    assert(twice =~= all);
    if has_garbage(once, id as int) {
        let l = choose|l: int| id * 256 <= l < id * 256 + 256 && !is_kept(#[trigger] once[l]);
        assert(!is_kept(lines[l]));
    }
    if has_garbage(lines, id as int) {
        let l = choose|l: int| id * 256 <= l < id * 256 + 256 && !is_kept(#[trigger] lines[l]);
        assert(!is_kept(once[l]));
    }
}

/// Moving an item of a sequence to its end leaves no item twice in it.
proof fn lemma_rotate_no_duplicates(a: Seq<usize>, b: Seq<usize>, id: usize)
    requires
        (a + seq![id] + b).no_duplicates(),
    ensures
        (a + b + seq![id]).no_duplicates(),
{
    let from = a + seq![id] + b;
    let to = a + b + seq![id];
    assert forall|i: int, j: int| 0 <= i < to.len() && 0 <= j < to.len() && i != j implies to[i]
        != to[j] by {
        let fi = if i < a.len() {
            i
        } else if i < a.len() + b.len() {
            i + 1
        } else {
            a.len() as int
        };
        let fj = if j < a.len() {
            j
        } else if j < a.len() + b.len() {
            j + 1
        } else {
            a.len() as int
        };
        assert(to[i] == from[fi]);
        assert(to[j] == from[fj]);
    }
}

/// Turning the end of a sequence round leaves no item twice in it.
proof fn lemma_reverse_tail_no_duplicates(a: Seq<usize>, b: Seq<usize>)
    requires
        (a + b).no_duplicates(),
    ensures
        (a + b.reverse()).no_duplicates(),
{
    let from = a + b;
    let to = a + b.reverse();
    assert forall|i: int, j: int| 0 <= i < to.len() && 0 <= j < to.len() && i != j implies to[i]
        != to[j] by {
        let fi = if i < a.len() {
            i
        } else {
            a.len() + (b.len() - 1 - (i - a.len()))
        };
        let fj = if j < a.len() {
            j
        } else {
            a.len() + (b.len() - 1 - (j - a.len()))
        };
        assert(to[i] == from[fi]);
        assert(to[j] == from[fj]);
    }
}

impl ImmixSpace {
    /// Sweeps the used blocks, the earliest first. In each, every line that is
    /// neither `Live` nor `ConservLive` becomes `Free`. A block with a free
    /// line joins the usable blocks; a full one goes back among the used.
    pub fn sweep(&mut self) -> (r: SweepOutcome)
        requires
            old(self).wf(),
        ensures
            final(self).wf(),
            match r {
                SweepOutcome::Swept => final(self)@ == old(self)@.swept(
                    old(self)@.used.len() as int,
                ) && final(self)@.used.len() < old(self)@.total_blocks(),
                SweepOutcome::OutOfMemory => final(self)@ == old(self)@.swept(
                    old(self)@.used.len() as int,
                ) && final(self)@.used.len() == old(self)@.total_blocks(),
                SweepOutcome::Interrupted(count) => count < old(self)@.used.len() && final(self)@
                    == old(self)@.swept(count as int),
            },
    {
        let ghost before = old(self)@;
        let ghost something = frees_something(before.lines);
        let ghost nothing = frees_nothing(before.lines);
        let count = queue_len(&self.used_blocks);
        let mut full: Vec<usize> = Vec::new();
        let mut done: usize = 0;
        let mut interrupted = false;
        proof {
            assert(before.used.take(0) =~= Seq::<usize>::empty());
            assert(before.used.take(0).filter(something) =~= Seq::<usize>::empty());
            assert(before.used.take(0).filter(nothing) =~= Seq::<usize>::empty());
            assert(before.usable + Seq::<usize>::empty() =~= before.usable);
            assert(before.used.skip(0) =~= before.used);
            assert(before.lines =~= swept_lines(before.lines, before.used.take(0)));
            assert(before.usable + before.used + Seq::<usize>::empty() =~= before.usable
                + before.used);
        }
        while done < count && !interrupted
            invariant
                before == old(self)@,
                before.wf(),
                something == frees_something(before.lines),
                nothing == frees_nothing(before.lines),
                count == before.used.len(),
                done <= count,
                interrupted ==> done < count,
                self.start == old(self).start,
                self.end == old(self).end,
                self.alloc_map == old(self).alloc_map,
                self.trace_map == old(self).trace_map,
                self.mmap == old(self).mmap,
                self.mmap_base == old(self).mmap_base,
                self.total_blocks == old(self).total_blocks,
                self.gc_requested == old(self).gc_requested,
                old(self).wf(),
                self.line_mark_table.space_start() == old(self).line_mark_table.space_start(),
                self.line_mark_table@ == swept_lines(before.lines, before.used.take(done as int)),
                queued(self.usable_blocks) == before.usable + before.used.take(done as int).filter(
                    something,
                ),
                queued(self.used_blocks) == before.used.skip(done as int),
                full@ == before.used.take(done as int).filter(nothing),
                (queued(self.usable_blocks) + queued(self.used_blocks) + full@).no_duplicates(),
            decreases count - done + if interrupted { 0int } else { 1int },
        {
            match take(&mut self.used_blocks) {
                Stolen::Success(id) => {
                    let ghost gone = before.used.take(done as int);
                    let ghost usable_before = queued(self.usable_blocks);
                    let ghost rest = before.used.skip(done as int + 1);
                    proof {
                        assert(id == before.used[done as int]);
                        assert(before.used.take(done as int + 1) =~= gone.push(id));
                        assert(before.used.skip(done as int).skip(1) =~= rest);
                        assert(id < before.total_blocks());
                        lemma_sweep_one_more(before.lines, gone, id);
                        gone.lemma_filter_push(id, something);
                        gone.lemma_filter_push(id, nothing);
                        assert(usable_before + before.used.skip(done as int) + full@
                            =~= usable_before + seq![id] + (rest + full@));
                    }
                    let has_free_lines = sweep_block(&mut self.line_mark_table, id);
                    if has_free_lines {
                        push(&mut self.usable_blocks, id);
                        proof {
                            assert(queued(self.usable_blocks) =~= before.usable + gone.push(
                                id,
                            ).filter(something));
                            assert(queued(self.usable_blocks) + queued(self.used_blocks) + full@
                                =~= usable_before + seq![id] + (rest + full@));
                        }
                    } else {
                        let ghost full_before = full@;
                        proof {
                            lemma_rotate_no_duplicates(usable_before, rest + full_before, id);
                        }
                        full.push(id);
                        proof {
                            assert(queued(self.usable_blocks) + queued(self.used_blocks) + full@
                                =~= usable_before + (rest + full_before) + seq![id]);
                        }
                    }
                    done += 1;
                },
                _ => {
                    interrupted = true;
                },
            }
        }
        let ghost gone = before.used.take(done as int);
        let ghost rest = queued(self.used_blocks);
        let ghost usable_now = queued(self.usable_blocks);
        let mut i = full.len();
        while i > 0
            invariant
                i <= full@.len(),
                queued(self.used_blocks) == rest + full@.skip(i as int).reverse(),
                queued(self.usable_blocks) == usable_now,
                self.start == old(self).start,
                self.end == old(self).end,
                self.alloc_map == old(self).alloc_map,
                self.trace_map == old(self).trace_map,
                self.mmap == old(self).mmap,
                self.mmap_base == old(self).mmap_base,
                self.total_blocks == old(self).total_blocks,
                self.gc_requested == old(self).gc_requested,
                self.line_mark_table.space_start() == old(self).line_mark_table.space_start(),
                self.line_mark_table@ == swept_lines(before.lines, gone),
            decreases i,
        {
            i -= 1;
            push(&mut self.used_blocks, full[i]);
            assert(full@.skip(i as int).reverse() =~= full@.skip(i as int + 1).reverse().push(
                full@[i as int],
            ));
        }
        proof {
            assert(full@.skip(0) =~= full@);
            lemma_reverse_tail_no_duplicates(usable_now + rest, full@);
            assert(self@.usable + self@.used =~= usable_now + rest + full@.reverse());
            assert(self@ == before.swept(done as int));
            lemma_swept_blocks(before, done as int);
            if !interrupted {
                assert(rest =~= Seq::<usize>::empty());
                assert(self@.used =~= full@.reverse());
            }
        }
        if interrupted {
            SweepOutcome::Interrupted(done)
        } else if full.len() == self.total_blocks {
            SweepOutcome::OutOfMemory
        } else {
            proof {
                lemma_queue_bound(self@);
            }
            SweepOutcome::Swept
        }
    }
}

/// The blocks in the queues of a space after a sweep are blocks of the space.
proof fn lemma_swept_blocks(before: ImmixSpaceView, count: int)
    requires
        before.wf(),
        0 <= count <= before.used.len(),
    ensures
        forall|i: int|
            0 <= i < before.swept(count).usable.len() ==> 0 <= #[trigger] before.swept(
                count,
            ).usable[i] < before.total_blocks(),
        forall|i: int|
            0 <= i < before.swept(count).used.len() ==> 0 <= #[trigger] before.swept(count).used[i]
                < before.total_blocks(),
{
    let after = before.swept(count);
    let gone = before.used.take(count);
    let freed = gone.filter(frees_something(before.lines));
    let kept = gone.filter(frees_nothing(before.lines));
    assert forall|i: int| 0 <= i < after.usable.len() implies 0 <= #[trigger] after.usable[i]
        < before.total_blocks() by {
        if i >= before.usable.len() {
            let x = freed[i - before.usable.len()];
            assert(freed.contains(x));
            gone.lemma_filter_contains_rev(frees_something(before.lines), x);
            assert(gone.contains(x));
            let k = choose|k: int| 0 <= k < gone.len() && gone[k] == x;
            assert(before.used[k] == x);
        }
    }
    assert forall|i: int| 0 <= i < after.used.len() implies 0 <= #[trigger] after.used[i]
        < before.total_blocks() by {
        let rest = before.used.skip(count);
        if i >= rest.len() {
            let x = kept.reverse()[i - rest.len()];
            assert(x == kept[kept.len() - 1 - (i - rest.len())]);
            assert(kept.contains(x));
            gone.lemma_filter_contains_rev(frees_nothing(before.lines), x);
            assert(gone.contains(x));
            let k = choose|k: int| 0 <= k < gone.len() && gone[k] == x;
            assert(before.used[k] == x);
        } else {
            assert(after.used[i] == before.used[count + i]);
        }
    }
}

/// The queues of a space hold no more blocks than the space has.
pub proof fn lemma_queue_bound(space: ImmixSpaceView)
    requires
        space.wf(),
    ensures
        space.usable.len() + space.used.len() <= space.total_blocks(),
{
    let all = space.usable + space.used;
    let ids = Set::new(|id: usize| 0 <= id < space.total_blocks());
    all.unique_seq_to_set();
    assert(all.to_set().subset_of(ids)) by {
        assert forall|x: usize| all.to_set().contains(x) implies ids.contains(x) by {
            let k = choose|k: int| 0 <= k < all.len() && all[k] == x;
            if k < space.usable.len() {
                assert(space.usable[k] == x);
            } else {
                assert(space.used[k - space.usable.len()] == x);
            }
        }
    }
    lemma_ids_finite(space.total_blocks() as nat);
    vstd::set_lib::lemma_len_subset(all.to_set(), ids);
}

/// There are `n` block numbers below `n`.
proof fn lemma_ids_finite(n: nat)
    requires
        n <= usize::MAX,
    ensures
        Set::new(|id: usize| 0 <= id < n).finite(),
        Set::new(|id: usize| 0 <= id < n).len() == n,
    decreases n,
{
    let ids = Set::new(|id: usize| 0 <= id < n);
    if n == 0 {
        assert(ids =~= Set::<usize>::empty());
    } else {
        let fewer = Set::new(|id: usize| 0 <= id < n - 1);
        lemma_ids_finite((n - 1) as nat);
        assert(ids =~= fewer.insert((n - 1) as usize));
    }
}

/// Keeping the items of a sequence that all pass the test keeps them all, and
/// keeping those that pass a test which none passes keeps none.
proof fn lemma_filter_all(items: Seq<usize>, yes: spec_fn(usize) -> bool, no: spec_fn(usize) -> bool)
    requires
        forall|i: int| 0 <= i < items.len() ==> yes(#[trigger] items[i]) && !no(items[i]),
    ensures
        items.filter(yes) == items,
        items.filter(no) == Seq::<usize>::empty(),
    decreases items.len(),
{
    if items.len() == 0 {
        assert(items.filter(yes) =~= items);
        assert(items.filter(no) =~= Seq::<usize>::empty());
    } else {
        let rest = items.drop_last();
        lemma_filter_all(rest, yes, no);
        assert(rest.push(items.last()) =~= items);
        rest.lemma_filter_push(items.last(), yes);
        rest.lemma_filter_push(items.last(), no);
    }
}

/// A sweep leaves the lines of a block that it does not go through as they
/// were, frees the lines of a swept block that are not kept, and keeps the
/// others.
pub proof fn lemma_swept_lines(lines: Seq<LineMark>, blocks: Seq<usize>, id: int)
    requires
        0 <= id,
        id * 256 + 256 <= lines.len(),
    ensures
        !holds(blocks, id) ==> forall|l: int|
            id * 256 <= l < id * 256 + 256 ==> #[trigger] swept_lines(lines, blocks)[l] == lines[l],
        holds(blocks, id) ==> forall|l: int|
            id * 256 <= l < id * 256 + 256 ==> #[trigger] swept_lines(lines, blocks)[l] == (
            if is_kept(lines[l]) {
                lines[l]
            } else {
                LineMark::Free
            }),
        has_garbage(lines, id) && holds(blocks, id) ==> has_free_line(
            swept_lines(lines, blocks),
            id,
        ),
        !has_garbage(lines, id) ==> is_full(swept_lines(lines, blocks), id),
{
    let after = swept_lines(lines, blocks);
    assert forall|l: int| id * 256 <= l < id * 256 + 256 implies #[trigger] after[l] == (if holds(
        blocks,
        id,
    ) && !is_kept(lines[l]) {
        LineMark::Free
    } else {
        lines[l]
    }) by {
        assert(l / 256 == id);
    }
    if has_garbage(lines, id) && holds(blocks, id) {
        let l = choose|l: int| id * 256 <= l < id * 256 + 256 && !is_kept(#[trigger] lines[l]);
        assert(l / 256 == id);
        assert(after[l] == LineMark::Free);
    }
    if !has_garbage(lines, id) {
        assert forall|l: int| id * 256 <= l < id * 256 + 256 implies is_kept(#[trigger] after[l]) by {
            assert(is_kept(lines[l]));
        }
    }
}

/// In the space `after`, every block among the used is full, every block
/// among the usable that was not usable in `before` has a free line, and the
/// blocks that were usable in `before`, none of which was used, come first
/// among the usable.
pub open spec fn sorted_by_sweep(before: ImmixSpaceView, after: ImmixSpaceView) -> bool {
    &&& forall|i: int|
        0 <= i < after.used.len() ==> is_full(after.lines, (#[trigger] after.used[i]) as int)
    &&& forall|i: int|
        before.usable.len() <= i < after.usable.len() ==> has_free_line(
            after.lines,
            (#[trigger] after.usable[i]) as int,
        )
    &&& forall|i: int|
        0 <= i < before.usable.len() ==> #[trigger] after.usable[i] == before.usable[i]
            && !holds(before.used, before.usable[i] as int)
}

/// After a sweep of all used blocks, every block among the used is full, and
/// every block that the sweep moved to the usable blocks has a free line. The
/// blocks that were usable before are usable still.
pub proof fn lemma_sweep_sorts_blocks(before: ImmixSpaceView)
    requires
        before.wf(),
    ensures
        sorted_by_sweep(before, before.swept(before.used.len() as int)),
{
    let count = before.used.len() as int;
    let after = before.swept(count);
    let gone = before.used.take(count);
    assert(gone =~= before.used);
    let freed = gone.filter(frees_something(before.lines));
    let full = gone.filter(frees_nothing(before.lines));
    before.lemma_layout();
    assert(before.used.skip(count) =~= Seq::<usize>::empty());
    assert(after.used =~= full.reverse());
    assert forall|i: int| 0 <= i < after.used.len() implies is_full(
        after.lines,
        (#[trigger] after.used[i]) as int,
    ) by {
        let x = full[full.len() - 1 - i];
        assert(after.used[i] == x);
        assert(frees_nothing(before.lines)(x));
        assert(full.contains(x));
        gone.lemma_filter_contains_rev(frees_nothing(before.lines), x);
        let k = choose|k: int| 0 <= k < gone.len() && gone[k] == x;
        assert(before.used[k] == x);
        lemma_swept_lines(before.lines, gone, x as int);
    }
    assert forall|i: int| before.usable.len() <= i < after.usable.len() implies has_free_line(
        after.lines,
        (#[trigger] after.usable[i]) as int,
    ) by {
        let x = freed[i - before.usable.len()];
        assert(after.usable[i] == x);
        assert(frees_something(before.lines)(x));
        assert(freed.contains(x));
        gone.lemma_filter_contains_rev(frees_something(before.lines), x);
        let k = choose|k: int| 0 <= k < gone.len() && gone[k] == x;
        assert(before.used[k] == x);
        assert(holds(gone, x as int));
        lemma_swept_lines(before.lines, gone, x as int);
    }
    assert forall|i: int| 0 <= i < before.usable.len() implies #[trigger] after.usable[i]
        == before.usable[i] && !holds(before.used, before.usable[i] as int) by {
        let all = before.usable + before.used;
        if holds(before.used, before.usable[i] as int) {
            let k = choose|k: int|
                0 <= k < before.used.len() && #[trigger] before.used[k] == before.usable[i] as int;
            assert(all[i] == before.usable[i]);
            assert(all[before.usable.len() + k] == before.used[k]);
        }
    }
    assert(sorted_by_sweep(before, after));
}

/// After a sweep of all used blocks, every block waits in exactly one queue: a
/// block either is among the used blocks and is full, or is among the usable
/// blocks; a usable block has a free line if the sweep went through it, and
/// its lines as they were if not. This holds of a space all of whose blocks
/// wait in the queues when the sweep begins.
pub proof fn lemma_every_block_sorted(before: ImmixSpaceView, id: int)
    requires
        before.wf(),
        0 <= id < before.total_blocks(),
        before.usable.len() + before.used.len() == before.total_blocks(),
    ensures
        ({
            let after = before.swept(before.used.len() as int);
            ||| holds(after.usable, id) && !holds(after.used, id) && (if holds(before.usable, id) {
                forall|l: int|
                    id * 256 <= l < id * 256 + 256 ==> #[trigger] after.lines[l] == before.lines[l]
            } else {
                has_free_line(after.lines, id)
            })
            ||| holds(after.used, id) && is_full(after.lines, id) && !holds(after.usable, id)
        }),
{
    let count = before.used.len() as int;
    let after = before.swept(count);
    let gone = before.used.take(count);
    assert(gone =~= before.used);
    let something = frees_something(before.lines);
    let nothing = frees_nothing(before.lines);
    let freed = gone.filter(something);
    let full = gone.filter(nothing);
    before.lemma_layout();
    lemma_sweep_sorts_blocks(before);
    assert(before.used.skip(count) =~= Seq::<usize>::empty());
    assert(after.used =~= full.reverse());
    lemma_every_block_waits(before, id);
    lemma_swept_lines(before.lines, gone, id);
    // Where the block waits after the sweep.
    if holds(before.usable, id) {
        let i = choose|i: int| 0 <= i < before.usable.len() && #[trigger] before.usable[i] == id;
        assert(after.usable[i] == id);
        assert(!holds(before.used, before.usable[i] as int));
        assert(!holds(gone, id));
        if holds(after.used, id) {
            let j = choose|j: int| 0 <= j < after.used.len() && #[trigger] after.used[j] == id;
            assert(full.contains(full[full.len() - 1 - j]));
            gone.lemma_filter_contains_rev(nothing, id as usize);
            let k = choose|k: int| 0 <= k < gone.len() && gone[k] == id as usize;
            assert(before.used[k] == id);
        }
    } else {
        let k = choose|k: int| 0 <= k < before.used.len() && #[trigger] before.used[k] == id;
        assert(gone[k] == id as usize);
        if has_garbage(before.lines, id) {
            assert(something(gone[k]));
            assert(freed.contains(gone[k]));
            let j = choose|j: int| 0 <= j < freed.len() && freed[j] == id as usize;
            assert(after.usable[before.usable.len() + j] == id);
            if holds(after.used, id) {
                let m = choose|m: int| 0 <= m < after.used.len() && #[trigger] after.used[m] == id;
                assert(nothing(full[full.len() - 1 - m]));
            }
        } else {
            assert(nothing(gone[k]));
            assert(full.contains(gone[k]));
            let j = choose|j: int| 0 <= j < full.len() && full[j] == id as usize;
            assert(after.used[full.len() - 1 - j] == id);
            if holds(after.usable, id) {
                let m = choose|m: int|
                    0 <= m < after.usable.len() && #[trigger] after.usable[m] == id;
                if m < before.usable.len() {
                    assert(before.usable[m] == id);
                } else {
                    assert(something(freed[m - before.usable.len()]));
                }
            }
        }
    }
}

/// After a collection every block waits in a queue of its kind: a block either
/// is among the usable blocks and has a free line, or is among the used
/// blocks and is full. This holds of a space all of whose blocks wait in the
/// queues when the sweep begins, the usable ones with a free line each.
pub proof fn lemma_blocks_after_sweep(before: ImmixSpaceView, id: int)
    requires
        before.wf(),
        0 <= id < before.total_blocks(),
        before.usable.len() + before.used.len() == before.total_blocks(),
        forall|i: int|
            0 <= i < before.usable.len() ==> has_free_line(
                before.lines,
                #[trigger] before.usable[i] as int,
            ),
    ensures
        ({
            let after = before.swept(before.used.len() as int);
            ||| holds(after.usable, id) && has_free_line(after.lines, id) && !holds(after.used, id)
            ||| holds(after.used, id) && is_full(after.lines, id) && !holds(after.usable, id)
        }),
{
    let after = before.swept(before.used.len() as int);
    lemma_every_block_sorted(before, id);
    if holds(before.usable, id) {
        let i = choose|i: int| 0 <= i < before.usable.len() && #[trigger] before.usable[i] == id;
        assert(has_free_line(before.lines, before.usable[i] as int));
        let l = choose|l: int|
            id * 256 <= l < id * 256 + 256 && #[trigger] before.lines[l] == LineMark::Free;
        if holds(after.usable, id) {
            assert(after.lines[l] == before.lines[l]);
        }
    }
}

/// Where the queues of a space hold as many blocks as the space has, every
/// block waits in one of them.
pub proof fn lemma_every_block_waits(space: ImmixSpaceView, id: int)
    requires
        space.wf(),
        0 <= id < space.total_blocks(),
        space.usable.len() + space.used.len() == space.total_blocks(),
    ensures
        holds(space.usable, id) || holds(space.used, id),
{
    let all = space.usable + space.used;
    let ids = Set::new(|id: usize| 0 <= id < space.total_blocks());
    all.unique_seq_to_set();
    assert(all.to_set().subset_of(ids)) by {
        assert forall|x: usize| all.to_set().contains(x) implies ids.contains(x) by {
            let k = choose|k: int| 0 <= k < all.len() && all[k] == x;
            if k < space.usable.len() {
                assert(space.usable[k] == x);
            } else {
                assert(space.used[k - space.usable.len()] == x);
            }
        }
    }
    lemma_ids_finite(space.total_blocks() as nat);
    vstd::set_lib::lemma_len_subset(all.to_set(), ids);
    vstd::set_lib::lemma_subset_equality(all.to_set(), ids);
    assert(ids.contains(id as usize));
    assert(all.to_set().contains(id as usize));
    let k = choose|k: int| 0 <= k < all.len() && all[k] == id as usize;
    if k < space.usable.len() {
        assert(space.usable[k] == id);
    } else {
        assert(space.used[k - space.usable.len()] == id);
    }
}

/// A sweep of used blocks that are all full changes no line and no usable
/// block, and puts the used blocks back in the opposite order.
proof fn lemma_resweep(once: ImmixSpaceView)
    requires
        forall|i: int|
            0 <= i < once.used.len() ==> is_full(once.lines, (#[trigger] once.used[i]) as int),
    ensures
        once.swept(once.used.len() as int) == (ImmixSpaceView {
            used: once.used.reverse(),
            ..once
        }),
{
    let twice = once.swept(once.used.len() as int);
    let gone = once.used.take(once.used.len() as int);
    assert(gone =~= once.used);
    assert forall|i: int| 0 <= i < gone.len() implies frees_nothing(once.lines)(
        #[trigger] gone[i],
    ) && !frees_something(once.lines)(gone[i]) by {
        assert(is_full(once.lines, once.used[i] as int));
        if has_garbage(once.lines, gone[i] as int) {
            let l = choose|l: int|
                gone[i] * 256 <= l < gone[i] * 256 + 256 && !is_kept(#[trigger] once.lines[l]);
            assert(is_kept(once.lines[l]));
        }
    }
    lemma_filter_all(gone, frees_nothing(once.lines), frees_something(once.lines));
    assert(once.used.skip(once.used.len() as int) =~= Seq::<usize>::empty());
    assert(twice.usable =~= once.usable);
    assert(twice.used =~= once.used.reverse());
    assert(twice.lines =~= once.lines) by {
        assert forall|l: int| 0 <= l < once.lines.len() implies twice.lines[l]
            == once.lines[l] by {
            if holds(gone, l / 256) {
                let k = choose|k: int| 0 <= k < gone.len() && #[trigger] gone[k] == l / 256;
                assert(is_full(once.lines, once.used[k] as int));
                assert(is_kept(once.lines[l]));
            }
        }
    }
}

/// A second sweep right after a sweep of all used blocks changes no line and
/// no usable block: it finds every used block full, and puts them back in
/// the opposite order.
pub proof fn lemma_sweep_idempotent(before: ImmixSpaceView)
    requires
        before.wf(),
    ensures
        ({
            let once = before.swept(before.used.len() as int);
            once.swept(once.used.len() as int) == (ImmixSpaceView {
                used: once.used.reverse(),
                ..once
            })
        }),
{
    lemma_sweep_sorts_blocks(before);
    lemma_resweep(before.swept(before.used.len() as int));
}

} // verus!
