//! The Immix space: blocks, lines, and the mutators that allocate in them.
use vstd::prelude::*;

pub mod backing;
pub mod immix_mutator;
pub mod immix_space;
pub mod line_mark;

pub use self::immix_mutator::{ImmixMutatorGlobal, ImmixMutatorLocal};
pub use self::immix_space::{ImmixBlock, ImmixSpace};
pub use self::line_mark::{LineMark, LineMarkTable, LineMarkTableSlice};

verus! {

/// Base-two logarithm of the size of a line.
pub const LOG_BYTES_IN_LINE: usize = 8;

/// The size of a line in bytes.
pub const BYTES_IN_LINE: usize = 256;

/// Base-two logarithm of the size of a block.
pub const LOG_BYTES_IN_BLOCK: usize = 16;

/// The size of a block in bytes.
pub const BYTES_IN_BLOCK: usize = 65536;

/// The number of lines in a block.
pub const LINES_IN_BLOCK: usize = 256;

/// What the last sweep found of a block.
#[derive(PartialEq, Eq, Structural, Debug, Copy, Clone)]
pub enum BlockMark {
    /// The block has a free line.
    Usable,
    /// Every line of the block is in use.
    Full,
}

} // verus!
