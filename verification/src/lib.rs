//! A mark-region garbage collector in the Immix style: a block- and
//! line-structured heap with bump allocation, conservative roots, a tracing
//! marker, and a side space for large objects.
use vstd::prelude::*;

pub mod common;
pub mod heap;
pub mod objectmodel;

pub use common::{Address, ObjectReference};
pub use heap::freelist::{alloc_large, FreeListSpace};
pub use heap::gc::{collect, gc_count, sync_barrier, trigger_gc};
pub use heap::immix::{ImmixMutatorLocal, ImmixSpace};
pub use heap::ImmixGC;

