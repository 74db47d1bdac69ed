//! The Immix space: blocks of lines, and the thread-local allocators that bump
//! through the free lines of one block at a time.
use vstd::prelude::*;

pub mod immix_space;
pub mod immix_mutator;


pub use self::immix_space::ImmixSpace;
pub use self::immix_space::ImmixBlock;
pub use self::immix_mutator::ImmixMutatorLocal;
pub use self::immix_mutator::ImmixMutatorGlobal;
pub use self::immix_space::LineMarkTable as ImmixLineMarkTable;

verus! {

pub const LOG_BYTES_IN_LINE: usize = 8;

pub const BYTES_IN_LINE: usize = 256;

pub const LOG_BYTES_IN_BLOCK: usize = 16;

pub const BYTES_IN_BLOCK: usize = 65536;

pub const LINES_IN_BLOCK: usize = 256;

/// The state of one line of the space.
#[derive(PartialEq, Eq, Structural, Debug, Copy, Clone)]
pub enum LineMark {
    Free,
    Live,
    FreshAlloc,
    ConservLive,
    PrevLive,
}

/// The state of one block.
#[derive(PartialEq, Eq, Structural, Debug, Copy, Clone)]
pub enum BlockMark {
    Usable,
    Full,
}

/// A line that the last trace found in use: a sweep keeps it.
pub open spec fn is_live(m: LineMark) -> bool {
    m == LineMark::Live || m == LineMark::ConservLive
}

} // verus!
