//! The heap: the Immix space for small objects, the free-list space for large
//! ones, and the collector that traces and sweeps them.
use vstd::prelude::*;
use crate::common::Address;
use crate::heap::immix::ImmixSpace;

pub mod immix;
pub mod freelist;
pub mod gc;

verus! {

/// The byte that fills the gap an alignment leaves before an object.
pub const ALIGNMENT_VALUE: u8 = 1;

/// The heap size used when none is configured: 500 MiB.
pub const DEFAULT_HEAP_SIZE: usize = 524288000;

/// Fills the bytes `[start, end)` that an alignment skipped with
/// `ALIGNMENT_VALUE`.
pub fn fill_alignment_gap(space: &mut ImmixSpace, start: Address, end: Address)
    requires
        old(space).wf(),
        old(space).start.0 <= start.0 <= end.0 <= old(space).end.0,
    ensures
        final(space).wf(),
        final(space).same_tables(old(space)),
        final(space).memory@.len() == old(space).memory@.len(),
        forall|i: int|
            0 <= i < old(space).memory@.len() ==> #[trigger] final(space).memory@[i] == if start.0
                - old(space).start.0 <= i < end.0 - old(space).start.0 {
                ALIGNMENT_VALUE
            } else {
                old(space).memory@[i]
            },
{
    space.memset(start, ALIGNMENT_VALUE, end.diff(start));
}

} // verus!
