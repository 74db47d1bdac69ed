//! The object model: the mark state of the current collection, the trace
//! mark of each object, and the encoding byte that says which of an object's
//! words are references.
use vstd::prelude::*;
use crate::common::{Address, AddressMap, ObjectReference};

verus! {

/// The number of low bits of an encoding byte that flag reference fields.
pub const REF_BITS_LEN: usize = 6;

/// The bit of an encoding byte set at the start of an object.
pub const OBJ_START_BIT: usize = 6;

/// The bit of an encoding byte set when all the reference fields of the object
/// are flagged in that one byte.
pub const SHORT_ENCODE_BIT: usize = 7;

/// Sets the mark state for the first collection.
pub fn init(mark_state: &mut usize)
    ensures
        *final(mark_state) == 1,
{
    *mark_state = 1;
}

/// Switches the mark state between 0 and 1: objects marked in one collection
/// count as unmarked in the next.
pub fn flip_mark_state(mark_state: &mut usize)
    ensures
        *final(mark_state) == if *old(mark_state) == 0 {
            1usize
        } else {
            0usize
        },
{
    let s = *mark_state;
    if s == 0 {
        *mark_state = 1;
    } else {
        *mark_state = 0;
    }
}

/// Marks `obj` traced with `mark_state`.
pub fn mark_as_traced(
    trace_map: &mut AddressMap<u8>,
    space_start: Address,
    obj: ObjectReference,
    mark_state: u8,
)
    requires
        old(trace_map).wf(),
        old(trace_map).spec_start() == space_start.0,
        old(trace_map).covers(Address(obj.0)),
    ensures
        final(trace_map).wf(),
        final(trace_map).spec_start() == old(trace_map).spec_start(),
        final(trace_map).spec_end() == old(trace_map).spec_end(),
        final(trace_map)@ == old(trace_map)@.update(
            old(trace_map).index_of(Address(obj.0)),
            mark_state,
        ),
{
    trace_map.set(obj.to_address(), mark_state);
}

/// Whether `obj` carries the mark `mark_state`.
pub fn is_traced(
    trace_map: &AddressMap<u8>,
    space_start: Address,
    obj: ObjectReference,
    mark_state: u8,
) -> (b: bool)
    requires
        trace_map.wf(),
        trace_map.spec_start() == space_start.0,
        trace_map.covers(Address(obj.0)),
    ensures
        b == (trace_map@[trace_map.index_of(Address(obj.0))] == mark_state),
{
    trace_map.get(obj.to_address()) == mark_state
}

/// The encoding byte of `obj`.
pub fn get_ref_byte(alloc_map: &AddressMap<u8>, space_start: Address, obj: ObjectReference) -> (b:
    u8)
    requires
        alloc_map.wf(),
        alloc_map.spec_start() == space_start.0,
        alloc_map.covers(Address(obj.0)),
    ensures
        b == alloc_map@[alloc_map.index_of(Address(obj.0))],
{
    alloc_map.get(obj.to_address())
}

} // verus!
