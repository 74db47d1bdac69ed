//! The collector: it traces the objects reachable from the roots, marking
//! each traced object and the lines it lies in, and then sweeps the space.
use vstd::prelude::*;
use crate::common::{
    Address, AddressMap, ObjectReference, test_nth_bit, lower_bits, spec_nth_bit,
    spec_lower_bits,
};
use crate::objectmodel;
use crate::objectmodel::{REF_BITS_LEN, OBJ_START_BIT, SHORT_ENCODE_BIT};
use crate::heap::immix::{LineMark, is_live, ImmixMutatorGlobal, ImmixMutatorLocal};
use crate::heap::immix::immix_space::{ImmixSpace, LineMarkTable, spec_load};
use crate::heap::immix::immix_mutator::{line_of, flags_raised};
use crate::heap::immix::immix_space::{swept_table, swept_usable, swept_full};
use crate::heap::freelist::FreeListSpace;

verus! {

/// The number of roots from which a parallel trace would pay off.
pub const MULTI_THREAD_TRACE_THRESHOLD: usize = 10;

/// The length of a tracer's local queue from which it hands further work to
/// the shared queue.
pub const PUSH_BACK_THRESHOLD: usize = 50;

/// The encoding byte of `o`.
pub open spec fn ref_byte(space: &ImmixSpace, o: ObjectReference) -> u8 {
    space.alloc_map@[space.alloc_map.index_of(Address(o.0))]
}

/// The number of reference fields that the low bits of an encoding byte
/// stand for: the first one, the first two, or the first four words.
pub open spec fn field_count(ref_bits: u8) -> int {
    if ref_bits == 1u8 {
        1
    } else if ref_bits == 3u8 {
        2
    } else if ref_bits == 15u8 {
        4
    } else {
        0
    }
}

/// The number of reference fields of `o`.
pub open spec fn fields_of(space: &ImmixSpace, o: ObjectReference) -> int {
    field_count(spec_lower_bits(ref_byte(space, o), REF_BITS_LEN as u8))
}

/// `o` can be traced: it lies in the space, with an entry in both maps and a
/// line in the line table, its encoding is short and flags one, two or four
/// reference fields, and those fields lie in the space.
pub open spec fn traceable(space: &ImmixSpace, o: ObjectReference) -> bool {
    &&& space.start.0 <= o.0
    &&& space.alloc_map.covers(Address(o.0))
    &&& space.trace_map.covers(Address(o.0))
    &&& line_of(space, o.0 as int) < space.line_mark_table@.len()
    &&& spec_nth_bit(ref_byte(space, o), SHORT_ENCODE_BIT as u8)
    &&& fields_of(space, o) > 0
    &&& o.0 + 8 * fields_of(space, o) <= space.end.0
}

/// Which objects a trace can pass through is fixed by their encoding byte
/// and their place alone: an object of the space, eight-aligned, in a line of
/// the line table, whose encoding byte is short (bit 7) and whose six
/// reference bits flag the first word (`0b000001`), the first two
/// (`0b000011`) or the first four (`0b001111`), with those words in the space,
/// can be traced, and it has one, two or four reference fields.
pub proof fn lemma_short_objects_traceable(space: &ImmixSpace, o: ObjectReference)
    requires
        space.wf(),
        space.start.0 <= o.0,
        (o.0 - space.start.0) % 8 == 0,
        o.0 - space.start.0 < 256 * space.line_mark_table@.len(),
        space.alloc_map@[(o.0 - space.start.0) / 8] & 0x80u8 == 0x80u8,
        ({
            let bits = space.alloc_map@[(o.0 - space.start.0) / 8] & 0x3fu8;
            ||| bits == 1u8 && o.0 + 8 <= space.end.0
            ||| bits == 3u8 && o.0 + 16 <= space.end.0
            ||| bits == 15u8 && o.0 + 32 <= space.end.0
        }),
    ensures
        traceable(space, o),
        fields_of(space, o) == match space.alloc_map@[(o.0 - space.start.0) / 8] & 0x3fu8 {
            1u8 => 1int,
            3u8 => 2int,
            _ => 4int,
        },
{
    let e = space.alloc_map@[(o.0 - space.start.0) / 8];
    assert(e == ref_byte(space, o));
    assert(spec_nth_bit(e, SHORT_ENCODE_BIT as u8)) by (bit_vector)
        requires
            e & 0x80u8 == 0x80u8,
    ;
    assert(spec_lower_bits(e, REF_BITS_LEN as u8) == e & 0x3fu8) by (bit_vector);
    let n = (space.end.0 - space.start.0) as int;
    let x = (o.0 - space.start.0) as int;
    assert(x / 8 < n / 8) by (nonlinear_arith)
        requires
            x % 8 == 0,
            x + 8 <= n,
            x >= 0,
    ;
    assert(x / 256 < space.line_mark_table@.len()) by (nonlinear_arith)
        requires
            x < 256 * space.line_mark_table@.len(),
            x >= 0,
    ;
}

/// A trace is owed success when every object it can reach, the roots
/// included and null references aside, is a short object of the space with
/// one, two or four reference fields as `lemma_short_objects_traceable` says:
/// `start_trace` from such roots returns `Ok` and marks every such object.
pub proof fn lemma_short_objects_trace_owed(space: &ImmixSpace, roots: Seq<ObjectReference>)
    requires
        space.wf(),
        forall|o: ObjectReference|
            #[trigger] reachable(space, roots, o) && (o.0 != 0 || roots.contains(o)) ==> {
                &&& space.start.0 <= o.0
                &&& (o.0 - space.start.0) % 8 == 0
                &&& o.0 - space.start.0 < 256 * space.line_mark_table@.len()
                &&& space.alloc_map@[(o.0 - space.start.0) / 8] & 0x80u8 == 0x80u8
                &&& ({
                    let bits = space.alloc_map@[(o.0 - space.start.0) / 8] & 0x3fu8;
                    ||| bits == 1u8 && o.0 + 8 <= space.end.0
                    ||| bits == 3u8 && o.0 + 16 <= space.end.0
                    ||| bits == 15u8 && o.0 + 32 <= space.end.0
                })
            },
    ensures
        trace_owed(space, roots),
{
    assert forall|o: ObjectReference|
        #[trigger] reachable(space, roots, o) && (o.0 != 0 || roots.contains(o)) implies traceable(
        space,
        o,
    ) by {
        lemma_short_objects_traceable(space, o);
    }
}

/// The references held by the reference fields of `o`, in order.
pub open spec fn children(space: &ImmixSpace, o: ObjectReference) -> Seq<ObjectReference> {
    Seq::new(
        fields_of(space, o) as nat,
        |i: int| ObjectReference(spec_load(space.memory@, o.0 - space.start.0 + 8 * i) as usize),
    )
}

/// The object at position `j` of `path` is traceable and one of its
/// reference fields holds the object at position `j + 1`.
pub open spec fn linked(space: &ImmixSpace, path: Seq<ObjectReference>, j: int) -> bool {
    traceable(space, path[j]) && children(space, path[j]).contains(path[j + 1])
}

/// `path` starts at one of `roots` and goes on from each object to one that
/// a reference field of it holds.
pub open spec fn is_path(space: &ImmixSpace, roots: Seq<ObjectReference>, path: Seq<ObjectReference>) -> bool {
    &&& path.len() > 0
    &&& roots.contains(path[0])
    &&& forall|j: int| 0 <= j < path.len() - 1 ==> #[trigger] linked(space, path, j)
}

/// `o` is reachable from `roots` through the reference fields of traceable
/// objects.
pub open spec fn reachable(space: &ImmixSpace, roots: Seq<ObjectReference>, o: ObjectReference) -> bool {
    exists|path: Seq<ObjectReference>| #[trigger] is_path(space, roots, path) && path.last() == o
}

/// Every object that a trace from `roots` may meet can be traced: each root,
/// and each reference other than null held by a reference field of a
/// reachable traceable object.
pub open spec fn trace_owed(space: &ImmixSpace, roots: Seq<ObjectReference>) -> bool {
    forall|o: ObjectReference|
        #[trigger] reachable(space, roots, o) && (o.0 != 0 || roots.contains(o)) ==> traceable(
            space,
            o,
        )
}

/// An object a trace from `roots` stops at: it is reachable, a root or not
/// null, and cannot be traced.
pub open spec fn trace_stops_at(
    space: &ImmixSpace,
    roots: Seq<ObjectReference>,
    o: ObjectReference,
) -> bool {
    &&& reachable(space, roots, o)
    &&& o.0 != 0 || roots.contains(o)
    &&& !traceable(space, o)
}

/// A root is reachable.
pub proof fn lemma_root_reachable(space: &ImmixSpace, roots: Seq<ObjectReference>, o: ObjectReference)
    requires
        roots.contains(o),
    ensures
        reachable(space, roots, o),
{
    let path = seq![o];
    assert(is_path(space, roots, path));
}

/// A reference held by a reference field of a reachable traceable object is
/// reachable.
pub proof fn lemma_child_reachable(
    space: &ImmixSpace,
    roots: Seq<ObjectReference>,
    q: ObjectReference,
    i: int,
)
    requires
        reachable(space, roots, q),
        traceable(space, q),
        0 <= i < children(space, q).len(),
    ensures
        reachable(space, roots, children(space, q)[i]),
{
    let path = choose|path: Seq<ObjectReference>| #[trigger] is_path(space, roots, path) && path.last() == q;
    let c = children(space, q)[i];
    let p2 = path.push(c);
    assert forall|j: int| 0 <= j < p2.len() - 1 implies #[trigger] linked(space, p2, j) by {
        if j < path.len() - 1 {
            assert(linked(space, path, j));
            assert(p2[j] == path[j] && p2[j + 1] == path[j + 1]);
        } else {
            assert(p2[j] == q && p2[j + 1] == c);
            assert(children(space, q)[i] == c);
        }
    }
    assert(is_path(space, roots, p2));
    assert(p2.last() == c);
}

/// The two spaces hold the same objects: the same bounds, memory and
/// encodings, and maps and line tables of the same extent.
pub open spec fn same_objects(a: &ImmixSpace, b: &ImmixSpace) -> bool {
    &&& a.start == b.start
    &&& a.end == b.end
    &&& a.memory == b.memory
    &&& a.alloc_map == b.alloc_map
    &&& a.trace_map.spec_start() == b.trace_map.spec_start()
    &&& a.trace_map.spec_end() == b.trace_map.spec_end()
    &&& a.trace_map@.len() == b.trace_map@.len()
    &&& a.line_mark_table@.len() == b.line_mark_table@.len()
}

/// Reachability goes only through what tracing keeps: the memory, the
/// encodings and the bounds of the maps.
pub proof fn lemma_reachable_kept(
    s1: &ImmixSpace,
    s2: &ImmixSpace,
    roots: Seq<ObjectReference>,
    o: ObjectReference,
)
    requires
        same_objects(s1, s2),
        reachable(s1, roots, o),
    ensures
        reachable(s2, roots, o),
{
    let path = choose|path: Seq<ObjectReference>| #[trigger] is_path(s1, roots, path) && path.last() == o;
    assert forall|j: int| 0 <= j < path.len() - 1 implies #[trigger] linked(s2, path, j) by {
        assert(linked(s1, path, j));
        assert(traceable(s2, path[j]));
        assert(children(s2, path[j]) == children(s1, path[j]));
    }
    assert(is_path(s2, roots, path));
}

/// What is reachable from objects that are all reachable from `roots` is
/// reachable from `roots`.
pub proof fn lemma_reachable_trans(
    space: &ImmixSpace,
    roots: Seq<ObjectReference>,
    mid: Seq<ObjectReference>,
    o: ObjectReference,
)
    requires
        forall|x: ObjectReference| #[trigger] mid.contains(x) ==> reachable(space, roots, x),
        reachable(space, mid, o),
    ensures
        reachable(space, roots, o),
{
    let p2 = choose|path: Seq<ObjectReference>| #[trigger] is_path(space, mid, path) && path.last() == o;
    assert(mid.contains(p2[0]));
    let p1 = choose|path: Seq<ObjectReference>| #[trigger] is_path(space, roots, path) && path.last()
        == p2[0];
    let whole = p1 + p2.drop_first();
    let n1 = p1.len() as int;
    assert forall|j: int| 0 <= j < whole.len() - 1 implies #[trigger] linked(space, whole, j) by {
        if j < n1 - 1 {
            assert(linked(space, p1, j));
            assert(whole[j] == p1[j] && whole[j + 1] == p1[j + 1]);
        } else {
            let k = j - n1 + 1;
            assert(linked(space, p2, k));
            assert(whole[j] == p2[k]);
            assert(whole[j + 1] == p2[k + 1]);
        }
    }
    assert(is_path(space, roots, whole));
    assert(whole.last() == o);
}

/// `o` has an entry in the trace map `tm` of a space that starts at `start`,
/// and that entry is `mark`.
pub open spec fn is_marked(tm: Seq<u8>, start: usize, mark: u8, o: ObjectReference) -> bool {
    &&& start <= o.0
    &&& (o.0 - start) / 8 < tm.len()
    &&& tm[(o.0 - start) / 8] == mark
}

/// A reference that tracing pushes for later: it is not null and not marked.
pub open spec fn should_push(tm: Seq<u8>, start: usize, mark: u8, c: ObjectReference) -> bool {
    c.0 != 0 && !is_marked(tm, start, mark, c)
}

/// The references of `cs` that tracing pushes, in order.
pub open spec fn pushed(tm: Seq<u8>, start: usize, mark: u8, cs: Seq<ObjectReference>) -> Seq<
    ObjectReference,
>
    decreases cs.len(),
{
    if cs.len() == 0 {
        Seq::empty()
    } else if should_push(tm, start, mark, cs.last()) {
        pushed(tm, start, mark, cs.drop_last()).push(cs.last())
    } else {
        pushed(tm, start, mark, cs.drop_last())
    }
}

/// How the references `cs` are shared out by a tracer whose local queue
/// holds `n_local` entries: each goes to the local queue while it is shorter
/// than `PUSH_BACK_THRESHOLD`, else to the shared queue.
pub open spec fn steal_split(n_local: int, cs: Seq<ObjectReference>) -> (
    Seq<ObjectReference>,
    Seq<ObjectReference>,
)
    decreases cs.len(),
{
    if cs.len() == 0 {
        (Seq::empty(), Seq::empty())
    } else {
        let (l, j) = steal_split(n_local, cs.drop_last());
        if n_local + l.len() >= PUSH_BACK_THRESHOLD {
            (l, j.push(cs.last()))
        } else {
            (l.push(cs.last()), j)
        }
    }
}

/// The entries of `tm` that are not `mark`.
pub open spec fn count_unmarked(tm: Seq<u8>, mark: u8) -> nat
    decreases tm.len(),
{
    if tm.len() == 0 {
        0
    } else {
        count_unmarked(tm.drop_last(), mark) + if tm.last() != mark {
            1nat
        } else {
            0nat
        }
    }
}

/// The entries of the queue `q` that are marked.
pub open spec fn count_marked(tm: Seq<u8>, start: usize, mark: u8, q: Seq<ObjectReference>) -> nat
    decreases q.len(),
{
    if q.len() == 0 {
        0
    } else {
        count_marked(tm, start, mark, q.drop_last()) + if is_marked(tm, start, mark, q.last()) {
            1nat
        } else {
            0nat
        }
    }
}

/// What a complete trace from `roots` leaves: a set `traced` of traceable
/// objects reachable from the roots that holds every root, each marked and
/// with its line kept by a sweep; every reference field of a traced object
/// is null or marked; every
/// entry marked that was not marked before is that of a traced object; the
/// trace map changes only to `mark`, and the line table only to live marks.
pub open spec fn trace_closed(
    before: &ImmixSpace,
    after: &ImmixSpace,
    roots: Seq<ObjectReference>,
    traced: Set<ObjectReference>,
    mark: u8,
) -> bool {
    &&& forall|r: ObjectReference| roots.contains(r) ==> traced.contains(r)
    &&& forall|o: ObjectReference| #[trigger] traced.contains(o) ==> reachable(before, roots, o)
    &&& forall|o: ObjectReference|
        #[trigger] traced.contains(o) ==> {
            &&& traceable(before, o)
            &&& is_marked(after.trace_map@, after.start.0, mark, o)
            &&& is_live(after.line_mark_table@[line_of(after, o.0 as int)])
            &&& line_of(after, o.0 as int) + 1 < after.line_mark_table@.len() ==> is_live(
                after.line_mark_table@[line_of(after, o.0 as int) + 1],
            )
        }
    &&& forall|o: ObjectReference, i: int|
        #![trigger traced.contains(o), children(before, o)[i]]
        traced.contains(o) && 0 <= i < children(before, o).len() ==> children(before, o)[i].0 == 0
            || is_marked(after.trace_map@, after.start.0, mark, children(before, o)[i])
    &&& forall|i: int|
        0 <= i < after.trace_map@.len() && #[trigger] after.trace_map@[i] == mark ==> before.trace_map@[i]
            == mark || exists|o: ObjectReference|
            #![trigger traced.contains(o)]
            traced.contains(o) && (o.0 - before.start.0) / 8 == i
    &&& forall|i: int|
        0 <= i < after.trace_map@.len() && #[trigger] after.trace_map@[i] != before.trace_map@[i]
            ==> after.trace_map@[i] == mark
    &&& forall|l: int|
        0 <= l < after.line_mark_table@.len() && #[trigger] after.line_mark_table@[l]
            != before.line_mark_table@[l] ==> is_live(after.line_mark_table@[l])
}

/// What a tracer that shares its work leaves when it runs out of work: as
/// `trace_closed`, except that a reference field of a traced object may also
/// be one of the references `handed_out` to the shared queue, each of them
/// reachable from the roots.
pub open spec fn trace_closed_sharing(
    before: &ImmixSpace,
    after: &ImmixSpace,
    roots: Seq<ObjectReference>,
    traced: Set<ObjectReference>,
    mark: u8,
    handed_out: Seq<ObjectReference>,
) -> bool {
    &&& forall|r: ObjectReference| roots.contains(r) ==> traced.contains(r)
    &&& forall|o: ObjectReference| #[trigger] traced.contains(o) ==> reachable(before, roots, o)
    &&& forall|x: ObjectReference|
        #[trigger] handed_out.contains(x) ==> reachable(before, roots, x) && x.0 != 0
    &&& forall|o: ObjectReference|
        #[trigger] traced.contains(o) ==> {
            &&& traceable(before, o)
            &&& is_marked(after.trace_map@, after.start.0, mark, o)
            &&& is_live(after.line_mark_table@[line_of(after, o.0 as int)])
            &&& line_of(after, o.0 as int) + 1 < after.line_mark_table@.len() ==> is_live(
                after.line_mark_table@[line_of(after, o.0 as int) + 1],
            )
        }
    &&& forall|o: ObjectReference, i: int|
        #![trigger traced.contains(o), children(before, o)[i]]
        traced.contains(o) && 0 <= i < children(before, o).len() ==> children(before, o)[i].0 == 0
            || handed_out.contains(children(before, o)[i]) || is_marked(
            after.trace_map@,
            after.start.0,
            mark,
            children(before, o)[i],
        )
    &&& forall|i: int|
        0 <= i < after.trace_map@.len() && #[trigger] after.trace_map@[i] == mark ==> before.trace_map@[i]
            == mark || exists|o: ObjectReference|
            #![trigger traced.contains(o)]
            traced.contains(o) && (o.0 - before.start.0) / 8 == i
    &&& forall|i: int|
        0 <= i < after.trace_map@.len() && #[trigger] after.trace_map@[i] != before.trace_map@[i]
            ==> after.trace_map@[i] == mark
    &&& forall|l: int|
        0 <= l < after.line_mark_table@.len() && #[trigger] after.line_mark_table@[l]
            != before.line_mark_table@[l] ==> is_live(after.line_mark_table@[l])
}

/// A tracer that shared its work and handed none of it out has traced its
/// roots completely.
pub proof fn lemma_sharing_without_hand_outs(
    before: &ImmixSpace,
    after: &ImmixSpace,
    roots: Seq<ObjectReference>,
    traced: Set<ObjectReference>,
    mark: u8,
)
    requires
        trace_closed_sharing(before, after, roots, traced, mark, Seq::empty()),
    ensures
        trace_closed(before, after, roots, traced, mark),
{
    assert forall|o: ObjectReference, i: int|
        #![trigger traced.contains(o), children(before, o)[i]]
        traced.contains(o) && 0 <= i < children(before, o).len() implies children(before, o)[i].0
        == 0 || is_marked(after.trace_map@, after.start.0, mark, children(before, o)[i]) by {
        assert(!Seq::<ObjectReference>::empty().contains(children(before, o)[i]));
    }
}

/// The fields of the space that tracing leaves alone.
pub open spec fn trace_keeps(before: &ImmixSpace, after: &ImmixSpace) -> bool {
    &&& after.wf()
    &&& after.start == before.start
    &&& after.end == before.end
    &&& after.memory == before.memory
    &&& after.alloc_map == before.alloc_map
    &&& after.usable_blocks == before.usable_blocks
    &&& after.used_blocks == before.used_blocks
    &&& after.total_blocks == before.total_blocks
    &&& after.trace_map.spec_start() == before.trace_map.spec_start()
    &&& after.trace_map.spec_end() == before.trace_map.spec_end()
    &&& after.trace_map@.len() == before.trace_map@.len()
    &&& after.line_mark_table.spec_space_start() == before.line_mark_table.spec_space_start()
    &&& after.line_mark_table@.len() == before.line_mark_table@.len()
}

/// What a mutator that allocates saw last.
pub enum AllocEvent {
    /// Its allocation came back: `true` when it succeeded, `false` when the
    /// space had no usable block left.
    Attempted(bool),
    /// The collection it stopped for ended: `true` when every block was
    /// left full.
    Collected(bool),
}

/// What a mutator that allocates does next.
#[derive(PartialEq, Eq, Structural, Debug, Clone, Copy)]
pub enum AllocAction {
    /// The allocation is done.
    Done,
    /// Ask every mutator to stop and take part in a collection.
    Collect,
    /// Allocate again, after the collection.
    Retry,
    /// The space is full of live objects: give up.
    OutOfMemory,
}

/// One step of the allocation loop of a mutator: an allocation that
/// succeeded is done; one that found no usable block asks for a collection
/// and, unless the collection left every block full, tries again.
pub fn alloc_step(event: AllocEvent) -> (a: AllocAction)
    ensures
        a == match event {
            AllocEvent::Attempted(true) => AllocAction::Done,
            AllocEvent::Attempted(false) => AllocAction::Collect,
            AllocEvent::Collected(true) => AllocAction::OutOfMemory,
            AllocEvent::Collected(false) => AllocAction::Retry,
        },
{
    match event {
        AllocEvent::Attempted(ok) => if ok {
            AllocAction::Done
        } else {
            AllocAction::Collect
        },
        AllocEvent::Collected(full) => if full {
            AllocAction::OutOfMemory
        } else {
            AllocAction::Retry
        },
    }
}

/// The roots of a program that registers none.
pub fn get_roots() -> (roots: Vec<ObjectReference>)
    ensures
        roots@.len() == 0,
{
    Vec::new()
}

/// Asks every registered mutator to stop at its next yieldpoint.
pub fn trigger_gc(mutators: &mut Vec<Option<ImmixMutatorGlobal>>)
    ensures
        flags_raised(old(mutators)@, final(mutators)@),
{
    let mut i: usize = 0;
    while i < mutators.len()
        invariant
            i <= mutators@.len(),
            mutators@.len() == old(mutators)@.len(),
            forall|j: int|
                i <= j < mutators@.len() ==> #[trigger] mutators@[j] == old(mutators)@[j],
            forall|j: int|
                0 <= j < i ==> match #[trigger] old(mutators)@[j] {
                    None => mutators@[j] is None,
                    Some(_) => mutators@[j] matches Some(g) && g.spec_take_yield(),
                },
        decreases mutators@.len() - i,
    {
        if mutators[i].is_some() {
            let mut g = ImmixMutatorGlobal::new();
            g.set_take_yield(true);
            mutators.set(i, Some(g));
        }
        i = i + 1;
    }
}

/// Whether `addr` is the start of an object of `[start, end)`, as
/// `live_map`, the encoding bytes of the space, records it.
pub fn is_valid_object(addr: Address, start: Address, end: Address, live_map: &AddressMap<u8>) -> (r:
    bool)
    requires
        live_map.wf(),
        live_map.spec_start() == start.0,
        start.0 <= end.0,
        end.0 - start.0 <= 8 * live_map@.len(),
    ensures
        r == (start.0 <= addr.0 < end.0 && spec_nth_bit(
            live_map@[live_map.index_of(addr)],
            OBJ_START_BIT as u8,
        )),
{
    if addr.0 >= end.0 || addr.0 < start.0 {
        return false;
    }
    test_nth_bit(live_map.get(addr), OBJ_START_BIT)
}

/// The word `v` is the address of the first byte of an object of the space,
/// as the encoding bytes of the space record it.
pub open spec fn is_object_start(space: &ImmixSpace, v: usize) -> bool {
    &&& space.start.0 <= v < space.end.0
    &&& (v - space.start.0) / 8 < space.alloc_map@.len()
    &&& spec_nth_bit(space.alloc_map@[(v - space.start.0) / 8], OBJ_START_BIT as u8)
}

/// A value starts an object exactly when it lies in the space, its word has
/// an entry in the allocation map, and that entry has the start bit (bit 6)
/// set, whatever its other bits.
pub proof fn lemma_object_start_bit(space: &ImmixSpace, v: usize)
    ensures
        is_object_start(space, v) <==> {
            &&& space.start.0 <= v < space.end.0
            &&& (v - space.start.0) / 8 < space.alloc_map@.len()
            &&& space.alloc_map@[(v - space.start.0) / 8] & 0x40u8 == 0x40u8
        },
{
    let e = space.alloc_map@[(v - space.start.0) / 8];
    assert(spec_nth_bit(e, OBJ_START_BIT as u8) <==> e & 0x40u8 == 0x40u8) by (bit_vector);
}

/// The conservative scan of `words` keeps every word that starts an object
/// of the space, each as a root, and keeps nothing else: every root is such
/// a word. Only the start bit of a word's encoding decides, not its
/// reference bits.
pub proof fn lemma_scan_keeps_object_starts(
    space: &ImmixSpace,
    words: Seq<usize>,
    roots: Seq<ObjectReference>,
)
    requires
        roots == words.filter(|v: usize| is_object_start(space, v)).map_values(
            |v: usize| ObjectReference(v),
        ),
    ensures
        forall|i: int|
            0 <= i < words.len() && space.start.0 <= words[i] < space.end.0 && (words[i]
                - space.start.0) / 8 < space.alloc_map@.len() && space.alloc_map@[(words[i]
                - space.start.0) / 8] & 0x40u8 == 0x40u8 ==> #[trigger] roots.contains(
                ObjectReference(words[i]),
            ),
        forall|k: int|
            0 <= k < roots.len() ==> {
                &&& space.start.0 <= (#[trigger] roots[k]).0 < space.end.0
                &&& (roots[k].0 - space.start.0) / 8 < space.alloc_map@.len()
                &&& space.alloc_map@[(roots[k].0 - space.start.0) / 8] & 0x40u8 == 0x40u8
            },
{
    let pred = |v: usize| is_object_start(space, v);
    let kept = words.filter(pred);
    words.filter_lemma(pred);
    assert forall|i: int|
        0 <= i < words.len() && space.start.0 <= words[i] < space.end.0 && (words[i]
            - space.start.0) / 8 < space.alloc_map@.len() && space.alloc_map@[(words[i]
            - space.start.0) / 8] & 0x40u8 == 0x40u8 implies #[trigger] roots.contains(
        ObjectReference(words[i]),
    ) by {
        lemma_object_start_bit(space, words[i]);
        assert(pred(words[i]));
        assert(kept.contains(words[i]));
        let j = choose|j: int| 0 <= j < kept.len() && kept[j] == words[i];
        assert(roots[j] == ObjectReference(words[i]));
    }
    assert forall|k: int| 0 <= k < roots.len() implies {
        &&& space.start.0 <= (#[trigger] roots[k]).0 < space.end.0
        &&& (roots[k].0 - space.start.0) / 8 < space.alloc_map@.len()
        &&& space.alloc_map@[(roots[k].0 - space.start.0) / 8] & 0x40u8 == 0x40u8
    } by {
        assert(pred(kept[k]));
        lemma_object_start_bit(space, kept[k]);
    }
}

fn object_start(space: &ImmixSpace, v: usize) -> (r: bool)
    requires
        space.wf(),
    ensures
        r == is_object_start(space, v),
{
    if v >= space.start.0 && v < space.end.0 {
        let idx = (v - space.start.0) / 8;
        if idx < space.alloc_map.len() {
            return test_nth_bit(space.alloc_map.get(Address(v)), OBJ_START_BIT);
        }
    }
    false
}

proof fn lemma_scan_step(
    all: Seq<usize>,
    i: int,
    pred: spec_fn(usize) -> bool,
    f: spec_fn(usize) -> ObjectReference,
    before: Seq<ObjectReference>,
    after: Seq<ObjectReference>,
)
    requires
        0 <= i < all.len(),
        before == all.take(i).filter(pred).map_values(f),
        after == if pred(all[i]) {
            before.push(f(all[i]))
        } else {
            before
        },
    ensures
        after == all.take(i + 1).filter(pred).map_values(f),
{
    reveal(Seq::filter);
    let t1 = all.take(i + 1);
    assert(t1.drop_last() =~= all.take(i));
    assert(t1.last() == all[i]);
    if pred(all[i]) {
        assert(t1.filter(pred) == all.take(i).filter(pred).push(all[i]));
        assert(after =~= t1.filter(pred).map_values(f));
    } else {
        assert(t1.filter(pred) == all.take(i).filter(pred));
    }
}

/// The roots found by scanning conservatively: every word of the stack, and
/// then every register value, that is the start of an object of the space,
/// in that order.
pub fn stack_scan(stack_words: &Vec<usize>, registers: &Vec<usize>, space: &ImmixSpace) -> (roots:
    Vec<ObjectReference>)
    requires
        space.wf(),
    ensures
        roots@ == (stack_words@ + registers@).filter(|v: usize| is_object_start(space, v)).map_values(
            |v: usize| ObjectReference(v),
        ),
        forall|i: int|
            0 <= i < (stack_words@ + registers@).len() && space.start.0 <= (stack_words@ + registers@)[i]
                < space.end.0 && ((stack_words@ + registers@)[i] - space.start.0) / 8
                < space.alloc_map@.len() && space.alloc_map@[((stack_words@ + registers@)[i]
                - space.start.0) / 8] & 0x40u8 == 0x40u8 ==> #[trigger] roots@.contains(
                ObjectReference((stack_words@ + registers@)[i]),
            ),
        forall|k: int|
            0 <= k < roots@.len() ==> {
                &&& space.start.0 <= (#[trigger] roots@[k]).0 < space.end.0
                &&& (roots@[k].0 - space.start.0) / 8 < space.alloc_map@.len()
                &&& space.alloc_map@[(roots@[k].0 - space.start.0) / 8] & 0x40u8 == 0x40u8
            },
{
    let ghost all = stack_words@ + registers@;
    let ghost pred = |v: usize| is_object_start(space, v);
    let ghost f = |v: usize| ObjectReference(v);
    let mut roots: Vec<ObjectReference> = Vec::new();
    proof {
        reveal(Seq::filter);
        assert(all.take(0).filter(pred) =~= Seq::<usize>::empty());
        assert(roots@ =~= all.take(0).filter(pred).map_values(f));
    }
    let mut i: usize = 0;
    while i < stack_words.len()
        invariant
            space.wf(),
            all == stack_words@ + registers@,
            i <= stack_words@.len(),
            pred == (|v: usize| is_object_start(space, v)),
            f == (|v: usize| ObjectReference(v)),
            roots@ == all.take(i as int).filter(pred).map_values(f),
        decreases stack_words@.len() - i,
    {
        let v = stack_words[i];
        assert(v == all[i as int]);
        let ghost before = roots@;
        if object_start(space, v) {
            roots.push(ObjectReference(v));
        }
        proof {
            lemma_scan_step(all, i as int, pred, f, before, roots@);
        }
        i = i + 1;
    }
    let ghost n = stack_words@.len() as int;
    let mut k: usize = 0;
    while k < registers.len()
        invariant
            space.wf(),
            all == stack_words@ + registers@,
            n == stack_words@.len(),
            k <= registers@.len(),
            pred == (|v: usize| is_object_start(space, v)),
            f == (|v: usize| ObjectReference(v)),
            roots@ == all.take(n + k).filter(pred).map_values(f),
        decreases registers@.len() - k,
    {
        let v = registers[k];
        assert(v == all[n + k]);
        let ghost before = roots@;
        if object_start(space, v) {
            roots.push(ObjectReference(v));
        }
        proof {
            lemma_scan_step(all, n + k, pred, f, before, roots@);
        }
        k = k + 1;
    }
    proof {
        assert(all.take(n + k) =~= all);
        lemma_scan_keeps_object_starts(space, all, roots@);
    }
    roots
}

/// Whether `obj` can be traced; where it cannot, the trace stops and reports
/// it.
fn can_trace(space: &ImmixSpace, obj: ObjectReference) -> (r: bool)
    requires
        space.wf(),
    ensures
        r == traceable(space, obj),
{
    if obj.0 < space.start.0 {
        return false;
    }
    let off = obj.0 - space.start.0;
    if off / 8 >= space.alloc_map.len() || off / 8 >= space.trace_map.len() {
        return false;
    }
    if off / 256 >= space.line_mark_table.len() {
        return false;
    }
    let value = space.alloc_map.get(obj.to_address());
    if !test_nth_bit(value, SHORT_ENCODE_BIT) {
        return false;
    }
    let ref_bits = lower_bits(value, REF_BITS_LEN);
    let n: usize = if ref_bits == 1 {
        1
    } else if ref_bits == 3 {
        2
    } else if ref_bits == 15 {
        4
    } else {
        return false;
    };
    if space.end.0 - obj.0 < 8 * n {
        return false;
    }
    true
}

/// Whether the trace map of the space has an entry for `obj`.
fn trace_map_covers(space: &ImmixSpace, obj: ObjectReference) -> (r: bool)
    requires
        space.wf(),
    ensures
        r == (space.start.0 <= obj.0 && (obj.0 - space.start.0) / 8 < space.trace_map@.len()),
{
    obj.0 >= space.start.0 && (obj.0 - space.start.0) / 8 < space.trace_map.len()
}

/// Reads the reference in the field at `addr` and pushes it on
/// `local_queue` when it is not null and not marked.
pub fn process_edge(
    addr: Address,
    local_queue: &mut Vec<ObjectReference>,
    space: &ImmixSpace,
    mark_state: u8,
)
    requires
        space.wf(),
        space.start.0 <= addr.0,
        addr.0 + 8 <= space.end.0,
    ensures
        ({
            let c = ObjectReference(spec_load(space.memory@, addr.0 - space.start.0) as usize);
            final(local_queue)@ == if should_push(space.trace_map@, space.start.0, mark_state, c) {
                old(local_queue)@.push(c)
            } else {
                old(local_queue)@
            }
        }),
{
    let obj_addr = ObjectReference(space.load_u64(addr) as usize);
    if obj_addr.0 != 0 {
        if !trace_map_covers(space, obj_addr) || !objectmodel::is_traced(
            &space.trace_map,
            space.start,
            obj_addr,
            mark_state,
        ) {
            local_queue.push(obj_addr);
        }
    }
}

/// As `process_edge`, for a tracer that shares work: the reference goes to
/// the shared queue `job_sender` when the local queue is long.
pub fn steal_process_edge(
    addr: Address,
    local_queue: &mut Vec<ObjectReference>,
    space: &ImmixSpace,
    job_sender: &mut Vec<ObjectReference>,
    mark_state: u8,
)
    requires
        space.wf(),
        space.start.0 <= addr.0,
        addr.0 + 8 <= space.end.0,
    ensures
        ({
            let c = ObjectReference(spec_load(space.memory@, addr.0 - space.start.0) as usize);
            if should_push(space.trace_map@, space.start.0, mark_state, c) {
                if old(local_queue)@.len() >= PUSH_BACK_THRESHOLD {
                    final(local_queue)@ == old(local_queue)@ && final(job_sender)@ == old(
                        job_sender,
                    )@.push(c)
                } else {
                    final(local_queue)@ == old(local_queue)@.push(c) && final(job_sender)@ == old(
                        job_sender,
                    )@
                }
            } else {
                final(local_queue)@ == old(local_queue)@ && final(job_sender)@ == old(job_sender)@
            }
        }),
{
    let obj_addr = ObjectReference(space.load_u64(addr) as usize);
    if obj_addr.0 != 0 {
        if !trace_map_covers(space, obj_addr) || !objectmodel::is_traced(
            &space.trace_map,
            space.start,
            obj_addr,
            mark_state,
        ) {
            if local_queue.len() >= PUSH_BACK_THRESHOLD {
                job_sender.push(obj_addr);
            } else {
                local_queue.push(obj_addr);
            }
        }
    }
}

proof fn lemma_pushed_step(tm: Seq<u8>, start: usize, mark: u8, cs: Seq<ObjectReference>, k: int)
    requires
        0 <= k < cs.len(),
    ensures
        pushed(tm, start, mark, cs.take(k + 1)) == if should_push(tm, start, mark, cs[k]) {
            pushed(tm, start, mark, cs.take(k)).push(cs[k])
        } else {
            pushed(tm, start, mark, cs.take(k))
        },
{
    assert(cs.take(k + 1).drop_last() =~= cs.take(k));
    assert(cs.take(k + 1).last() == cs[k]);
}


/// Traces `obj`: marks it with `mark_state`, marks its line live and the next
/// one conservatively live, and pushes on `local_queue`, in field order, each
/// reference field of it that is not null and not marked.
pub fn trace_object(
    obj: ObjectReference,
    local_queue: &mut Vec<ObjectReference>,
    space: &mut ImmixSpace,
    mark_state: u8,
)
    requires
        old(space).wf(),
        traceable(old(space), obj),
    ensures
        trace_keeps(old(space), final(space)),
        final(space).trace_map@ == old(space).trace_map@.update(
            (obj.0 - old(space).start.0) / 8,
            mark_state,
        ),
        final(space).line_mark_table@ == LineMarkTable::spec_mark_line(
            old(space).line_mark_table@,
            line_of(old(space), obj.0 as int),
        ),
        final(local_queue)@ == old(local_queue)@ + pushed(
            final(space).trace_map@,
            old(space).start.0,
            mark_state,
            children(old(space), obj),
        ),
{
    let ghost cs = children(old(space), obj);
    objectmodel::mark_as_traced(&mut space.trace_map, space.start, obj, mark_state);
    let addr = obj.to_address();
    if addr.0 >= space.start.0 && addr.0 < space.end.0 {
        space.line_mark_table.mark_line_live(addr);
    }
    let base = addr;
    let value = objectmodel::get_ref_byte(&space.alloc_map, space.start, obj);
    let ref_bits = lower_bits(value, REF_BITS_LEN);
    let short_encode = test_nth_bit(value, SHORT_ENCODE_BIT);
    let ghost tm = space.trace_map@;
    let ghost st = space.start.0;
    let ghost q0 = local_queue@;
    proof {
        assert(cs.take(0) =~= Seq::<ObjectReference>::empty());
        assert(local_queue@ =~= q0 + pushed(tm, st, mark_state, cs.take(0)));
        assert(short_encode);
    }
    process_edge(base, local_queue, space, mark_state);
    proof {
        lemma_pushed_step(tm, st, mark_state, cs, 0);
        assert(local_queue@ =~= q0 + pushed(tm, st, mark_state, cs.take(1)));
    }
    if ref_bits == 3u8 || ref_bits == 15u8 {
        process_edge(base.plus(8), local_queue, space, mark_state);
        proof {
            lemma_pushed_step(tm, st, mark_state, cs, 1);
            assert(local_queue@ =~= q0 + pushed(tm, st, mark_state, cs.take(2)));
        }
    }
    if ref_bits == 15u8 {
        process_edge(base.plus(16), local_queue, space, mark_state);
        proof {
            lemma_pushed_step(tm, st, mark_state, cs, 2);
            assert(local_queue@ =~= q0 + pushed(tm, st, mark_state, cs.take(3)));
        }
        process_edge(base.plus(24), local_queue, space, mark_state);
        proof {
            lemma_pushed_step(tm, st, mark_state, cs, 3);
            assert(local_queue@ =~= q0 + pushed(tm, st, mark_state, cs.take(4)));
        }
    }
    proof {
        assert(cs.take(cs.len() as int) =~= cs);
    }
}


proof fn lemma_steal_step(
    tm: Seq<u8>,
    start: usize,
    mark: u8,
    cs: Seq<ObjectReference>,
    k: int,
    n_local: int,
)
    requires
        0 <= k < cs.len(),
    ensures
        ({
            let (l0, j0) = steal_split(n_local, pushed(tm, start, mark, cs.take(k)));
            let (l1, j1) = steal_split(n_local, pushed(tm, start, mark, cs.take(k + 1)));
            if should_push(tm, start, mark, cs[k]) {
                if n_local + l0.len() >= PUSH_BACK_THRESHOLD {
                    l1 == l0 && j1 == j0.push(cs[k])
                } else {
                    l1 == l0.push(cs[k]) && j1 == j0
                }
            } else {
                l1 == l0 && j1 == j0
            }
        }),
{
    lemma_pushed_step(tm, start, mark, cs, k);
    let p0 = pushed(tm, start, mark, cs.take(k));
    if should_push(tm, start, mark, cs[k]) {
        assert(p0.push(cs[k]).drop_last() =~= p0);
    }
}

/// As `trace_object`, for a tracer that shares work: each pushed reference
/// goes to `local_queue` while it is shorter than `PUSH_BACK_THRESHOLD`, and
/// to the shared queue `job_sender` after.
pub fn steal_trace_object(
    obj: ObjectReference,
    local_queue: &mut Vec<ObjectReference>,
    job_sender: &mut Vec<ObjectReference>,
    space: &mut ImmixSpace,
    mark_state: u8,
)
    requires
        old(space).wf(),
        traceable(old(space), obj),
    ensures
        trace_keeps(old(space), final(space)),
        final(space).trace_map@ == old(space).trace_map@.update(
            (obj.0 - old(space).start.0) / 8,
            mark_state,
        ),
        final(space).line_mark_table@ == LineMarkTable::spec_mark_line(
            old(space).line_mark_table@,
            line_of(old(space), obj.0 as int),
        ),
        ({
            let (l, j) = steal_split(
                old(local_queue)@.len() as int,
                pushed(
                    final(space).trace_map@,
                    old(space).start.0,
                    mark_state,
                    children(old(space), obj),
                ),
            );
            final(local_queue)@ == old(local_queue)@ + l && final(job_sender)@ == old(job_sender)@
                + j
        }),
{
    let ghost cs = children(old(space), obj);
    objectmodel::mark_as_traced(&mut space.trace_map, space.start, obj, mark_state);
    let addr = obj.to_address();
    if addr.0 >= space.start.0 && addr.0 < space.end.0 {
        space.line_mark_table.mark_line_live(addr);
    }
    let base = addr;
    let value = objectmodel::get_ref_byte(&space.alloc_map, space.start, obj);
    let ref_bits = lower_bits(value, REF_BITS_LEN);
    let ghost tm = space.trace_map@;
    let ghost st = space.start.0;
    let ghost q0 = local_queue@;
    let ghost j0 = job_sender@;
    let ghost n = q0.len() as int;
    proof {
        assert(cs.take(0) =~= Seq::<ObjectReference>::empty());
        assert(local_queue@ =~= q0 + steal_split(n, pushed(tm, st, mark_state, cs.take(0))).0);
        assert(job_sender@ =~= j0 + steal_split(n, pushed(tm, st, mark_state, cs.take(0))).1);
    }
    let mut k: usize = 0;
    let count: usize = if ref_bits == 1u8 {
        1
    } else if ref_bits == 3u8 {
        2
    } else {
        4
    };
    while k < count
        invariant
            space.wf(),
            traceable(old(space), obj),
            trace_keeps(old(space), space),
            space.trace_map@ == tm,
            space.line_mark_table@ == LineMarkTable::spec_mark_line(
                old(space).line_mark_table@,
                line_of(old(space), obj.0 as int),
            ),
            st == space.start.0,
            base.0 == obj.0,
            count == cs.len(),
            cs == children(old(space), obj),
            k <= count,
            local_queue@ == q0 + steal_split(n, pushed(tm, st, mark_state, cs.take(k as int))).0,
            job_sender@ == j0 + steal_split(n, pushed(tm, st, mark_state, cs.take(k as int))).1,
            local_queue@.len() == n + steal_split(n, pushed(tm, st, mark_state, cs.take(k as int))).0.len(),
        decreases count - k,
    {
        let ghost l_before = local_queue@;
        let ghost j_before = job_sender@;
        steal_process_edge(base.plus(8 * k), local_queue, space, job_sender, mark_state);
        proof {
            lemma_steal_step(tm, st, mark_state, cs, k as int, n);
            let (l0, jj0) = steal_split(n, pushed(tm, st, mark_state, cs.take(k as int)));
            let (l1, jj1) = steal_split(n, pushed(tm, st, mark_state, cs.take(k + 1)));
            assert(cs[k as int] == ObjectReference(spec_load(space.memory@, base.0 + 8 * k - space.start.0) as usize));
            if should_push(tm, st, mark_state, cs[k as int]) {
                if n + l0.len() >= PUSH_BACK_THRESHOLD {
                    assert(job_sender@ =~= j0 + jj1);
                } else {
                    assert(local_queue@ =~= q0 + l1);
                }
            }
        }
        k = k + 1;
    }
    proof {
        assert(cs.take(cs.len() as int) =~= cs);
    }
}


proof fn lemma_count_unmarked_update(tm: Seq<u8>, i: int, mark: u8)
    requires
        0 <= i < tm.len(),
        tm[i] != mark,
    ensures
        count_unmarked(tm.update(i, mark), mark) + 1 == count_unmarked(tm, mark),
    decreases tm.len(),
{
    let t2 = tm.update(i, mark);
    if i == tm.len() - 1 {
        assert(t2.drop_last() =~= tm.drop_last());
    } else {
        assert(t2.drop_last() =~= tm.drop_last().update(i, mark));
        lemma_count_unmarked_update(tm.drop_last(), i, mark);
    }
}

proof fn lemma_count_marked_append(
    tm: Seq<u8>,
    start: usize,
    mark: u8,
    q: Seq<ObjectReference>,
    p: Seq<ObjectReference>,
)
    requires
        forall|i: int| 0 <= i < p.len() ==> !is_marked(tm, start, mark, #[trigger] p[i]),
    ensures
        count_marked(tm, start, mark, q + p) == count_marked(tm, start, mark, q),
    decreases p.len(),
{
    if p.len() == 0 {
        assert(q + p =~= q);
    } else {
        assert((q + p).drop_last() =~= q + p.drop_last());
        assert((q + p).last() == p.last());
        lemma_count_marked_append(tm, start, mark, q, p.drop_last());
    }
}

proof fn lemma_pushed_facts(tm: Seq<u8>, start: usize, mark: u8, cs: Seq<ObjectReference>)
    ensures
        forall|i: int|
            0 <= i < pushed(tm, start, mark, cs).len() ==> cs.contains(
                #[trigger] pushed(tm, start, mark, cs)[i],
            ),
        forall|i: int|
            0 <= i < pushed(tm, start, mark, cs).len() ==> should_push(
                tm,
                start,
                mark,
                #[trigger] pushed(tm, start, mark, cs)[i],
            ),
        forall|i: int|
            0 <= i < cs.len() && should_push(tm, start, mark, #[trigger] cs[i]) ==> pushed(
                tm,
                start,
                mark,
                cs,
            ).contains(cs[i]),
    decreases cs.len(),
{
    if cs.len() > 0 {
        lemma_pushed_facts(tm, start, mark, cs.drop_last());
        let p0 = pushed(tm, start, mark, cs.drop_last());
        assert forall|i: int|
            0 <= i < cs.len() && should_push(tm, start, mark, #[trigger] cs[i]) implies pushed(
            tm,
            start,
            mark,
            cs,
        ).contains(cs[i]) by {
            if i < cs.len() - 1 {
                assert(cs.drop_last()[i] == cs[i]);
                assert(p0.contains(cs[i]));
                let j = choose|j: int| 0 <= j < p0.len() && p0[j] == cs[i];
                if should_push(tm, start, mark, cs.last()) {
                    assert(p0.push(cs.last())[j] == cs[i]);
                }
            } else {
                assert(p0.push(cs.last())[p0.len() as int] == cs[i]);
            }
        }
    }
}

/// Traces from the objects in `local_queue` until it is empty, popping them
/// from the end. Returns the first popped object that cannot be traced, if
/// any; else every object reachable from the roots through unmarked objects
/// is marked, as `trace_closed` states.
pub fn start_trace(
    local_queue: &mut Vec<ObjectReference>,
    space: &mut ImmixSpace,
    mark_state: u8,
) -> (r: Result<(), ObjectReference>)
    requires
        old(space).wf(),
    ensures
        trace_keeps(old(space), final(space)),
        r is Ok ==> final(local_queue)@.len() == 0 && exists|traced: Set<ObjectReference>|
            trace_closed(old(space), final(space), old(local_queue)@, traced, mark_state),
        r matches Err(o) ==> trace_stops_at(old(space), old(local_queue)@, o),
        trace_owed(old(space), old(local_queue)@) ==> r is Ok,
{
    let ghost roots = local_queue@;
    let ghost space0 = *space;
    let ghost st = space.start.0;
    let ghost mut traced: Set<ObjectReference> = Set::empty();
    proof {
        assert forall|x: ObjectReference| #[trigger] local_queue@.contains(x) implies reachable(
            &space0,
            roots,
            x,
        ) by {
            lemma_root_reachable(&space0, roots, x);
        }
    }
    while local_queue.len() > 0
        invariant
            space0 == *old(space),
            roots == old(local_queue)@,
            st == space0.start.0,
            trace_keeps(&space0, space),
            forall|r: ObjectReference|
                roots.contains(r) ==> traced.contains(r) || local_queue@.contains(r),
            forall|o: ObjectReference| #[trigger] traced.contains(o) ==> reachable(&space0, roots, o),
            forall|x: ObjectReference|
                #[trigger] local_queue@.contains(x) ==> reachable(&space0, roots, x) && (x.0 != 0
                    || roots.contains(x)),
            forall|o: ObjectReference|
                #[trigger] traced.contains(o) ==> {
                    &&& traceable(&space0, o)
                    &&& is_marked(space.trace_map@, st, mark_state, o)
                    &&& is_live(space.line_mark_table@[line_of(&space0, o.0 as int)])
                    &&& line_of(&space0, o.0 as int) + 1 < space.line_mark_table@.len() ==> is_live(
                        space.line_mark_table@[line_of(&space0, o.0 as int) + 1],
                    )
                },
            forall|o: ObjectReference, i: int|
                #![trigger traced.contains(o), children(&space0, o)[i]]
                traced.contains(o) && 0 <= i < children(&space0, o).len() ==> children(&space0, o)[i].0
                    == 0 || local_queue@.contains(children(&space0, o)[i]) || is_marked(
                    space.trace_map@,
                    st,
                    mark_state,
                    children(&space0, o)[i],
                ),
            forall|i: int|
                0 <= i < space.trace_map@.len() && #[trigger] space.trace_map@[i] == mark_state
                    ==> space0.trace_map@[i] == mark_state || exists|o: ObjectReference|
                    #![trigger traced.contains(o)]
                    traced.contains(o) && (o.0 - st) / 8 == i,
            forall|i: int|
                0 <= i < space.trace_map@.len() && #[trigger] space.trace_map@[i]
                    != space0.trace_map@[i] ==> space.trace_map@[i] == mark_state,
            forall|l: int|
                0 <= l < space.line_mark_table@.len() && #[trigger] space.line_mark_table@[l]
                    != space0.line_mark_table@[l] ==> is_live(space.line_mark_table@[l]),
        decreases count_unmarked(space.trace_map@, mark_state), count_marked(
            space.trace_map@,
            st,
            mark_state,
            local_queue@,
        ),
    {
        let ghost q = local_queue@;
        let ghost tm0 = space.trace_map@;
        let ghost lt0 = space.line_mark_table@;
        let obj = local_queue.pop().unwrap();
        assert(q =~= local_queue@.push(obj));
        if !can_trace(space, obj) {
            proof {
                assert(q[q.len() - 1] == obj);
                assert(q.contains(obj));
            }
            return Err(obj);
        }
        let ghost q1 = local_queue@;
        let ghost idx = (obj.0 - st) / 8;
        let ghost ln = line_of(&space0, obj.0 as int);
        let ghost was_marked = is_marked(tm0, st, mark_state, obj);
        trace_object(obj, local_queue, space, mark_state);
        proof {
            let tm1 = space.trace_map@;
            let cs = children(&space0, obj);
            let p = pushed(tm1, st, mark_state, cs);
            lemma_pushed_facts(tm1, st, mark_state, cs);
            assert(local_queue@ == q1 + p);
            assert forall|x: ObjectReference| q1.contains(x) implies local_queue@.contains(x) by {
                let j = choose|j: int| 0 <= j < q1.len() && q1[j] == x;
                assert(local_queue@[j] == x);
            }
            assert forall|x: ObjectReference| p.contains(x) implies local_queue@.contains(x) by {
                let j = choose|j: int| 0 <= j < p.len() && p[j] == x;
                assert(local_queue@[q1.len() + j] == x);
            }
            assert forall|x: ObjectReference|
                is_marked(tm0, st, mark_state, x) implies is_marked(tm1, st, mark_state, x) by {}
            assert forall|l: int| 0 <= l < lt0.len() && is_live(lt0[l]) implies is_live(
                space.line_mark_table@[l],
            ) by {}
            let old_traced = traced;
            traced = traced.insert(obj);
            assert(q[q.len() - 1] == obj);
            assert(q.contains(obj));
            assert(reachable(&space0, roots, obj));
            assert forall|o: ObjectReference| #[trigger] traced.contains(o) implies reachable(
                &space0,
                roots,
                o,
            ) by {
                if o == obj {
                    assert(q.contains(obj));
                }
            }
            assert forall|x: ObjectReference| #[trigger] local_queue@.contains(x) implies reachable(
                &space0,
                roots,
                x,
            ) && (x.0 != 0 || roots.contains(x)) by {
                let j = choose|j: int| 0 <= j < local_queue@.len() && local_queue@[j] == x;
                if j < q1.len() {
                    assert(q1[j] == x);
                    assert(q[j] == x);
                    assert(q.contains(x));
                } else {
                    assert(p[j - q1.len()] == x);
                    assert(should_push(tm1, st, mark_state, p[j - q1.len()]));
                    assert(cs.contains(x));
                    let jj = choose|jj: int| 0 <= jj < cs.len() && cs[jj] == x;
                    lemma_child_reachable(&space0, roots, obj, jj);
                }
            }
            assert forall|r: ObjectReference| roots.contains(r) implies traced.contains(r)
                || local_queue@.contains(r) by {
                if r != obj && !old_traced.contains(r) {
                    assert(q.contains(r));
                    let j = choose|j: int| 0 <= j < q.len() && q[j] == r;
                    assert(j < q1.len());
                    assert(q1[j] == r);
                    assert(q1.contains(r));
                }
            }
            assert forall|o: ObjectReference, i: int|
                traced.contains(o) && 0 <= i < children(&space0, o).len() implies #[trigger] children(
                &space0,
                o,
            )[i].0 == 0 || local_queue@.contains(children(&space0, o)[i]) || is_marked(
                space.trace_map@,
                st,
                mark_state,
                children(&space0, o)[i],
            ) by {
                let c = children(&space0, o)[i];
                if o == obj {
                    if should_push(tm1, st, mark_state, c) {
                        assert(p.contains(c));
                    }
                } else {
                    assert(old_traced.contains(o));
                    if c.0 != 0 && !is_marked(tm0, st, mark_state, c) && q.contains(c) {
                        if c != obj {
                            let j = choose|j: int| 0 <= j < q.len() && q[j] == c;
                            assert(j < q1.len());
                            assert(q1[j] == c);
                            assert(q1.contains(c));
                        } else {
                            assert(is_marked(tm1, st, mark_state, c));
                        }
                    } else if is_marked(tm0, st, mark_state, c) {
                        assert(is_marked(tm1, st, mark_state, c));
                    }
                }
            }
            assert forall|i: int|
                0 <= i < space.trace_map@.len() && #[trigger] space.trace_map@[i] == mark_state
                    implies space0.trace_map@[i] == mark_state || exists|o: ObjectReference|
                #![trigger traced.contains(o)]
                traced.contains(o) && (o.0 - st) / 8 == i by {
                if i == idx {
                    assert(traced.contains(obj));
                } else {
                    assert(tm0[i] == mark_state);
                    if space0.trace_map@[i] != mark_state {
                        let o = choose|o: ObjectReference|
                            #![trigger old_traced.contains(o)]
                            old_traced.contains(o) && (o.0 - st) / 8 == i;
                        assert(traced.contains(o));
                    }
                }
            }
            if was_marked {
                assert(tm1 =~= tm0);
                lemma_count_marked_append(tm1, st, mark_state, q1, p);
                assert(count_marked(tm0, st, mark_state, q) == count_marked(
                    tm0,
                    st,
                    mark_state,
                    q1,
                ) + 1) by {
                    assert(q.drop_last() =~= q1);
                }
            } else {
                lemma_count_unmarked_update(tm0, idx, mark_state);
            }
        }
    }
    proof {
        assert forall|o: ObjectReference, i: int|
            #![trigger traced.contains(o), children(&space0, o)[i]]
            traced.contains(o) && 0 <= i < children(&space0, o).len() implies children(&space0, o)[i].0
            == 0 || is_marked(space.trace_map@, st, mark_state, children(&space0, o)[i]) by {
            assert(!local_queue@.contains(children(&space0, o)[i]));
        }
        assert(trace_closed(&space0, space, roots, traced, mark_state));
    }
    Ok(())
}


proof fn lemma_steal_split_facts(n: int, p: Seq<ObjectReference>)
    ensures
        forall|i: int|
            0 <= i < steal_split(n, p).0.len() ==> p.contains(#[trigger] steal_split(n, p).0[i]),
        forall|x: ObjectReference|
            #[trigger] p.contains(x) ==> steal_split(n, p).0.contains(x) || steal_split(
                n,
                p,
            ).1.contains(x),
        forall|x: ObjectReference|
            #[trigger] steal_split(n, p).1.contains(x) ==> p.contains(x),
        steal_split(n, p).1.len() > 0 ==> n + steal_split(n, p).0.len() >= PUSH_BACK_THRESHOLD,
    decreases p.len(),
{
    if p.len() > 0 {
        let p0 = p.drop_last();
        lemma_steal_split_facts(n, p0);
        let (l0, j0) = steal_split(n, p0);
        let (l, j) = steal_split(n, p);
        let x_last = p.last();
        assert(p[p.len() - 1] == x_last);
        assert forall|i: int| 0 <= i < l.len() implies p.contains(#[trigger] l[i]) by {
            if i < l0.len() {
                assert(l[i] == l0[i]);
                assert(p0.contains(l0[i]));
                let k = choose|k: int| 0 <= k < p0.len() && p0[k] == l0[i];
                assert(p[k] == l0[i]);
            } else {
                assert(l[i] == x_last);
            }
        }
        assert forall|x: ObjectReference| #[trigger] j.contains(x) implies p.contains(x) by {
            let m = choose|m: int| 0 <= m < j.len() && j[m] == x;
            if m < j0.len() {
                assert(j0[m] == x);
                assert(j0.contains(x));
                let k = choose|k: int| 0 <= k < p0.len() && p0[k] == x;
                assert(p[k] == x);
            } else {
                assert(x == x_last);
            }
        }
        assert forall|x: ObjectReference| #[trigger] p.contains(x) implies l.contains(x)
            || j.contains(x) by {
            let k = choose|k: int| 0 <= k < p.len() && p[k] == x;
            if k < p.len() - 1 {
                assert(p0[k] == x);
                assert(p0.contains(x));
                if l0.contains(x) {
                    let m = choose|m: int| 0 <= m < l0.len() && l0[m] == x;
                    assert(l[m] == x);
                } else {
                    let m = choose|m: int| 0 <= m < j0.len() && j0[m] == x;
                    assert(j[m] == x);
                }
            } else if n + l0.len() >= PUSH_BACK_THRESHOLD {
                assert(j[j0.len() as int] == x);
            } else {
                assert(l[l0.len() as int] == x);
            }
        }
    }
}

/// The work of one tracer that shares work with others: it takes the
/// objects of the shared queue `stealer` from its front, traces each one and
/// what it reaches through its local queue, and hands each reference it
/// finds while its local queue is long to `job_sender`. Returns the first
/// object that cannot be traced, if any; else `stealer` is empty and every
/// object it held is traced, as `trace_closed_sharing` states with the
/// references handed out.
pub fn start_steal_trace(
    stealer: &mut Vec<ObjectReference>,
    job_sender: &mut Vec<ObjectReference>,
    space: &mut ImmixSpace,
    mark_state: u8,
) -> (r: Result<(), ObjectReference>)
    requires
        old(space).wf(),
    ensures
        trace_keeps(old(space), final(space)),
        final(job_sender)@.len() >= old(job_sender)@.len(),
        final(job_sender)@.take(old(job_sender)@.len() as int) == old(job_sender)@,
        r is Ok && final(job_sender)@.len() > old(job_sender)@.len() ==> count_unmarked(
            final(space).trace_map@,
            mark_state,
        ) < count_unmarked(old(space).trace_map@, mark_state),
        r is Ok ==> final(stealer)@.len() == 0 && exists|traced: Set<ObjectReference>|
            trace_closed_sharing(
                old(space),
                final(space),
                old(stealer)@,
                traced,
                mark_state,
                final(job_sender)@.skip(old(job_sender)@.len() as int),
            ),
        r matches Err(o) ==> trace_stops_at(old(space), old(stealer)@, o),
        trace_owed(old(space), old(stealer)@) ==> r is Ok,
{
    let ghost roots = stealer@;
    let ghost space0 = *space;
    let ghost st = space.start.0;
    let ghost j0 = job_sender@;
    let ghost mut traced: Set<ObjectReference> = Set::empty();
    let ghost mut handed: Seq<ObjectReference> = Seq::empty();
    let ghost mut k: int = 0;
    let ghost cu0 = count_unmarked(space0.trace_map@, mark_state);
    let mut local_queue: Vec<ObjectReference> = Vec::new();
    proof {
        assert forall|x: ObjectReference| #[trigger] handed.contains(x) implies reachable(
            &space0,
            roots,
            x,
        ) by {}
    }
    proof {
        assert(stealer@ =~= roots.skip(0));
        assert(job_sender@ =~= j0 + handed);
    }
    loop
        invariant
            space0 == *old(space),
            roots == old(stealer)@,
            j0 == old(job_sender)@,
            st == space0.start.0,
            trace_keeps(&space0, space),
            0 <= k <= roots.len(),
            stealer@ == roots.skip(k),
            job_sender@ == j0 + handed,
            cu0 == count_unmarked(space0.trace_map@, mark_state),
            count_unmarked(space.trace_map@, mark_state) <= cu0,
            count_unmarked(space.trace_map@, mark_state) == cu0 ==> space.trace_map@
                == space0.trace_map@,
            count_unmarked(space.trace_map@, mark_state) == cu0 ==> forall|i: int|
                0 <= i < local_queue@.len() ==> !is_marked(
                    space.trace_map@,
                    st,
                    mark_state,
                    #[trigger] local_queue@[i],
                ),
            handed.len() > 0 ==> count_unmarked(space.trace_map@, mark_state) < cu0
                || local_queue@.len() > 0,
            forall|i: int| 0 <= i < k ==> traced.contains(#[trigger] roots[i]),
            forall|o: ObjectReference| #[trigger] traced.contains(o) ==> reachable(&space0, roots, o),
            forall|x: ObjectReference|
                #[trigger] local_queue@.contains(x) ==> reachable(&space0, roots, x) && x.0 != 0,
            forall|x: ObjectReference|
                #[trigger] handed.contains(x) ==> reachable(&space0, roots, x) && x.0 != 0,
            forall|o: ObjectReference|
                #[trigger] traced.contains(o) ==> {
                    &&& traceable(&space0, o)
                    &&& is_marked(space.trace_map@, st, mark_state, o)
                    &&& is_live(space.line_mark_table@[line_of(&space0, o.0 as int)])
                    &&& line_of(&space0, o.0 as int) + 1 < space.line_mark_table@.len() ==> is_live(
                        space.line_mark_table@[line_of(&space0, o.0 as int) + 1],
                    )
                },
            forall|o: ObjectReference, i: int|
                #![trigger traced.contains(o), children(&space0, o)[i]]
                traced.contains(o) && 0 <= i < children(&space0, o).len() ==> children(&space0, o)[i].0
                    == 0 || local_queue@.contains(children(&space0, o)[i]) || handed.contains(
                    children(&space0, o)[i],
                ) || is_marked(space.trace_map@, st, mark_state, children(&space0, o)[i]),
            forall|i: int|
                0 <= i < space.trace_map@.len() && #[trigger] space.trace_map@[i] == mark_state
                    ==> space0.trace_map@[i] == mark_state || exists|o: ObjectReference|
                    #![trigger traced.contains(o)]
                    traced.contains(o) && (o.0 - st) / 8 == i,
            forall|i: int|
                0 <= i < space.trace_map@.len() && #[trigger] space.trace_map@[i]
                    != space0.trace_map@[i] ==> space.trace_map@[i] == mark_state,
            forall|l: int|
                0 <= l < space.line_mark_table@.len() && #[trigger] space.line_mark_table@[l]
                    != space0.line_mark_table@[l] ==> is_live(space.line_mark_table@[l]),
        decreases count_unmarked(space.trace_map@, mark_state), stealer@.len(), count_marked(
            space.trace_map@,
            st,
            mark_state,
            local_queue@,
        ),
    {
        let ghost q = local_queue@;
        let ghost tm0 = space.trace_map@;
        let ghost lt0 = space.line_mark_table@;
        let ghost handed0 = handed;
        let ghost stolen = q.len() == 0;
        let ghost k0 = k;
        let work = if local_queue.len() > 0 {
            let w = local_queue.pop().unwrap();
            assert(q =~= local_queue@.push(w));
            w
        } else if stealer.len() > 0 {
            let w = stealer.remove(0);
            proof {
                assert(w == roots[k]);
                assert(stealer@ =~= roots.skip(k + 1));
            }
            w
        } else {
            proof {
                assert(k == roots.len());
                assert(job_sender@.skip(j0.len() as int) =~= handed);
                assert(job_sender@.take(j0.len() as int) =~= j0);
                assert forall|r: ObjectReference| roots.contains(r) implies traced.contains(r) by {
                    let i = choose|i: int| 0 <= i < roots.len() && roots[i] == r;
                    assert(traced.contains(roots[i]));
                }
                assert(trace_closed_sharing(&space0, space, roots, traced, mark_state, handed));
            }
            return Ok(());
        };
        if !can_trace(space, work) {
            proof {
                assert(job_sender@.take(j0.len() as int) =~= j0);
                if stolen {
                    assert(work == roots[k0]);
                    assert(roots.contains(work));
                    lemma_root_reachable(&space0, roots, work);
                } else {
                    assert(q[q.len() - 1] == work);
                    assert(q.contains(work));
                }
            }
            return Err(work);
        }
        let ghost q1 = local_queue@;
        let ghost h1 = job_sender@;
        let ghost idx = (work.0 - st) / 8;
        let ghost was_marked = is_marked(tm0, st, mark_state, work);
        steal_trace_object(work, &mut local_queue, job_sender, space, mark_state);
        proof {
            let tm1 = space.trace_map@;
            let cs = children(&space0, work);
            let p = pushed(tm1, st, mark_state, cs);
            lemma_pushed_facts(tm1, st, mark_state, cs);
            lemma_steal_split_facts(q1.len() as int, p);
            let l = steal_split(q1.len() as int, p).0;
            let jj = steal_split(q1.len() as int, p).1;
            assert(local_queue@ == q1 + l);
            assert(job_sender@ == h1 + jj);
            handed = handed + jj;
            assert(job_sender@ =~= j0 + handed);
            assert forall|x: ObjectReference| q1.contains(x) implies local_queue@.contains(x) by {
                let j = choose|j: int| 0 <= j < q1.len() && q1[j] == x;
                assert(local_queue@[j] == x);
            }
            assert forall|x: ObjectReference| l.contains(x) implies local_queue@.contains(x) by {
                let j = choose|j: int| 0 <= j < l.len() && l[j] == x;
                assert(local_queue@[q1.len() + j] == x);
            }
            assert forall|x: ObjectReference| jj.contains(x) implies handed.contains(x) by {
                let j = choose|j: int| 0 <= j < jj.len() && jj[j] == x;
                assert(handed[handed0.len() + j] == x);
            }
            assert forall|x: ObjectReference| handed0.contains(x) implies handed.contains(x) by {
                let j = choose|j: int| 0 <= j < handed0.len() && handed0[j] == x;
                assert(handed[j] == x);
            }
            assert forall|x: ObjectReference|
                is_marked(tm0, st, mark_state, x) implies is_marked(tm1, st, mark_state, x) by {}
            assert forall|ln: int| 0 <= ln < lt0.len() && is_live(lt0[ln]) implies is_live(
                space.line_mark_table@[ln],
            ) by {}
            assert(reachable(&space0, roots, work)) by {
                if stolen {
                    assert(work == roots[k0]);
                    assert(roots.contains(work));
                    lemma_root_reachable(&space0, roots, work);
                } else {
                    assert(q[q.len() - 1] == work);
                    assert(q.contains(work));
                }
            }
            assert forall|x: ObjectReference| #[trigger] p.contains(x) implies reachable(
                &space0,
                roots,
                x,
            ) by {
                let j = choose|j: int| 0 <= j < p.len() && p[j] == x;
                assert(cs.contains(x));
                let jj = choose|jj: int| 0 <= jj < cs.len() && cs[jj] == x;
                lemma_child_reachable(&space0, roots, work, jj);
            }
            assert forall|x: ObjectReference| #[trigger] local_queue@.contains(x) implies reachable(
                &space0,
                roots,
                x,
            ) && x.0 != 0 by {
                let j = choose|j: int| 0 <= j < local_queue@.len() && local_queue@[j] == x;
                if j < q1.len() {
                    assert(q1[j] == x);
                    assert(q[j] == x);
                    assert(q.contains(x));
                } else {
                    assert(l[j - q1.len()] == x);
                    assert(p.contains(l[j - q1.len()]));
                    let jp = choose|jp: int| 0 <= jp < p.len() && p[jp] == x;
                    assert(should_push(tm1, st, mark_state, p[jp]));
                }
            }
            assert forall|x: ObjectReference| #[trigger] handed.contains(x) implies reachable(
                &space0,
                roots,
                x,
            ) && x.0 != 0 by {
                let j = choose|j: int| 0 <= j < handed.len() && handed[j] == x;
                if j < handed0.len() {
                    assert(handed0[j] == x);
                    assert(handed0.contains(x));
                } else {
                    assert(jj[j - handed0.len()] == x);
                    assert(jj.contains(x));
                    assert(p.contains(x));
                    let jp = choose|jp: int| 0 <= jp < p.len() && p[jp] == x;
                    assert(should_push(tm1, st, mark_state, p[jp]));
                }
            }
            let old_traced = traced;
            traced = traced.insert(work);
            if stolen {
                k = k + 1;
            }
            assert forall|i: int| 0 <= i < k implies traced.contains(#[trigger] roots[i]) by {
                if !(stolen && i == k - 1) {
                    assert(old_traced.contains(roots[i]));
                }
            }
            assert forall|o: ObjectReference, i: int|
                traced.contains(o) && 0 <= i < children(&space0, o).len() implies #[trigger] children(
                &space0,
                o,
            )[i].0 == 0 || local_queue@.contains(children(&space0, o)[i]) || handed.contains(
                children(&space0, o)[i],
            ) || is_marked(space.trace_map@, st, mark_state, children(&space0, o)[i]) by {
                let c = children(&space0, o)[i];
                if o == work {
                    if should_push(tm1, st, mark_state, c) {
                        assert(p.contains(c));
                    }
                } else {
                    assert(old_traced.contains(o));
                    if c.0 != 0 && !is_marked(tm0, st, mark_state, c) && q.contains(c) {
                        if c != work {
                            let j = choose|j: int| 0 <= j < q.len() && q[j] == c;
                            assert(j < q1.len());
                            assert(q1[j] == c);
                            assert(q1.contains(c));
                        } else {
                            assert(is_marked(tm1, st, mark_state, c));
                        }
                    } else if is_marked(tm0, st, mark_state, c) {
                        assert(is_marked(tm1, st, mark_state, c));
                    }
                }
            }
            assert forall|i: int|
                0 <= i < space.trace_map@.len() && #[trigger] space.trace_map@[i] == mark_state
                    implies space0.trace_map@[i] == mark_state || exists|o: ObjectReference|
                #![trigger traced.contains(o)]
                traced.contains(o) && (o.0 - st) / 8 == i by {
                if i == idx {
                    assert(traced.contains(work));
                } else {
                    assert(tm0[i] == mark_state);
                    if space0.trace_map@[i] != mark_state {
                        let o = choose|o: ObjectReference|
                            #![trigger old_traced.contains(o)]
                            old_traced.contains(o) && (o.0 - st) / 8 == i;
                        assert(traced.contains(o));
                    }
                }
            }
            if was_marked {
                assert(tm1 =~= tm0);
                if !stolen {
                    assert forall|i: int| 0 <= i < l.len() implies !is_marked(
                        tm1,
                        st,
                        mark_state,
                        #[trigger] l[i],
                    ) by {
                        assert(p.contains(l[i]));
                        let j = choose|j: int| 0 <= j < p.len() && p[j] == l[i];
                        assert(should_push(tm1, st, mark_state, p[j]));
                    }
                    lemma_count_marked_append(tm1, st, mark_state, q1, l);
                    assert(count_marked(tm0, st, mark_state, q) == count_marked(
                        tm0,
                        st,
                        mark_state,
                        q1,
                    ) + 1) by {
                        assert(q.drop_last() =~= q1);
                    }
                }
            } else {
                lemma_count_unmarked_update(tm0, idx, mark_state);
            }
        }
    }
}

/// Traces from the objects in `work_stack` with a shared queue: the objects
/// move to the shared queue, a tracer takes its work from there and hands
/// back what it finds while its local queue is long, and the work handed back
/// is the shared queue of the next round, until a round hands back none.
/// Returns the first object that cannot be traced, if any; else every object
/// reachable from the roots through unmarked objects is marked, as
/// `trace_closed` states.
#[verifier::spinoff_prover]
#[verifier::rlimit(40)]
pub fn start_trace_shared(
    work_stack: &mut Vec<ObjectReference>,
    space: &mut ImmixSpace,
    mark_state: u8,
) -> (r: Result<(), ObjectReference>)
    requires
        old(space).wf(),
    ensures
        trace_keeps(old(space), final(space)),
        final(work_stack)@.len() == 0,
        r is Ok ==> exists|traced: Set<ObjectReference>|
            trace_closed(old(space), final(space), old(work_stack)@, traced, mark_state),
        r matches Err(o) ==> trace_stops_at(old(space), old(work_stack)@, o),
        trace_owed(old(space), old(work_stack)@) ==> r is Ok,
{
    let ghost roots = work_stack@;
    let ghost space0 = *space;
    let ghost st = space.start.0;
    let mut worker: Vec<ObjectReference> = Vec::new();
    while work_stack.len() > 0
        invariant
            roots == old(work_stack)@,
            work_stack@.len() <= roots.len(),
            work_stack@ == roots.take(work_stack@.len() as int),
            forall|x: ObjectReference|
                #[trigger] roots.contains(x) ==> worker@.contains(x) || work_stack@.contains(x),
            forall|x: ObjectReference| #[trigger] worker@.contains(x) ==> roots.contains(x),
        decreases work_stack@.len(),
    {
        let ghost ws = work_stack@;
        let ghost wk = worker@;
        let o = work_stack.pop().unwrap();
        worker.push(o);
        proof {
            assert(ws =~= work_stack@.push(o));
            assert(work_stack@ =~= roots.take(work_stack@.len() as int));
            assert forall|x: ObjectReference| #[trigger] roots.contains(x) implies worker@.contains(
                x,
            ) || work_stack@.contains(x) by {
                if wk.contains(x) {
                    let j = choose|j: int| 0 <= j < wk.len() && wk[j] == x;
                    assert(worker@[j] == x);
                } else {
                    let j = choose|j: int| 0 <= j < ws.len() && ws[j] == x;
                    if j == ws.len() - 1 {
                        assert(worker@[wk.len() as int] == x);
                    } else {
                        assert(work_stack@[j] == x);
                    }
                }
            }
            assert forall|x: ObjectReference| #[trigger] worker@.contains(x) implies roots.contains(x) by {
                let j = choose|j: int| 0 <= j < worker@.len() && worker@[j] == x;
                if j < wk.len() {
                    assert(wk[j] == x);
                    assert(wk.contains(x));
                } else {
                    assert(ws[ws.len() - 1] == x);
                    assert(roots[ws.len() - 1] == x);
                }
            }
        }
    }
    let ghost mut traced: Set<ObjectReference> = Set::empty();
    proof {
        assert forall|x: ObjectReference| #[trigger] worker@.contains(x) implies reachable(
            &space0,
            roots,
            x,
        ) by {
            lemma_root_reachable(&space0, roots, x);
        }
    }
    loop
        invariant
            space0.wf(),
            forall|o: ObjectReference| #[trigger] traced.contains(o) ==> reachable(&space0, roots, o),
            forall|x: ObjectReference|
                #[trigger] worker@.contains(x) ==> reachable(&space0, roots, x) && (x.0 != 0
                    || roots.contains(x)),
            space0 == *old(space),
            roots == old(work_stack)@,
            st == space0.start.0,
            trace_keeps(&space0, space),
            work_stack@.len() == 0,
            forall|x: ObjectReference|
                #[trigger] roots.contains(x) ==> traced.contains(x) || worker@.contains(x),
            forall|o: ObjectReference|
                #[trigger] traced.contains(o) ==> {
                    &&& traceable(&space0, o)
                    &&& is_marked(space.trace_map@, st, mark_state, o)
                    &&& is_live(space.line_mark_table@[line_of(&space0, o.0 as int)])
                    &&& line_of(&space0, o.0 as int) + 1 < space.line_mark_table@.len() ==> is_live(
                        space.line_mark_table@[line_of(&space0, o.0 as int) + 1],
                    )
                },
            forall|o: ObjectReference, i: int|
                #![trigger traced.contains(o), children(&space0, o)[i]]
                traced.contains(o) && 0 <= i < children(&space0, o).len() ==> children(&space0, o)[i].0
                    == 0 || worker@.contains(children(&space0, o)[i]) || is_marked(
                    space.trace_map@,
                    st,
                    mark_state,
                    children(&space0, o)[i],
                ),
            forall|i: int|
                0 <= i < space.trace_map@.len() && #[trigger] space.trace_map@[i] == mark_state
                    ==> space0.trace_map@[i] == mark_state || exists|o: ObjectReference|
                    #![trigger traced.contains(o)]
                    traced.contains(o) && (o.0 - st) / 8 == i,
            forall|i: int|
                0 <= i < space.trace_map@.len() && #[trigger] space.trace_map@[i]
                    != space0.trace_map@[i] ==> space.trace_map@[i] == mark_state,
            forall|l: int|
                0 <= l < space.line_mark_table@.len() && #[trigger] space.line_mark_table@[l]
                    != space0.line_mark_table@[l] ==> is_live(space.line_mark_table@[l]),
        decreases count_unmarked(space.trace_map@, mark_state),
    {
        let ghost w = worker@;
        let ghost s1 = *space;
        let mut jobs: Vec<ObjectReference> = Vec::new();
        match start_steal_trace(&mut worker, &mut jobs, space, mark_state) {
            Err(o) => {
                proof {
                    assert(trace_keeps(&s1, &space0));
                    lemma_reachable_kept(&s1, &space0, w, o);
                    lemma_reachable_trans(&space0, roots, w, o);
                }
                return Err(o);
            },
            Ok(()) => {},
        }
        proof {
            assert(jobs@.skip(0) =~= jobs@);
            let tr = choose|t: Set<ObjectReference>|
                trace_closed_sharing(&s1, space, w, t, mark_state, jobs@.skip(0));
            assert(trace_closed_sharing(&s1, space, w, tr, mark_state, jobs@));
            let t_old = traced;
            traced = t_old.union(tr);
            assert(trace_keeps(&s1, &space0));
            assert forall|x: ObjectReference| reachable(&s1, w, x) implies reachable(
                &space0,
                roots,
                x,
            ) by {
                lemma_reachable_kept(&s1, &space0, w, x);
                lemma_reachable_trans(&space0, roots, w, x);
            }
            assert forall|o: ObjectReference| #[trigger] traced.contains(o) implies reachable(
                &space0,
                roots,
                o,
            ) by {
                if !t_old.contains(o) {
                    assert(tr.contains(o));
                    assert(reachable(&s1, w, o));
                }
            }
            assert forall|x: ObjectReference| #[trigger] jobs@.contains(x) implies reachable(
                &space0,
                roots,
                x,
            ) && (x.0 != 0 || roots.contains(x)) by {
                assert(reachable(&s1, w, x));
            }
            let tm1 = s1.trace_map@;
            let tm2 = space.trace_map@;
            let lt1 = s1.line_mark_table@;
            let lt2 = space.line_mark_table@;
            assert forall|x: ObjectReference|
                is_marked(tm1, st, mark_state, x) implies is_marked(tm2, st, mark_state, x) by {
                let i = (x.0 - st) / 8;
                if tm2[i] != tm1[i] {
                    assert(tm2[i] == mark_state);
                }
            }
            assert forall|ln: int| 0 <= ln < lt1.len() && is_live(lt1[ln]) implies is_live(
                lt2[ln],
            ) by {
                if lt2[ln] != lt1[ln] {
                    assert(is_live(lt2[ln]));
                }
            }
            assert forall|x: ObjectReference| #[trigger] roots.contains(x) implies traced.contains(
                x,
            ) || jobs@.contains(x) by {
                if !t_old.contains(x) {
                    assert(w.contains(x));
                    assert(tr.contains(x));
                }
            }
            assert forall|o: ObjectReference| #[trigger] traced.contains(o) implies {
                &&& traceable(&space0, o)
                &&& is_marked(tm2, st, mark_state, o)
                &&& is_live(lt2[line_of(&space0, o.0 as int)])
                &&& line_of(&space0, o.0 as int) + 1 < lt2.len() ==> is_live(
                    lt2[line_of(&space0, o.0 as int) + 1],
                )
            } by {
                if t_old.contains(o) {
                    assert(is_marked(tm1, st, mark_state, o));
                } else {
                    assert(tr.contains(o));
                }
            }
            assert forall|o: ObjectReference, i: int|
                traced.contains(o) && 0 <= i < children(&space0, o).len() implies #[trigger] children(
                &space0,
                o,
            )[i].0 == 0 || jobs@.contains(children(&space0, o)[i]) || is_marked(
                tm2,
                st,
                mark_state,
                children(&space0, o)[i],
            ) by {
                let c = children(&space0, o)[i];
                if t_old.contains(o) {
                    if w.contains(c) {
                        assert(tr.contains(c));
                    } else if is_marked(tm1, st, mark_state, c) {
                        assert(is_marked(tm2, st, mark_state, c));
                    }
                } else {
                    assert(tr.contains(o));
                    assert(children(&s1, o)[i] == c);
                }
            }
            assert forall|i: int|
                0 <= i < tm2.len() && #[trigger] tm2[i] == mark_state implies space0.trace_map@[i]
                == mark_state || exists|o: ObjectReference|
                #![trigger traced.contains(o)]
                traced.contains(o) && (o.0 - st) / 8 == i by {
                if tm1[i] == mark_state {
                    if space0.trace_map@[i] != mark_state {
                        let o = choose|o: ObjectReference|
                            #![trigger t_old.contains(o)]
                            t_old.contains(o) && (o.0 - st) / 8 == i;
                        assert(traced.contains(o));
                    }
                } else {
                    let o = choose|o: ObjectReference|
                        #![trigger tr.contains(o)]
                        tr.contains(o) && (o.0 - st) / 8 == i;
                    assert(traced.contains(o));
                }
            }
            assert forall|i: int|
                0 <= i < tm2.len() && #[trigger] tm2[i] != space0.trace_map@[i] implies tm2[i]
                == mark_state by {
                if tm2[i] == tm1[i] {
                    assert(tm1[i] != space0.trace_map@[i]);
                }
            }
            assert forall|l: int|
                0 <= l < lt2.len() && #[trigger] lt2[l] != space0.line_mark_table@[l] implies is_live(
                lt2[l],
            ) by {
                if lt2[l] == lt1[l] {
                    assert(lt1[l] != space0.line_mark_table@[l]);
                }
            }
        }
        if jobs.len() == 0 {
            proof {
                assert forall|x: ObjectReference| roots.contains(x) implies traced.contains(x) by {
                    assert(!jobs@.contains(x));
                }
                assert forall|o: ObjectReference, i: int|
                    #![trigger traced.contains(o), children(&space0, o)[i]]
                    traced.contains(o) && 0 <= i < children(&space0, o).len() implies children(
                    &space0,
                    o,
                )[i].0 == 0 || is_marked(space.trace_map@, st, mark_state, children(&space0, o)[i]) by {
                    assert(!jobs@.contains(children(&space0, o)[i]));
                }
                assert(trace_closed(&space0, space, roots, traced, mark_state));
            }
            return Ok(());
        }
        worker = jobs;
    }
}

/// The collector's state: the two spaces, the roots of the next collection,
/// the mark state, and the number of collections so far.
pub struct GCContext {
    pub immix_space: ImmixSpace,
    pub lo_space: FreeListSpace,
    pub roots: Vec<ObjectReference>,
    pub mark_state: usize,
    pub gc_count: usize,
}

/// The collector for the two spaces, before its first collection.
pub fn init(immix_space: ImmixSpace, lo_space: FreeListSpace) -> (ctx: GCContext)
    ensures
        ctx.immix_space == immix_space,
        ctx.lo_space == lo_space,
        ctx.roots@.len() == 0,
        ctx.mark_state == 1,
        ctx.gc_count == 0,
{
    let mut mark_state: usize = 0;
    objectmodel::init(&mut mark_state);
    GCContext {
        immix_space: immix_space,
        lo_space: lo_space,
        roots: Vec::new(),
        mark_state: mark_state,
        gc_count: 0,
    }
}

/// `after` is `before` swept.
pub open spec fn swept(before: &ImmixSpace, after: &ImmixSpace) -> bool {
    &&& after.wf()
    &&& after.line_mark_table@ == swept_table(before.line_mark_table@, before.used_blocks@)
    &&& after.usable_blocks@ == swept_usable(before.line_mark_table@, before.used_blocks@)
        + before.usable_blocks@
    &&& after.used_blocks@ == swept_full(before.line_mark_table@, before.used_blocks@)
    &&& after.start == before.start
    &&& after.end == before.end
    &&& after.memory == before.memory
    &&& after.alloc_map == before.alloc_map
    &&& after.trace_map == before.trace_map
    &&& after.total_blocks == before.total_blocks
}

/// `after` is `before` traced from `roots` with `mark` and then swept.
pub open spec fn collected(
    before: &ImmixSpace,
    roots: Seq<ObjectReference>,
    mark: u8,
    after: &ImmixSpace,
) -> bool {
    exists|traced_space: ImmixSpace, traced: Set<ObjectReference>|
        #![trigger trace_closed(before, &traced_space, roots, traced, mark)]
        {
            &&& trace_keeps(before, &traced_space)
            &&& trace_closed(before, &traced_space, roots, traced, mark)
            &&& swept(&traced_space, after)
        }
}

/// One collection: traces the Immix space from the roots with the current
/// mark state, sweeps it, and flips the mark state. Returns the object at
/// which the trace stopped, if it did (the roots are then dropped and the
/// space is left unswept); else whether the sweep found every block full,
/// the space out of memory (the mark state is then left as it was).
pub fn gc(ctx: &mut GCContext) -> (r: Result<bool, ObjectReference>)
    requires
        old(ctx).immix_space.wf(),
        old(ctx).mark_state <= 1,
        old(ctx).gc_count < usize::MAX,
    ensures
        final(ctx).gc_count == old(ctx).gc_count + 1,
        final(ctx).lo_space == old(ctx).lo_space,
        final(ctx).immix_space.wf(),
        r matches Err(o) ==> trace_stops_at(&old(ctx).immix_space, old(ctx).roots@, o),
        trace_owed(&old(ctx).immix_space, old(ctx).roots@) ==> r is Ok,
        r is Err ==> trace_keeps(&old(ctx).immix_space, &final(ctx).immix_space)
            && final(ctx).mark_state == old(ctx).mark_state,
        final(ctx).roots@.len() == 0,
        final(ctx).immix_space.memory == old(ctx).immix_space.memory,
        final(ctx).immix_space.start == old(ctx).immix_space.start,
        final(ctx).immix_space.end == old(ctx).immix_space.end,
        final(ctx).immix_space.alloc_map == old(ctx).immix_space.alloc_map,
        final(ctx).immix_space.total_blocks == old(ctx).immix_space.total_blocks,
        r matches Ok(out_of_memory) ==> {
            &&& collected(
                &old(ctx).immix_space,
                old(ctx).roots@,
                old(ctx).mark_state as u8,
                &final(ctx).immix_space,
            )
            &&& final(ctx).roots@.len() == 0
            &&& out_of_memory == (final(ctx).immix_space.used_blocks@.len()
                == old(ctx).immix_space.total_blocks)
            &&& final(ctx).mark_state == if out_of_memory {
                old(ctx).mark_state
            } else if old(ctx).mark_state == 0 {
                1
            } else {
                0
            }
        },
{
    ctx.gc_count = ctx.gc_count + 1;
    let mark_state = ctx.mark_state as u8;
    match start_trace(&mut ctx.roots, &mut ctx.immix_space, mark_state) {
        Err(o) => {
            ctx.roots = Vec::new();
            return Err(o);
        },
        Ok(()) => {},
    }
    let ghost traced_space = ctx.immix_space;
    let out_of_memory = ctx.immix_space.sweep();
    if out_of_memory {
        return Ok(true);
    }
    objectmodel::flip_mark_state(&mut ctx.mark_state);
    Ok(false)
}


/// A collection keeps the lines of every object it traced: after the trace
/// and the sweep, the line of a traced object, and the line after it when
/// there is one, are live.
pub proof fn lemma_collection_keeps_traced_lines(
    before: &ImmixSpace,
    traced_space: &ImmixSpace,
    after: &ImmixSpace,
    roots: Seq<ObjectReference>,
    traced: Set<ObjectReference>,
    mark: u8,
    o: ObjectReference,
)
    requires
        trace_keeps(before, traced_space),
        trace_closed(before, traced_space, roots, traced, mark),
        swept(traced_space, after),
        traced.contains(o),
    ensures
        is_live(after.line_mark_table@[line_of(after, o.0 as int)]),
        line_of(after, o.0 as int) + 1 < after.line_mark_table@.len() ==> is_live(
            after.line_mark_table@[line_of(after, o.0 as int) + 1],
        ),
{
    let l = line_of(after, o.0 as int);
    assert(line_of(traced_space, o.0 as int) == l);
    assert(after.line_mark_table@[l] == traced_space.line_mark_table@[l]);
    if l + 1 < after.line_mark_table@.len() {
        assert(after.line_mark_table@[l + 1] == traced_space.line_mark_table@[l + 1]);
    }
}

/// An allocation after a collection never hands out a byte of the reference
/// fields of an object the collection traced: the allocated bytes lie in
/// freshly allocated lines, while the lines of a traced object stay live
/// through the sweep and the allocation.
pub proof fn lemma_allocation_spares_traced(
    before: &ImmixSpace,
    traced_space: &ImmixSpace,
    swept_space: &ImmixSpace,
    roots: Seq<ObjectReference>,
    traced: Set<ObjectReference>,
    mark: u8,
    m_old: &ImmixMutatorLocal,
    m_new: &ImmixMutatorLocal,
    after: &ImmixSpace,
    size: usize,
    align: usize,
    a: Address,
    o: ObjectReference,
    p: int,
    q: int,
)
    requires
        trace_keeps(before, traced_space),
        trace_closed(before, traced_space, roots, traced, mark),
        swept(traced_space, swept_space),
        ImmixMutatorLocal::alloc_post(m_old, m_new, swept_space, after, size, align, Some(a)),
        traced.contains(o),
        a.0 <= p < a.0 + size,
        o.0 <= q < o.0 + 8 * fields_of(before, o),
    ensures
        p != q,
{
    lemma_collection_keeps_traced_lines(before, traced_space, swept_space, roots, traced, mark, o);
    let l = line_of(after, o.0 as int);
    let len = after.line_mark_table@.len();
    assert(line_of(swept_space, o.0 as int) == l);
    assert(line_of(after, p) < len);
    assert(after.line_mark_table@[line_of(after, p)] == LineMark::FreshAlloc);
    assert(fields_of(before, o) <= 4);
    if p == q {
        assert(line_of(after, q) == l || line_of(after, q) == l + 1) by (nonlinear_arith)
            requires
                o.0 <= q < o.0 + 32,
                after.start.0 <= o.0,
                l == (o.0 - after.start.0) / 256,
                line_of(after, q) == (q - after.start.0) / 256,
        ;
        assert(is_live(swept_space.line_mark_table@[l]));
        assert(after.line_mark_table@[l] == swept_space.line_mark_table@[l]);
        if l + 1 < len {
            assert(after.line_mark_table@[l + 1] == swept_space.line_mark_table@[l + 1]);
        }
    }
}


/// What the collection at a barrier leaves: see `sync_barrier`.
pub open spec fn barrier_done(
    oc: &GCContext,
    nc: &GCContext,
    om: &ImmixMutatorLocal,
    nm: &ImmixMutatorLocal,
    ort: Seq<ObjectReference>,
    nrt: Seq<ObjectReference>,
    omu: Seq<Option<ImmixMutatorGlobal>>,
    nmu: Seq<Option<ImmixMutatorGlobal>>,
    r: Result<bool, ObjectReference>,
) -> bool {
    &&& nm.is_reset()
    &&& nm.wf(&nc.immix_space)
    &&& nm.spec_id() == om.spec_id()
    &&& nc.gc_count == oc.gc_count + 1
    &&& nc.lo_space == oc.lo_space
    &&& nrt.len() == 0
    &&& nmu.len() == omu.len()
    &&& forall|i: int|
        0 <= i < omu.len() ==> match #[trigger] omu[i] {
            None => nmu[i] is None,
            Some(_) => nmu[i] matches Some(g) && !g.spec_take_yield(),
        }
    &&& r matches Err(o) ==> trace_stops_at(&oc.immix_space, oc.roots@ + ort, o)
    &&& trace_owed(&oc.immix_space, oc.roots@ + ort) ==> r is Ok
    &&& nc.roots@.len() == 0
    &&& r is Err ==> {
        &&& nc.mark_state == oc.mark_state
        &&& nc.immix_space.usable_blocks == oc.immix_space.usable_blocks
        &&& nc.immix_space.used_blocks@ == match om.spec_block() {
            Some(b) => seq![b] + oc.immix_space.used_blocks@,
            None => oc.immix_space.used_blocks@,
        }
    }
    &&& r matches Ok(out_of_memory) ==> nc.mark_state == if out_of_memory {
        oc.mark_state
    } else if oc.mark_state == 0 {
        1
    } else {
        0
    }
    &&& r matches Ok(out_of_memory) ==> exists|prepared: ImmixSpace|
        #![trigger collected(&prepared, oc.roots@ + ort, oc.mark_state as u8, &nc.immix_space)]
        {
            &&& prepared.usable_blocks == oc.immix_space.usable_blocks
            &&& prepared.used_blocks@ == match om.spec_block() {
                Some(b) => seq![b] + oc.immix_space.used_blocks@,
                None => oc.immix_space.used_blocks@,
            }
            &&& prepared.line_mark_table == oc.immix_space.line_mark_table
            &&& prepared.trace_map == oc.immix_space.trace_map
            &&& prepared.alloc_map == oc.immix_space.alloc_map
            &&& prepared.memory == oc.immix_space.memory
            &&& collected(
                &prepared,
                oc.roots@ + ort,
                oc.mark_state as u8,
                &nc.immix_space,
            )
            &&& out_of_memory == (nc.immix_space.used_blocks@.len()
                == oc.immix_space.total_blocks)
        }
}

/// The collection a mutator runs at its yieldpoint when it is the only
/// mutator, and so controls the collection: it gives back its block, adds
/// `thread_roots` to the roots, collects, withdraws every mutator's request
/// to stop, and resets itself.
pub fn sync_barrier(
    ctx: &mut GCContext,
    mutator: &mut ImmixMutatorLocal,
    thread_roots: &mut Vec<ObjectReference>,
    mutators: &mut Vec<Option<ImmixMutatorGlobal>>,
) -> (r: Result<bool, ObjectReference>)
    requires
        old(mutator).wf(&old(ctx).immix_space),
        old(ctx).mark_state <= 1,
        old(ctx).gc_count < usize::MAX,
    ensures
        barrier_done(
            old(ctx),
            final(ctx),
            old(mutator),
            final(mutator),
            old(thread_roots)@,
            final(thread_roots)@,
            old(mutators)@,
            final(mutators)@,
            r,
        ),
{
    mutator.prepare_for_gc(&mut ctx.immix_space);
    let ghost prepared = ctx.immix_space;
    ctx.roots.append(thread_roots);
    let ghost all_roots = ctx.roots@;
    proof {
        let old_space = old(ctx).immix_space;
        assert(all_roots =~= old(ctx).roots@ + old(thread_roots)@);
        assert(same_objects(&prepared, &old_space));
        assert(same_objects(&old_space, &prepared));
        if trace_owed(&old_space, all_roots) {
            assert forall|o: ObjectReference|
                #[trigger] reachable(&prepared, all_roots, o) && (o.0 != 0 || all_roots.contains(o))
                    implies traceable(&prepared, o) by {
                lemma_reachable_kept(&prepared, &old_space, all_roots, o);
            }
        }
    }
    let r = gc(ctx);
    proof {
        let old_space = old(ctx).immix_space;
        if r.is_err() {
            let o = r->Err_0;
            lemma_reachable_kept(&prepared, &old_space, all_roots, o);
        }
    }
    let mut i: usize = 0;
    while i < mutators.len()
        invariant
            i <= mutators@.len(),
            mutators@.len() == old(mutators)@.len(),
            forall|j: int|
                i <= j < mutators@.len() ==> #[trigger] mutators@[j] == old(mutators)@[j],
            forall|j: int|
                0 <= j < i ==> match #[trigger] old(mutators)@[j] {
                    None => mutators@[j] is None,
                    Some(_) => mutators@[j] matches Some(g) && !g.spec_take_yield(),
                },
        decreases mutators@.len() - i,
    {
        if mutators[i].is_some() {
            mutators.set(i, Some(ImmixMutatorGlobal::new()));
        }
        i = i + 1;
    }
    mutator.reset();
    r
}

} // verus!
