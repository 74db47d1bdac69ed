use immix_rust::common::{Address, ObjectReference};
use immix_rust::heap::freelist::FreeListSpace;
use immix_rust::heap::gc::{
    init, start_steal_trace, start_trace, start_trace_shared, steal_process_edge,
    steal_trace_object, sync_barrier, PUSH_BACK_THRESHOLD,
};
use immix_rust::heap::immix::ImmixMutatorGlobal;
use immix_rust::heap::immix::immix_space::ImmixSpace;
use immix_rust::heap::immix::{ImmixMutatorLocal, LineMark, BYTES_IN_BLOCK, LINES_IN_BLOCK};

/// An object with four reference fields.
const WIDE_ENCODING: u8 = 0b1100_1111;

fn wide_node(m: &mut ImmixMutatorLocal, space: &mut ImmixSpace) -> Address {
    let a = m.allocate(space, &mut Vec::new(), 32, 8).unwrap();
    m.init_object(space, a, WIDE_ENCODING);
    a
}

/// A complete tree of fan-out four and the given depth; returns its root and
/// pushes every node on `nodes`.
fn wide_tree(
    m: &mut ImmixMutatorLocal,
    space: &mut ImmixSpace,
    depth: usize,
    nodes: &mut Vec<Address>,
) -> Address {
    let root = wide_node(m, space);
    nodes.push(root);
    for i in 0..4 {
        let child = if depth == 0 { Address(0) } else { wide_tree(m, space, depth - 1, nodes) };
        space.store_u64(root.plus(8 * i), child.as_usize() as u64);
    }
    root
}

/// A chain of `len` objects whose first three fields hold leaves and whose
/// last field holds the next object of the chain; returns its head and pushes
/// every object on `nodes`.
fn comb(m: &mut ImmixMutatorLocal, space: &mut ImmixSpace, len: usize, nodes: &mut Vec<Address>) -> Address {
    let chain: Vec<Address> = (0..len).map(|_| wide_node(m, space)).collect();
    nodes.extend(chain.iter());
    for (i, c) in chain.iter().enumerate() {
        for f in 0..3 {
            let leaf = wide_node(m, space);
            nodes.push(leaf);
            space.store_u64(c.plus(8 * f), leaf.as_usize() as u64);
        }
        let next = if i + 1 < len { chain[i + 1] } else { Address(0) };
        space.store_u64(c.plus(24), next.as_usize() as u64);
    }
    chain[0]
}

fn marked(space: &ImmixSpace, a: Address) -> bool {
    space.trace_map.get(a) == 1
}

#[test]
fn steal_process_edge_hands_out_when_the_local_queue_is_long() {
    let mut space = ImmixSpace::new(BYTES_IN_BLOCK);
    let mut m = ImmixMutatorLocal::new(&mut vec![None], &mut 0, &space);
    let a = wide_node(&mut m, &mut space);
    let b = wide_node(&mut m, &mut space);
    space.store_u64(a, b.as_usize() as u64);
    let mut local = vec![];
    let mut jobs = vec![];
    steal_process_edge(a, &mut local, &space, &mut jobs, 1);
    assert_eq!(local, vec![b.to_object_reference()]);
    assert!(jobs.is_empty());
    let mut long_local = vec![ObjectReference(0); PUSH_BACK_THRESHOLD];
    steal_process_edge(a, &mut long_local, &space, &mut jobs, 1);
    assert_eq!(long_local.len(), PUSH_BACK_THRESHOLD);
    assert_eq!(jobs, vec![b.to_object_reference()]);
    // a null field is pushed nowhere
    let mut local2 = vec![];
    let mut jobs2 = vec![];
    steal_process_edge(a.plus(8), &mut local2, &space, &mut jobs2, 1);
    assert!(local2.is_empty() && jobs2.is_empty());
}

#[test]
fn steal_trace_object_splits_the_fields() {
    let mut space = ImmixSpace::new(BYTES_IN_BLOCK);
    let mut m = ImmixMutatorLocal::new(&mut vec![None], &mut 0, &space);
    let a = wide_node(&mut m, &mut space);
    let kids: Vec<Address> = (0..4).map(|_| wide_node(&mut m, &mut space)).collect();
    for (i, k) in kids.iter().enumerate() {
        space.store_u64(a.plus(8 * i), k.as_usize() as u64);
    }
    let mut local = vec![ObjectReference(0); PUSH_BACK_THRESHOLD - 2];
    let mut jobs = vec![];
    steal_trace_object(a.to_object_reference(), &mut local, &mut jobs, &mut space, 1);
    assert!(marked(&space, a));
    assert_eq!(local.len(), PUSH_BACK_THRESHOLD);
    assert_eq!(local[PUSH_BACK_THRESHOLD - 2], kids[0].to_object_reference());
    assert_eq!(local[PUSH_BACK_THRESHOLD - 1], kids[1].to_object_reference());
    assert_eq!(jobs, vec![kids[2].to_object_reference(), kids[3].to_object_reference()]);
}

#[test]
fn a_tracer_hands_out_work_from_a_long_comb() {
    let mut space = ImmixSpace::new(BYTES_IN_BLOCK);
    let mut m = ImmixMutatorLocal::new(&mut vec![None], &mut 0, &space);
    let mut nodes = vec![];
    let root = comb(&mut m, &mut space, 30, &mut nodes);
    assert_eq!(nodes.len(), 120);
    m.prepare_for_gc(&mut space);
    let mut stealer = vec![root.to_object_reference()];
    let mut jobs = vec![ObjectReference(8)];
    assert_eq!(start_steal_trace(&mut stealer, &mut jobs, &mut space, 1), Ok(()));
    assert!(stealer.is_empty());
    // what was in the shared queue before stays at its front
    assert_eq!(jobs[0], ObjectReference(8));
    assert!(jobs.len() > 1);
    assert!(marked(&space, root));
    // the work handed out is left for other tracers
    for j in &jobs[1..] {
        assert!(!marked(&space, j.to_address()));
    }
}

#[test]
fn a_tracer_without_hand_outs_traces_everything() {
    let mut space = ImmixSpace::new(BYTES_IN_BLOCK);
    let mut m = ImmixMutatorLocal::new(&mut vec![None], &mut 0, &space);
    let mut nodes = vec![];
    let root = wide_tree(&mut m, &mut space, 2, &mut nodes);
    let lonely = wide_node(&mut m, &mut space);
    m.prepare_for_gc(&mut space);
    let mut stealer = vec![root.to_object_reference()];
    let mut jobs = vec![];
    assert_eq!(start_steal_trace(&mut stealer, &mut jobs, &mut space, 1), Ok(()));
    assert!(jobs.is_empty());
    for n in &nodes {
        assert!(marked(&space, *n));
    }
    assert!(!marked(&space, lonely));
}

#[test]
fn the_shared_trace_marks_the_whole_comb() {
    let mut space = ImmixSpace::new(BYTES_IN_BLOCK);
    let mut m = ImmixMutatorLocal::new(&mut vec![None], &mut 0, &space);
    let mut nodes = vec![];
    let root = comb(&mut m, &mut space, 30, &mut nodes);
    let lonely = wide_node(&mut m, &mut space);
    m.prepare_for_gc(&mut space);
    let mut work = vec![root.to_object_reference()];
    assert_eq!(start_trace_shared(&mut work, &mut space, 1), Ok(()));
    assert!(work.is_empty());
    for n in &nodes {
        assert!(marked(&space, *n));
    }
    assert!(!marked(&space, lonely));
    // the same marks as the trace that does not share
    let mut space2 = ImmixSpace::new(BYTES_IN_BLOCK);
    let mut m2 = ImmixMutatorLocal::new(&mut vec![None], &mut 0, &space2);
    let mut nodes2 = vec![];
    let root2 = comb(&mut m2, &mut space2, 30, &mut nodes2);
    wide_node(&mut m2, &mut space2);
    m2.prepare_for_gc(&mut space2);
    let mut roots2 = vec![root2.to_object_reference()];
    assert_eq!(start_trace(&mut roots2, &mut space2, 1), Ok(()));
    let t = space.line_mark_table();
    let t2 = space2.line_mark_table();
    for i in 0..LINES_IN_BLOCK {
        let live = |l: LineMark| l == LineMark::Live || l == LineMark::ConservLive;
        assert_eq!(live(t.get(i)), live(t2.get(i)));
        assert_eq!(marked(&space, space.start().plus(8 * i)), marked(&space2, space2.start().plus(8 * i)));
    }
}

#[test]
fn the_shared_trace_stops_at_an_object_it_cannot_trace() {
    let mut space = ImmixSpace::new(BYTES_IN_BLOCK);
    let mut work = vec![ObjectReference(8)];
    assert_eq!(start_trace_shared(&mut work, &mut space, 1), Err(ObjectReference(8)));
    assert!(work.is_empty());
}

#[test]
fn mutator_window_accessors() {
    let mut space = ImmixSpace::new(2 * BYTES_IN_BLOCK);
    let mut mutators = vec![None, None, None, None];
    let mut n = 3;
    let mut m = ImmixMutatorLocal::new(&mut mutators, &mut n, &space);
    assert_eq!(m.id(), 3);
    assert_eq!(n, 4);
    assert!(mutators[3].is_some());
    assert!(m.cursor().is_zero());
    assert!(m.limit().is_zero());
    assert_eq!(m.line(), LINES_IN_BLOCK);
    assert!(m.block().is_none());
    let a = m.allocate(&mut space, &mut Vec::new(), 24, 8).unwrap();
    assert_eq!(a, space.start());
    assert_eq!(m.cursor().as_usize(), a.as_usize() + 24);
    assert_eq!(m.limit().as_usize(), space.start().as_usize() + BYTES_IN_BLOCK);
    assert_eq!(m.line(), LINES_IN_BLOCK);
    let b = m.block().unwrap();
    assert_eq!(b.id(), 0);
    assert_eq!(space.line_mark_table().get(0), LineMark::FreshAlloc);
}

#[test]
fn allocations_between_collections_do_not_overlap() {
    let mut space = ImmixSpace::new(3 * BYTES_IN_BLOCK);
    let mut m = ImmixMutatorLocal::new(&mut vec![None], &mut 0, &space);
    // keep a few objects alive through a collection, so that later windows
    // are cut around live lines
    let keep: Vec<Address> = (0..40).map(|_| wide_node(&mut m, &mut space)).collect();
    for _ in 0..300 {
        wide_node(&mut m, &mut space);
    }
    m.prepare_for_gc(&mut space);
    let mut roots: Vec<ObjectReference> = keep.iter().step_by(7).map(|a| a.to_object_reference()).collect();
    assert_eq!(start_trace(&mut roots, &mut space, 1), Ok(()));
    assert!(!space.sweep());
    let mut m = ImmixMutatorLocal::new(&mut vec![None], &mut 0, &space);
    let mut spans: Vec<(usize, usize)> = vec![];
    let sizes = [8usize, 24, 40, 200, 256, 300, 16, 1000];
    let mut i = 0;
    while let Some(a) = m.allocate(&mut space, &mut Vec::new(), sizes[i % sizes.len()], 8) {
        spans.push((a.as_usize(), a.as_usize() + sizes[i % sizes.len()]));
        i += 1;
    }
    assert!(spans.len() > 100);
    spans.sort();
    for w in spans.windows(2) {
        assert!(w[0].1 <= w[1].0);
    }
    // nothing handed out lies on a line the collection kept
    for k in keep.iter().step_by(7) {
        for s in &spans {
            assert!(k.as_usize() + 32 <= s.0 || s.1 <= k.as_usize());
        }
    }
}

#[test]
fn a_new_window_is_zeroed() {
    let mut space = ImmixSpace::new(BYTES_IN_BLOCK);
    let mut m = ImmixMutatorLocal::new(&mut vec![None], &mut 0, &space);
    let a = wide_node(&mut m, &mut space);
    space.store_u64(a, 0xdead_beef);
    space.store_u64(a.plus(8), 0xfeed);
    m.prepare_for_gc(&mut space);
    // nothing is traced, so the sweep frees every line
    assert!(!space.sweep());
    let mut m = ImmixMutatorLocal::new(&mut vec![None], &mut 0, &space);
    let b = m.allocate(&mut space, &mut Vec::new(), 32, 8).unwrap();
    assert_eq!(b, a);
    assert_eq!(space.load_u64(b), 0);
    assert_eq!(space.load_u64(b.plus(8)), 0);
}

#[test]
fn sync_barrier_reports_a_root_it_cannot_trace() {
    let space = ImmixSpace::new(BYTES_IN_BLOCK);
    let mut m = ImmixMutatorLocal::new(&mut vec![None], &mut 0, &space);
    let mut ctx = init(space, FreeListSpace::new(1024));
    let mut mutators = vec![Some(ImmixMutatorGlobal::new())];
    let mut roots = vec![ObjectReference(8)];
    assert_eq!(sync_barrier(&mut ctx, &mut m, &mut roots, &mut mutators), Err(ObjectReference(8)));
    assert_eq!(ctx.gc_count, 1);
    assert!(roots.is_empty());
}
