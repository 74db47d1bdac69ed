use immix_rust::gcbench::{MakeTree, NumIters, Populate, PrintDiagnostics, TreeSize, alloc_node, init_Node};
use immix_rust::heap::immix::immix_space::ImmixSpace;
use immix_rust::heap::immix::{ImmixMutatorLocal, BYTES_IN_BLOCK};
use immix_rust::heap::gc::start_trace;
use immix_rust::objectmodel::{flip_mark_state, get_ref_byte, init, is_traced, mark_as_traced};
use immix_rust::common::{Address, AddressMap, ObjectReference};

#[test]
fn tree_sizes() {
    assert_eq!(TreeSize(0), 1);
    assert_eq!(TreeSize(4), 31);
    assert_eq!(TreeSize(18), 524287);
    assert_eq!(TreeSize(-1), 0);
    assert_eq!(NumIters(4), 33824);
    assert_eq!(NumIters(16), 8);
    assert_eq!(NumIters(18), 2);
    PrintDiagnostics();
}

#[test]
fn mark_state_starts_at_one_and_flips() {
    let mut s = 7usize;
    init(&mut s);
    assert_eq!(s, 1);
    flip_mark_state(&mut s);
    assert_eq!(s, 0);
    flip_mark_state(&mut s);
    assert_eq!(s, 1);
}

#[test]
fn trace_marks_by_word() {
    let start = Address(0x4000);
    let mut tm: AddressMap<u8> = AddressMap::new(start, Address(0x4000 + 64), 0);
    let o = ObjectReference(0x4000 + 16);
    assert!(!is_traced(&tm, start, o, 1));
    mark_as_traced(&mut tm, start, o, 1);
    assert!(is_traced(&tm, start, o, 1));
    assert!(!is_traced(&tm, start, o, 0));
    assert!(!is_traced(&tm, start, ObjectReference(0x4000 + 24), 1));
    let mut am: AddressMap<u8> = AddressMap::new(start, Address(0x4000 + 64), 0);
    am.set(o.to_address(), 0b1100_0011);
    assert_eq!(get_ref_byte(&am, start, o), 0b1100_0011);
}

#[test]
fn make_tree_builds_a_traceable_tree() {
    let mut space = ImmixSpace::new(4 * BYTES_IN_BLOCK);
    let mut m = ImmixMutatorLocal::new(&mut vec![None], &mut 0, &space);
    let root = MakeTree(3, &mut m, &mut space, &mut Vec::new()).unwrap();
    let left = space.load_u64(root) as usize;
    let right = space.load_u64(root.plus(8)) as usize;
    assert_ne!(left, 0);
    assert_ne!(right, 0);
    assert!(left < root.as_usize() && right < root.as_usize());
    m.prepare_for_gc(&mut space);
    let mut roots = vec![root.to_object_reference()];
    assert_eq!(start_trace(&mut roots, &mut space, 1), Ok(()));
    // all 15 nodes are marked
    let marked = (0..space.trace_map.len())
        .filter(|i| space.trace_map.get(Address(space.start().as_usize() + 8 * i)) == 1)
        .count();
    assert_eq!(marked, 15);
}

#[test]
fn populate_gives_every_node_children() {
    let mut space = ImmixSpace::new(4 * BYTES_IN_BLOCK);
    let mut m = ImmixMutatorLocal::new(&mut vec![None], &mut 0, &space);
    let root = alloc_node(&mut m, &mut space, &mut Vec::new()).unwrap();
    assert!(Populate(2, root, &mut m, &mut space, &mut Vec::new()));
    let l = Address(space.load_u64(root) as usize);
    let ll = space.load_u64(l);
    assert_ne!(ll, 0);
    let lll = Address(ll as usize);
    assert_eq!(space.load_u64(lll), 0);
    init_Node(&mut space, root, Address(1), Address(2));
    assert_eq!(space.load_u64(root), 1);
    assert_eq!(space.load_u64(root.plus(8)), 2);
}

#[test]
fn make_tree_reports_a_full_space() {
    let mut space = ImmixSpace::new(BYTES_IN_BLOCK);
    let mut m = ImmixMutatorLocal::new(&mut vec![None], &mut 0, &space);
    // a tree of depth 12 has 8191 nodes of 24 bytes: more than one block
    assert_eq!(MakeTree(12, &mut m, &mut space, &mut Vec::new()), None);
}
