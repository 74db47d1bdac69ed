use immix_rust::common::Address;
use immix_rust::heap::freelist::{alloc_large, FreeListSpace, NodeMark};
use immix_rust::heap::immix::immix_space::ImmixSpace;
use immix_rust::heap::gc::trigger_gc;
use immix_rust::heap::immix::immix_mutator::mutator_registry;
use immix_rust::heap::immix::{ImmixMutatorLocal, BYTES_IN_BLOCK};

#[test]
fn allocation_respects_the_size_limit() {
    let mut space = FreeListSpace::new(100);
    let mut next = 0x10000usize;
    let mut fake = |size: usize, _align: usize| {
        let a = Address(next);
        next += size;
        a
    };
    assert_eq!(space.allocate(60, 8, &mut fake), Some(Address(0x10000)));
    assert_eq!(space.used_bytes(), 60);
    assert_eq!(space.allocate(41, 8, &mut fake), None);
    assert_eq!(space.used_bytes(), 60);
    assert_eq!(space.allocate(40, 8, &mut fake), Some(Address(0x10000 + 60)));
    assert_eq!(space.used_bytes(), 100);
    assert_eq!(space.size(), 100);
    let nodes = space.current_nodes();
    assert_eq!(nodes.len(), 2);
    // the most recent node is first
    assert_eq!(nodes[0].start(), Address(0x10000 + 60));
    assert_eq!(nodes[0].id(), 1);
    assert_eq!(nodes[0].size(), 40);
    assert_eq!(nodes[0].mark(), NodeMark::FreshAlloc);
    assert_eq!(nodes[1].id(), 0);
}

#[test]
fn the_allocator_is_not_called_when_there_is_no_room() {
    let mut space = FreeListSpace::new(10);
    let mut calls = 0;
    let r = space.allocate(11, 8, |_, _| {
        calls += 1;
        Address(1)
    });
    assert_eq!(r, None);
    assert_eq!(calls, 0);
}

#[test]
fn sweep_keeps_live_nodes_and_frees_the_rest() {
    let mut space = FreeListSpace::new(1000);
    for i in 0..4usize {
        space.allocate(10 * (i + 1), 8, |_, _| Address(0x1000 * (i + 1))).unwrap();
    }
    // nodes, front first: 0x4000 (40), 0x3000 (30), 0x2000 (20), 0x1000 (10)
    space.current_nodes_mut()[1].set_mark(NodeMark::Live);
    space.current_nodes_mut()[3].set_mark(NodeMark::Live);
    let freed = space.sweep();
    assert_eq!(freed, vec![Address(0x4000), Address(0x2000)]);
    let nodes = space.current_nodes();
    assert_eq!(nodes.len(), 2);
    assert_eq!(nodes[0].start(), Address(0x3000));
    assert_eq!(nodes[0].mark(), NodeMark::PrevLive);
    assert_eq!(nodes[1].start(), Address(0x1000));
    assert_eq!(space.used_bytes(), 40);
    // a node live in the previous collection and not marked again goes
    let freed = space.sweep();
    assert_eq!(freed, vec![Address(0x3000), Address(0x1000)]);
    assert_eq!(space.used_bytes(), 0);
}

#[test]
fn mark_changes_nothing() {
    let mut space = FreeListSpace::new(50);
    space.allocate(5, 8, |_, _| Address(64)).unwrap();
    space.mark(Address(64));
    assert_eq!(space.current_nodes()[0].mark(), NodeMark::FreshAlloc);
}

#[test]
fn alloc_large_waits_for_a_requested_collection() {
    let immix = ImmixSpace::new(BYTES_IN_BLOCK);
    let mut mutators = mutator_registry();
    let mut n = 0;
    let mut m = ImmixMutatorLocal::new(&mut mutators, &mut n, &immix);
    let mut lo = FreeListSpace::new(100);
    assert_eq!(alloc_large(50, 8, &mut m, &mutators, &mut lo, |_, _| Address(0x8000)), Some(Address(0x8000)));
    assert_eq!(alloc_large(60, 8, &mut m, &mutators, &mut lo, |_, _| Address(0x9000)), None);
    trigger_gc(&mut mutators);
    assert_eq!(alloc_large(10, 8, &mut m, &mutators, &mut lo, |_, _| Address(0xa000)), None);
    assert_eq!(lo.used_bytes(), 50);
}
