use immix_rust::common::{Address, ObjectReference};
use immix_rust::gcbench::{alloc_node, MakeTree, Populate, NODE_SIZE};
use immix_rust::heap::freelist::FreeListSpace;
use immix_rust::heap::gc::{alloc_step, init, stack_scan, trigger_gc, AllocAction, AllocEvent};
use immix_rust::heap::immix::immix_space::{ImmixSpace, SPACE_ALIGN};
use immix_rust::heap::immix::{BlockMark, ImmixMutatorGlobal, ImmixMutatorLocal, LineMark, BYTES_IN_BLOCK};

fn space_of(blocks: usize) -> ImmixSpace {
    ImmixSpace::new(blocks * BYTES_IN_BLOCK)
}

#[test]
fn stack_scan_keeps_object_starts_in_order() {
    let mut space = space_of(1);
    let mut m = ImmixMutatorLocal::new(&mut vec![None], &mut 0, &space);
    let a = m.allocate(&mut space, &mut Vec::new(), 24, 8).unwrap();
    m.init_object(&mut space, a, 0b1100_0011);
    let b = m.allocate(&mut space, &mut Vec::new(), 24, 8).unwrap();
    m.init_object(&mut space, b, 0b1100_0011);
    // an allocated word that starts no object
    let c = m.allocate(&mut space, &mut Vec::new(), 24, 8).unwrap();
    let outside = space.end().as_usize() + 8;
    let stack = vec![b.as_usize(), a.as_usize() + 8, 0, c.as_usize(), outside, a.as_usize()];
    let registers = vec![7, b.as_usize()];
    let roots = stack_scan(&stack, &registers, &space);
    let found: Vec<usize> = roots.iter().map(|r: &ObjectReference| r.0).collect();
    assert_eq!(found, vec![b.as_usize(), a.as_usize(), b.as_usize()]);
}

#[test]
fn stack_scan_of_nothing_finds_nothing() {
    let space = space_of(1);
    let roots = stack_scan(&Vec::new(), &Vec::new(), &space);
    assert!(roots.is_empty());
}

#[test]
fn allocation_takes_the_first_run_that_holds_the_object() {
    let mut space = space_of(1);
    let s = space.start().as_usize();
    // lines 0 and 1, then 4 and 5, are live: the free runs are 2..4 and 6..256
    space.line_mark_table.mark_line_live(Address(s));
    space.line_mark_table.mark_line_live(Address(s + 4 * 256));
    let mut m = ImmixMutatorLocal::new(&mut vec![None], &mut 0, &space);
    // 600 bytes do not fit in the two lines 2..4
    let a = m.allocate(&mut space, &mut Vec::new(), 600, 8).unwrap();
    assert_eq!(a.as_usize(), s + 6 * 256);
    assert_eq!(m.cursor().as_usize(), s + 6 * 256 + 600);
    assert_eq!(m.limit().as_usize(), s + 256 * 256);
    assert_eq!(m.line(), 256);
    assert_eq!(m.block().unwrap().id(), 0);
    // a small object after it comes from the same window
    let b = m.allocate(&mut space, &mut Vec::new(), 16, 8).unwrap();
    assert_eq!(b.as_usize(), s + 6 * 256 + 600);
}

#[test]
fn allocation_uses_a_run_that_fits_before_a_later_one() {
    let mut space = space_of(1);
    let s = space.start().as_usize();
    space.line_mark_table.mark_line_live(Address(s));
    space.line_mark_table.mark_line_live(Address(s + 4 * 256));
    let mut m = ImmixMutatorLocal::new(&mut vec![None], &mut 0, &space);
    let a = m.allocate(&mut space, &mut Vec::new(), 500, 8).unwrap();
    assert_eq!(a.as_usize(), s + 2 * 256);
    assert_eq!(m.limit().as_usize(), s + 4 * 256);
    assert_eq!(m.line(), 4);
}

#[test]
fn allocation_fails_when_no_run_holds_the_object() {
    let mut space = space_of(2);
    let mut m = ImmixMutatorLocal::new(&mut vec![None], &mut 0, &space);
    assert!(m.allocate(&mut space, &mut Vec::new(), BYTES_IN_BLOCK + 8, 8).is_none());
    assert!(m.block().is_none());
    assert_eq!(m.cursor().as_usize(), 0);
    assert_eq!(m.limit().as_usize(), 0);
    assert_eq!(m.line(), 256);
    assert_eq!(space.usable_blocks.len(), 0);
    assert_eq!(space.used_blocks.len(), 2);
}

#[test]
fn fresh_space_holds_an_object_of_a_whole_block() {
    let mut space = space_of(2);
    let mut m = ImmixMutatorLocal::new(&mut vec![None], &mut 0, &space);
    let a = m.allocate(&mut space, &mut Vec::new(), BYTES_IN_BLOCK - 8, 8).unwrap();
    assert_eq!(a.as_usize(), SPACE_ALIGN);
    let b = m.allocate(&mut space, &mut Vec::new(), BYTES_IN_BLOCK - 8, 8).unwrap();
    assert_eq!(b.as_usize(), SPACE_ALIGN + BYTES_IN_BLOCK);
}

#[test]
fn alloc_node_takes_the_next_node_of_the_window() {
    let mut space = space_of(1);
    let mut m = ImmixMutatorLocal::new(&mut vec![None], &mut 0, &space);
    let a = alloc_node(&mut m, &mut space, &mut Vec::new()).unwrap();
    let b = alloc_node(&mut m, &mut space, &mut Vec::new()).unwrap();
    assert_eq!(b.as_usize(), a.as_usize() + NODE_SIZE);
    assert_eq!(m.cursor().as_usize(), a.as_usize() + 2 * NODE_SIZE);
}

#[test]
fn make_tree_takes_its_nodes_from_the_window() {
    let mut space = space_of(1);
    let mut m = ImmixMutatorLocal::new(&mut vec![None], &mut 0, &space);
    let first = alloc_node(&mut m, &mut space, &mut Vec::new()).unwrap();
    let root = MakeTree(3, &mut m, &mut space, &mut Vec::new()).unwrap();
    // fifteen nodes, the root last
    assert_eq!(m.cursor().as_usize(), first.as_usize() + 16 * NODE_SIZE);
    assert_eq!(root.as_usize(), first.as_usize() + 15 * NODE_SIZE);
    assert_eq!(m.block().unwrap().id(), 0);
}

#[test]
fn populate_takes_its_nodes_from_the_window() {
    let mut space = space_of(1);
    let mut m = ImmixMutatorLocal::new(&mut vec![None], &mut 0, &space);
    let root = alloc_node(&mut m, &mut space, &mut Vec::new()).unwrap();
    assert!(Populate(3, root, &mut m, &mut space, &mut Vec::new()));
    // fourteen nodes below the root
    assert_eq!(m.cursor().as_usize(), root.as_usize() + 15 * NODE_SIZE);
}

#[test]
fn sweep_keeps_the_full_block_and_frees_the_empty_one() {
    let mut space = space_of(2);
    let mut b0 = space.get_next_usable_block(&mut Vec::new()).unwrap();
    let b1 = space.get_next_usable_block(&mut Vec::new()).unwrap();
    for i in 0..255 {
        b0.line_mark_table_mut().set(&mut space.line_mark_table, i, LineMark::Live);
    }
    b0.line_mark_table_mut().set(&mut space.line_mark_table, 255, LineMark::ConservLive);
    space.return_used_block(b0);
    space.return_used_block(b1);
    assert!(!space.sweep());
    let next = space.get_next_usable_block(&mut Vec::new()).unwrap();
    assert_eq!(next.id(), 1);
    assert_eq!(next.state(), BlockMark::Usable);
    assert!(space.get_next_usable_block(&mut Vec::new()).is_none());
    assert_eq!(space.used_blocks.len(), 1);
    assert_eq!(space.used_blocks[0].id(), 0);
    assert_eq!(space.used_blocks[0].state(), BlockMark::Full);
}

#[test]
fn sweep_keeps_every_block_it_was_given() {
    let mut space = space_of(3);
    let mut m = ImmixMutatorLocal::new(&mut vec![None], &mut 0, &space);
    m.allocate(&mut space, &mut Vec::new(), 8, 8).unwrap();
    m.prepare_for_gc(&mut space);
    let total = space.usable_blocks.len() + space.used_blocks.len();
    space.sweep();
    assert_eq!(space.usable_blocks.len() + space.used_blocks.len(), total);
    assert_eq!(total, 3);
}

#[test]
fn blocks_of_a_new_space_own_their_lines() {
    let mut space = space_of(2);
    let mut b0 = space.get_next_usable_block(&mut Vec::new()).unwrap();
    let b1 = space.get_next_usable_block(&mut Vec::new()).unwrap();
    b0.line_mark_table_mut().set(&mut space.line_mark_table, 3, LineMark::Live);
    assert_eq!(space.line_mark_table().get(3), LineMark::Live);
    assert_eq!(b1.line_mark_table().get(space.line_mark_table(), 3), LineMark::Free);
    assert_eq!(space.line_mark_table().get(256 + 3), LineMark::Free);
    assert_eq!(b1.start().as_usize(), SPACE_ALIGN + BYTES_IN_BLOCK);
}

#[test]
fn alloc_step_follows_the_allocation_loop() {
    assert_eq!(alloc_step(AllocEvent::Attempted(true)), AllocAction::Done);
    assert_eq!(alloc_step(AllocEvent::Attempted(false)), AllocAction::Collect);
    assert_eq!(alloc_step(AllocEvent::Collected(false)), AllocAction::Retry);
    assert_eq!(alloc_step(AllocEvent::Collected(true)), AllocAction::OutOfMemory);
}

#[test]
fn allocation_opens_exactly_the_first_hole() {
    let mut space = space_of(1);
    let s = space.start().as_usize();
    space.line_mark_table.mark_line_live(Address(s));
    space.line_mark_table.mark_line_live(Address(s + 4 * 256));
    space.store_u64(Address(s + 2 * 256 + 8), 77);
    space.store_u64(Address(s + 6 * 256 + 8), 99);
    let mut m = ImmixMutatorLocal::new(&mut vec![None], &mut 0, &space);
    let a = m.allocate(&mut space, &mut Vec::new(), 100, 8).unwrap();
    assert_eq!(a.as_usize(), s + 2 * 256);
    assert_eq!(m.cursor().as_usize(), s + 2 * 256 + 100);
    assert_eq!(m.limit().as_usize(), s + 4 * 256);
    assert_eq!(m.line(), 4);
    let t = space.line_mark_table();
    assert_eq!(t.get(0), LineMark::Live);
    assert_eq!(t.get(1), LineMark::ConservLive);
    assert_eq!(t.get(2), LineMark::FreshAlloc);
    assert_eq!(t.get(3), LineMark::FreshAlloc);
    assert_eq!(t.get(4), LineMark::Live);
    assert_eq!(t.get(6), LineMark::Free);
    assert_eq!(t.get(255), LineMark::Free);
    // the hole is zeroed, the free line after it keeps its bytes
    assert_eq!(space.load_u64(Address(s + 2 * 256 + 8)), 0);
    assert_eq!(space.load_u64(Address(s + 6 * 256 + 8)), 99);
}

#[test]
fn exhausted_space_raises_every_flag() {
    let mut space = space_of(1);
    let mut mutators = vec![Some(ImmixMutatorGlobal::new()), None];
    let mut n = 0;
    let mut m = ImmixMutatorLocal::new(&mut mutators, &mut n, &space);
    m.allocate(&mut space, &mut mutators, 24, 8).unwrap();
    assert!(!m.yield_requested(&mutators));
    assert!(m.allocate(&mut space, &mut mutators, BYTES_IN_BLOCK, 8).is_none());
    assert!(m.yield_requested(&mutators));
    assert!(mutators[1].is_none());
}

#[test]
fn taking_from_an_empty_usable_list_raises_the_flags() {
    let mut space = space_of(1);
    let mut mutators = vec![Some(ImmixMutatorGlobal::new()), Some(ImmixMutatorGlobal::new())];
    assert!(space.get_next_usable_block(&mut mutators).is_some());
    assert!(!mutators[0].as_ref().unwrap().take_yield());
    assert!(space.get_next_usable_block(&mut mutators).is_none());
    assert!(mutators[0].as_ref().unwrap().take_yield());
    assert!(mutators[1].as_ref().unwrap().take_yield());
}

#[test]
fn yieldpoint_collects_only_when_asked() {
    let mut space = space_of(2);
    let mut mutators = vec![None];
    let mut n = 0;
    let mut m = ImmixMutatorLocal::new(&mut mutators, &mut n, &space);
    let a = alloc_node(&mut m, &mut space, &mut mutators).unwrap();
    let mut ctx = init(space, FreeListSpace::new(1024));
    let mut roots = vec![a.to_object_reference()];
    assert_eq!(m.yieldpoint(&mut ctx, &mut roots, &mut mutators), Ok(false));
    assert_eq!(ctx.gc_count, 0);
    assert_eq!(roots.len(), 1);
    assert!(m.block().is_some());
    trigger_gc(&mut mutators);
    assert_eq!(m.yieldpoint(&mut ctx, &mut roots, &mut mutators), Ok(false));
    assert_eq!(ctx.gc_count, 1);
    assert!(roots.is_empty());
    assert!(m.block().is_none());
    assert_eq!(m.line(), 256);
    assert!(!m.yield_requested(&mutators));
    assert_eq!(ctx.immix_space.trace_map.get(a), 1);
}

#[test]
fn populate_of_depth_zero_changes_nothing() {
    let mut space = space_of(1);
    let mut m = ImmixMutatorLocal::new(&mut vec![None], &mut 0, &space);
    let root = alloc_node(&mut m, &mut space, &mut Vec::new()).unwrap();
    let cursor = m.cursor();
    assert!(Populate(0, root, &mut m, &mut space, &mut Vec::new()));
    assert_eq!(m.cursor(), cursor);
    assert_eq!(space.load_u64(root), 0);
}

/// The addresses of the nodes of the tree at `n`, read through the first two
/// words of each node, down to `depth`.
fn collect_nodes(space: &ImmixSpace, n: Address, depth: i32, out: &mut Vec<usize>) {
    out.push(n.as_usize());
    if depth > 0 {
        let l = space.load_u64(n) as usize;
        let r = space.load_u64(n.plus(8)) as usize;
        collect_nodes(space, Address(l), depth - 1, out);
        collect_nodes(space, Address(r), depth - 1, out);
    }
}

#[test]
fn make_tree_nodes_are_distinct() {
    let mut space = space_of(4);
    let mut m = ImmixMutatorLocal::new(&mut vec![None], &mut 0, &space);
    let root = MakeTree(4, &mut m, &mut space, &mut Vec::new()).unwrap();
    let mut nodes = Vec::new();
    collect_nodes(&space, root, 4, &mut nodes);
    assert_eq!(nodes.len(), 31);
    let mut sorted = nodes.clone();
    sorted.sort();
    sorted.dedup();
    assert_eq!(sorted.len(), 31);
    // the root is allocated last
    assert_eq!(root.as_usize() + NODE_SIZE, m.cursor().as_usize());
}

#[test]
fn populate_nodes_are_distinct() {
    let mut space = space_of(4);
    let mut m = ImmixMutatorLocal::new(&mut vec![None], &mut 0, &space);
    let root = alloc_node(&mut m, &mut space, &mut Vec::new()).unwrap();
    assert!(Populate(4, root, &mut m, &mut space, &mut Vec::new()));
    let mut nodes = Vec::new();
    collect_nodes(&space, root, 4, &mut nodes);
    let mut sorted = nodes.clone();
    sorted.sort();
    sorted.dedup();
    assert_eq!(sorted.len(), 31);
}
