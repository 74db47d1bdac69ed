use immix_rust::common::{Address, ObjectReference};
use immix_rust::heap::gc::{
    gc, init, is_valid_object, process_edge, start_trace, sync_barrier, trace_object, trigger_gc,
};
use immix_rust::heap::freelist::FreeListSpace;
use immix_rust::heap::immix::immix_space::{ImmixSpace, SPACE_ALIGN};
use immix_rust::heap::immix::{
    BlockMark, ImmixMutatorGlobal, ImmixMutatorLocal, LineMark, BYTES_IN_BLOCK, LINES_IN_BLOCK,
};
use immix_rust::heap::fill_alignment_gap;
use immix_rust::heap::immix::immix_mutator::mutator_registry;

fn small_space(blocks: usize) -> ImmixSpace {
    ImmixSpace::new(blocks * BYTES_IN_BLOCK)
}

fn marks_of(space: &ImmixSpace) -> Vec<LineMark> {
    let t = space.line_mark_table();
    (0..t.len()).map(|i| t.get(i)).collect()
}

fn line_of(space: &ImmixSpace, addr: usize) -> usize {
    (addr - space.start().as_usize()) / 256
}

#[test]
fn new_space_has_numbered_usable_blocks() {
    let space = small_space(4);
    assert_eq!(space.start().as_usize(), SPACE_ALIGN);
    assert_eq!(space.end().as_usize(), SPACE_ALIGN + 4 * BYTES_IN_BLOCK);
    assert_eq!(space.total_blocks, 4);
    assert_eq!(space.usable_blocks.len(), 4);
    assert_eq!(space.used_blocks.len(), 0);
    for (i, b) in space.usable_blocks.iter().enumerate() {
        assert_eq!(b.id(), i);
        assert_eq!(b.start().as_usize(), SPACE_ALIGN + i * BYTES_IN_BLOCK);
        assert_eq!(b.state(), BlockMark::Usable);
        assert_eq!(b.line_mark_table().len(), LINES_IN_BLOCK);
    }
    assert_eq!(space.line_mark_table().len(), 4 * LINES_IN_BLOCK);
}

#[test]
fn partial_block_is_not_cut() {
    let space = ImmixSpace::new(BYTES_IN_BLOCK + 4096);
    assert_eq!(space.total_blocks, 1);
}

#[test]
fn store_then_load_returns_the_word() {
    let mut space = small_space(1);
    let a = space.start().plus(64);
    space.store_u64(a, 0x0123_4567_89ab_cdef);
    assert_eq!(space.load_u64(a), 0x0123_4567_89ab_cdef);
    assert_eq!(space.load_u64(space.start().plus(72)), 0);
    space.memset(space.start().plus(66), 0, 2);
    assert_eq!(space.load_u64(a), 0x0123_4567_0000_cdef);
}

#[test]
fn fill_alignment_gap_writes_ones() {
    let mut space = small_space(1);
    let s = space.start();
    fill_alignment_gap(&mut space, s.plus(8), s.plus(11));
    assert_eq!(space.load_u64(s.plus(8)), 0x01_0101);
    assert_eq!(space.load_u64(s), 0);
}

#[test]
fn addr_in_space_bounds() {
    let space = small_space(1);
    assert!(space.addr_in_space(space.start()));
    assert!(!space.addr_in_space(space.end()));
    assert!(!space.addr_in_space(Address(0)));
}

#[test]
fn mark_line_live_marks_next_line_conservatively() {
    let mut space = small_space(1);
    let s = space.start();
    space.line_mark_table.mark_line_live(s.plus(256 * 3 + 17));
    let marks = marks_of(&space);
    assert_eq!(marks[3], LineMark::Live);
    assert_eq!(marks[4], LineMark::ConservLive);
    assert_eq!(marks[2], LineMark::Free);
    // the last line has no next line
    space.line_mark_table.mark_line_live(s.plus(256 * 255));
    let marks = marks_of(&space);
    assert_eq!(marks[255], LineMark::Live);
    assert_eq!(marks.len(), 256);
}

#[test]
fn block_line_search() {
    let mut space = small_space(1);
    let block = space.usable_blocks[0];
    let s = space.start();
    space.line_mark_table.mark_line_live(s.plus(256 * 2));
    // lines 2 and 3 are now taken
    assert_eq!(block.get_next_available_line(space.line_mark_table(), 0), Some(0));
    assert_eq!(block.get_next_unavailable_line(space.line_mark_table(), 0), 2);
    assert_eq!(block.get_next_available_line(space.line_mark_table(), 2), Some(4));
    assert_eq!(block.get_next_unavailable_line(space.line_mark_table(), 4), 256);
    assert_eq!(block.get_next_available_line(space.line_mark_table(), 256), None);
}

#[test]
fn first_allocation_starts_at_first_block() {
    let mut space = small_space(2);
    let mut m = ImmixMutatorLocal::new(&mut vec![None], &mut 0, &space);
    let a = m.allocate(&mut space, &mut Vec::new(), 24, 8).unwrap();
    assert_eq!(a.as_usize(), SPACE_ALIGN);
    let b = m.allocate(&mut space, &mut Vec::new(), 24, 8).unwrap();
    assert_eq!(b.as_usize(), SPACE_ALIGN + 24);
    let c = m.allocate(&mut space, &mut Vec::new(), 8, 16).unwrap();
    assert_eq!(c.as_usize(), SPACE_ALIGN + 48);
    // the block's lines are marked freshly allocated
    let marks = marks_of(&space);
    assert_eq!(marks[0], LineMark::FreshAlloc);
    assert_eq!(marks[255], LineMark::FreshAlloc);
    assert_eq!(marks[256], LineMark::Free);
    assert_eq!(space.usable_blocks.len(), 1);
}

#[test]
fn allocation_skips_live_lines() {
    let mut space = small_space(1);
    let s = space.start();
    space.line_mark_table.mark_line_live(s.plus(0));
    let mut m = ImmixMutatorLocal::new(&mut vec![None], &mut 0, &space);
    let a = m.allocate(&mut space, &mut Vec::new(), 16, 8).unwrap();
    // lines 0 and 1 are live, so the first free run starts at line 2
    assert_eq!(a.as_usize(), s.as_usize() + 512);
}

#[test]
fn allocation_fails_when_blocks_run_out() {
    let mut space = small_space(1);
    let mut m = ImmixMutatorLocal::new(&mut vec![None], &mut 0, &space);
    let mut n = 0;
    while let Some(_) = m.allocate(&mut space, &mut Vec::new(), 256, 8) {
        n += 1;
        assert!(n <= 256);
    }
    assert_eq!(n, 256);
    assert_eq!(space.used_blocks.len(), 1);
    assert_eq!(space.usable_blocks.len(), 0);
}

#[test]
fn zero_sized_allocation_without_block_gives_null() {
    let mut space = small_space(1);
    let mut m = ImmixMutatorLocal::new(&mut vec![None], &mut 0, &space);
    assert_eq!(m.allocate(&mut space, &mut Vec::new(), 0, 8), Some(Address(0)));
}

#[test]
fn sweep_frees_dead_lines_and_sorts_blocks() {
    let mut space = small_space(3);
    let mut m = ImmixMutatorLocal::new(&mut vec![None], &mut 0, &space);
    // fill the first block entirely, and take a line of the second
    for _ in 0..256 {
        m.allocate(&mut space, &mut Vec::new(), 256, 8).unwrap();
    }
    let x = m.allocate(&mut space, &mut Vec::new(), 16, 8).unwrap();
    m.prepare_for_gc(&mut space);
    assert_eq!(space.used_blocks.len(), 2);
    // every line of block 0 is live, one line of block 1
    let s = space.start().as_usize();
    for l in 0..256 {
        space.line_mark_table.mark_line_live(Address(s + 256 * l));
    }
    space.line_mark_table.mark_line_live(x);
    let out_of_memory = space.sweep();
    assert!(!out_of_memory);
    let marks = marks_of(&space);
    assert!(marks[..256].iter().all(|m| *m == LineMark::Live || *m == LineMark::ConservLive));
    assert_eq!(marks[line_of(&space, x.as_usize())], LineMark::Live);
    assert_eq!(marks[line_of(&space, x.as_usize()) + 1], LineMark::ConservLive);
    assert_eq!(marks[line_of(&space, x.as_usize()) + 2], LineMark::Free);
    assert_eq!(space.used_blocks.len(), 1);
    assert_eq!(space.used_blocks[0].id(), 0);
    assert_eq!(space.used_blocks[0].state(), BlockMark::Full);
    assert_eq!(space.usable_blocks.len(), 2);
    assert_eq!(space.usable_blocks[0].id(), 1);
    assert_eq!(space.usable_blocks[0].state(), BlockMark::Usable);
    assert_eq!(space.usable_blocks[1].id(), 2);
}

#[test]
fn sweep_reports_out_of_memory_when_every_block_is_full() {
    let mut space = small_space(1);
    let mut m = ImmixMutatorLocal::new(&mut vec![None], &mut 0, &space);
    m.allocate(&mut space, &mut Vec::new(), 8, 8).unwrap();
    m.prepare_for_gc(&mut space);
    let s = space.start().as_usize();
    for l in 0..256 {
        space.line_mark_table.mark_line_live(Address(s + 256 * l));
    }
    assert!(space.sweep());
}

/// A node with two reference fields, encoded as the benchmark encodes them.
fn new_node(m: &mut ImmixMutatorLocal, space: &mut ImmixSpace) -> Address {
    let a = m.allocate(space, &mut Vec::new(), 24, 8).unwrap();
    m.init_object(space, a, 0b1100_0011);
    a
}

#[test]
fn trace_marks_what_the_roots_reach() {
    let mut space = small_space(2);
    let mut m = ImmixMutatorLocal::new(&mut vec![None], &mut 0, &space);
    let a = new_node(&mut m, &mut space);
    let b = new_node(&mut m, &mut space);
    let c = new_node(&mut m, &mut space);
    let unreachable = new_node(&mut m, &mut space);
    space.store_u64(a, b.as_usize() as u64);
    space.store_u64(a.plus(8), c.as_usize() as u64);
    space.store_u64(c, a.as_usize() as u64);
    m.prepare_for_gc(&mut space);
    let mut roots = vec![a.to_object_reference()];
    assert_eq!(start_trace(&mut roots, &mut space, 1), Ok(()));
    assert!(roots.is_empty());
    let tm = &space.trace_map;
    assert_eq!(tm.get(a), 1);
    assert_eq!(tm.get(b), 1);
    assert_eq!(tm.get(c), 1);
    assert_eq!(tm.get(unreachable), 0);
    let marks = marks_of(&space);
    assert_eq!(marks[0], LineMark::Live);
    assert_eq!(marks[1], LineMark::ConservLive);
    // the lines the trace did not reach are still freshly allocated
    assert_eq!(marks[2], LineMark::FreshAlloc);
    let oom = space.sweep();
    assert!(!oom);
    let marks = marks_of(&space);
    assert_eq!(marks[0], LineMark::Live);
    assert_eq!(marks[2], LineMark::Free);
    // the block has free lines again, and allocation avoids the live lines
    let mut m = ImmixMutatorLocal::new(&mut vec![None], &mut 0, &space);
    let d = m.allocate(&mut space, &mut Vec::new(), 24, 8).unwrap();
    assert_eq!(d.as_usize(), space.start().as_usize() + 512);
}

#[test]
fn trace_stops_at_an_object_it_cannot_trace() {
    let mut space = small_space(1);
    let mut m = ImmixMutatorLocal::new(&mut vec![None], &mut 0, &space);
    let a = new_node(&mut m, &mut space);
    let b = m.allocate(&mut space, &mut Vec::new(), 24, 8).unwrap();
    // b's encoding is not a short one
    m.init_object(&mut space, b, 0b0100_0011);
    space.store_u64(a, b.as_usize() as u64);
    let mut roots = vec![a.to_object_reference()];
    assert_eq!(start_trace(&mut roots, &mut space, 1), Err(b.to_object_reference()));
    let mut roots = vec![ObjectReference(8)];
    assert_eq!(start_trace(&mut roots, &mut space, 1), Err(ObjectReference(8)));
}

#[test]
fn trace_object_pushes_unmarked_fields_in_order() {
    let mut space = small_space(1);
    let mut m = ImmixMutatorLocal::new(&mut vec![None], &mut 0, &space);
    let a = m.allocate(&mut space, &mut Vec::new(), 32, 8).unwrap();
    m.init_object(&mut space, a, 0b1100_1111);
    let b = new_node(&mut m, &mut space);
    let c = new_node(&mut m, &mut space);
    space.store_u64(a, c.as_usize() as u64);
    space.store_u64(a.plus(8), 0);
    space.store_u64(a.plus(16), b.as_usize() as u64);
    space.store_u64(a.plus(24), a.as_usize() as u64);
    let mut q = vec![];
    trace_object(a.to_object_reference(), &mut q, &mut space, 1);
    // a itself is marked before its fields are read, so it is not pushed
    assert_eq!(q, vec![c.to_object_reference(), b.to_object_reference()]);
    let mut q2 = vec![];
    process_edge(a.plus(16), &mut q2, &space, 1);
    assert_eq!(q2, vec![b.to_object_reference()]);
    process_edge(a.plus(8), &mut q2, &space, 1);
    assert_eq!(q2.len(), 1);
}

#[test]
fn is_valid_object_reads_the_start_bit() {
    let mut space = small_space(1);
    let mut m = ImmixMutatorLocal::new(&mut vec![None], &mut 0, &space);
    let a = new_node(&mut m, &mut space);
    let (s, e) = (space.start(), space.end());
    assert!(is_valid_object(a, s, e, &space.alloc_map));
    assert!(!is_valid_object(a.plus(8), s, e, &space.alloc_map));
    assert!(!is_valid_object(e, s, e, &space.alloc_map));
    assert!(!is_valid_object(Address(8), s, e, &space.alloc_map));
}

#[test]
fn gc_collects_and_flips_the_mark_state() {
    let mut space = small_space(2);
    let mut m = ImmixMutatorLocal::new(&mut vec![None], &mut 0, &space);
    let a = new_node(&mut m, &mut space);
    let b = new_node(&mut m, &mut space);
    space.store_u64(a, b.as_usize() as u64);
    m.prepare_for_gc(&mut space);
    let mut ctx = init(space, FreeListSpace::new(1024));
    assert_eq!(ctx.mark_state, 1);
    ctx.roots.push(a.to_object_reference());
    assert_eq!(gc(&mut ctx), Ok(false));
    assert_eq!(ctx.gc_count, 1);
    assert_eq!(ctx.mark_state, 0);
    assert_eq!(ctx.immix_space.trace_map.get(b), 1);
    assert!(ctx.roots.is_empty());
}

#[test]
fn trigger_gc_raises_every_registered_flag() {
    let mut mutators = vec![Some(ImmixMutatorGlobal::new()), None, Some(ImmixMutatorGlobal::new())];
    trigger_gc(&mut mutators);
    assert!(mutators[0].as_ref().unwrap().take_yield());
    assert!(mutators[1].is_none());
    assert!(mutators[2].as_ref().unwrap().take_yield());
}

#[test]
fn sync_barrier_collects_and_resets() {
    let mut space = small_space(2);
    let mut m = ImmixMutatorLocal::new(&mut vec![None], &mut 0, &space);
    let a = new_node(&mut m, &mut space);
    let mut ctx = init(space, FreeListSpace::new(1024));
    let mut mutators = vec![Some(ImmixMutatorGlobal::new())];
    trigger_gc(&mut mutators);
    assert!(m.yield_requested(&mutators));
    let mut roots = vec![a.to_object_reference()];
    assert_eq!(sync_barrier(&mut ctx, &mut m, &mut roots, &mut mutators), Ok(false));
    assert!(!m.yield_requested(&mutators));
    assert!(!mutators[0].as_ref().unwrap().take_yield());
    assert!(roots.is_empty());
    assert_eq!(ctx.immix_space.trace_map.get(a), 1);
    // the mutator allocates again after the collection
    let b = m.allocate(&mut ctx.immix_space, &mut Vec::new(), 24, 8).unwrap();
    assert_ne!(b, a);
}

#[test]
fn mutator_destroy_returns_block() {
    let mut space = small_space(2);
    let mut mutators = mutator_registry();
    let mut n = 7;
    let mut m = ImmixMutatorLocal::new(&mut mutators, &mut n, &space);
    assert_eq!(m.id(), 7);
    assert_eq!(n, 8);
    assert!(mutators[7].is_some());
    assert!(!m.yield_requested(&mutators));
    m.allocate(&mut space, &mut Vec::new(), 8, 8).unwrap();
    assert_eq!(space.used_blocks.len(), 0);
    m.destroy(&mut space, &mut mutators, &mut n);
    assert_eq!(space.used_blocks.len(), 1);
    assert!(mutators[7].is_none());
    assert_eq!(n, 7);
    assert_eq!(mutators.len(), 1024);
}

#[test]
fn print_object_lists_words() {
    let mut space = small_space(1);
    let mut m = ImmixMutatorLocal::new(&mut vec![None], &mut 0, &space);
    let a = new_node(&mut m, &mut space);
    space.store_u64(a, 5);
    space.store_u64(a.plus(8), 6);
    let words = m.print_object(&space, a, 20);
    assert_eq!(words.len(), 3);
    assert_eq!(words[0], (a, 5));
    assert_eq!(words[1], (a.plus(8), 6));
    assert_eq!(words[2].0, a.plus(16));
}
