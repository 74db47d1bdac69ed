//! The Immix space: its memory, its side tables, and its blocks.
use vstd::prelude::*;
use crate::common::{Address, AddressMap};
use crate::heap::gc::trigger_gc;
use crate::heap::immix::immix_mutator::{ImmixMutatorGlobal, flags_raised};
use vstd::bytes::{spec_u64_from_le_bytes, spec_u64_to_le_bytes, u64_from_le_bytes, u64_to_le_bytes};
use crate::heap::immix::{
    LineMark, BlockMark, is_live, BYTES_IN_LINE, LOG_BYTES_IN_LINE, BYTES_IN_BLOCK,
    LINES_IN_BLOCK,
};

verus! {

proof fn lemma_shift_is_line_index(x: usize)
    ensures
        x >> 8usize == x / 256,
{
    assert(x >> 8usize == x / 256) by (bit_vector);
}

/// One mark for each line of the space: line `i` covers the bytes
/// `[space_start + 256 * i, space_start + 256 * (i + 1))`.
pub struct LineMarkTable {
    space_start: Address,
    table: Vec<LineMark>,
    len: usize,
}

/// The window of the line mark table that belongs to one block: lines
/// `start .. start + len`.
#[derive(Clone, Copy)]
pub struct LineMarkTableSlice {
    start: usize,
    len: usize,
}

impl View for LineMarkTable {
    type V = Seq<LineMark>;

    closed spec fn view(&self) -> Seq<LineMark> {
        self.table@
    }
}

impl LineMarkTable {
    pub closed spec fn spec_space_start(&self) -> usize {
        self.space_start.0
    }

    pub closed spec fn wf(&self) -> bool {
        self.table@.len() == self.len
    }

    /// The line that holds the byte at `addr`.
    pub open spec fn line_of(&self, addr: Address) -> int {
        (addr.0 - self.spec_space_start()) / 256
    }

    /// The table for the space `[space_start, space_end)`, every line free.
    pub fn new(space_start: Address, space_end: Address) -> (t: LineMarkTable)
        requires
            space_start.0 <= space_end.0,
        ensures
            t.wf(),
            t.spec_space_start() == space_start.0,
            t@.len() == (space_end.0 - space_start.0) / 256,
            forall|i: int| 0 <= i < t@.len() ==> #[trigger] t@[i] == LineMark::Free,
    {
        let line_mark_table_len = space_end.diff(space_start) / BYTES_IN_LINE;
        let mut table: Vec<LineMark> = Vec::new();
        while table.len() < line_mark_table_len
            invariant
                table.len() <= line_mark_table_len,
                forall|i: int| 0 <= i < table.len() ==> #[trigger] table@[i] == LineMark::Free,
            decreases line_mark_table_len - table.len(),
        {
            table.push(LineMark::Free);
        }
        LineMarkTable { space_start: space_start, table: table, len: line_mark_table_len }
    }

    /// The window of `len` lines from line `start`.
    pub fn take_slice(&mut self, start: usize, len: usize) -> (s: LineMarkTableSlice)
        ensures
            *final(self) == *old(self),
            s.spec_start() == start,
            s.spec_len() == len,
    {
        LineMarkTableSlice { start: start, len: len }
    }

    /// The number of lines.
    pub fn len(&self) -> (l: usize)
        requires
            self.wf(),
        ensures
            l == self@.len(),
    {
        self.len
    }

    pub fn get(&self, index: usize) -> (m: LineMark)
        requires
            self.wf(),
            index < self@.len(),
        ensures
            m == self@[index as int],
    {
        self.table[index]
    }

    fn set(&mut self, index: usize, value: LineMark)
        requires
            old(self).wf(),
            index < old(self)@.len(),
        ensures
            final(self).wf(),
            final(self).spec_space_start() == old(self).spec_space_start(),
            final(self)@ == old(self)@.update(index as int, value),
    {
        self.table.set(index, value);
    }

    /// The table after the trace marks live the line at `line`: that line
    /// becomes `Live` and the next one, if there is one, `ConservLive`.
    pub open spec fn spec_mark_line(t: Seq<LineMark>, line: int) -> Seq<LineMark> {
        let t1 = t.update(line, LineMark::Live);
        if line + 1 < t.len() {
            t1.update(line + 1, LineMark::ConservLive)
        } else {
            t1
        }
    }

    /// Marks live the line that holds `addr`, and conservatively the line
    /// after it.
    pub fn mark_line_live(&mut self, addr: Address)
        requires
            old(self).wf(),
            old(self).spec_space_start() <= addr.0,
            old(self).line_of(addr) < old(self)@.len(),
        ensures
            final(self).wf(),
            final(self).spec_space_start() == old(self).spec_space_start(),
            final(self)@ == Self::spec_mark_line(old(self)@, old(self).line_of(addr)),
    {
        proof {
            lemma_shift_is_line_index((addr.0 - self.space_start.0) as usize);
        }
        let line_table_index = addr.diff(self.space_start) >> LOG_BYTES_IN_LINE;
        self.set(line_table_index, LineMark::Live);
        if line_table_index < self.len - 1 {
            self.set(line_table_index + 1, LineMark::ConservLive);
        }
    }

    /// As `mark_line_live`, with the line counted from `space_start`.
    pub fn mark_line_live2(&mut self, space_start: Address, addr: Address)
        requires
            old(self).wf(),
            space_start.0 <= addr.0,
            (addr.0 - space_start.0) / 256 < old(self)@.len(),
        ensures
            final(self).wf(),
            final(self).spec_space_start() == old(self).spec_space_start(),
            final(self)@ == Self::spec_mark_line(old(self)@, (addr.0 - space_start.0) / 256),
    {
        proof {
            lemma_shift_is_line_index((addr.0 - space_start.0) as usize);
        }
        let line_table_index = addr.diff(space_start) >> LOG_BYTES_IN_LINE;
        self.set(line_table_index, LineMark::Live);
        if line_table_index < self.len - 1 {
            self.set(line_table_index + 1, LineMark::ConservLive);
        }
    }
}

impl LineMarkTableSlice {
    pub closed spec fn spec_start(&self) -> usize {
        self.start
    }

    pub closed spec fn spec_len(&self) -> usize {
        self.len
    }

    /// The window lies inside `table`.
    pub open spec fn within(&self, table: &LineMarkTable) -> bool {
        self.spec_start() + self.spec_len() <= table@.len()
    }

    /// The mark of line `index` of the window.
    pub fn get(&self, table: &LineMarkTable, index: usize) -> (m: LineMark)
        requires
            table.wf(),
            self.within(table),
            index < self.spec_len(),
        ensures
            m == table@[self.spec_start() + index],
    {
        table.get(self.start + index)
    }

    /// Sets the mark of line `index` of the window.
    pub fn set(&mut self, table: &mut LineMarkTable, index: usize, value: LineMark)
        requires
            old(table).wf(),
            old(self).within(old(table)),
            index < old(self).spec_len(),
        ensures
            *final(self) == *old(self),
            final(table).wf(),
            final(table).spec_space_start() == old(table).spec_space_start(),
            final(table)@ == old(table)@.update(old(self).spec_start() + index, value),
    {
        table.set(self.start + index, value);
    }

    /// The number of lines in the window.
    pub fn len(&self) -> (l: usize)
        ensures
            l == self.spec_len(),
    {
        self.len
    }
}

/// A block of the space: `LINES_IN_BLOCK` lines from `start`.
#[derive(Clone, Copy)]
pub struct ImmixBlock {
    id: usize,
    state: BlockMark,
    start: Address,
    line_mark_table: LineMarkTableSlice,
}

impl ImmixBlock {
    pub closed spec fn spec_id(&self) -> usize {
        self.id
    }

    pub closed spec fn spec_state(&self) -> BlockMark {
        self.state
    }

    pub closed spec fn spec_start(&self) -> usize {
        self.start.0
    }

    pub closed spec fn spec_lines(&self) -> LineMarkTableSlice {
        self.line_mark_table
    }

    /// The block with its state replaced.
    pub closed spec fn with_state(&self, state: BlockMark) -> ImmixBlock {
        ImmixBlock { state: state, ..*self }
    }

    pub proof fn lemma_with_state(&self, state: BlockMark)
        ensures
            self.with_state(state).spec_state() == state,
            self.with_state(state).spec_id() == self.spec_id(),
            self.with_state(state).spec_start() == self.spec_start(),
            self.with_state(state).spec_lines() == self.spec_lines(),
    {
    }

    /// The first free line of the block at or after `cur_line`.
    pub fn get_next_available_line(&self, table: &LineMarkTable, cur_line: usize) -> (r: Option<
        usize,
    >)
        requires
            table.wf(),
            self.spec_lines().within(table),
        ensures
            match r {
                Some(i) => {
                    &&& cur_line <= i < self.spec_lines().spec_len()
                    &&& table@[self.spec_lines().spec_start() + i] == LineMark::Free
                    &&& forall|j: int|
                        cur_line <= j < i ==> #[trigger] table@[self.spec_lines().spec_start() + j]
                            != LineMark::Free
                },
                None => forall|j: int|
                    cur_line <= j < self.spec_lines().spec_len() ==> #[trigger] table@[
                        self.spec_lines().spec_start() + j] != LineMark::Free,
            },
    {
        let mut i = cur_line;
        while i < self.line_mark_table.len
            invariant
                table.wf(),
                self.spec_lines().within(table),
                cur_line <= i,
                forall|j: int|
                    cur_line <= j < i ==> #[trigger] table@[self.spec_lines().spec_start() + j]
                        != LineMark::Free,
            decreases self.spec_lines().spec_len() - i,
        {
            match self.line_mark_table.get(table, i) {
                LineMark::Free => {
                    return Some(i);
                },
                _ => {
                    i += 1;
                },
            }
        }
        None
    }

    /// The first line of the block at or after `cur_line` that is not free,
    /// or the number of lines when there is none.
    pub fn get_next_unavailable_line(&self, table: &LineMarkTable, cur_line: usize) -> (r: usize)
        requires
            table.wf(),
            self.spec_lines().within(table),
        ensures
            cur_line <= r,
            cur_line <= self.spec_lines().spec_len() ==> r <= self.spec_lines().spec_len(),
            cur_line >= self.spec_lines().spec_len() ==> r == cur_line,
            r < self.spec_lines().spec_len() ==> table@[self.spec_lines().spec_start() + r]
                != LineMark::Free,
            forall|j: int|
                cur_line <= j < r ==> #[trigger] table@[self.spec_lines().spec_start() + j]
                    == LineMark::Free,
    {
        let mut i = cur_line;
        while i < self.line_mark_table.len
            invariant
                table.wf(),
                self.spec_lines().within(table),
                cur_line <= i,
                cur_line <= self.spec_lines().spec_len() ==> i <= self.spec_lines().spec_len(),
                cur_line >= self.spec_lines().spec_len() ==> i == cur_line,
                forall|j: int|
                    cur_line <= j < i ==> #[trigger] table@[self.spec_lines().spec_start() + j]
                        == LineMark::Free,
            decreases self.spec_lines().spec_len() - i,
        {
            match self.line_mark_table.get(table, i) {
                LineMark::Free => {
                    i += 1;
                },
                _ => {
                    return i;
                },
            }
        }
        i
    }

    pub fn id(&self) -> (r: usize)
        ensures
            r == self.spec_id(),
    {
        self.id
    }

    pub fn start(&self) -> (r: Address)
        ensures
            r.0 == self.spec_start(),
    {
        self.start
    }

    pub fn state(&self) -> (r: BlockMark)
        ensures
            r == self.spec_state(),
    {
        self.state
    }

    pub fn set_state(&mut self, mark: BlockMark)
        ensures
            *final(self) == old(self).with_state(mark),
    {
        self.state = mark;
    }

    pub fn line_mark_table(&self) -> (r: &LineMarkTableSlice)
        ensures
            *r == self.spec_lines(),
    {
        &self.line_mark_table
    }

    pub fn line_mark_table_mut(&mut self) -> (r: &mut LineMarkTableSlice)
        ensures
            *r == old(self).spec_lines(),
            final(self).spec_lines() == *final(r),
            final(self).spec_id() == old(self).spec_id(),
            final(self).spec_state() == old(self).spec_state(),
            final(self).spec_start() == old(self).spec_start(),
    {
        &mut self.line_mark_table
    }
}


/// The alignment of the space's first byte.
pub const SPACE_ALIGN: usize = 524288;

/// The 64-bit little-endian word held by the 8 bytes of `mem` from `offset`.
pub open spec fn spec_load(mem: Seq<u8>, offset: int) -> u64 {
    spec_u64_from_le_bytes(mem.subrange(offset, offset + 8))
}

/// `mem` with the 8 bytes from `offset` holding `value`, little-endian.
pub open spec fn spec_store(mem: Seq<u8>, offset: int, value: u64) -> Seq<u8> {
    Seq::new(
        mem.len(),
        |i: int|
            if offset <= i < offset + 8 {
                spec_u64_to_le_bytes(value)[i - offset]
            } else {
                mem[i]
            },
    )
}

/// Whether a line of the block `b` is not kept by a sweep over `t`.
pub open spec fn has_free_line(t: Seq<LineMark>, b: ImmixBlock) -> bool {
    exists|i: int|
        0 <= i < b.spec_lines().spec_len() && !is_live(
            #[trigger] t[b.spec_lines().spec_start() + i],
        )
}

/// The line `line` belongs to block `b`.
pub open spec fn in_block(b: ImmixBlock, line: int) -> bool {
    b.spec_lines().spec_start() <= line < b.spec_lines().spec_start() + b.spec_lines().spec_len()
}

/// The line `line` belongs to one of the blocks `bs`.
pub open spec fn in_some_block(bs: Seq<ImmixBlock>, line: int) -> bool {
    exists|j: int| 0 <= j < bs.len() && in_block(#[trigger] bs[j], line)
}

/// The line marks after sweeping the blocks `bs`: each of their lines that is
/// not live becomes free; every other line keeps its mark.
pub open spec fn swept_table(t: Seq<LineMark>, bs: Seq<ImmixBlock>) -> Seq<LineMark> {
    Seq::new(
        t.len(),
        |l: int|
            if in_some_block(bs, l) && !is_live(t[l]) {
                LineMark::Free
            } else {
                t[l]
            },
    )
}

/// The blocks of `bs` that a sweep over `t` makes usable, in the order a
/// sweep that takes `bs` from the front and pushes each on the front leaves
/// them.
pub open spec fn swept_usable(t: Seq<LineMark>, bs: Seq<ImmixBlock>) -> Seq<ImmixBlock>
    decreases bs.len(),
{
    if bs.len() == 0 {
        Seq::empty()
    } else {
        let rest = swept_usable(t, bs.drop_last());
        if has_free_line(t, bs.last()) {
            seq![bs.last().with_state(BlockMark::Usable)] + rest
        } else {
            rest
        }
    }
}

/// The blocks of `bs` that a sweep over `t` finds full, in the same order.
pub open spec fn swept_full(t: Seq<LineMark>, bs: Seq<ImmixBlock>) -> Seq<ImmixBlock>
    decreases bs.len(),
{
    if bs.len() == 0 {
        Seq::empty()
    } else {
        let rest = swept_full(t, bs.drop_last());
        if has_free_line(t, bs.last()) {
            rest
        } else {
            seq![bs.last().with_state(BlockMark::Full)] + rest
        }
    }
}

/// The number of blocks of `bs` numbered `id`.
pub open spec fn id_count(bs: Seq<ImmixBlock>, id: usize) -> nat
    decreases bs.len(),
{
    if bs.len() == 0 {
        0
    } else {
        id_count(bs.drop_last(), id) + if bs.last().spec_id() == id {
            1nat
        } else {
            0nat
        }
    }
}

/// Putting a block in front adds one to the count of its number.
pub proof fn lemma_id_count_prepend(b: ImmixBlock, bs: Seq<ImmixBlock>, id: usize)
    ensures
        id_count(seq![b] + bs, id) == id_count(bs, id) + if b.spec_id() == id {
            1nat
        } else {
            0nat
        },
    decreases bs.len(),
{
    let whole = seq![b] + bs;
    if bs.len() == 0 {
        assert(whole.drop_last() =~= Seq::<ImmixBlock>::empty());
        assert(whole.last() == b);
        assert(id_count(whole.drop_last(), id) == 0);
    } else {
        assert(whole.drop_last() =~= seq![b] + bs.drop_last());
        assert(whole.last() == bs.last());
        lemma_id_count_prepend(b, bs.drop_last(), id);
    }
}

/// Taking the first block away takes one from the count of its number.
pub proof fn lemma_id_count_drop_first(bs: Seq<ImmixBlock>, id: usize)
    requires
        bs.len() > 0,
    ensures
        id_count(bs, id) == id_count(bs.drop_first(), id) + if bs[0].spec_id() == id {
            1nat
        } else {
            0nat
        },
{
    assert(bs =~= seq![bs[0]] + bs.drop_first());
    lemma_id_count_prepend(bs[0], bs.drop_first(), id);
}

/// Blocks numbered in order from 0 hold each number below their count once.
pub proof fn lemma_id_count_numbered(bs: Seq<ImmixBlock>, id: usize)
    requires
        forall|i: int| 0 <= i < bs.len() ==> (#[trigger] bs[i]).spec_id() == i,
    ensures
        id_count(bs, id) == if id < bs.len() {
            1nat
        } else {
            0nat
        },
    decreases bs.len(),
{
    if bs.len() > 0 {
        lemma_id_count_numbered(bs.drop_last(), id);
    }
}

/// A sweep neither loses nor duplicates a block: the blocks it makes usable
/// and those it finds full are together the blocks it swept.
pub proof fn lemma_sweep_keeps_blocks(t: Seq<LineMark>, bs: Seq<ImmixBlock>, id: usize)
    ensures
        id_count(swept_usable(t, bs), id) + id_count(swept_full(t, bs), id) == id_count(bs, id),
    decreases bs.len(),
{
    if bs.len() > 0 {
        lemma_sweep_keeps_blocks(t, bs.drop_last(), id);
        let b = bs.last();
        b.lemma_with_state(BlockMark::Usable);
        b.lemma_with_state(BlockMark::Full);
        if has_free_line(t, b) {
            lemma_id_count_prepend(b.with_state(BlockMark::Usable), swept_usable(t, bs.drop_last()), id);
        } else {
            lemma_id_count_prepend(b.with_state(BlockMark::Full), swept_full(t, bs.drop_last()), id);
        }
    }
}

/// A sweep makes each block it sweeps either usable or full.
pub proof fn lemma_sweep_counts(t: Seq<LineMark>, bs: Seq<ImmixBlock>)
    ensures
        swept_usable(t, bs).len() + swept_full(t, bs).len() == bs.len(),
    decreases bs.len(),
{
    if bs.len() > 0 {
        lemma_sweep_counts(t, bs.drop_last());
    }
}

/// The number of blocks numbered `id` in `a` followed by `b`.
pub proof fn lemma_id_count_concat(a: Seq<ImmixBlock>, b: Seq<ImmixBlock>, id: usize)
    ensures
        id_count(a + b, id) == id_count(a, id) + id_count(b, id),
    decreases a.len(),
{
    if a.len() > 0 {
        assert(a + b =~= seq![a[0]] + (a.drop_first() + b));
        lemma_id_count_prepend(a[0], a.drop_first() + b, id);
        lemma_id_count_concat(a.drop_first(), b, id);
        lemma_id_count_drop_first(a, id);
    } else {
        assert(a + b =~= b);
    }
}

/// The Immix space `[start, end)`: its bytes, a byte of object encoding and
/// a byte of trace mark for each word, a mark for each line, and its blocks,
/// those a mutator may take (`usable_blocks`) and those given back after use
/// (`used_blocks`).
pub struct ImmixSpace {
    pub start: Address,
    pub end: Address,
    pub alloc_map: AddressMap<u8>,
    pub trace_map: AddressMap<u8>,
    pub line_mark_table: LineMarkTable,
    pub total_blocks: usize,
    pub memory: Vec<u8>,
    pub usable_blocks: Vec<ImmixBlock>,
    pub used_blocks: Vec<ImmixBlock>,
}

impl ImmixSpace {
    /// `b` is a whole block of this space: its lines, the `LINES_IN_BLOCK`
    /// lines from line `256 * id`, lie in the line table, and its first byte
    /// is that of its first line.
    pub open spec fn block_fits(&self, b: ImmixBlock) -> bool {
        &&& b.spec_lines().spec_len() == LINES_IN_BLOCK
        &&& b.spec_lines().spec_start() == 256 * b.spec_id()
        &&& b.spec_lines().within(&self.line_mark_table)
        &&& b.spec_start() == self.start.0 + b.spec_lines().spec_start() * 256
    }

    pub open spec fn wf(&self) -> bool {
        &&& 0 < self.start.0 <= self.end.0
        &&& self.start.0 + self.memory@.len() == self.end.0
        &&& self.alloc_map.wf()
        &&& self.alloc_map.spec_start() == self.start.0
        &&& self.alloc_map.spec_end() == self.end.0
        &&& self.alloc_map@.len() == (self.end.0 - self.start.0) / 8
        &&& self.trace_map.wf()
        &&& self.trace_map.spec_start() == self.start.0
        &&& self.trace_map.spec_end() == self.end.0
        &&& self.trace_map@.len() == (self.end.0 - self.start.0) / 8
        &&& self.line_mark_table.wf()
        &&& self.line_mark_table.spec_space_start() == self.start.0
        &&& self.line_mark_table@.len() == (self.end.0 - self.start.0) / 256
        &&& forall|i: int|
            0 <= i < self.usable_blocks@.len() ==> self.block_fits(#[trigger] self.usable_blocks@[i])
        &&& forall|i: int|
            0 <= i < self.used_blocks@.len() ==> self.block_fits(#[trigger] self.used_blocks@[i])
    }

    /// The address `addr` lies in the space.
    pub open spec fn contains(&self, addr: usize) -> bool {
        self.start.0 <= addr < self.end.0
    }

    /// A space of `space_size` bytes, all zero, cut into as many whole blocks
    /// as fit, all usable and numbered in order; every line free and every
    /// map entry zero.
    pub fn new(space_size: usize) -> (s: ImmixSpace)
        requires
            SPACE_ALIGN + space_size + BYTES_IN_BLOCK <= usize::MAX,
        ensures
            s.wf(),
            s.start.0 == SPACE_ALIGN,
            s.end.0 == SPACE_ALIGN + space_size,
            s.total_blocks == space_size / BYTES_IN_BLOCK,
            s.usable_blocks@.len() == s.total_blocks,
            forall|i: int|
                0 <= i < s.usable_blocks@.len() ==> (#[trigger] s.usable_blocks@[i]).spec_id() == i
                    && s.usable_blocks@[i].spec_state() == BlockMark::Usable
                    && s.usable_blocks@[i].spec_start() == s.start.0 + 65536 * i
                    && s.usable_blocks@[i].spec_lines().spec_start() == 256 * i
                    && s.usable_blocks@[i].spec_lines().spec_len() == 256,
            s.used_blocks@.len() == 0,
            forall|id: usize|
                #[trigger] id_count(s.usable_blocks@, id) == if id < s.total_blocks {
                    1nat
                } else {
                    0nat
                },
            forall|i: int| 0 <= i < s.memory@.len() ==> #[trigger] s.memory@[i] == 0,
            forall|i: int| 0 <= i < s.alloc_map@.len() ==> #[trigger] s.alloc_map@[i] == 0,
            forall|i: int| 0 <= i < s.trace_map@.len() ==> #[trigger] s.trace_map@[i] == 0,
            forall|i: int|
                0 <= i < s.line_mark_table@.len() ==> #[trigger] s.line_mark_table@[i]
                    == LineMark::Free,
    {
        let start = Address(SPACE_ALIGN);
        let end = start.plus(space_size);
        let line_mark_table = LineMarkTable::new(start, end);
        let mut memory: Vec<u8> = Vec::new();
        while memory.len() < space_size
            invariant
                memory.len() <= space_size,
                forall|i: int| 0 <= i < memory.len() ==> #[trigger] memory@[i] == 0,
            decreases space_size - memory.len(),
        {
            memory.push(0u8);
        }
        let mut ret = ImmixSpace {
            start: start,
            end: end,
            memory: memory,
            line_mark_table: line_mark_table,
            trace_map: AddressMap::new(start, end, 0u8),
            alloc_map: AddressMap::new(start, end, 0u8),
            usable_blocks: Vec::new(),
            used_blocks: Vec::new(),
            total_blocks: 0,
        };
        ret.init_blocks();
        proof {
            assert forall|id: usize|
                #[trigger] id_count(ret.usable_blocks@, id) == if id < ret.total_blocks {
                    1nat
                } else {
                    0nat
                } by {
                lemma_id_count_numbered(ret.usable_blocks@, id);
            }
        }
        ret
    }

    fn init_blocks(&mut self)
        requires
            old(self).wf(),
            old(self).end.0 + BYTES_IN_BLOCK <= usize::MAX,
            old(self).usable_blocks@.len() == 0,
        ensures
            final(self).wf(),
            final(self).start == old(self).start,
            final(self).end == old(self).end,
            final(self).memory == old(self).memory,
            final(self).alloc_map == old(self).alloc_map,
            final(self).trace_map == old(self).trace_map,
            final(self).line_mark_table == old(self).line_mark_table,
            final(self).used_blocks == old(self).used_blocks,
            final(self).total_blocks == (old(self).end.0 - old(self).start.0) / (BYTES_IN_BLOCK as int),
            final(self).usable_blocks@.len() == final(self).total_blocks,
            forall|i: int|
                0 <= i < final(self).usable_blocks@.len() ==> (#[trigger] final(self).usable_blocks@[i]).spec_id() == i
                    && final(self).usable_blocks@[i].spec_state() == BlockMark::Usable
                    && final(self).usable_blocks@[i].spec_start() == final(self).start.0 + 65536 * i
                    && final(self).usable_blocks@[i].spec_lines().spec_start() == 256 * i
                    && final(self).usable_blocks@[i].spec_lines().spec_len() == 256,
    {
        let mut id: usize = 0;
        let mut block_start = self.start;
        let mut line: usize = 0;
        let ghost size = self.end.0 - self.start.0;
        while block_start.0 + BYTES_IN_BLOCK <= self.end.0
            invariant
                self.wf(),
                self.start == old(self).start,
                self.end == old(self).end,
                self.end.0 + BYTES_IN_BLOCK <= usize::MAX,
                size == self.end.0 - self.start.0,
                self.memory == old(self).memory,
                self.alloc_map == old(self).alloc_map,
                self.trace_map == old(self).trace_map,
                self.line_mark_table == old(self).line_mark_table,
                self.used_blocks == old(self).used_blocks,
                block_start.0 == self.start.0 + id * BYTES_IN_BLOCK,
                line == id * LINES_IN_BLOCK,
                block_start.0 <= self.end.0,
                self.usable_blocks@.len() == id,
                forall|i: int|
                    0 <= i < self.usable_blocks@.len() ==> (#[trigger] self.usable_blocks@[i]).spec_id()
                        == i && self.usable_blocks@[i].spec_state() == BlockMark::Usable
                        && self.usable_blocks@[i].spec_start() == self.start.0 + 65536 * i
                        && self.usable_blocks@[i].spec_lines().spec_start() == 256 * i
                        && self.usable_blocks@[i].spec_lines().spec_len() == 256,
            decreases self.end.0 - block_start.0,
        {
            assert((line + LINES_IN_BLOCK) <= size / 256) by (nonlinear_arith)
                requires
                    line == id * 256,
                    id * 65536 + 65536 <= size,
            ;
            let slice = self.line_mark_table.take_slice(line, LINES_IN_BLOCK);
            let block = ImmixBlock {
                id: id,
                state: BlockMark::Usable,
                start: block_start,
                line_mark_table: slice,
            };
            self.usable_blocks.push(block);
            id += 1;
            block_start = block_start.plus(BYTES_IN_BLOCK);
            line += LINES_IN_BLOCK;
        }
        assert(id == size / 65536) by (nonlinear_arith)
            requires
                id * 65536 <= size,
                id * 65536 + 65536 > size,
        ;
        self.total_blocks = id;
    }

    /// Gives a block back after a mutator used it: it goes to the front of the
    /// used blocks.
    pub fn return_used_block(&mut self, old_block: ImmixBlock)
        requires
            old(self).wf(),
            old(self).block_fits(old_block),
        ensures
            final(self).wf(),
            final(self).used_blocks@ == seq![old_block] + old(self).used_blocks@,
            final(self).usable_blocks == old(self).usable_blocks,
            final(self).start == old(self).start,
            final(self).end == old(self).end,
            final(self).memory == old(self).memory,
            final(self).alloc_map == old(self).alloc_map,
            final(self).trace_map == old(self).trace_map,
            final(self).line_mark_table == old(self).line_mark_table,
            final(self).total_blocks == old(self).total_blocks,
    {
        self.used_blocks.insert(0, old_block);
        assert(self.used_blocks@ =~= seq![old_block] + old(self).used_blocks@);
    }

    /// Takes the first usable block, if there is one. When there is none the
    /// space is exhausted: it asks every registered mutator to stop for a
    /// collection, raising their flags in `mutators`, and returns `None`.
    pub fn get_next_usable_block(&mut self, mutators: &mut Vec<Option<ImmixMutatorGlobal>>) -> (r:
        Option<ImmixBlock>)
        requires
            old(self).wf(),
        ensures
            final(self).wf(),
            old(self).usable_blocks@.len() == 0 ==> r is None && final(self).usable_blocks
                == old(self).usable_blocks && flags_raised(old(mutators)@, final(mutators)@),
            old(self).usable_blocks@.len() > 0 ==> final(mutators)@ == old(mutators)@,
            old(self).usable_blocks@.len() > 0 ==> r == Some(old(self).usable_blocks@[0])
                && final(self).usable_blocks@ == old(self).usable_blocks@.drop_first(),
            r matches Some(b) ==> old(self).block_fits(b),
            final(self).used_blocks == old(self).used_blocks,
            final(self).start == old(self).start,
            final(self).end == old(self).end,
            final(self).memory == old(self).memory,
            final(self).alloc_map == old(self).alloc_map,
            final(self).trace_map == old(self).trace_map,
            final(self).line_mark_table == old(self).line_mark_table,
            final(self).total_blocks == old(self).total_blocks,
    {
        if self.usable_blocks.len() == 0 {
            trigger_gc(mutators);
            None
        } else {
            let b = self.usable_blocks.remove(0);
            assert(self.usable_blocks@ =~= old(self).usable_blocks@.drop_first());
            Some(b)
        }
    }

    pub fn start(&self) -> (r: Address)
        ensures
            r == self.start,
    {
        self.start
    }

    pub fn end(&self) -> (r: Address)
        ensures
            r == self.end,
    {
        self.end
    }

    pub fn line_mark_table(&self) -> (r: &LineMarkTable)
        ensures
            *r == self.line_mark_table,
    {
        &self.line_mark_table
    }

    /// Whether `addr` lies in the space.
    pub fn addr_in_space(&self, addr: Address) -> (r: bool)
        ensures
            r == self.contains(addr.0),
    {
        addr.0 >= self.start.0 && addr.0 < self.end.0
    }

    /// Fields that memory operations leave alone.
    pub open spec fn same_tables(&self, other: &ImmixSpace) -> bool {
        &&& self.start == other.start
        &&& self.end == other.end
        &&& self.alloc_map == other.alloc_map
        &&& self.trace_map == other.trace_map
        &&& self.line_mark_table == other.line_mark_table
        &&& self.total_blocks == other.total_blocks
        &&& self.usable_blocks == other.usable_blocks
        &&& self.used_blocks == other.used_blocks
    }

    /// The 64-bit word stored at `addr`.
    pub fn load_u64(&self, addr: Address) -> (v: u64)
        requires
            self.wf(),
            self.start.0 <= addr.0,
            addr.0 + 8 <= self.end.0,
        ensures
            v == spec_load(self.memory@, addr.0 - self.start.0),
    {
        let off = addr.0 - self.start.0;
        let mut bytes: Vec<u8> = Vec::new();
        let mut k: usize = 0;
        while k < 8
            invariant
                self.wf(),
                off + 8 <= self.memory@.len(),
                k <= 8,
                bytes@ == self.memory@.subrange(off as int, off + k),
            decreases 8 - k,
        {
            bytes.push(self.memory[off + k]);
            k = k + 1;
            assert(bytes@ =~= self.memory@.subrange(off as int, off + k));
        }
        u64_from_le_bytes(bytes.as_slice())
    }

    /// Stores the 64-bit word `value` at `addr`.
    pub fn store_u64(&mut self, addr: Address, value: u64)
        requires
            old(self).wf(),
            old(self).start.0 <= addr.0,
            addr.0 + 8 <= old(self).end.0,
        ensures
            final(self).wf(),
            final(self).same_tables(old(self)),
            final(self).memory@ == spec_store(old(self).memory@, addr.0 - old(self).start.0, value),
    {
        let off = addr.0 - self.start.0;
        let bytes = u64_to_le_bytes(value);
        let mut k: usize = 0;
        while k < 8
            invariant
                self.wf(),
                self.same_tables(old(self)),
                off + 8 <= self.memory@.len(),
                off == addr.0 - self.start.0,
                k <= 8,
                bytes@ == spec_u64_to_le_bytes(value),
                bytes@.len() == 8,
                self.memory@.len() == old(self).memory@.len(),
                forall|i: int|
                    0 <= i < self.memory@.len() ==> #[trigger] self.memory@[i] == if off <= i < off
                        + k {
                        bytes@[i - off]
                    } else {
                        old(self).memory@[i]
                    },
            decreases 8 - k,
        {
            self.memory.set(off + k, bytes[k]);
            k = k + 1;
        }
        assert(self.memory@ =~= spec_store(old(self).memory@, off as int, value));
    }

    /// Sets the `length` bytes from `addr` to `value`.
    pub fn memset(&mut self, addr: Address, value: u8, length: usize)
        requires
            old(self).wf(),
            old(self).start.0 <= addr.0,
            addr.0 + length <= old(self).end.0,
        ensures
            final(self).wf(),
            final(self).same_tables(old(self)),
            final(self).memory@.len() == old(self).memory@.len(),
            forall|i: int|
                0 <= i < old(self).memory@.len() ==> #[trigger] final(self).memory@[i] == if addr.0
                    - old(self).start.0 <= i < addr.0 - old(self).start.0 + length {
                    value
                } else {
                    old(self).memory@[i]
                },
    {
        let off = addr.0 - self.start.0;
        let mut k: usize = 0;
        while k < length
            invariant
                self.wf(),
                self.same_tables(old(self)),
                off + length <= self.memory@.len(),
                off == addr.0 - self.start.0,
                k <= length,
                self.memory@.len() == old(self).memory@.len(),
                forall|i: int|
                    0 <= i < self.memory@.len() ==> #[trigger] self.memory@[i] == if off <= i < off
                        + k {
                        value
                    } else {
                        old(self).memory@[i]
                    },
            decreases length - k,
        {
            self.memory.set(off + k, value);
            k = k + 1;
        }
    }

    /// Sweeps the blocks given back since the last sweep. Every line of them
    /// that the trace did not find live becomes free; a block with a free
    /// line becomes usable and goes to the front of the usable blocks, a
    /// block without one is full and stays in use. Returns whether every
    /// block of the space came back full: the space is out of memory. No
    /// block is lost or made: when every block had come back, the full and
    /// the usable blocks together are all the blocks.
    pub fn sweep(&mut self) -> (out_of_memory: bool)
        requires
            old(self).wf(),
        ensures
            final(self).wf(),
            final(self).line_mark_table@ == swept_table(
                old(self).line_mark_table@,
                old(self).used_blocks@,
            ),
            final(self).usable_blocks@ == swept_usable(
                old(self).line_mark_table@,
                old(self).used_blocks@,
            ) + old(self).usable_blocks@,
            final(self).used_blocks@ == swept_full(
                old(self).line_mark_table@,
                old(self).used_blocks@,
            ),
            out_of_memory == (final(self).used_blocks@.len() == old(self).total_blocks),
            final(self).usable_blocks@.len() + final(self).used_blocks@.len() == old(
                self,
            ).usable_blocks@.len() + old(self).used_blocks@.len(),
            old(self).usable_blocks@.len() == 0 && old(self).used_blocks@.len() == old(self).total_blocks
                ==> final(self).usable_blocks@.len() + final(self).used_blocks@.len() == old(
                self,
            ).total_blocks,
            forall|id: usize|
                id_count(final(self).usable_blocks@, id) + id_count(final(self).used_blocks@, id)
                    == id_count(old(self).usable_blocks@, id) + id_count(old(self).used_blocks@, id),
            final(self).start == old(self).start,
            final(self).end == old(self).end,
            final(self).memory == old(self).memory,
            final(self).alloc_map == old(self).alloc_map,
            final(self).trace_map == old(self).trace_map,
            final(self).total_blocks == old(self).total_blocks,
    {
        let ghost t0 = self.line_mark_table@;
        let ghost used0 = self.used_blocks@;
        assert(used0.len() == self.used_blocks.len());
        let mut full_blocks: usize = 0;
        let mut live_blocks: Vec<ImmixBlock> = Vec::new();
        let ghost mut k: int = 0;
        while self.used_blocks.len() > 0
            invariant
                self.wf(),
                self.start == old(self).start,
                self.end == old(self).end,
                self.memory == old(self).memory,
                self.alloc_map == old(self).alloc_map,
                self.trace_map == old(self).trace_map,
                self.total_blocks == old(self).total_blocks,
                t0 == old(self).line_mark_table@,
                used0 == old(self).used_blocks@,
                0 <= k <= used0.len(),
                used0.len() <= usize::MAX,
                self.used_blocks@ == used0.subrange(k, used0.len() as int),
                self.line_mark_table@ == swept_table(t0, used0.subrange(0, k)),
                self.usable_blocks@ == swept_usable(t0, used0.subrange(0, k))
                    + old(self).usable_blocks@,
                live_blocks@ == swept_full(t0, used0.subrange(0, k)),
                full_blocks == live_blocks@.len(),
                full_blocks <= k,
                forall|i: int| 0 <= i < live_blocks@.len() ==> self.block_fits(#[trigger] live_blocks@[i]),
            decreases self.used_blocks@.len(),
        {
            let ghost tb = self.line_mark_table@;
            let ghost prefix = used0.subrange(0, k);
            let ghost prefix1 = used0.subrange(0, k + 1);
            assert(self.block_fits(self.used_blocks@[0]));
            let mut block = self.used_blocks.remove(0);
            assert(block == used0[k]);
            let ghost block0 = block;
            let ghost used_rest = self.used_blocks@;
            let ghost usable_before = self.usable_blocks@;
            let mut slice = *block.line_mark_table();
            let n = slice.len();
            let mut has_free_lines = false;
            let mut i: usize = 0;
            while i < n
                invariant
                    self.wf(),
                    self.start == old(self).start,
                    self.end == old(self).end,
                    self.memory == old(self).memory,
                    self.alloc_map == old(self).alloc_map,
                    self.trace_map == old(self).trace_map,
                    self.total_blocks == old(self).total_blocks,
                    self.usable_blocks@ == usable_before,
                    self.used_blocks@ == used_rest,
                    slice == block.spec_lines(),
                    self.block_fits(block),
                    n == slice.spec_len(),
                    i <= n,
                    self.line_mark_table@.len() == tb.len(),
                    forall|l: int|
                        0 <= l < tb.len() ==> #[trigger] self.line_mark_table@[l] == if slice.spec_start()
                            <= l < slice.spec_start() + i && !is_live(tb[l]) {
                            LineMark::Free
                        } else {
                            tb[l]
                        },
                    has_free_lines == exists|j: int|
                        0 <= j < i && !is_live(#[trigger] tb[slice.spec_start() + j]),
                decreases n - i,
            {
                let m = slice.get(&self.line_mark_table, i);
                if m != LineMark::Live && m != LineMark::ConservLive {
                    has_free_lines = true;
                    slice.set(&mut self.line_mark_table, i, LineMark::Free);
                }
                proof {
                    if !is_live(tb[slice.spec_start() + i]) {
                        assert(exists|j: int|
                            0 <= j < i + 1 && !is_live(#[trigger] tb[slice.spec_start() + j]));
                    }
                }
                i = i + 1;
            }
            proof {
                assert(prefix1.drop_last() =~= prefix);
                assert(prefix1.last() == block);
                assert forall|l: int| 0 <= l < t0.len() implies is_live(#[trigger] tb[l]) == is_live(t0[l]) by {}
                assert(has_free_lines == has_free_line(t0, block)) by {
                    if has_free_lines {
                        let j = choose|j: int| 0 <= j < n && !is_live(#[trigger] tb[slice.spec_start() + j]);
                        assert(!is_live(t0[block.spec_lines().spec_start() + j]));
                    }
                    if has_free_line(t0, block) {
                        let j = choose|j: int|
                            0 <= j < block.spec_lines().spec_len() && !is_live(
                                #[trigger] t0[block.spec_lines().spec_start() + j],
                            );
                        assert(!is_live(tb[slice.spec_start() + j]));
                    }
                }
                assert forall|l: int| 0 <= l < t0.len() implies in_some_block(prefix1, l) == (
                in_some_block(prefix, l) || in_block(block, l)) by {
                    if in_block(block, l) {
                        assert(in_block(prefix1[k], l));
                    }
                    if in_some_block(prefix, l) {
                        let j = choose|j: int| 0 <= j < prefix.len() && in_block(#[trigger] prefix[j], l);
                        assert(in_block(prefix1[j], l));
                    }
                    if in_some_block(prefix1, l) {
                        let j = choose|j: int| 0 <= j < prefix1.len() && in_block(#[trigger] prefix1[j], l);
                        if j < k {
                            assert(in_block(prefix[j], l));
                        }
                    }
                }
                assert(self.line_mark_table@ =~= swept_table(t0, prefix1));
                block.lemma_with_state(BlockMark::Usable);
                block.lemma_with_state(BlockMark::Full);
            }
            if has_free_lines {
                block.set_state(BlockMark::Usable);
                self.usable_blocks.insert(0, block);
                assert(swept_usable(t0, prefix1) == seq![block0.with_state(BlockMark::Usable)]
                    + swept_usable(t0, prefix));
                assert(self.usable_blocks@ =~= swept_usable(t0, prefix1) + old(self).usable_blocks@);
            } else {
                block.set_state(BlockMark::Full);
                live_blocks.insert(0, block);
                full_blocks += 1;
                assert(swept_full(t0, prefix1) == seq![block0.with_state(BlockMark::Full)]
                    + swept_full(t0, prefix));
                assert(live_blocks@ =~= swept_full(t0, prefix1));
            }
            proof {
                k = k + 1;
                assert(self.used_blocks@ =~= used0.subrange(k, used0.len() as int));
            }
        }
        proof {
            assert(used0.subrange(0, k) =~= used0);
        }
        self.used_blocks.append(&mut live_blocks);
        assert(self.used_blocks@ =~= swept_full(t0, used0));
        proof {
            assert forall|id: usize|
                id_count(self.usable_blocks@, id) + id_count(self.used_blocks@, id) == id_count(
                    old(self).usable_blocks@,
                    id,
                ) + id_count(old(self).used_blocks@, id) by {
                lemma_sweep_keeps_blocks(t0, used0, id);
                lemma_id_count_concat(swept_usable(t0, used0), old(self).usable_blocks@, id);
            }
            lemma_sweep_counts(t0, used0);
        }
        full_blocks == self.total_blocks
    }
}

/// Two distinct blocks of a space laid out as `ImmixSpace::new` lays it out
/// own disjoint windows of the line mark table and disjoint byte ranges,
/// each inside the space: blocks handed to different mutators share no line
/// mark and no byte.
pub proof fn lemma_new_blocks_disjoint(s: &ImmixSpace, i: int, j: int)
    requires
        s.wf(),
        0 <= i < s.usable_blocks@.len(),
        0 <= j < s.usable_blocks@.len(),
        i != j,
        forall|k: int|
            0 <= k < s.usable_blocks@.len() ==> (#[trigger] s.usable_blocks@[k]).spec_start() == s.start.0
                + 65536 * k && s.usable_blocks@[k].spec_lines().spec_start() == 256 * k
                && s.usable_blocks@[k].spec_lines().spec_len() == 256,
    ensures
        s.usable_blocks@[i].spec_lines().spec_start() + 256 <= s.usable_blocks@[j].spec_lines().spec_start()
            || s.usable_blocks@[j].spec_lines().spec_start() + 256 <= s.usable_blocks@[i].spec_lines().spec_start(),
        s.usable_blocks@[i].spec_start() + 65536 <= s.usable_blocks@[j].spec_start()
            || s.usable_blocks@[j].spec_start() + 65536 <= s.usable_blocks@[i].spec_start(),
        s.start.0 <= s.usable_blocks@[i].spec_start(),
        s.usable_blocks@[i].spec_start() + 65536 <= s.end.0,
        s.usable_blocks@[i].spec_lines().spec_start() + 256 <= s.line_mark_table@.len(),
{
    let b = s.usable_blocks@[i];
    assert(s.block_fits(b));
    let n = s.end.0 - s.start.0;
    assert(256 * (n / 256) <= n) by (nonlinear_arith)
        requires
            n >= 0,
    ;
    assert(b.spec_lines().spec_start() + 256 <= n / 256);
    assert(256 * (b.spec_lines().spec_start() + 256) <= 256 * (n / 256)) by (nonlinear_arith)
        requires
            b.spec_lines().spec_start() + 256 <= n / 256,
    ;
    let c = s.usable_blocks@[j];
    assert(c.spec_start() == s.start.0 + 65536 * j);
}

/// A word read back from where it was stored is the word stored, and a store
/// leaves every word that does not overlap it as it was.
pub proof fn lemma_load_after_store(mem: Seq<u8>, offset: int, value: u64, other: int)
    requires
        0 <= offset,
        offset + 8 <= mem.len(),
        0 <= other,
        other + 8 <= mem.len(),
    ensures
        spec_load(spec_store(mem, offset, value), offset) == value,
        other + 8 <= offset || offset + 8 <= other ==> spec_load(spec_store(mem, offset, value), other)
            == spec_load(mem, other),
{
    vstd::bytes::lemma_auto_spec_u64_to_from_le_bytes();
    let stored = spec_store(mem, offset, value);
    assert(stored.subrange(offset, offset + 8) =~= spec_u64_to_le_bytes(value));
    if other + 8 <= offset || offset + 8 <= other {
        assert(stored.subrange(other, other + 8) =~= mem.subrange(other, other + 8));
    }
}

} // verus!
