//! The thread-local allocator: it bumps a cursor through a window of free
//! lines of the block it holds, and takes the next window, or the next block,
//! when the current one is used up.
use vstd::prelude::*;
use crate::heap::gc::{GCContext, sync_barrier, barrier_done};
use crate::common::{Address, ObjectReference, is_power_of_two, spec_align_up, lemma_power_of_two_positive};
use crate::heap::immix::{LineMark, is_live, LINES_IN_BLOCK, LOG_BYTES_IN_LINE};
use crate::heap::immix::immix_space::{
    ImmixSpace, ImmixBlock, spec_load, id_count, lemma_id_count_prepend, lemma_id_count_drop_first,
};

verus! {

/// The line of the space that holds the byte at `p`.
pub open spec fn line_of(space: &ImmixSpace, p: int) -> int {
    (p - space.start.0) / 256
}

/// The byte of the space at address `p`.
pub open spec fn byte_at(space: &ImmixSpace, p: int) -> u8 {
    space.memory@[p - space.start.0]
}

/// The encoding byte that the space records for the word at address `p`.
pub open spec fn encoding_at(space: &ImmixSpace, p: int) -> u8 {
    space.alloc_map@[(p - space.start.0) / 8]
}

/// The byte at `p` lies in a free line of the space.
pub open spec fn free_at(space: &ImmixSpace, p: int) -> bool {
    &&& space.start.0 <= p
    &&& line_of(space, p) < space.line_mark_table@.len()
    &&& space.line_mark_table@[line_of(space, p)] == LineMark::Free
}

proof fn lemma_line_of_block(space_start: int, first_line: int, x: int)
    requires
        0 <= first_line,
        0 <= x,
    ensures
        (space_start + first_line * 256 + x - space_start) / 256 == first_line + x / 256,
{
    assert((first_line * 256 + x) / 256 == first_line + x / 256) by (nonlinear_arith)
        requires
            0 <= first_line,
            0 <= x,
    ;
}

proof fn lemma_shl_line(n: usize)
    requires
        n <= 256,
    ensures
        n << 8usize == n * 256,
{
    assert(n <= 256 ==> n << 8usize == n * 256) by (bit_vector);
}

/// Line `l` of block `b` is free in the line marks `t`.
pub open spec fn line_free(t: Seq<LineMark>, b: ImmixBlock, l: int) -> bool {
    t[b.spec_lines().spec_start() + l] == LineMark::Free
}

/// Lines `i .. j` of block `b` are free in the line marks `t`, and an object
/// of `size` bytes aligned to `align` fits in them.
pub open spec fn run_fits(
    t: Seq<LineMark>,
    b: ImmixBlock,
    i: int,
    j: int,
    size: int,
    align: int,
) -> bool {
    &&& 0 <= i < j <= LINES_IN_BLOCK
    &&& forall|l: int| i <= l < j ==> #[trigger] line_free(t, b, l)
    &&& spec_align_up(b.spec_start() + 256 * i, align) + size <= b.spec_start() + 256 * j
}

/// No run of free lines of `b` from line `from` on holds the object.
pub open spec fn no_fit_from(
    t: Seq<LineMark>,
    b: ImmixBlock,
    from: int,
    size: int,
    align: int,
) -> bool {
    forall|i: int, j: int| from <= i ==> !#[trigger] run_fits(t, b, i, j, size, align)
}

/// No usable block of the space holds the object in a run of free lines.
pub open spec fn no_usable_fit(space: &ImmixSpace, size: int, align: int) -> bool {
    forall|k: int|
        0 <= k < space.usable_blocks@.len() ==> no_fit_from(
            space.line_mark_table@,
            #[trigger] space.usable_blocks@[k],
            0,
            size,
            align,
        )
}

/// The usable blocks, and the block the mutator holds, have distinct numbers,
/// as in every space made by `ImmixSpace::new`.
pub open spec fn blocks_distinct(m: &ImmixMutatorLocal, space: &ImmixSpace) -> bool {
    &&& forall|k1: int, k2: int|
        0 <= k1 < k2 < space.usable_blocks@.len() ==> (#[trigger] space.usable_blocks@[k1]).spec_id()
            != (#[trigger] space.usable_blocks@[k2]).spec_id()
    &&& m.spec_block() matches Some(b) ==> forall|k: int|
        0 <= k < space.usable_blocks@.len() ==> (#[trigger] space.usable_blocks@[k]).spec_id()
            != b.spec_id()
}

/// No run of free lines of the block the mutator holds, from its next line
/// on, holds the object; true when it holds no block.
pub open spec fn held_no_fit(m: &ImmixMutatorLocal, space: &ImmixSpace, size: int, align: int) -> bool {
    match m.spec_block() {
        Some(b) => no_fit_from(space.line_mark_table@, b, m.spec_line() as int, size, align),
        None => true,
    }
}

/// No run of free lines of `b` that starts in `from .. upto` holds the object.
pub open spec fn no_fit_between(
    t: Seq<LineMark>,
    b: ImmixBlock,
    from: int,
    upto: int,
    size: int,
    align: int,
) -> bool {
    forall|i: int, j: int| from <= i < upto ==> !#[trigger] run_fits(t, b, i, j, size, align)
}

/// `a` is where the first run of free lines of `b`, from line `from` on, that
/// holds the object puts it: the lowest such run's first line, rounded up to
/// `align`.
pub open spec fn first_fit_from(
    t: Seq<LineMark>,
    b: ImmixBlock,
    from: int,
    size: int,
    align: int,
    a: int,
) -> bool {
    exists|i: int, j: int|
        #![trigger run_fits(t, b, i, j, size, align)]
        {
            &&& from <= i
            &&& run_fits(t, b, i, j, size, align)
            &&& no_fit_between(t, b, from, i, size, align)
            &&& a == spec_align_up(b.spec_start() + 256 * i, align)
        }
}

/// Lines `i .. j` of `b` are the first hole from line `from` on: the first
/// free line at or after `from`, and the free lines that follow it.
pub open spec fn first_hole(t: Seq<LineMark>, b: ImmixBlock, from: int, i: int, j: int) -> bool {
    &&& from <= i < j <= LINES_IN_BLOCK
    &&& forall|l: int| from <= l < i ==> !#[trigger] line_free(t, b, l)
    &&& forall|l: int| i <= l < j ==> #[trigger] line_free(t, b, l)
    &&& j < LINES_IN_BLOCK ==> !line_free(t, b, j)
}

/// The step that opens the hole `i .. j` of `b` as the new window and takes
/// the object from its start: the window ends at line `j`, its lines are
/// marked freshly allocated and its bytes zeroed, and nothing else changes.
pub open spec fn window_opened(
    new_self: &ImmixMutatorLocal,
    old_space: &ImmixSpace,
    new_space: &ImmixSpace,
    b: ImmixBlock,
    i: int,
    j: int,
    size: int,
    align: int,
    r: Option<Address>,
) -> bool {
    let a = spec_align_up(b.spec_start() + 256 * i, align);
    let lo = b.spec_start() + 256 * i - old_space.start.0;
    let hi = b.spec_start() + 256 * j - old_space.start.0;
    &&& r == Some(Address(a as usize))
    &&& new_self.spec_cursor() == a + size
    &&& new_self.spec_limit() == b.spec_start() + 256 * j
    &&& new_self.spec_line() == j
    &&& new_self.spec_block() == Some(b)
    &&& new_space.line_mark_table@.len() == old_space.line_mark_table@.len()
    &&& forall|x: int|
        0 <= x < old_space.line_mark_table@.len() ==> #[trigger] new_space.line_mark_table@[x]
            == if b.spec_lines().spec_start() + i <= x < b.spec_lines().spec_start() + j {
            LineMark::FreshAlloc
        } else {
            old_space.line_mark_table@[x]
        }
    &&& new_space.memory@.len() == old_space.memory@.len()
    &&& forall|k: int|
        0 <= k < old_space.memory@.len() ==> #[trigger] new_space.memory@[k] == if lo <= k < hi {
            0u8
        } else {
            old_space.memory@[k]
        }
    &&& new_space.usable_blocks == old_space.usable_blocks
    &&& new_space.used_blocks == old_space.used_blocks
    &&& new_space.alloc_map == old_space.alloc_map
    &&& new_space.trace_map == old_space.trace_map
    &&& new_space.start == old_space.start
    &&& new_space.end == old_space.end
    &&& new_space.total_blocks == old_space.total_blocks
}

/// When the first hole of the held block from its next line holds the
/// object, the step opens exactly that hole.
pub open spec fn opens_first_hole(
    old_self: &ImmixMutatorLocal,
    new_self: &ImmixMutatorLocal,
    old_space: &ImmixSpace,
    new_space: &ImmixSpace,
    size: int,
    align: int,
    r: Option<Address>,
) -> bool {
    match old_self.spec_block() {
        Some(b) => forall|i: int, j: int|
            #[trigger] first_hole(old_space.line_mark_table@, b, old_self.spec_line() as int, i, j)
                && spec_align_up(b.spec_start() + 256 * i, align) + size <= b.spec_start() + 256 * j
                ==> window_opened(new_self, old_space, new_space, b, i, j, size, align, r),
        None => true,
    }
}

/// A block has one first hole from a given line.
proof fn lemma_first_hole_unique(t: Seq<LineMark>, b: ImmixBlock, from: int, i: int, j: int, i2: int, j2: int)
    requires
        first_hole(t, b, from, i, j),
        first_hole(t, b, from, i2, j2),
    ensures
        i == i2,
        j == j2,
{
    if i < i2 {
        assert(line_free(t, b, i));
    } else if i2 < i {
        assert(line_free(t, b, i2));
    }
    if j < j2 {
        assert(line_free(t, b, j));
    } else if j2 < j {
        assert(line_free(t, b, j2));
    }
}

/// The first usable block of the space holds the object in a run of free
/// lines.
pub open spec fn first_usable_fits(space: &ImmixSpace, size: int, align: int) -> bool {
    space.usable_blocks@.len() > 0 && !no_fit_from(
        space.line_mark_table@,
        space.usable_blocks@[0],
        0,
        size,
        align,
    )
}

/// `a` is where the first run of free lines of the held block, from its next
/// line on, that holds the object puts it.
pub open spec fn held_first_fit(
    m: &ImmixMutatorLocal,
    space: &ImmixSpace,
    size: int,
    align: int,
    a: int,
) -> bool {
    m.spec_block() matches Some(b) && first_fit_from(
        space.line_mark_table@,
        b,
        m.spec_line() as int,
        size,
        align,
        a,
    )
}

/// Runs of free lines of one block that two line tables mark alike fit alike.
proof fn lemma_same_lines_fit(t0: Seq<LineMark>, t1: Seq<LineMark>, b: ImmixBlock, size: int, align: int)
    requires
        forall|l: int| 0 <= l < LINES_IN_BLOCK ==> #[trigger] line_free(t0, b, l) == line_free(t1, b, l),
    ensures
        forall|i: int, j: int| #[trigger] run_fits(t0, b, i, j, size, align) == run_fits(t1, b, i, j, size, align),
{
    assert forall|i: int, j: int| #[trigger] run_fits(t0, b, i, j, size, align) == run_fits(t1, b, i, j, size, align) by {
        if 0 <= i < j <= LINES_IN_BLOCK {
            assert forall|l: int| i <= l < j implies #[trigger] line_free(t0, b, l) == line_free(t1, b, l) by {}
            if run_fits(t0, b, i, j, size, align) {
                assert forall|l: int| i <= l < j implies #[trigger] line_free(t1, b, l) by {
                    assert(line_free(t0, b, l));
                }
            }
            if run_fits(t1, b, i, j, size, align) {
                assert forall|l: int| i <= l < j implies #[trigger] line_free(t0, b, l) by {
                    assert(line_free(t1, b, l));
                }
            }
        }
    }
}

/// The scan of a block from `line`: the lines before `next` are not free, the
/// run `next .. end` is, and line `end` is not; when the object does not fit in
/// that run, every run from `line` on that holds it starts at `end` or later,
/// where the table `mid` marks the block as `t0` does.
proof fn lemma_window_scan(
    t0: Seq<LineMark>,
    mid: Seq<LineMark>,
    b: ImmixBlock,
    line: int,
    next: int,
    end: int,
    size: int,
    align: int,
)
    requires
        0 <= line <= next < end <= LINES_IN_BLOCK,
        b.spec_start() >= 0,
        align > 0,
        forall|l: int| line <= l < next ==> !#[trigger] line_free(t0, b, l),
        end < LINES_IN_BLOCK ==> !line_free(t0, b, end),
        spec_align_up(b.spec_start() + 256 * next, align) + size > b.spec_start() + 256 * end,
        forall|l: int| end <= l < LINES_IN_BLOCK ==> #[trigger] line_free(mid, b, l) == line_free(t0, b, l),
    ensures
        forall|i: int, j: int|
            line <= i && #[trigger] run_fits(t0, b, i, j, size, align) ==> end <= i && run_fits(mid, b, i, j, size, align),
        forall|i: int, j: int|
            end <= i && #[trigger] run_fits(mid, b, i, j, size, align) ==> run_fits(t0, b, i, j, size, align),
{
    assert forall|i: int, j: int|
        line <= i && #[trigger] run_fits(t0, b, i, j, size, align) implies end <= i && run_fits(mid, b, i, j, size, align) by {
        if i < next {
            assert(line_free(t0, b, i));
        } else if i < end {
            if j > end {
                assert(line_free(t0, b, end));
            }
            lemma_align_up_monotone(b.spec_start() + 256 * next, b.spec_start() + 256 * i, align);
        } else {
            assert forall|l: int| i <= l < j implies #[trigger] line_free(mid, b, l) by {
                assert(line_free(t0, b, l));
            }
        }
    }
    assert forall|i: int, j: int|
        end <= i && #[trigger] run_fits(mid, b, i, j, size, align) implies run_fits(t0, b, i, j, size, align) by {
        assert forall|l: int| i <= l < j implies #[trigger] line_free(t0, b, l) by {
            assert(line_free(mid, b, l));
        }
    }
}

/// Marking lines `lo .. hi` of block `b` freshly allocated leaves every other
/// usable block, numbered otherwise than `b`, with the runs it had.
proof fn lemma_other_blocks_fit(
    old_space: &ImmixSpace,
    new_space: &ImmixSpace,
    b: ImmixBlock,
    lo: int,
    hi: int,
    size: int,
    align: int,
)
    requires
        old_space.wf(),
        old_space.block_fits(b),
        0 <= lo <= hi <= LINES_IN_BLOCK,
        new_space.usable_blocks == old_space.usable_blocks,
        new_space.line_mark_table@.len() == old_space.line_mark_table@.len(),
        forall|x: int|
            0 <= x < old_space.line_mark_table@.len() ==> #[trigger] new_space.line_mark_table@[x]
                == if b.spec_lines().spec_start() + lo <= x < b.spec_lines().spec_start() + hi {
                LineMark::FreshAlloc
            } else {
                old_space.line_mark_table@[x]
            },
        forall|k: int|
            0 <= k < old_space.usable_blocks@.len() ==> (#[trigger] old_space.usable_blocks@[k]).spec_id()
                != b.spec_id(),
    ensures
        no_usable_fit(new_space, size, align) ==> no_usable_fit(old_space, size, align),
        forall|k: int, i: int, j: int|
            0 <= k < old_space.usable_blocks@.len() ==> #[trigger] run_fits(
                old_space.line_mark_table@,
                old_space.usable_blocks@[k],
                i,
                j,
                size,
                align,
            ) == run_fits(new_space.line_mark_table@, old_space.usable_blocks@[k], i, j, size, align),
{
    let t0 = old_space.line_mark_table@;
    let t1 = new_space.line_mark_table@;
    if no_usable_fit(new_space, size, align) {
        assert forall|k: int| 0 <= k < old_space.usable_blocks@.len() implies no_fit_from(
            t0,
            #[trigger] old_space.usable_blocks@[k],
            0,
            size,
            align,
        ) by {
            let u = old_space.usable_blocks@[k];
            assert(old_space.block_fits(u));
            assert forall|l: int| 0 <= l < LINES_IN_BLOCK implies #[trigger] line_free(t0, u, l) == line_free(t1, u, l) by {
                let x = u.spec_lines().spec_start() + l;
                assert(t1[x] == t0[x]);
            }
            lemma_same_lines_fit(t0, t1, u, size, align);
            assert(no_fit_from(t1, new_space.usable_blocks@[k], 0, size, align));
            assert forall|i: int, j: int| 0 <= i implies !#[trigger] run_fits(t0, u, i, j, size, align) by {
                assert(run_fits(t0, u, i, j, size, align) == run_fits(t1, u, i, j, size, align));
            }
        }
    }
    assert forall|k: int, i: int, j: int| 0 <= k < old_space.usable_blocks@.len() implies #[trigger] run_fits(
        t0,
        old_space.usable_blocks@[k],
        i,
        j,
        size,
        align,
    ) == run_fits(t1, old_space.usable_blocks@[k], i, j, size, align) by {
        let u = old_space.usable_blocks@[k];
        assert(old_space.block_fits(u));
        assert forall|l: int| 0 <= l < LINES_IN_BLOCK implies #[trigger] line_free(t0, u, l) == line_free(t1, u, l) by {
            let x = u.spec_lines().spec_start() + l;
            assert(t1[x] == t0[x]);
        }
        lemma_same_lines_fit(t0, t1, u, size, align);
    }
}

/// A mutator that holds no block, on a space whose lines are all free and
/// whose usable blocks are numbered in order, as `ImmixSpace::new` leaves them,
/// has a place for any object that fits in a block with room to align it; so
/// its allocation does not come back empty while a usable block is left.
pub proof fn lemma_fresh_space_fits(m: &ImmixMutatorLocal, space: &ImmixSpace, size: usize, align: usize)
    requires
        m.wf(space),
        m.spec_block() is None,
        space.usable_blocks@.len() > 0,
        forall|i: int|
            0 <= i < space.usable_blocks@.len() ==> (#[trigger] space.usable_blocks@[i]).spec_id() == i,
        forall|l: int|
            0 <= l < space.line_mark_table@.len() ==> #[trigger] space.line_mark_table@[l] == LineMark::Free,
        is_power_of_two(align),
        size + align <= 65536,
    ensures
        blocks_distinct(m, space),
        !no_usable_fit(space, size as int, align as int),
{
    lemma_power_of_two_positive(align);
    let u = space.usable_blocks@[0];
    assert(space.block_fits(u));
    let x = u.spec_start() as int;
    let a = align as int;
    assert(spec_align_up(x, a) <= x + a - 1) by (nonlinear_arith)
        requires
            a > 0,
            x >= 0,
    {
        assert((x + a - 1) / a * a <= x + a - 1);
    }
    assert forall|l: int| 0 <= l < LINES_IN_BLOCK implies #[trigger] line_free(space.line_mark_table@, u, l) by {}
    assert(run_fits(space.line_mark_table@, u, 0, LINES_IN_BLOCK as int, size as int, align as int));
}

proof fn lemma_align_up_monotone(x: int, y: int, a: int)
    requires
        0 <= x <= y,
        a > 0,
    ensures
        spec_align_up(x, a) <= spec_align_up(y, a),
{
    vstd::arithmetic::div_mod::lemma_div_is_ordered(x + a - 1, y + a - 1, a);
    vstd::arithmetic::mul::lemma_mul_inequality((x + a - 1) / a, (y + a - 1) / a, a);
}

/// The number of slots of the registry of mutators.
pub const MAX_MUTATORS: usize = 1024;

/// The flag a collector raises to ask a mutator to stop at its next
/// yieldpoint.
pub struct ImmixMutatorGlobal {
    take_yield: bool,
}

/// Slot `id` of the registry holds a flag, and the flag is raised.
pub open spec fn flag_raised(mutators: Seq<Option<ImmixMutatorGlobal>>, id: int) -> bool {
    0 <= id < mutators.len() && match mutators[id] {
        Some(g) => g.spec_take_yield(),
        None => false,
    }
}

/// `new` is the registry `old` with the flag of every registered mutator
/// raised.
pub open spec fn flags_raised(old: Seq<Option<ImmixMutatorGlobal>>, new: Seq<Option<ImmixMutatorGlobal>>) -> bool {
    &&& new.len() == old.len()
    &&& forall|i: int|
        0 <= i < old.len() ==> match #[trigger] old[i] {
            None => new[i] is None,
            Some(_) => new[i] matches Some(g) && g.spec_take_yield(),
        }
}

/// The registry of mutators before any registers: `MAX_MUTATORS` empty slots.
pub fn mutator_registry() -> (r: Vec<Option<ImmixMutatorGlobal>>)
    ensures
        r@.len() == MAX_MUTATORS,
        forall|i: int| 0 <= i < r@.len() ==> #[trigger] r@[i] is None,
{
    let mut r: Vec<Option<ImmixMutatorGlobal>> = Vec::new();
    while r.len() < MAX_MUTATORS
        invariant
            r@.len() <= MAX_MUTATORS,
            forall|i: int| 0 <= i < r@.len() ==> #[trigger] r@[i] is None,
        decreases MAX_MUTATORS - r@.len(),
    {
        r.push(None);
    }
    r
}

impl ImmixMutatorGlobal {
    pub closed spec fn spec_take_yield(&self) -> bool {
        self.take_yield
    }

    pub fn new() -> (g: ImmixMutatorGlobal)
        ensures
            !g.spec_take_yield(),
    {
        ImmixMutatorGlobal { take_yield: false }
    }

    pub fn set_take_yield(&mut self, b: bool)
        ensures
            final(self).spec_take_yield() == b,
    {
        self.take_yield = b;
    }

    pub fn take_yield(&self) -> (b: bool)
        ensures
            b == self.spec_take_yield(),
    {
        self.take_yield
    }
}

/// A mutator's allocation state: the block it holds, the window
/// `[cursor, limit)` of that block it bumps through, and `line`, the first
/// line of the block after the window.
pub struct ImmixMutatorLocal {
    id: usize,
    space_start: Address,
    cursor: Address,
    limit: Address,
    line: usize,
    block: Option<ImmixBlock>,
}

impl ImmixMutatorLocal {
    pub closed spec fn spec_id(&self) -> usize {
        self.id
    }

    pub closed spec fn spec_space_start(&self) -> usize {
        self.space_start.0
    }

    pub closed spec fn spec_cursor(&self) -> usize {
        self.cursor.0
    }

    pub closed spec fn spec_limit(&self) -> usize {
        self.limit.0
    }

    pub closed spec fn spec_line(&self) -> usize {
        self.line
    }

    pub closed spec fn spec_block(&self) -> Option<ImmixBlock> {
        self.block
    }

    /// The state after `reset`: no block and an empty window.
    pub open spec fn is_reset(&self) -> bool {
        &&& self.spec_block() is None
        &&& self.spec_cursor() == 0
        &&& self.spec_limit() == 0
        &&& self.spec_line() == LINES_IN_BLOCK
    }

    /// The mutator allocates from `space`: its block is a block of the space,
    /// its window lies in that block below `line`, and every byte of the
    /// window lies in a line marked freshly allocated.
    pub open spec fn wf(&self, space: &ImmixSpace) -> bool {
        &&& space.wf()
        &&& self.spec_space_start() == space.start.0
        &&& self.spec_cursor() <= self.spec_limit()
        &&& self.spec_line() <= LINES_IN_BLOCK
        &&& match self.spec_block() {
            None => self.spec_line() == LINES_IN_BLOCK && self.spec_cursor() == self.spec_limit()
                && self.spec_limit() <= space.end.0,
            Some(b) => {
                &&& space.block_fits(b)
                &&& b.spec_start() <= self.spec_cursor()
                &&& self.spec_limit() == b.spec_start() + self.spec_line() * 256
            },
        }
        &&& forall|p: int|
            self.spec_cursor() <= p < self.spec_limit() ==> line_of(space, p)
                < space.line_mark_table@.len() && space.line_mark_table@[#[trigger] line_of(
                space,
                p,
            )] == LineMark::FreshAlloc
    }

    /// The mutator stays fit for a space whose memory or maps change while
    /// its line marks and bounds stay.
    pub proof fn lemma_wf_other_maps(&self, s1: &ImmixSpace, s2: &ImmixSpace)
        requires
            self.wf(s1),
            s2.wf(),
            s2.start == s1.start,
            s2.end == s1.end,
            s2.line_mark_table == s1.line_mark_table,
        ensures
            self.wf(s2),
    {
        assert forall|p: int|
            self.spec_cursor() <= p < self.spec_limit() implies line_of(s2, p)
            < s2.line_mark_table@.len() && s2.line_mark_table@[#[trigger] line_of(s2, p)]
            == LineMark::FreshAlloc by {
            assert(line_of(s1, p) == line_of(s2, p));
        }
    }

    /// The number of blocks numbered `id` that the space and this mutator
    /// hold together.
    pub open spec fn holds(&self, space: &ImmixSpace, id: usize) -> nat {
        id_count(space.usable_blocks@, id) + id_count(space.used_blocks@, id) + match self.spec_block() {
            Some(b) => if b.spec_id() == id {
                1nat
            } else {
                0nat
            },
            None => 0nat,
        }
    }

    /// What every allocation path leaves true of the mutator and the space.
    pub open spec fn alloc_post(
        old_self: &ImmixMutatorLocal,
        new_self: &ImmixMutatorLocal,
        old_space: &ImmixSpace,
        new_space: &ImmixSpace,
        size: usize,
        align: usize,
        r: Option<Address>,
    ) -> bool {
        &&& new_self.wf(new_space)
        &&& new_self.spec_id() == old_self.spec_id()
        &&& new_space.start == old_space.start
        &&& new_space.end == old_space.end
        &&& new_space.alloc_map == old_space.alloc_map
        &&& new_space.trace_map == old_space.trace_map
        &&& new_space.total_blocks == old_space.total_blocks
        &&& new_space.memory@.len() == old_space.memory@.len()
        &&& new_space.line_mark_table@.len() == old_space.line_mark_table@.len()
        &&& forall|l: int|
            0 <= l < old_space.line_mark_table@.len() && is_live(
                #[trigger] old_space.line_mark_table@[l],
            ) ==> new_space.line_mark_table@[l] == old_space.line_mark_table@[l]
        &&& forall|l: int|
            0 <= l < old_space.line_mark_table@.len() && #[trigger] old_space.line_mark_table@[l]
                != LineMark::Free ==> new_space.line_mark_table@[l] == old_space.line_mark_table@[l]
        &&& forall|p: int|
            new_self.spec_cursor() <= p < new_self.spec_limit() ==> (old_self.spec_cursor() <= p
                < old_self.spec_limit()) || #[trigger] free_at(old_space, p)
        &&& forall|i: int|
            0 <= i < old_space.memory@.len() ==> #[trigger] new_space.memory@[i]
                == old_space.memory@[i] || (free_at(old_space, old_space.start.0 + i)
                && new_space.memory@[i] == 0)
        &&& forall|p: int|
            new_self.spec_cursor() <= p < new_self.spec_limit() && !(old_self.spec_cursor() <= p
                < old_self.spec_limit()) ==> #[trigger] byte_at(new_space, p) == 0
        &&& forall|id: usize| #[trigger] new_self.holds(new_space, id) == old_self.holds(old_space, id)
        &&& match r {
            Some(a) => {
                &&& forall|p: int|
                    a.0 <= p < a.0 + size ==> (old_self.spec_cursor() <= p < old_self.spec_limit())
                        || #[trigger] free_at(old_space, p)
                &&& forall|p: int|
                    a.0 <= p < a.0 + size && !(old_self.spec_cursor() <= p < old_self.spec_limit())
                        ==> #[trigger] byte_at(new_space, p) == 0
                &&& a.0 % align == 0
                &&& a.0 + size == new_self.spec_cursor()
                &&& size > 0 ==> new_space.start.0 <= a.0 && a.0 + size <= new_space.end.0
                &&& forall|p: int|
                    a.0 <= p < a.0 + size ==> line_of(new_space, p) < new_space.line_mark_table@.len()
                        && new_space.line_mark_table@[#[trigger] line_of(new_space, p)]
                        == LineMark::FreshAlloc
            },
            None => {
                &&& new_self.is_reset()
                &&& new_space.usable_blocks@.len() == 0
            },
        }
    }

    /// The byte at `p` is one that an allocation may still hand out: it lies
    /// in the window of the mutator or in a free line of the space.
    pub open spec fn fresh_at(&self, space: &ImmixSpace, p: int) -> bool {
        (self.spec_cursor() <= p < self.spec_limit()) || free_at(space, p)
    }

    /// No byte of `bytes` is one that an allocation may hand out.
    pub open spec fn settled(&self, space: &ImmixSpace, bytes: Set<int>) -> bool {
        forall|p: int| #[trigger] bytes.contains(p) ==> !self.fresh_at(space, p)
    }

    /// From `(old_self, old_space)` to `(new_self, new_space)`, with the same
    /// bounds: what may be handed out only shrinks, and the only bytes and
    /// encodings that change are ones that might have been handed out, or
    /// bytes in `[lo, hi)`.
    #[verifier::opaque]
    pub open spec fn writes_within(
        old_self: &ImmixMutatorLocal,
        old_space: &ImmixSpace,
        new_self: &ImmixMutatorLocal,
        new_space: &ImmixSpace,
        lo: int,
        hi: int,
    ) -> bool {
        &&& new_space.start == old_space.start
        &&& new_space.end == old_space.end
        &&& new_space.memory@.len() == old_space.memory@.len()
        &&& new_space.alloc_map@.len() == old_space.alloc_map@.len()
        &&& forall|p: int| #[trigger] new_self.fresh_at(new_space, p) ==> old_self.fresh_at(old_space, p)
        &&& forall|i: int|
            0 <= i < old_space.memory@.len() && !old_self.fresh_at(old_space, old_space.start.0 + i)
                && !(lo <= old_space.start.0 + i < hi) ==> #[trigger] new_space.memory@[i]
                == old_space.memory@[i]
        &&& forall|p: int|
            p % 8 == 0 && old_space.start.0 <= p && p + 8 <= old_space.end.0 && !old_self.fresh_at(old_space, p)
                ==> #[trigger] encoding_at(new_space, p) == encoding_at(old_space, p)
    }

    /// Two steps that each write within what may be handed out, the first
    /// also in `[lo1, hi1)` and the second in `[lo2, hi2)`, write together
    /// within what the first could hand out and `[lo3, hi3)`, when each of the
    /// two ranges lies in what the first could hand out or in `[lo3, hi3)`.
    pub proof fn lemma_writes_within_trans(
        a: &ImmixMutatorLocal,
        sa: &ImmixSpace,
        b: &ImmixMutatorLocal,
        sb: &ImmixSpace,
        c: &ImmixMutatorLocal,
        sc: &ImmixSpace,
        lo1: int,
        hi1: int,
        lo2: int,
        hi2: int,
        lo3: int,
        hi3: int,
    )
        requires
            Self::writes_within(a, sa, b, sb, lo1, hi1),
            Self::writes_within(b, sb, c, sc, lo2, hi2),
            forall|p: int| lo1 <= p < hi1 ==> a.fresh_at(sa, p) || lo3 <= p < hi3,
            forall|p: int| lo2 <= p < hi2 ==> a.fresh_at(sa, p) || lo3 <= p < hi3,
        ensures
            Self::writes_within(a, sa, c, sc, lo3, hi3),
    {
        reveal(ImmixMutatorLocal::writes_within);
        assert forall|i: int|
            0 <= i < sa.memory@.len() && !a.fresh_at(sa, sa.start.0 + i) && !(lo3 <= sa.start.0 + i
                < hi3) implies #[trigger] sc.memory@[i] == sa.memory@[i] by {
            let p = sa.start.0 + i;
            if b.fresh_at(sb, p) {
                assert(a.fresh_at(sa, p));
            }
            assert(sb.memory@[i] == sa.memory@[i]);
        }
        assert forall|p: int|
            p % 8 == 0 && sa.start.0 <= p && p + 8 <= sa.end.0 && !a.fresh_at(sa, p) implies #[trigger] encoding_at(
            sc,
            p,
        ) == encoding_at(sa, p) by {
            if b.fresh_at(sb, p) {
                assert(a.fresh_at(sa, p));
            }
            assert(encoding_at(sb, p) == encoding_at(sa, p));
        }
    }

    /// Writes within `[lo1, hi1)` are writes within `[lo2, hi2)` when every
    /// byte of the first range could be handed out or lies in the second.
    pub proof fn lemma_writes_within_widen(
        a: &ImmixMutatorLocal,
        sa: &ImmixSpace,
        b: &ImmixMutatorLocal,
        sb: &ImmixSpace,
        lo1: int,
        hi1: int,
        lo2: int,
        hi2: int,
    )
        requires
            Self::writes_within(a, sa, b, sb, lo1, hi1),
            forall|p: int| lo1 <= p < hi1 ==> a.fresh_at(sa, p) || lo2 <= p < hi2,
        ensures
            Self::writes_within(a, sa, b, sb, lo2, hi2),
    {
        reveal(ImmixMutatorLocal::writes_within);
    }

    /// What may be handed out after writes within it was already there
    /// before them.
    pub proof fn lemma_writes_within_narrows(
        a: &ImmixMutatorLocal,
        sa: &ImmixSpace,
        b: &ImmixMutatorLocal,
        sb: &ImmixSpace,
        lo: int,
        hi: int,
    )
        requires
            Self::writes_within(a, sa, b, sb, lo, hi),
        ensures
            forall|p: int| #[trigger] b.fresh_at(sb, p) ==> a.fresh_at(sa, p),
            sb.start == sa.start,
            sb.end == sa.end,
    {
        reveal(ImmixMutatorLocal::writes_within);
    }

    /// An allocation writes within what it may hand out, and what it hands
    /// out it could hand out before and cannot any more.
    pub proof fn lemma_alloc_narrows(
        old_self: &ImmixMutatorLocal,
        new_self: &ImmixMutatorLocal,
        old_space: &ImmixSpace,
        new_space: &ImmixSpace,
        size: usize,
        align: usize,
        r: Option<Address>,
    )
        requires
            Self::alloc_post(old_self, new_self, old_space, new_space, size, align, r),
        ensures
            Self::writes_within(old_self, old_space, new_self, new_space, 0, 0),
            r matches Some(a) ==> forall|p: int|
                a.0 <= p < a.0 + size ==> old_self.fresh_at(old_space, p) && !new_self.fresh_at(
                    new_space,
                    p,
                ),
    {
        reveal(ImmixMutatorLocal::writes_within);
        assert forall|p: int| #[trigger] new_self.fresh_at(new_space, p) implies old_self.fresh_at(
            old_space,
            p,
        ) by {
            if free_at(new_space, p) {
                let l = line_of(old_space, p);
                assert(line_of(new_space, p) == l);
                if old_space.line_mark_table@[l] != LineMark::Free {
                    assert(new_space.line_mark_table@[l] == old_space.line_mark_table@[l]);
                }
            }
        }
        assert forall|i: int|
            0 <= i < old_space.memory@.len() && !old_self.fresh_at(old_space, old_space.start.0 + i)
                && !(0 <= old_space.start.0 + i < 0) implies #[trigger] new_space.memory@[i]
            == old_space.memory@[i] by {
            if new_space.memory@[i] != old_space.memory@[i] {
                assert(free_at(old_space, old_space.start.0 + i));
            }
        }
        if r.is_some() {
            let a = r.unwrap();
            assert forall|p: int| a.0 <= p < a.0 + size implies old_self.fresh_at(old_space, p)
                && !new_self.fresh_at(new_space, p) by {
                assert(free_at(old_space, p) || (old_self.spec_cursor() <= p < old_self.spec_limit()));
                assert(new_space.line_mark_table@[line_of(new_space, p)] == LineMark::FreshAlloc);
            }
        }
    }

    /// Between two collections no allocation hands out a byte that an earlier
    /// one handed out: when the bytes handed out so far are settled, none of
    /// the bytes of the next allocation is one of them, and together with them
    /// they are settled again.
    pub proof fn lemma_allocations_disjoint(
        old_self: &ImmixMutatorLocal,
        new_self: &ImmixMutatorLocal,
        old_space: &ImmixSpace,
        new_space: &ImmixSpace,
        size: usize,
        align: usize,
        r: Option<Address>,
        earlier: Set<int>,
    )
        requires
            old_self.settled(old_space, earlier),
            Self::alloc_post(old_self, new_self, old_space, new_space, size, align, r),
        ensures
            r matches Some(a) ==> forall|p: int| a.0 <= p < a.0 + size ==> !earlier.contains(p),
            new_self.settled(
                new_space,
                match r {
                    Some(a) => earlier.union(Set::new(|p: int| a.0 <= p < a.0 + size)),
                    None => earlier,
                },
            ),
    {
        let all = match r {
            Some(a) => earlier.union(Set::new(|p: int| a.0 <= p < a.0 + size)),
            None => earlier,
        };
        assert forall|p: int| #[trigger] all.contains(p) implies !free_at(new_space, p) && !(
        new_self.spec_cursor() <= p < new_self.spec_limit()) by {
            if earlier.contains(p) {
                assert(!free_at(old_space, p));
                if old_space.start.0 <= p && line_of(old_space, p) < old_space.line_mark_table@.len() {
                    assert(old_space.line_mark_table@[line_of(old_space, p)] != LineMark::Free);
                    assert(new_space.line_mark_table@[line_of(old_space, p)]
                        == old_space.line_mark_table@[line_of(old_space, p)]);
                }
                if new_self.spec_cursor() <= p < new_self.spec_limit() {
                    assert(free_at(old_space, p));
                }
            } else {
                let a = r.unwrap();
                assert(a.0 <= p < a.0 + size);
                assert(new_space.line_mark_table@[line_of(new_space, p)] == LineMark::FreshAlloc);
            }
        }
    }

    /// Drops the block and the window, so that the next allocation takes a new
    /// block.
    pub fn reset(&mut self)
        ensures
            final(self).is_reset(),
            final(self).spec_id() == old(self).spec_id(),
            final(self).spec_space_start() == old(self).spec_space_start(),
    {
        self.cursor = Address::zero();
        self.limit = Address::zero();
        self.line = LINES_IN_BLOCK;
        self.block = None;
    }

    /// A mutator that allocates from `space`, holding no block: it takes the
    /// number `n_mutators`, registers its flag, lowered, in that slot of
    /// `mutators`, and counts itself.
    pub fn new(
        mutators: &mut Vec<Option<ImmixMutatorGlobal>>,
        n_mutators: &mut usize,
        space: &ImmixSpace,
    ) -> (m: ImmixMutatorLocal)
        requires
            space.wf(),
            *old(n_mutators) < old(mutators)@.len(),
        ensures
            m.wf(space),
            m.is_reset(),
            m.spec_id() == *old(n_mutators),
            *final(n_mutators) == *old(n_mutators) + 1,
            final(mutators)@.len() == old(mutators)@.len(),
            final(mutators)@[*old(n_mutators) as int] matches Some(g) && !g.spec_take_yield(),
            forall|i: int|
                0 <= i < old(mutators)@.len() && i != *old(n_mutators) ==> #[trigger] final(mutators)@[i]
                    == old(mutators)@[i],
    {
        let id = *n_mutators;
        let slots = mutators.len();
        assert(id < slots);
        mutators.set(id, Some(ImmixMutatorGlobal::new()));
        *n_mutators = id + 1;
        ImmixMutatorLocal {
            id: id,
            space_start: space.start(),
            cursor: Address::zero(),
            limit: Address::zero(),
            line: LINES_IN_BLOCK,
            block: None,
        }
    }

    /// Gives the block back to the space before the mutator goes away, and
    /// takes the mutator out of the registry: its slot is emptied and it is
    /// no longer counted.
    pub fn destroy(
        &mut self,
        space: &mut ImmixSpace,
        mutators: &mut Vec<Option<ImmixMutatorGlobal>>,
        n_mutators: &mut usize,
    )
        requires
            old(self).wf(old(space)),
            old(self).spec_id() < old(mutators)@.len(),
            *old(n_mutators) > 0,
        ensures
            final(space).wf(),
            final(self).spec_block() is None,
            final(self).spec_id() == old(self).spec_id(),
            final(space).usable_blocks == old(space).usable_blocks,
            final(space).used_blocks@ == match old(self).spec_block() {
                Some(b) => seq![b] + old(space).used_blocks@,
                None => old(space).used_blocks@,
            },
            forall|id: usize| #[trigger] final(self).holds(final(space), id) == old(self).holds(old(space), id),
            final(space).line_mark_table == old(space).line_mark_table,
            final(space).trace_map == old(space).trace_map,
            final(space).alloc_map == old(space).alloc_map,
            final(space).memory == old(space).memory,
            final(space).start == old(space).start,
            final(space).end == old(space).end,
            final(space).total_blocks == old(space).total_blocks,
            final(mutators)@ == old(mutators)@.update(old(self).spec_id() as int, None),
            *final(n_mutators) == *old(n_mutators) - 1,
    {
        self.return_block(space);
        mutators.set(self.id, None);
        *n_mutators = *n_mutators - 1;
    }

    /// Whether a collector asked this mutator to stop: the flag in its slot
    /// of the registry.
    pub fn yield_requested(&self, mutators: &Vec<Option<ImmixMutatorGlobal>>) -> (b: bool)
        ensures
            b == flag_raised(mutators@, self.spec_id() as int),
    {
        if self.id < mutators.len() {
            match &mutators[self.id] {
                Some(g) => g.take_yield(),
                None => false,
            }
        } else {
            false
        }
    }

    /// The point where the mutator stops when a collector asked it to: when
    /// its flag is raised it takes part in the collection (`sync_barrier`,
    /// with `thread_roots` as its roots) and returns what that returns;
    /// otherwise it returns `Ok(false)` at once and changes nothing.
    pub fn yieldpoint(
        &mut self,
        ctx: &mut GCContext,
        thread_roots: &mut Vec<ObjectReference>,
        mutators: &mut Vec<Option<ImmixMutatorGlobal>>,
    ) -> (r: Result<bool, ObjectReference>)
        requires
            old(self).wf(&old(ctx).immix_space),
            old(ctx).mark_state <= 1,
            old(ctx).gc_count < usize::MAX,
        ensures
            !flag_raised(old(mutators)@, old(self).spec_id() as int) ==> {
                &&& r == Ok::<bool, ObjectReference>(false)
                &&& *final(self) == *old(self)
                &&& *final(ctx) == *old(ctx)
                &&& final(thread_roots)@ == old(thread_roots)@
                &&& final(mutators)@ == old(mutators)@
            },
            flag_raised(old(mutators)@, old(self).spec_id() as int) ==> barrier_done(
                old(ctx),
                final(ctx),
                old(self),
                final(self),
                old(thread_roots)@,
                final(thread_roots)@,
                old(mutators)@,
                final(mutators)@,
                r,
            ),
    {
        if self.yield_requested(mutators) {
            sync_barrier(ctx, self, thread_roots, mutators)
        } else {
            Ok(false)
        }
    }

    /// Allocates `size` bytes aligned to `align`: from the window when they fit
    /// there, else from the first run of free lines of the block that holds
    /// them, else from the first run of the next usable block that holds them
    /// (the first usable block, when it has such a run, is the one taken),
    /// else from a later one. Returns `None`, holding no block, when the
    /// space has no usable block left: the space is to be collected, and the
    /// flag of every mutator registered in `mutators` is raised. That happens
    /// only when no run of free lines, in the held block from its next line on
    /// or in any usable block, holds the object. Taking the first hole of the
    /// held block opens exactly that hole as the window: its lines are marked
    /// freshly allocated, its bytes zeroed, and nothing else changes.
    pub fn allocate(&mut self, space: &mut ImmixSpace,
        mutators: &mut Vec<Option<ImmixMutatorGlobal>>,
        size: usize, align: usize) -> (r: Option<
        Address,
    >)
        requires
            old(self).wf(old(space)),
            is_power_of_two(align),
            old(space).end.0 + align + size <= usize::MAX,
        ensures
            r is Some ==> final(mutators)@ == old(mutators)@,
            r is None ==> flags_raised(old(mutators)@, final(mutators)@),
            Self::alloc_post(old(self), final(self), old(space), final(space), size, align, r),
            spec_align_up(old(self).spec_cursor() as int, align as int) + size <= old(self).spec_limit()
                ==> {
                &&& r == Some(Address(spec_align_up(old(self).spec_cursor() as int, align as int) as usize))
                &&& *final(space) == *old(space)
                &&& final(self).spec_limit() == old(self).spec_limit()
                &&& final(self).spec_line() == old(self).spec_line()
                &&& final(self).spec_block() == old(self).spec_block()
            },
            r is None ==> spec_align_up(old(self).spec_cursor() as int, align as int) + size
                > old(self).spec_limit(),
            r is None && blocks_distinct(old(self), old(space)) ==> held_no_fit(
                old(self),
                old(space),
                size as int,
                align as int,
            ) && no_usable_fit(old(space), size as int, align as int),
            spec_align_up(old(self).spec_cursor() as int, align as int) + size > old(self).spec_limit()
                && !held_no_fit(old(self), old(space), size as int, align as int) ==> {
                &&& r matches Some(a) && held_first_fit(
                    old(self),
                    old(space),
                    size as int,
                    align as int,
                    a.0 as int,
                )
                &&& final(self).spec_block() == old(self).spec_block()
                &&& final(space).usable_blocks == old(space).usable_blocks
                &&& final(space).used_blocks == old(space).used_blocks
            },
            size > 0 && spec_align_up(old(self).spec_cursor() as int, align as int) + size > old(
                self,
            ).spec_limit() && blocks_distinct(old(self), old(space)) && held_no_fit(
                old(self),
                old(space),
                size as int,
                align as int,
            ) && first_usable_fits(old(space), size as int, align as int) ==> {
                &&& r matches Some(a) && first_fit_from(
                    old(space).line_mark_table@,
                    old(space).usable_blocks@[0],
                    0,
                    size as int,
                    align as int,
                    a.0 as int,
                )
                &&& final(self).spec_block() == Some(old(space).usable_blocks@[0])
            },
            spec_align_up(old(self).spec_cursor() as int, align as int) + size > old(self).spec_limit()
                ==> opens_first_hole(
                old(self),
                final(self),
                old(space),
                final(space),
                size as int,
                align as int,
                r,
            ),
        decreases old(space).usable_blocks@.len(), LINES_IN_BLOCK - old(self).spec_line(), 2int,
    {
        proof {
            lemma_power_of_two_positive(align);
        }
        let start = self.cursor.align_up(align);
        let end = start.plus(size);
        if end.0 > self.limit.0 {
            self.try_alloc_from_local(space, mutators, size, align)
        } else {
            self.cursor = end;
            Some(start)
        }
    }

    /// Writes the object encoding `encode` of the object at `addr`.
    pub fn init_object(&mut self, space: &mut ImmixSpace, addr: Address, encode: u8)
        requires
            old(space).wf(),
            old(space).alloc_map.covers(addr),
        ensures
            final(space).wf(),
            final(space).alloc_map@ == old(space).alloc_map@.update(
                old(space).alloc_map.index_of(addr),
                encode,
            ),
            final(space).alloc_map.spec_start() == old(space).alloc_map.spec_start(),
            final(space).start == old(space).start,
            final(space).end == old(space).end,
            final(space).memory == old(space).memory,
            final(space).trace_map == old(space).trace_map,
            final(space).line_mark_table == old(space).line_mark_table,
            final(space).usable_blocks == old(space).usable_blocks,
            final(space).used_blocks == old(space).used_blocks,
            final(space).total_blocks == old(space).total_blocks,
            *final(self) == *old(self),
    {
        space.alloc_map.set(addr, encode);
    }

    /// As `init_object`.
    pub fn init_object_no_inline(&mut self, space: &mut ImmixSpace, addr: Address, encode: u8)
        requires
            old(space).wf(),
            old(space).alloc_map.covers(addr),
        ensures
            final(space).wf(),
            final(space).alloc_map@ == old(space).alloc_map@.update(
                old(space).alloc_map.index_of(addr),
                encode,
            ),
            final(space).alloc_map.spec_start() == old(space).alloc_map.spec_start(),
            final(space).start == old(space).start,
            final(space).end == old(space).end,
            final(space).memory == old(space).memory,
            final(space).trace_map == old(space).trace_map,
            final(space).line_mark_table == old(space).line_mark_table,
            final(space).usable_blocks == old(space).usable_blocks,
            final(space).used_blocks == old(space).used_blocks,
            final(space).total_blocks == old(space).total_blocks,
            *final(self) == *old(self),
    {
        self.init_object(space, addr, encode);
    }

    fn try_alloc_from_local(&mut self, space: &mut ImmixSpace,
        mutators: &mut Vec<Option<ImmixMutatorGlobal>>,
        size: usize, align: usize) -> (r:
        Option<Address>)
        requires
            old(self).wf(old(space)),
            is_power_of_two(align),
            old(space).end.0 + align + size <= usize::MAX,
        ensures
            r is Some ==> final(mutators)@ == old(mutators)@,
            r is None ==> flags_raised(old(mutators)@, final(mutators)@),
            Self::alloc_post(old(self), final(self), old(space), final(space), size, align, r),
            r is None && blocks_distinct(old(self), old(space)) ==> held_no_fit(
                old(self),
                old(space),
                size as int,
                align as int,
            ) && no_usable_fit(old(space), size as int, align as int),
            !held_no_fit(old(self), old(space), size as int, align as int) ==> {
                &&& r matches Some(a) && held_first_fit(
                    old(self),
                    old(space),
                    size as int,
                    align as int,
                    a.0 as int,
                )
                &&& final(self).spec_block() == old(self).spec_block()
                &&& final(space).usable_blocks == old(space).usable_blocks
                &&& final(space).used_blocks == old(space).used_blocks
            },
            size > 0 && blocks_distinct(old(self), old(space)) && held_no_fit(
                old(self),
                old(space),
                size as int,
                align as int,
            ) && first_usable_fits(old(space), size as int, align as int) ==> {
                &&& r matches Some(a) && first_fit_from(
                    old(space).line_mark_table@,
                    old(space).usable_blocks@[0],
                    0,
                    size as int,
                    align as int,
                    a.0 as int,
                )
                &&& final(self).spec_block() == Some(old(space).usable_blocks@[0])
            },
            opens_first_hole(old(self), final(self), old(space), final(space), size as int, align as int, r),
        decreases old(space).usable_blocks@.len(), LINES_IN_BLOCK - old(self).spec_line(), 1int,
    {
        if self.line < LINES_IN_BLOCK {
            let b = self.block.unwrap();
            let cur_line = self.line;
            let opt_next_available_line = b.get_next_available_line(&space.line_mark_table, cur_line);
            match opt_next_available_line {
                Some(next_available_line) => {
                    let end_line = b.get_next_unavailable_line(
                        &space.line_mark_table,
                        next_available_line,
                    );
                    proof {
                        lemma_shl_line(next_available_line);
                        lemma_shl_line(end_line);
                    }
                    self.cursor = b.start().plus(next_available_line << LOG_BYTES_IN_LINE);
                    self.limit = b.start().plus(end_line << LOG_BYTES_IN_LINE);
                    self.line = end_line;
                    let len = self.limit.diff(self.cursor);
                    space.memset(self.cursor, 0, len);
                    let ghost mem1 = space.memory@;
                    let mut slice = *b.line_mark_table();
                    let mut l = next_available_line;
                    let ghost t0 = space.line_mark_table@;
                    while l < end_line
                        invariant
                            space.wf(),
                            space.memory@ == mem1,
                            space.start == old(space).start,
                            space.end == old(space).end,
                            space.alloc_map == old(space).alloc_map,
                            space.trace_map == old(space).trace_map,
                            space.total_blocks == old(space).total_blocks,
                            space.usable_blocks == old(space).usable_blocks,
                            space.used_blocks == old(space).used_blocks,
                            space.memory@.len() == old(space).memory@.len(),
                            slice == b.spec_lines(),
                            space.block_fits(b),
                            next_available_line <= l <= end_line <= LINES_IN_BLOCK,
                            forall|j: int|
                                next_available_line <= j < end_line ==> #[trigger] t0[slice.spec_start() + j]
                                    == LineMark::Free,
                            space.line_mark_table@.len() == t0.len(),
                            forall|x: int|
                                0 <= x < t0.len() ==> #[trigger] space.line_mark_table@[x] == if slice.spec_start()
                                    + next_available_line <= x < slice.spec_start() + l {
                                    LineMark::FreshAlloc
                                } else {
                                    t0[x]
                                },
                        decreases end_line - l,
                    {
                        slice.set(&mut space.line_mark_table, l, LineMark::FreshAlloc);
                        l = l + 1;
                    }
                    proof {
                        assert forall|p: int|
                            self.cursor.0 <= p < self.limit.0 implies line_of(space, p)
                            < space.line_mark_table@.len() && space.line_mark_table@[#[trigger] line_of(
                                space,
                                p,
                            )] == LineMark::FreshAlloc by {
                            lemma_line_of_block(
                                space.start.0 as int,
                                slice.spec_start() as int,
                                p - b.spec_start(),
                            );
                            assert(line_of(space, p) == slice.spec_start() + (p - b.spec_start()) / 256);
                            assert((p - b.spec_start()) / 256 >= next_available_line) by (nonlinear_arith)
                                requires
                                    p - b.spec_start() >= next_available_line * 256,
                            ;
                            assert((p - b.spec_start()) / 256 < end_line) by (nonlinear_arith)
                                requires
                                    p - b.spec_start() < end_line * 256,
                                    p - b.spec_start() >= 0,
                            ;
                        }
                        assert forall|x: int| 0 <= x < t0.len() && is_live(#[trigger] t0[x]) implies space.line_mark_table@[x]
                            == t0[x] by {
                            if slice.spec_start() + next_available_line <= x < slice.spec_start() + end_line {
                                assert(t0[slice.spec_start() + (x - slice.spec_start())] == LineMark::Free);
                            }
                        }
                    }
                    let ghost mid = space.line_mark_table@;
                    let ghost s_mid = *space;
                    let ghost m_mid = *self;
                    proof {
                        assert forall|p: int|
                            m_mid.spec_cursor() <= p < m_mid.spec_limit() implies #[trigger] free_at(
                            old(space),
                            p,
                        ) by {
                            lemma_line_of_block(
                                space.start.0 as int,
                                slice.spec_start() as int,
                                p - b.spec_start(),
                            );
                            assert((p - b.spec_start()) / 256 >= next_available_line) by (nonlinear_arith)
                                requires
                                    p - b.spec_start() >= next_available_line * 256,
                            ;
                            assert((p - b.spec_start()) / 256 < end_line) by (nonlinear_arith)
                                requires
                                    p - b.spec_start() < end_line * 256,
                                    p - b.spec_start() >= 0,
                            ;
                            assert(t0[slice.spec_start() + (p - b.spec_start()) / 256] == LineMark::Free);
                        }
                        assert forall|p: int| #[trigger] free_at(&s_mid, p) implies free_at(old(space), p) by {
                            assert(mid[line_of(&s_mid, p)] == LineMark::Free);
                        }
                        assert forall|i: int| 0 <= i < mem1.len() implies #[trigger] mem1[i]
                            == old(space).memory@[i] || (free_at(old(space), old(space).start.0 + i)
                            && mem1[i] == 0) by {
                            if m_mid.spec_cursor() <= space.start.0 + i < m_mid.spec_limit() {
                                assert(free_at(old(space), space.start.0 + i));
                            }
                        }
                    }
                    let r = self.allocate(space, mutators, size, align);
                    proof {
                        assert forall|i: int| 0 <= i < old(space).memory@.len() implies #[trigger] space.memory@[i]
                            == old(space).memory@[i] || (free_at(old(space), old(space).start.0 + i)
                            && space.memory@[i] == 0) by {
                            assert(mem1[i] == old(space).memory@[i] || (free_at(
                                old(space),
                                old(space).start.0 + i,
                            ) && mem1[i] == 0));
                            if space.memory@[i] != mem1[i] {
                                assert(free_at(&s_mid, s_mid.start.0 + i));
                            }
                        }
                        assert forall|p: int|
                            self.spec_cursor() <= p < self.spec_limit() && !(old(self).spec_cursor() <= p
                                < old(self).spec_limit()) implies #[trigger] byte_at(space, p) == 0 by {
                            if m_mid.spec_cursor() <= p < m_mid.spec_limit() {
                                assert(mem1[p - space.start.0] == 0);
                                assert(space.memory@[p - space.start.0] == mem1[p - space.start.0] || space.memory@[p
                                    - space.start.0] == 0);
                            }
                        }
                        if r.is_some() {
                            let a = r.unwrap();
                            assert forall|p: int|
                                a.0 <= p < a.0 + size && !(old(self).spec_cursor() <= p < old(
                                    self,
                                ).spec_limit()) implies #[trigger] byte_at(space, p) == 0 by {
                                if m_mid.spec_cursor() <= p < m_mid.spec_limit() {
                                    assert(mem1[p - space.start.0] == 0);
                                    assert(space.memory@[p - space.start.0] == mem1[p - space.start.0]
                                        || space.memory@[p - space.start.0] == 0);
                                }
                            }
                        }
                        assert forall|x: int| 0 <= x < t0.len() && is_live(#[trigger] t0[x]) implies space.line_mark_table@[x]
                            == t0[x] by {
                            assert(mid[x] == t0[x]);
                        }
                        assert forall|x: int| 0 <= x < t0.len() && #[trigger] t0[x] != LineMark::Free implies space.line_mark_table@[x]
                            == t0[x] by {
                            if slice.spec_start() + next_available_line <= x < slice.spec_start() + end_line {
                                assert(t0[slice.spec_start() + (x - slice.spec_start())] == LineMark::Free);
                            }
                            assert(mid[x] == t0[x]);
                        }
                        assert forall|p: int| self.spec_cursor() <= p < self.spec_limit() implies (old(
                            self,
                        ).spec_cursor() <= p < old(self).spec_limit()) || #[trigger] free_at(old(space), p) by {
                            if m_mid.spec_cursor() <= p < m_mid.spec_limit() {
                            } else {
                                assert(free_at(&s_mid, p));
                            }
                        }
                        if r.is_some() {
                            let a = r.unwrap();
                            assert forall|p: int| a.0 <= p < a.0 + size implies (old(self).spec_cursor()
                                <= p < old(self).spec_limit()) || #[trigger] free_at(old(space), p) by {
                                if m_mid.spec_cursor() <= p < m_mid.spec_limit() {
                                } else {
                                    assert(free_at(&s_mid, p));
                                }
                            }
                        }
                    }
                    proof {
                        let sz = size as int;
                        let al = align as int;
                        lemma_power_of_two_positive(align);
                        assert(t0 == old(space).line_mark_table@);
                        assert(next_available_line < end_line) by {
                            if end_line == next_available_line {
                                assert(t0[slice.spec_start() + next_available_line] == LineMark::Free);
                            }
                        }
                        assert(m_mid.spec_cursor() == b.spec_start() + 256 * next_available_line);
                        assert(m_mid.spec_limit() == b.spec_start() + 256 * end_line);
                        assert(m_mid.spec_block() == Some(b));
                        assert(m_mid.spec_line() == end_line);
                        assert forall|l: int| cur_line <= l < next_available_line implies !#[trigger] line_free(t0, b, l) by {
                            assert(t0[slice.spec_start() + l] != LineMark::Free);
                        }
                        assert forall|i: int, j: int| cur_line <= i < next_available_line implies !#[trigger] run_fits(
                            t0,
                            b,
                            i,
                            j,
                            sz,
                            al,
                        ) by {
                            if run_fits(t0, b, i, j, sz, al) {
                                assert(line_free(t0, b, i));
                            }
                        }
                        if spec_align_up(m_mid.spec_cursor() as int, al) + sz <= m_mid.spec_limit() {
                            assert forall|l: int| next_available_line <= l < end_line implies #[trigger] line_free(t0, b, l) by {
                                assert(t0[slice.spec_start() + l] == LineMark::Free);
                            }
                            assert(run_fits(t0, b, next_available_line as int, end_line as int, sz, al));
                        } else {
                            assert forall|l: int| end_line <= l < LINES_IN_BLOCK implies #[trigger] line_free(mid, b, l)
                                == line_free(t0, b, l) by {
                                assert(mid[slice.spec_start() + l] == t0[slice.spec_start() + l]);
                            }
                            lemma_window_scan(
                                t0,
                                mid,
                                b,
                                cur_line as int,
                                next_available_line as int,
                                end_line as int,
                                sz,
                                al,
                            );
                            if r.is_none() && blocks_distinct(old(self), old(space)) {
                                assert(blocks_distinct(&m_mid, &s_mid));
                                assert forall|i: int, j: int| cur_line <= i implies !#[trigger] run_fits(
                                    t0,
                                    b,
                                    i,
                                    j,
                                    sz,
                                    al,
                                ) by {
                                    if run_fits(t0, b, i, j, sz, al) {
                                        assert(run_fits(mid, b, i, j, sz, al));
                                    }
                                }
                                lemma_other_blocks_fit(
                                    old(space),
                                    &s_mid,
                                    b,
                                    next_available_line as int,
                                    end_line as int,
                                    sz,
                                    al,
                                );
                            }
                            if !held_no_fit(old(self), old(space), sz, al) {
                                let (i0, j0) = choose|i: int, j: int|
                                    cur_line <= i && #[trigger] run_fits(t0, b, i, j, sz, al);
                                assert(run_fits(mid, b, i0, j0, sz, al));
                                assert(!held_no_fit(&m_mid, &s_mid, sz, al));
                                let a = r.unwrap();
                                let (i1, j1) = choose|i: int, j: int|
                                    {
                                        &&& end_line <= i
                                        &&& #[trigger] run_fits(mid, b, i, j, sz, al)
                                        &&& no_fit_between(mid, b, end_line as int, i, sz, al)
                                        &&& a.0 == spec_align_up(b.spec_start() + 256 * i, al)
                                    };
                                assert(run_fits(t0, b, i1, j1, sz, al));
                                assert forall|i: int, j: int| cur_line <= i < i1 implies !#[trigger] run_fits(
                                    t0,
                                    b,
                                    i,
                                    j,
                                    sz,
                                    al,
                                ) by {
                                    if run_fits(t0, b, i, j, sz, al) {
                                        assert(run_fits(mid, b, i, j, sz, al));
                                    }
                                }
                                assert(held_first_fit(old(self), old(space), sz, al, a.0 as int));
                            }
                            if size > 0 && blocks_distinct(old(self), old(space)) && held_no_fit(
                                old(self),
                                old(space),
                                sz,
                                al,
                            ) && first_usable_fits(old(space), sz, al) {
                                let u0 = old(space).usable_blocks@[0];
                                assert forall|i: int, j: int| end_line <= i implies !#[trigger] run_fits(
                                    mid,
                                    b,
                                    i,
                                    j,
                                    sz,
                                    al,
                                ) by {
                                    if run_fits(mid, b, i, j, sz, al) {
                                        assert(run_fits(t0, b, i, j, sz, al));
                                    }
                                }
                                assert(held_no_fit(&m_mid, &s_mid, sz, al));
                                assert(blocks_distinct(&m_mid, &s_mid));
                                lemma_other_blocks_fit(
                                    old(space),
                                    &s_mid,
                                    b,
                                    next_available_line as int,
                                    end_line as int,
                                    sz,
                                    al,
                                );
                                let (i0, j0) = choose|i: int, j: int|
                                    0 <= i && #[trigger] run_fits(t0, u0, i, j, sz, al);
                                assert(run_fits(t0, old(space).usable_blocks@[0], i0, j0, sz, al));
                                assert(run_fits(mid, u0, i0, j0, sz, al));
                                assert(first_usable_fits(&s_mid, sz, al));
                                let a = r.unwrap();
                                let (i1, j1) = choose|i: int, j: int|
                                    {
                                        &&& 0 <= i
                                        &&& #[trigger] run_fits(mid, u0, i, j, sz, al)
                                        &&& no_fit_between(mid, u0, 0, i, sz, al)
                                        &&& a.0 == spec_align_up(u0.spec_start() + 256 * i, al)
                                    };
                                assert(run_fits(t0, old(space).usable_blocks@[0], i1, j1, sz, al));
                                assert forall|i: int, j: int| 0 <= i < i1 implies !#[trigger] run_fits(
                                    t0,
                                    u0,
                                    i,
                                    j,
                                    sz,
                                    al,
                                ) by {
                                    assert(run_fits(t0, old(space).usable_blocks@[0], i, j, sz, al)
                                        == run_fits(mid, u0, i, j, sz, al));
                                }
                                assert(first_fit_from(t0, u0, 0, sz, al, a.0 as int));
                            }
                        }
                        assert(first_hole(t0, b, cur_line as int, next_available_line as int, end_line as int)) by {
                            assert forall|l: int| next_available_line <= l < end_line implies #[trigger] line_free(t0, b, l) by {
                                assert(t0[slice.spec_start() + l] == LineMark::Free);
                            }
                        }
                        assert forall|i: int, j: int|
                            #[trigger] first_hole(t0, b, cur_line as int, i, j) && spec_align_up(
                                b.spec_start() + 256 * i,
                                al,
                            ) + sz <= b.spec_start() + 256 * j implies window_opened(
                            self,
                            old(space),
                            space,
                            b,
                            i,
                            j,
                            sz,
                            al,
                            r,
                        ) by {
                            lemma_first_hole_unique(
                                t0,
                                b,
                                cur_line as int,
                                i,
                                j,
                                next_available_line as int,
                                end_line as int,
                            );
                            assert(*space == s_mid);
                            assert forall|x: int| 0 <= x < t0.len() implies #[trigger] space.line_mark_table@[x]
                                == if b.spec_lines().spec_start() + i <= x < b.spec_lines().spec_start() + j {
                                LineMark::FreshAlloc
                            } else {
                                t0[x]
                            } by {
                                assert(mid[x] == space.line_mark_table@[x]);
                            }
                            assert forall|k: int| 0 <= k < old(space).memory@.len() implies #[trigger] space.memory@[k]
                                == if b.spec_start() + 256 * i - old(space).start.0 <= k < b.spec_start() + 256
                                * j - old(space).start.0 {
                                0u8
                            } else {
                                old(space).memory@[k]
                            } by {
                                assert(mem1[k] == space.memory@[k]);
                            }
                        }
                    }
                    r
                },
                None => {
                    proof {
                        assert forall|i: int, j: int| !#[trigger] first_hole(
                            old(space).line_mark_table@,
                            b,
                            cur_line as int,
                            i,
                            j,
                        ) by {
                            if first_hole(old(space).line_mark_table@, b, cur_line as int, i, j) {
                                assert(line_free(old(space).line_mark_table@, b, i));
                            }
                        }
                        assert forall|i: int, j: int| cur_line <= i implies !#[trigger] run_fits(
                            old(space).line_mark_table@,
                            b,
                            i,
                            j,
                            size as int,
                            align as int,
                        ) by {
                            if run_fits(old(space).line_mark_table@, b, i, j, size as int, align as int) {
                                assert(line_free(old(space).line_mark_table@, b, i));
                            }
                        }
                    }
                    self.alloc_from_global(space, mutators, size, align)
                },
            }
        } else {
            proof {
                if let Some(b) = old(self).spec_block() {
                    assert forall|i: int, j: int| LINES_IN_BLOCK <= i implies !#[trigger] run_fits(
                        old(space).line_mark_table@,
                        b,
                        i,
                        j,
                        size as int,
                        align as int,
                    ) by {}
                }
            }
            self.alloc_from_global(space, mutators, size, align)
        }
    }

    fn alloc_from_global(&mut self, space: &mut ImmixSpace,
        mutators: &mut Vec<Option<ImmixMutatorGlobal>>,
        size: usize, align: usize) -> (r:
        Option<Address>)
        requires
            old(self).wf(old(space)),
            is_power_of_two(align),
            old(space).end.0 + align + size <= usize::MAX,
        ensures
            r is Some ==> final(mutators)@ == old(mutators)@,
            r is None ==> flags_raised(old(mutators)@, final(mutators)@),
            Self::alloc_post(old(self), final(self), old(space), final(space), size, align, r),
            r is None && blocks_distinct(old(self), old(space)) ==> no_usable_fit(
                old(space),
                size as int,
                align as int,
            ),
            size > 0 && old(space).usable_blocks@.len() > 0 && !no_fit_from(
                old(space).line_mark_table@,
                old(space).usable_blocks@[0],
                0,
                size as int,
                align as int,
            ) ==> {
                &&& r matches Some(a) && first_fit_from(
                    old(space).line_mark_table@,
                    old(space).usable_blocks@[0],
                    0,
                    size as int,
                    align as int,
                    a.0 as int,
                )
                &&& final(self).spec_block() == Some(old(space).usable_blocks@[0])
                &&& final(space).usable_blocks@ == old(space).usable_blocks@.drop_first()
                &&& final(space).used_blocks@ == match old(self).spec_block() {
                    Some(b) => seq![b] + old(space).used_blocks@,
                    None => old(space).used_blocks@,
                }
            },
        decreases old(space).usable_blocks@.len(), LINES_IN_BLOCK - old(self).spec_line(), 0int,
    {
        self.return_block(space);
        let ghost s1 = *space;
        let ghost m1 = *self;
        assert forall|id: usize| #[trigger] old(self).holds(old(space), id) == id_count(s1.usable_blocks@, id)
            + id_count(s1.used_blocks@, id) by {
            assert(m1.holds(&s1, id) == old(self).holds(old(space), id));
        }
        let new_block = space.get_next_usable_block(mutators);
        match new_block {
            Some(b) => {
                proof {
                    assert forall|id: usize| id_count(space.usable_blocks@, id) + if b.spec_id() == id {
                        1nat
                    } else {
                        0nat
                    } == #[trigger] id_count(s1.usable_blocks@, id) by {
                        lemma_id_count_drop_first(s1.usable_blocks@, id);
                    }
                }
                self.block = Some(b);
                self.cursor = b.start();
                self.limit = b.start();
                self.line = 0;
                assert forall|id: usize| #[trigger] self.holds(space, id) == old(self).holds(old(space), id) by {
                    assert(id_count(space.usable_blocks@, id) + if b.spec_id() == id {
                        1nat
                    } else {
                        0nat
                    } == id_count(s1.usable_blocks@, id));
                    assert(old(self).holds(old(space), id) == id_count(s1.usable_blocks@, id)
                        + id_count(s1.used_blocks@, id));
                }
                let ghost s2 = *space;
                let ghost m2 = *self;
                let r = self.allocate(space, mutators, size, align);
                proof {
                    if size > 0 {
                        lemma_power_of_two_positive(align);
                        let x = m2.spec_cursor() as int;
                        let al = align as int;
                        assert(spec_align_up(x, al) >= x) by (nonlinear_arith)
                            requires
                                al > 0,
                                x >= 0,
                        {
                            assert((x + al - 1) / al * al > x - al);
                        }
                    }
                    if r.is_none() && blocks_distinct(old(self), old(space)) {
                        assert(s2.usable_blocks@ == s1.usable_blocks@.drop_first());
                        assert forall|k1: int, k2: int|
                            0 <= k1 < k2 < s2.usable_blocks@.len() implies (#[trigger] s2.usable_blocks@[k1]).spec_id()
                            != (#[trigger] s2.usable_blocks@[k2]).spec_id() by {
                            assert(s2.usable_blocks@[k1] == old(space).usable_blocks@[k1 + 1]);
                            assert(s2.usable_blocks@[k2] == old(space).usable_blocks@[k2 + 1]);
                        }
                        assert forall|k: int| 0 <= k < s2.usable_blocks@.len() implies (
                        #[trigger] s2.usable_blocks@[k]).spec_id() != b.spec_id() by {
                            assert(s2.usable_blocks@[k] == old(space).usable_blocks@[k + 1]);
                            assert(b == old(space).usable_blocks@[0]);
                        }
                        assert(blocks_distinct(&m2, &s2));
                        assert(held_no_fit(&m2, &s2, size as int, align as int));
                        assert forall|k: int| 0 <= k < old(space).usable_blocks@.len() implies no_fit_from(
                            old(space).line_mark_table@,
                            #[trigger] old(space).usable_blocks@[k],
                            0,
                            size as int,
                            align as int,
                        ) by {
                            if k > 0 {
                                assert(old(space).usable_blocks@[k] == s2.usable_blocks@[k - 1]);
                            }
                        }
                    }
                    assert forall|p: int| #[trigger] free_at(&s2, p) implies free_at(old(space), p) by {}
                    assert forall|p: int| self.spec_cursor() <= p < self.spec_limit() implies (old(
                        self,
                    ).spec_cursor() <= p < old(self).spec_limit()) || #[trigger] free_at(old(space), p) by {
                        assert(free_at(&s2, p));
                    }
                    if r.is_some() {
                        let a = r.unwrap();
                        assert forall|p: int| a.0 <= p < a.0 + size implies (old(self).spec_cursor()
                            <= p < old(self).spec_limit()) || #[trigger] free_at(old(space), p) by {
                            assert(free_at(&s2, p));
                        }
                    }
                }
                r
            },
            None => {
                self.reset();
                None
            },
        }
    }

    /// Gives the block back to the space before a collection.
    pub fn prepare_for_gc(&mut self, space: &mut ImmixSpace)
        requires
            old(self).wf(old(space)),
        ensures
            final(space).wf(),
            final(self).spec_block() is None,
            final(self).spec_id() == old(self).spec_id(),
            final(self).spec_space_start() == old(self).spec_space_start(),
            final(space).usable_blocks == old(space).usable_blocks,
            final(space).used_blocks@ == match old(self).spec_block() {
                Some(b) => seq![b] + old(space).used_blocks@,
                None => old(space).used_blocks@,
            },
            forall|id: usize| #[trigger] final(self).holds(final(space), id) == old(self).holds(old(space), id),
            final(space).line_mark_table == old(space).line_mark_table,
            final(space).trace_map == old(space).trace_map,
            final(space).alloc_map == old(space).alloc_map,
            final(space).memory == old(space).memory,
            final(space).start == old(space).start,
            final(space).end == old(space).end,
            final(space).total_blocks == old(space).total_blocks,
    {
        self.return_block(space);
    }

    pub fn id(&self) -> (r: usize)
        ensures
            r == self.spec_id(),
    {
        self.id
    }

    /// The next free byte of the window.
    pub fn cursor(&self) -> (r: Address)
        ensures
            r.0 == self.spec_cursor(),
    {
        self.cursor
    }

    /// The end of the window.
    pub fn limit(&self) -> (r: Address)
        ensures
            r.0 == self.spec_limit(),
    {
        self.limit
    }

    /// The line of the block after the window.
    pub fn line(&self) -> (r: usize)
        ensures
            r == self.spec_line(),
    {
        self.line
    }

    /// The block the mutator allocates in, if it holds one.
    pub fn block(&self) -> (r: Option<ImmixBlock>)
        ensures
            r == self.spec_block(),
    {
        self.block
    }

    fn return_block(&mut self, space: &mut ImmixSpace)
        requires
            old(self).wf(old(space)),
        ensures
            final(space).wf(),
            final(self).spec_block() is None,
            final(self).spec_id() == old(self).spec_id(),
            final(self).spec_space_start() == old(self).spec_space_start(),
            final(self).spec_cursor() == old(self).spec_cursor(),
            final(self).spec_limit() == old(self).spec_limit(),
            final(self).spec_line() == old(self).spec_line(),
            final(space).usable_blocks == old(space).usable_blocks,
            final(space).used_blocks@ == match old(self).spec_block() {
                Some(b) => seq![b] + old(space).used_blocks@,
                None => old(space).used_blocks@,
            },
            final(space).start == old(space).start,
            final(space).end == old(space).end,
            final(space).memory == old(space).memory,
            final(space).alloc_map == old(space).alloc_map,
            final(space).trace_map == old(space).trace_map,
            final(space).line_mark_table == old(space).line_mark_table,
            final(space).total_blocks == old(space).total_blocks,
            forall|id: usize| #[trigger] final(self).holds(final(space), id) == old(self).holds(old(space), id),
    {
        if self.block.is_some() {
            let b = self.block.unwrap();
            space.return_used_block(b);
            self.block = None;
            proof {
                assert forall|id: usize| #[trigger] self.holds(space, id) == old(self).holds(old(space), id) by {
                    lemma_id_count_prepend(b, old(space).used_blocks@, id);
                }
            }
        }
    }

    /// The words of the `length` bytes from `obj`, eight bytes at a time, with
    /// their addresses, for printing.
    pub fn print_object(&self, space: &ImmixSpace, obj: Address, length: usize) -> (words: Vec<
        (Address, u64),
    >)
        requires
            space.wf(),
            space.start.0 <= obj.0,
            obj.0 + 8 * ((length + 7) / 8) <= space.end.0,
        ensures
            words@.len() == (length + 7) / 8,
            forall|i: int|
                0 <= i < words@.len() ==> (#[trigger] words@[i]).0.0 == obj.0 + 8 * i && words@[i].1
                    == spec_load(space.memory@, obj.0 + 8 * i - space.start.0),
    {
        Self::print_object_static(space, obj, length)
    }

    /// The words of the `length` bytes from `obj`, eight bytes at a time, with
    /// their addresses, for printing.
    pub fn print_object_static(space: &ImmixSpace, obj: Address, length: usize) -> (words: Vec<
        (Address, u64),
    >)
        requires
            space.wf(),
            space.start.0 <= obj.0,
            obj.0 + 8 * ((length + 7) / 8) <= space.end.0,
        ensures
            words@.len() == (length + 7) / 8,
            forall|i: int|
                0 <= i < words@.len() ==> (#[trigger] words@[i]).0.0 == obj.0 + 8 * i && words@[i].1
                    == spec_load(space.memory@, obj.0 + 8 * i - space.start.0),
    {
        let mut words: Vec<(Address, u64)> = Vec::new();
        let mut cur_addr = obj;
        let end = obj.plus(length);
        while cur_addr.0 < end.0
            invariant
                space.wf(),
                space.start.0 <= obj.0,
                obj.0 + 8 * ((length + 7) / 8) <= space.end.0,
                end.0 == obj.0 + length,
                cur_addr.0 == obj.0 + 8 * words@.len(),
                words@.len() <= (length + 7) / 8,
                cur_addr.0 < end.0 ==> words@.len() < (length + 7) / 8,
                cur_addr.0 >= end.0 ==> words@.len() == (length + 7) / 8,
                forall|i: int|
                    0 <= i < words@.len() ==> (#[trigger] words@[i]).0.0 == obj.0 + 8 * i
                        && words@[i].1 == spec_load(space.memory@, obj.0 + 8 * i - space.start.0),
            decreases (length + 7) / 8 - words@.len(),
        {
            let v = space.load_u64(cur_addr);
            words.push((cur_addr, v));
            cur_addr = cur_addr.plus(8);
            assert(cur_addr.0 < end.0 ==> words@.len() < (length + 7) / 8) by (nonlinear_arith)
                requires
                    cur_addr.0 == obj.0 + 8 * words@.len(),
                    end.0 == obj.0 + length,
            ;
            assert(cur_addr.0 >= end.0 ==> words@.len() == (length + 7) / 8) by (nonlinear_arith)
                requires
                    cur_addr.0 == obj.0 + 8 * words@.len(),
                    end.0 == obj.0 + length,
                    cur_addr.0 - 8 < end.0,
            ;
        }
        words
    }
}

} // verus!
