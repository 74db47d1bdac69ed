//! The allocation side of the GCBench benchmark: it builds binary trees of
//! nodes, each node two references and two integers, in the Immix space.
#![allow(non_snake_case)]
use vstd::prelude::*;
use vstd::arithmetic::power2::pow2;
use crate::common::{Address, is_power_of_two, lemma_pointer_size_is_power_of_two, spec_align_up};
use crate::heap::immix::{ImmixSpace, ImmixMutatorLocal, ImmixMutatorGlobal};
use crate::heap::immix::immix_space::{spec_load, spec_store, lemma_load_after_store};
use crate::heap::immix::immix_mutator::{encoding_at, blocks_distinct, held_no_fit, no_usable_fit, flags_raised};

verus! {

pub const kStretchTreeDepth: i32 = 18;

pub const kLongLivedTreeDepth: i32 = 16;

pub const kArraySize: i32 = 500000;

pub const kMinTreeDepth: i32 = 4;

pub const kMaxTreeDepth: i32 = 16;

/// The size of a node: two references and two 32-bit integers.
pub const NODE_SIZE: usize = 24;

/// The encoding of a node: a short encoding whose first two words are
/// references.
pub const NODE_ENCODING: u8 = 0b1100_0011;

/// The number of nodes `MakeTree` allocates for depth `depth`.
pub open spec fn make_tree_nodes(depth: int) -> nat
    decreases depth,
{
    if depth <= 0 {
        1
    } else {
        2 * make_tree_nodes(depth - 1) + 1
    }
}

/// The number of nodes `Populate` allocates below a node for depth `depth`.
pub open spec fn populate_nodes(depth: int) -> nat
    decreases depth,
{
    if depth <= 0 {
        0
    } else {
        2 + 2 * populate_nodes(depth - 1)
    }
}

/// The window of the mutator has room for `n` more nodes.
pub open spec fn window_holds(m: &ImmixMutatorLocal, n: int) -> bool {
    spec_align_up(m.spec_cursor() as int, 8) + NODE_SIZE * n <= m.spec_limit()
}

/// `new_m` is `old_m` with `n` nodes bumped off its window.
pub open spec fn bumped(old_m: &ImmixMutatorLocal, new_m: &ImmixMutatorLocal, n: int) -> bool {
    &&& new_m.spec_cursor() == if n == 0 {
        old_m.spec_cursor() as int
    } else {
        spec_align_up(old_m.spec_cursor() as int, 8) + NODE_SIZE * n
    }
    &&& new_m.spec_limit() == old_m.spec_limit()
    &&& new_m.spec_line() == old_m.spec_line()
    &&& new_m.spec_block() == old_m.spec_block()
}

/// Rounding up to eight: it does not go down, it gives a multiple of eight,
/// and it keeps a multiple of eight.
proof fn lemma_align8(x: int)
    requires
        x >= 0,
    ensures
        x <= spec_align_up(x, 8) <= x + 7,
        spec_align_up(x, 8) % 8 == 0,
        x % 8 == 0 ==> spec_align_up(x, 8) == x,
{
    assert(((x + 7) / 8) * 8 % 8 == 0) by (nonlinear_arith);
    assert(x <= ((x + 7) / 8) * 8 <= x + 7) by (nonlinear_arith)
        requires
            x >= 0,
    ;
    assert(x % 8 == 0 ==> ((x + 7) / 8) * 8 == x) by (nonlinear_arith)
        requires
            x >= 0,
    ;
}

/// The number of nodes of a complete binary tree of depth `i`.
pub open spec fn tree_size(i: int) -> int {
    pow2((i + 1) as nat) - 1
}

pub fn TreeSize(i: i32) -> (r: i32)
    requires
        -1 <= i <= 29,
    ensures
        r == tree_size(i as int),
{
    let s = (i + 1) as u32;
    proof {
        vstd::arithmetic::power2::lemma_pow2_strictly_increases(s as nat, 31);
        vstd::arithmetic::power2::lemma2_to64();
        vstd::bits::lemma_u32_shl_is_mul(1u32, s);
        vstd::arithmetic::power2::lemma_pow2_pos(s as nat);
    }
    let p = 1u32 << s;
    (p as i32) - 1
}

/// The number of trees of depth `i` that hold as many nodes as two trees of
/// the stretch depth.
pub fn NumIters(i: i32) -> (r: i32)
    requires
        0 <= i <= 29,
    ensures
        r == 2 * tree_size(kStretchTreeDepth as int) / tree_size(i as int),
{
    proof {
        vstd::arithmetic::power2::lemma2_to64();
        vstd::arithmetic::power2::lemma_pow2_strictly_increases(0, (i + 1) as nat);
    }
    let t = TreeSize(kStretchTreeDepth);
    let u = TreeSize(i);
    2 * t / u
}

pub fn PrintDiagnostics() {
}

/// The word of the space at address `p`.
pub open spec fn word_at(space: &ImmixSpace, p: int) -> int {
    spec_load(space.memory@, p - space.start.0) as int
}

/// A node lies at `n`: its bytes lie in the space, it is eight-aligned, and
/// the space records the node encoding for it.
pub open spec fn is_node(space: &ImmixSpace, n: int) -> bool {
    &&& space.start.0 <= n
    &&& n + NODE_SIZE <= space.end.0
    &&& n % 8 == 0
    &&& encoding_at(space, n) == NODE_ENCODING
}

/// The bytes of the node at `n` are bytes that `m0` could allocate in `s0`
/// and that `m` cannot allocate in `space`.
pub open spec fn node_taken(
    m0: &ImmixMutatorLocal,
    s0: &ImmixSpace,
    m: &ImmixMutatorLocal,
    space: &ImmixSpace,
    n: int,
) -> bool {
    forall|p: int|
        #![trigger m0.fresh_at(s0, p)]
        #![trigger m.fresh_at(space, p)]
        n <= p < n + NODE_SIZE ==> m0.fresh_at(s0, p) && !m.fresh_at(space, p)
}

proof fn lemma_node_taken_at(
    m0: &ImmixMutatorLocal,
    s0: &ImmixSpace,
    m: &ImmixMutatorLocal,
    space: &ImmixSpace,
    n: int,
    p: int,
)
    requires
        node_taken(m0, s0, m, space, n),
        n <= p < n + NODE_SIZE,
    ensures
        m0.fresh_at(s0, p),
        !m.fresh_at(space, p),
{
}

/// The addresses of the nodes of the tree of depth `depth` rooted at `n`:
/// `n`, and above depth zero the nodes of the subtrees whose roots its first
/// two words hold.
pub open spec fn tree_nodes(space: &ImmixSpace, n: int, depth: int) -> Set<int>
    decreases depth,
{
    if depth > 0 {
        (tree_nodes(space, word_at(space, n), depth - 1) + tree_nodes(
            space,
            word_at(space, n + 8),
            depth - 1,
        )).insert(n)
    } else {
        set![n]
    }
}

/// Above depth zero, the two subtrees of the node at `n` share no node, and
/// neither holds `n`.
pub open spec fn subtrees_apart(space: &ImmixSpace, n: int, depth: int) -> bool {
    depth > 0 ==> {
        let l = tree_nodes(space, word_at(space, n), depth - 1);
        let r = tree_nodes(space, word_at(space, n + 8), depth - 1);
        &&& l.disjoint(r)
        &&& !l.contains(n)
        &&& !r.contains(n)
    }
}

/// `n` is the root of a complete tree of depth `depth` in `space`: each of
/// its nodes is a node of the space whose bytes `m0` could allocate in `s0`
/// and `m` cannot allocate in `space`, and above depth zero the first two
/// words of a node hold the roots of its two subtrees, which share no node.
pub open spec fn built_tree(
    m0: &ImmixMutatorLocal,
    s0: &ImmixSpace,
    m: &ImmixMutatorLocal,
    space: &ImmixSpace,
    n: int,
    depth: int,
) -> bool
    decreases depth,
{
    &&& is_node(space, n)
    &&& node_taken(m0, s0, m, space, n)
    &&& subtrees_apart(space, n, depth)
    &&& if depth > 0 {
        &&& built_tree(m0, s0, m, space, word_at(space, n), depth - 1)
        &&& built_tree(m0, s0, m, space, word_at(space, n + 8), depth - 1)
    } else {
        true
    }
}

/// A tree stays built through writes that avoid the bytes its nodes lie in.
proof fn lemma_built_tree_frame(
    m0: &ImmixMutatorLocal,
    s0: &ImmixSpace,
    m1: &ImmixMutatorLocal,
    s1: &ImmixSpace,
    m2: &ImmixMutatorLocal,
    s2: &ImmixSpace,
    lo: int,
    hi: int,
    n: int,
    depth: int,
)
    requires
        s1.wf(),
        built_tree(m0, s0, m1, s1, n, depth),
        ImmixMutatorLocal::writes_within(m1, s1, m2, s2, lo, hi),
        forall|p: int| lo <= p < hi ==> !m0.fresh_at(s0, p),
    ensures
        built_tree(m0, s0, m2, s2, n, depth),
        tree_nodes(s2, n, depth) == tree_nodes(s1, n, depth),
    decreases depth,
{
    assert forall|p: int| n <= p < n + NODE_SIZE implies #[trigger] m0.fresh_at(s0, p) by {
        lemma_node_taken_at(m0, s0, m1, s1, n, p);
    }
    assert forall|p: int| n <= p < n + NODE_SIZE implies !#[trigger] m2.fresh_at(s2, p) by {
        lemma_node_taken_at(m0, s0, m1, s1, n, p);
        reveal(ImmixMutatorLocal::writes_within);
    }
    lemma_node_taken_at(m0, s0, m1, s1, n, n);
    assert(is_node(s2, n)) by {
        reveal(ImmixMutatorLocal::writes_within);
        assert(encoding_at(s2, n) == encoding_at(s1, n));
    }
    if depth > 0 {
        let o = n - s1.start.0;
        assert(s2.memory@.subrange(o, o + 8) =~= s1.memory@.subrange(o, o + 8)) by {
            reveal(ImmixMutatorLocal::writes_within);
            assert forall|k: int| 0 <= k < 8 implies #[trigger] s2.memory@.subrange(o, o + 8)[k]
                == s1.memory@.subrange(o, o + 8)[k] by {
                lemma_node_taken_at(m0, s0, m1, s1, n, n + k);
                reveal(ImmixMutatorLocal::writes_within);
                assert(s2.memory@[o + k] == s1.memory@[o + k]);
            }
        }
        assert(s2.memory@.subrange(o + 8, o + 16) =~= s1.memory@.subrange(o + 8, o + 16)) by {
            reveal(ImmixMutatorLocal::writes_within);
            assert forall|k: int| 0 <= k < 8 implies #[trigger] s2.memory@.subrange(o + 8, o + 16)[k]
                == s1.memory@.subrange(o + 8, o + 16)[k] by {
                lemma_node_taken_at(m0, s0, m1, s1, n, n + 8 + k);
                reveal(ImmixMutatorLocal::writes_within);
                assert(s2.memory@[o + 8 + k] == s1.memory@[o + 8 + k]);
            }
        }
        assert(word_at(s2, n) == word_at(s1, n) && word_at(s2, n + 8) == word_at(s1, n + 8)) by {
            reveal(ImmixMutatorLocal::writes_within);
        }
        lemma_built_tree_frame(m0, s0, m1, s1, m2, s2, lo, hi, word_at(s1, n), depth - 1);
        lemma_built_tree_frame(m0, s0, m1, s1, m2, s2, lo, hi, word_at(s1, n + 8), depth - 1);
        assert(tree_nodes(s2, n, depth) =~= tree_nodes(s1, n, depth));
    }
}

/// Every node of a built tree is one whose bytes `m0` could allocate in `s0`
/// and `m` cannot allocate in `space`.
proof fn lemma_tree_nodes_taken(
    m0: &ImmixMutatorLocal,
    s0: &ImmixSpace,
    m: &ImmixMutatorLocal,
    space: &ImmixSpace,
    n: int,
    depth: int,
)
    requires
        built_tree(m0, s0, m, space, n, depth),
    ensures
        forall|x: int|
            #[trigger] tree_nodes(space, n, depth).contains(x) ==> m0.fresh_at(s0, x) && !m.fresh_at(
                space,
                x,
            ),
    decreases depth,
{
    lemma_node_taken_at(m0, s0, m, space, n, n);
    if depth > 0 {
        lemma_tree_nodes_taken(m0, s0, m, space, word_at(space, n), depth - 1);
        lemma_tree_nodes_taken(m0, s0, m, space, word_at(space, n + 8), depth - 1);
    }
}

/// A built tree of depth `depth` has `make_tree_nodes(depth)` nodes.
pub proof fn lemma_built_tree_size(
    m0: &ImmixMutatorLocal,
    s0: &ImmixSpace,
    m: &ImmixMutatorLocal,
    space: &ImmixSpace,
    n: int,
    depth: int,
)
    requires
        built_tree(m0, s0, m, space, n, depth),
    ensures
        tree_nodes(space, n, depth).finite(),
        tree_nodes(space, n, depth).len() == make_tree_nodes(depth),
    decreases depth,
{
    if depth > 0 {
        let l = tree_nodes(space, word_at(space, n), depth - 1);
        let r = tree_nodes(space, word_at(space, n + 8), depth - 1);
        lemma_built_tree_size(m0, s0, m, space, word_at(space, n), depth - 1);
        lemma_built_tree_size(m0, s0, m, space, word_at(space, n + 8), depth - 1);
        vstd::set_lib::lemma_set_disjoint_lens(l, r);
        vstd::set::axiom_set_union_finite(l, r);
        vstd::set::axiom_set_insert_len(l + r, n);
        vstd::set::axiom_set_insert_finite(l + r, n);
    } else {
        assert(set![n].len() == 1) by {
            vstd::set::axiom_set_insert_len(Set::<int>::empty(), n);
        }
    }
}

/// A populated node of depth `depth` heads a tree of `make_tree_nodes(depth)`
/// nodes.
pub proof fn lemma_populated_size(
    m0: &ImmixMutatorLocal,
    s0: &ImmixSpace,
    m: &ImmixMutatorLocal,
    space: &ImmixSpace,
    n: int,
    depth: int,
)
    requires
        populated(m0, s0, m, space, n, depth),
    ensures
        tree_nodes(space, n, depth).finite(),
        tree_nodes(space, n, depth).len() == make_tree_nodes(depth),
{
    if depth > 0 {
        let l = tree_nodes(space, word_at(space, n), depth - 1);
        let r = tree_nodes(space, word_at(space, n + 8), depth - 1);
        lemma_built_tree_size(m0, s0, m, space, word_at(space, n), depth - 1);
        lemma_built_tree_size(m0, s0, m, space, word_at(space, n + 8), depth - 1);
        vstd::set_lib::lemma_set_disjoint_lens(l, r);
        vstd::set::axiom_set_union_finite(l, r);
        vstd::set::axiom_set_insert_len(l + r, n);
        vstd::set::axiom_set_insert_finite(l + r, n);
    } else {
        assert(set![n].len() == 1) by {
            vstd::set::axiom_set_insert_len(Set::<int>::empty(), n);
        }
    }
}

/// The node counts: `MakeTree` allocates `tree_size(depth)` nodes for a
/// depth of zero or more, and `Populate` one fewer, the node it starts from
/// being already there.
pub proof fn lemma_node_counts(depth: int)
    ensures
        make_tree_nodes(depth) == populate_nodes(depth) + 1,
        depth >= 0 ==> make_tree_nodes(depth) == tree_size(depth),
    decreases depth,
{
    if depth > 0 {
        lemma_node_counts(depth - 1);
        vstd::arithmetic::power2::lemma_pow2_unfold((depth + 1) as nat);
    } else if depth == 0 {
        vstd::arithmetic::power2::lemma_pow2_unfold(1);
        vstd::arithmetic::power2::lemma_pow2_unfold(0 + 1);
        assert(pow2(0) == 1) by {
            vstd::arithmetic::power2::lemma2_to64();
        }
    }
}

/// A tree whose nodes `ma` could allocate in `sa` is one whose nodes `m0`
/// could allocate in `s0`, when everything `ma` could allocate `m0` could.
proof fn lemma_built_tree_origin(
    m0: &ImmixMutatorLocal,
    s0: &ImmixSpace,
    ma: &ImmixMutatorLocal,
    sa: &ImmixSpace,
    m: &ImmixMutatorLocal,
    space: &ImmixSpace,
    n: int,
    depth: int,
)
    requires
        built_tree(ma, sa, m, space, n, depth),
        forall|p: int| #[trigger] ma.fresh_at(sa, p) ==> m0.fresh_at(s0, p),
    ensures
        built_tree(m0, s0, m, space, n, depth),
    decreases depth,
{
    assert forall|p: int| n <= p < n + NODE_SIZE implies #[trigger] m0.fresh_at(s0, p) by {
        lemma_node_taken_at(ma, sa, m, space, n, p);
    }
    assert forall|p: int| n <= p < n + NODE_SIZE implies !#[trigger] m.fresh_at(space, p) by {
        lemma_node_taken_at(ma, sa, m, space, n, p);
    }
    if depth > 0 {
        lemma_built_tree_origin(m0, s0, ma, sa, m, space, word_at(space, n), depth - 1);
        lemma_built_tree_origin(m0, s0, ma, sa, m, space, word_at(space, n + 8), depth - 1);
    }
}

/// Two stores into the first two words of the node at `me` write within
/// those two words.
proof fn lemma_node_stores_write_within(
    m: &ImmixMutatorLocal,
    s1: &ImmixSpace,
    s2: &ImmixSpace,
    me: int,
    l: u64,
    r: u64,
)
    requires
        s1.wf(),
        s2.same_tables(s1),
        s1.start.0 <= me,
        me + 16 <= s1.end.0,
        s2.memory@ == spec_store(spec_store(s1.memory@, me - s1.start.0, l), me + 8 - s1.start.0, r),
    ensures
        ImmixMutatorLocal::writes_within(m, s1, m, s2, me, me + 16),
        word_at(s2, me) == l,
        word_at(s2, me + 8) == r,
{
    reveal(ImmixMutatorLocal::writes_within);
    let o = me - s1.start.0;
    let mid = spec_store(s1.memory@, o, l);
    lemma_load_after_store(s1.memory@, o, l, o + 8);
    lemma_load_after_store(mid, o + 8, r, o);
    assert forall|p: int| #[trigger] m.fresh_at(s2, p) implies m.fresh_at(s1, p) by {
        if crate::heap::immix::immix_mutator::free_at(s2, p) {
            assert(crate::heap::immix::immix_mutator::free_at(s1, p));
        }
    }
}

proof fn lemma_word_index_distinct(p: int, a: int, st: int)
    requires
        p % 8 == 0,
        a % 8 == 0,
        st <= p,
        st <= a,
        p != a,
    ensures
        (p - st) / 8 != (a - st) / 8,
{
    assert((p - st) / 8 != (a - st) / 8) by (nonlinear_arith)
        requires
            p % 8 == 0,
            a % 8 == 0,
            st <= p,
            st <= a,
            p != a,
    ;
}

/// A node just allocated at `a` and given its encoding: the step writes
/// within what could be allocated, and the node is a tree of depth zero.
proof fn lemma_new_node(
    m0: &ImmixMutatorLocal,
    s0: &ImmixSpace,
    m1: &ImmixMutatorLocal,
    s1: &ImmixSpace,
    s2: &ImmixSpace,
    a: Address,
)
    requires
        ImmixMutatorLocal::alloc_post(m0, m1, s0, s1, NODE_SIZE, 8, Some(a)),
        s1.wf(),
        s1.alloc_map.covers(a),
        s2.start == s1.start,
        s2.end == s1.end,
        s2.memory == s1.memory,
        s2.line_mark_table == s1.line_mark_table,
        s2.alloc_map.spec_start() == s1.alloc_map.spec_start(),
        s2.alloc_map@ == s1.alloc_map@.update(s1.alloc_map.index_of(a), NODE_ENCODING),
    ensures
        ImmixMutatorLocal::writes_within(m0, s0, m1, s2, 0, 0),
        built_tree(m0, s0, m1, s2, a.0 as int, 0),
{
    ImmixMutatorLocal::lemma_alloc_narrows(m0, m1, s0, s1, NODE_SIZE, 8, Some(a));
    assert forall|p: int| #[trigger] m1.fresh_at(s2, p) == m1.fresh_at(s1, p) by {}
    assert(ImmixMutatorLocal::writes_within(m0, s0, m1, s2, 0, 0)) by {
        reveal(ImmixMutatorLocal::writes_within);
        assert forall|p: int|
            p % 8 == 0 && s0.start.0 <= p && p + 8 <= s0.end.0 && !m0.fresh_at(s0, p) implies #[trigger] encoding_at(
            s2,
            p,
        ) == encoding_at(s0, p) by {
            assert(m0.fresh_at(s0, a.0 as int));
            lemma_word_index_distinct(p, a.0 as int, s1.start.0 as int);
            assert(encoding_at(s2, p) == encoding_at(s1, p));
        }
    }
    assert forall|p: int| a.0 <= p < a.0 + NODE_SIZE implies #[trigger] m0.fresh_at(s0, p) by {}
    assert forall|p: int| a.0 <= p < a.0 + NODE_SIZE implies !#[trigger] m1.fresh_at(s2, p) by {}
    assert(node_taken(m0, s0, m1, s2, a.0 as int));
    assert(encoding_at(s2, a.0 as int) == NODE_ENCODING);
}

/// The last step of building a tree of depth `depth` bottom up: the trees
/// at `left` and `right` were built one after the other, a node was then
/// allocated at `res`, and its first two words were set to them.
proof fn lemma_join_trees(
    m0: &ImmixMutatorLocal,
    s0: &ImmixSpace,
    m1: &ImmixMutatorLocal,
    s1: &ImmixSpace,
    m2: &ImmixMutatorLocal,
    s2: &ImmixSpace,
    m3: &ImmixMutatorLocal,
    s3: &ImmixSpace,
    s4: &ImmixSpace,
    left: int,
    right: int,
    res: int,
    depth: int,
)
    requires
        depth > 0,
        s1.wf(),
        s2.wf(),
        ImmixMutatorLocal::writes_within(m0, s0, m1, s1, 0, 0),
        built_tree(m0, s0, m1, s1, left, depth - 1),
        ImmixMutatorLocal::writes_within(m1, s1, m2, s2, 0, 0),
        built_tree(m1, s1, m2, s2, right, depth - 1),
        ImmixMutatorLocal::writes_within(m2, s2, m3, s3, 0, 0),
        built_tree(m2, s2, m3, s3, res, 0),
        ImmixMutatorLocal::writes_within(m3, s3, m3, s4, res, res + 16),
        word_at(s4, res) == left,
        word_at(s4, res + 8) == right,
    ensures
        ImmixMutatorLocal::writes_within(m0, s0, m3, s4, 0, 0),
        built_tree(m0, s0, m3, s4, res, depth),
{
    assert forall|p: int| res <= p < res + NODE_SIZE implies #[trigger] m2.fresh_at(s2, p)
        && !m3.fresh_at(s3, p) by {
        lemma_node_taken_at(m2, s2, m3, s3, res, p);
    }
    ImmixMutatorLocal::lemma_writes_within_trans(m2, s2, m3, s3, m3, s4, 0, 0, res, res + 16, 0, 0);
    ImmixMutatorLocal::lemma_writes_within_trans(m1, s1, m2, s2, m3, s4, 0, 0, 0, 0, 0, 0);
    ImmixMutatorLocal::lemma_writes_within_trans(m0, s0, m1, s1, m3, s4, 0, 0, 0, 0, 0, 0);
    ImmixMutatorLocal::lemma_writes_within_narrows(m0, s0, m1, s1, 0, 0);
    ImmixMutatorLocal::lemma_writes_within_narrows(m1, s1, m2, s2, 0, 0);
    ImmixMutatorLocal::lemma_writes_within_narrows(m3, s3, m3, s4, res, res + 16);
    lemma_built_tree_frame(m0, s0, m1, s1, m3, s4, 0, 0, left, depth - 1);
    lemma_built_tree_frame(m1, s1, m2, s2, m3, s4, 0, 0, right, depth - 1);
    lemma_built_tree_origin(m0, s0, m1, s1, m3, s4, right, depth - 1);
    assert(is_node(s4, res)) by {
        reveal(ImmixMutatorLocal::writes_within);
        assert(encoding_at(s4, res) == encoding_at(s3, res));
    }
    assert forall|p: int| res <= p < res + NODE_SIZE implies #[trigger] m0.fresh_at(s0, p) by {
        assert(m2.fresh_at(s2, p));
        assert(m1.fresh_at(s1, p));
    }
    assert forall|p: int| res <= p < res + NODE_SIZE implies !#[trigger] m3.fresh_at(s4, p) by {
        assert(!m3.fresh_at(s3, p));
    }
    assert(node_taken(m0, s0, m3, s4, res));
    // the left tree was taken before the right one, and the node after both
    lemma_tree_nodes_taken(m0, s0, m1, s1, left, depth - 1);
    lemma_tree_nodes_taken(m1, s1, m2, s2, right, depth - 1);
    let l = tree_nodes(s4, left, depth - 1);
    let r = tree_nodes(s4, right, depth - 1);
    assert(l == tree_nodes(s1, left, depth - 1));
    assert(r == tree_nodes(s2, right, depth - 1));
    lemma_node_taken_at(m2, s2, m3, s3, res, res);
    assert(m2.fresh_at(s2, res));
    assert(m1.fresh_at(s1, res));
    assert forall|x: int| l.contains(x) implies !r.contains(x) by {
        assert(!m1.fresh_at(s1, x));
        if r.contains(x) {
            assert(tree_nodes(s2, right, depth - 1).contains(x));
        }
    }
    assert(l.disjoint(r));
    assert(!l.contains(res)) by {
        if l.contains(res) {
            assert(tree_nodes(s1, left, depth - 1).contains(res));
        }
    }
    assert(!r.contains(res)) by {
        if r.contains(res) {
            assert(tree_nodes(s2, right, depth - 1).contains(res));
        }
    }
    assert(subtrees_apart(s4, res, depth));
}

/// The subtrees of the node at `n` are built trees of depth `depth - 1`,
/// whose nodes `m0` could allocate in `s0`: with the node itself, a tree of
/// depth `depth`.
pub open spec fn populated(
    m0: &ImmixMutatorLocal,
    s0: &ImmixSpace,
    m: &ImmixMutatorLocal,
    space: &ImmixSpace,
    n: int,
    depth: int,
) -> bool {
    depth > 0 ==> {
        &&& subtrees_apart(space, n, depth)
        &&& built_tree(m0, s0, m, space, word_at(space, n), depth - 1)
        &&& built_tree(m0, s0, m, space, word_at(space, n + 8), depth - 1)
    }
}

/// A node stays a node, and stays taken, through any writes within what
/// could be allocated.
proof fn lemma_node_frame(
    m0: &ImmixMutatorLocal,
    s0: &ImmixSpace,
    m1: &ImmixMutatorLocal,
    s1: &ImmixSpace,
    m2: &ImmixMutatorLocal,
    s2: &ImmixSpace,
    lo: int,
    hi: int,
    n: int,
)
    requires
        built_tree(m0, s0, m1, s1, n, 0),
        ImmixMutatorLocal::writes_within(m1, s1, m2, s2, lo, hi),
    ensures
        built_tree(m0, s0, m2, s2, n, 0),
{
    ImmixMutatorLocal::lemma_writes_within_narrows(m1, s1, m2, s2, lo, hi);
    assert forall|p: int| n <= p < n + NODE_SIZE implies #[trigger] m0.fresh_at(s0, p) by {
        lemma_node_taken_at(m0, s0, m1, s1, n, p);
    }
    assert forall|p: int| n <= p < n + NODE_SIZE implies !#[trigger] m2.fresh_at(s2, p) by {
        lemma_node_taken_at(m0, s0, m1, s1, n, p);
    }
    lemma_node_taken_at(m0, s0, m1, s1, n, n);
    assert(is_node(s2, n)) by {
        reveal(ImmixMutatorLocal::writes_within);
        assert(encoding_at(s2, n) == encoding_at(s1, n));
    }
    assert(node_taken(m0, s0, m2, s2, n));
}

/// A word that writes avoid keeps its value.
proof fn lemma_word_kept(
    m1: &ImmixMutatorLocal,
    s1: &ImmixSpace,
    m2: &ImmixMutatorLocal,
    s2: &ImmixSpace,
    lo: int,
    hi: int,
    w: int,
)
    requires
        s1.wf(),
        ImmixMutatorLocal::writes_within(m1, s1, m2, s2, lo, hi),
        s1.start.0 <= w,
        w + 8 <= s1.end.0,
        forall|p: int| w <= p < w + 8 ==> !#[trigger] m1.fresh_at(s1, p) && !(lo <= p < hi),
    ensures
        word_at(s2, w) == word_at(s1, w),
{
    reveal(ImmixMutatorLocal::writes_within);
    let o = w - s1.start.0;
    assert(s2.memory@.subrange(o, o + 8) =~= s1.memory@.subrange(o, o + 8)) by {
        assert forall|k: int| 0 <= k < 8 implies #[trigger] s2.memory@.subrange(o, o + 8)[k]
            == s1.memory@.subrange(o, o + 8)[k] by {
            assert(!m1.fresh_at(s1, w + k));
            assert(!(lo <= w + k < hi));
            assert(s2.memory@[o + k] == s1.memory@[o + k]);
        }
    }
}

/// A node taken since `s0` whose subtrees were built since `sa` is the root
/// of a tree built since `s0`, when all that could be allocated at `sa`
/// could be at `s0`.
proof fn lemma_attach_subtrees(
    m0: &ImmixMutatorLocal,
    s0: &ImmixSpace,
    ma: &ImmixMutatorLocal,
    sa: &ImmixSpace,
    m: &ImmixMutatorLocal,
    space: &ImmixSpace,
    n: int,
    depth: int,
)
    requires
        built_tree(m0, s0, m, space, n, 0),
        populated(ma, sa, m, space, n, depth),
        forall|p: int| #[trigger] ma.fresh_at(sa, p) ==> m0.fresh_at(s0, p),
    ensures
        built_tree(m0, s0, m, space, n, depth),
{
    if depth > 0 {
        lemma_built_tree_origin(m0, s0, ma, sa, m, space, word_at(space, n), depth - 1);
        lemma_built_tree_origin(m0, s0, ma, sa, m, space, word_at(space, n + 8), depth - 1);
    }
}

/// The steps of populating the node at `this` to depth `depth`: two nodes
/// are allocated at `left` and `right`, `this` is set to them, and each is
/// populated to depth `depth - 1` in turn.
#[verifier::spinoff_prover]
proof fn lemma_populate_step(
    m0: &ImmixMutatorLocal,
    s0: &ImmixSpace,
    m1: &ImmixMutatorLocal,
    s1: &ImmixSpace,
    m2: &ImmixMutatorLocal,
    s2: &ImmixSpace,
    s3: &ImmixSpace,
    m4: &ImmixMutatorLocal,
    s4: &ImmixSpace,
    m5: &ImmixMutatorLocal,
    s5: &ImmixSpace,
    this: int,
    left: int,
    right: int,
    depth: int,
    ok_left: bool,
    ok_right: bool,
)
    requires
        depth > 0,
        s3.wf(),
        s4.wf(),
        s0.start.0 <= this,
        this + NODE_SIZE <= s0.end.0,
        ImmixMutatorLocal::writes_within(m0, s0, m1, s1, 0, 0),
        built_tree(m0, s0, m1, s1, left, 0),
        ImmixMutatorLocal::writes_within(m1, s1, m2, s2, 0, 0),
        built_tree(m1, s1, m2, s2, right, 0),
        ImmixMutatorLocal::writes_within(m2, s2, m2, s3, this, this + 16),
        word_at(s3, this) == left,
        word_at(s3, this + 8) == right,
        ImmixMutatorLocal::writes_within(m2, s3, m4, s4, left, left + 16),
        ok_left && (forall|p: int| left <= p < left + NODE_SIZE ==> !#[trigger] m2.fresh_at(s3, p))
            ==> populated(m2, s3, m4, s4, left, depth - 1),
        ImmixMutatorLocal::writes_within(m4, s4, m5, s5, right, right + 16),
        ok_right && (forall|p: int| right <= p < right + NODE_SIZE ==> !#[trigger] m4.fresh_at(s4, p))
            ==> populated(m4, s4, m5, s5, right, depth - 1),
    ensures
        ImmixMutatorLocal::writes_within(m0, s0, m5, s5, this, this + 16),
        ok_left && ok_right && (forall|p: int|
            this <= p < this + NODE_SIZE ==> !#[trigger] m0.fresh_at(s0, p)) ==> populated(
            m0,
            s0,
            m5,
            s5,
            this,
            depth,
        ),
{
    ImmixMutatorLocal::lemma_writes_within_narrows(m0, s0, m1, s1, 0, 0);
    ImmixMutatorLocal::lemma_writes_within_narrows(m1, s1, m2, s2, 0, 0);
    ImmixMutatorLocal::lemma_writes_within_narrows(m2, s2, m2, s3, this, this + 16);
    ImmixMutatorLocal::lemma_writes_within_narrows(m2, s3, m4, s4, left, left + 16);
    ImmixMutatorLocal::lemma_writes_within_narrows(m4, s4, m5, s5, right, right + 16);
    assert forall|p: int| left <= p < left + NODE_SIZE implies #[trigger] m0.fresh_at(s0, p)
        && !m1.fresh_at(s1, p) by {
        lemma_node_taken_at(m0, s0, m1, s1, left, p);
    }
    assert forall|p: int| right <= p < right + NODE_SIZE implies #[trigger] m1.fresh_at(s1, p)
        && !m2.fresh_at(s2, p) by {
        lemma_node_taken_at(m1, s1, m2, s2, right, p);
    }
    ImmixMutatorLocal::lemma_writes_within_trans(m0, s0, m1, s1, m2, s2, 0, 0, 0, 0, 0, 0);
    ImmixMutatorLocal::lemma_writes_within_trans(m0, s0, m2, s2, m2, s3, 0, 0, this, this + 16, this, this + 16);
    ImmixMutatorLocal::lemma_writes_within_trans(
        m0,
        s0,
        m2,
        s3,
        m4,
        s4,
        this,
        this + 16,
        left,
        left + 16,
        this,
        this + 16,
    );
    assert forall|p: int| right <= p < right + 16 implies m0.fresh_at(s0, p) || this <= p < this + 16 by {
        assert(m1.fresh_at(s1, p));
    }
    ImmixMutatorLocal::lemma_writes_within_trans(
        m0,
        s0,
        m4,
        s4,
        m5,
        s5,
        this,
        this + 16,
        right,
        right + 16,
        this,
        this + 16,
    );
    if ok_left && ok_right && (forall|p: int|
        this <= p < this + NODE_SIZE ==> !#[trigger] m0.fresh_at(s0, p)) {
        assert forall|p: int| left <= p < left + NODE_SIZE implies !#[trigger] m2.fresh_at(s3, p) by {
            assert(!m1.fresh_at(s1, p));
            assert(!m2.fresh_at(s2, p));
        }
        assert forall|p: int| right <= p < right + NODE_SIZE implies !#[trigger] m2.fresh_at(s3, p)
            && !m4.fresh_at(s4, p) by {
            assert(!m2.fresh_at(s2, p));
        }
        assert(populated(m2, s3, m4, s4, left, depth - 1));
        assert(populated(m4, s4, m5, s5, right, depth - 1));
        // the subtrees of `left` survive the population of `right`
        assert forall|p: int| left <= p < left + 16 implies !#[trigger] m4.fresh_at(s4, p) && !(right
            <= p < right + 16) by {
            assert(!m2.fresh_at(s3, p));
            if right <= p < right + 16 {
                assert(m1.fresh_at(s1, p));
            }
        }
        lemma_word_kept(m4, s4, m5, s5, right, right + 16, left);
        lemma_word_kept(m4, s4, m5, s5, right, right + 16, left + 8);
        if depth - 1 > 0 {
            lemma_built_tree_frame(m2, s3, m4, s4, m5, s5, right, right + 16, word_at(s4, left), depth - 2);
            lemma_built_tree_frame(m2, s3, m4, s4, m5, s5, right, right + 16, word_at(s4, left + 8), depth - 2);
        }
        assert(populated(m2, s3, m5, s5, left, depth - 1));
        lemma_node_frame(m0, s0, m1, s1, m2, s2, 0, 0, left);
        lemma_node_frame(m0, s0, m2, s2, m2, s3, this, this + 16, left);
        lemma_node_frame(m0, s0, m2, s3, m4, s4, left, left + 16, left);
        lemma_node_frame(m0, s0, m4, s4, m5, s5, right, right + 16, left);
        lemma_attach_subtrees(m0, s0, m2, s3, m5, s5, left, depth - 1);
        lemma_node_frame(m1, s1, m2, s2, m2, s3, this, this + 16, right);
        lemma_node_frame(m1, s1, m2, s3, m4, s4, left, left + 16, right);
        lemma_node_frame(m1, s1, m4, s4, m5, s5, right, right + 16, right);
        lemma_built_tree_origin(m0, s0, m1, s1, m5, s5, right, 0);
        lemma_attach_subtrees(m0, s0, m4, s4, m5, s5, right, depth - 1);
        // the words of `this` survive both populations
        assert forall|p: int| this <= p < this + 16 implies !#[trigger] m2.fresh_at(s3, p) && !(left
            <= p < left + 16) by {
            assert(!m0.fresh_at(s0, p));
        }
        assert forall|p: int| this <= p < this + 16 implies !#[trigger] m4.fresh_at(s4, p) && !(right
            <= p < right + 16) by {
            assert(!m0.fresh_at(s0, p));
        }
        assert(s3.start == s0.start && s3.end == s0.end);
        assert(s4.start == s0.start && s4.end == s0.end);
        lemma_word_kept(m2, s3, m4, s4, left, left + 16, this);
        assert forall|p: int| this + 8 <= p < this + 16 implies !#[trigger] m2.fresh_at(s3, p) && !(
        left <= p < left + 16) by {
            assert(!m0.fresh_at(s0, p));
        }
        lemma_word_kept(m2, s3, m4, s4, left, left + 16, this + 8);
        assert forall|p: int| this + 8 <= p < this + 16 implies !#[trigger] m4.fresh_at(s4, p) && !(
        right <= p < right + 16) by {
            assert(!m0.fresh_at(s0, p));
        }
        lemma_word_kept(m4, s4, m5, s5, right, right + 16, this);
        lemma_word_kept(m4, s4, m5, s5, right, right + 16, this + 8);
        // the two subtrees were taken at different times, and `this` before
        lemma_populated_apart(
            m0, s0, m1, s1, m2, s2, s3, m4, s4, m5, s5, this, left, right, depth,
        );
    }
}

/// The subtrees `Populate` hangs under `this` share no node, and neither
/// holds `this`: `left` was taken first, `right` next, then the nodes below
/// `left`, then those below `right`.
#[verifier::spinoff_prover]
proof fn lemma_populated_apart(
    m0: &ImmixMutatorLocal,
    s0: &ImmixSpace,
    m1: &ImmixMutatorLocal,
    s1: &ImmixSpace,
    m2: &ImmixMutatorLocal,
    s2: &ImmixSpace,
    s3: &ImmixSpace,
    m4: &ImmixMutatorLocal,
    s4: &ImmixSpace,
    m5: &ImmixMutatorLocal,
    s5: &ImmixSpace,
    this: int,
    left: int,
    right: int,
    depth: int,
)
    requires
        depth > 0,
        forall|p: int| #[trigger] m1.fresh_at(s1, p) ==> m0.fresh_at(s0, p),
        forall|p: int| #[trigger] m2.fresh_at(s2, p) ==> m1.fresh_at(s1, p),
        forall|p: int| #[trigger] m2.fresh_at(s3, p) ==> m2.fresh_at(s2, p),
        forall|p: int| #[trigger] m4.fresh_at(s4, p) ==> m2.fresh_at(s3, p),
        forall|p: int| #[trigger] m5.fresh_at(s5, p) ==> m4.fresh_at(s4, p),
        node_taken(m0, s0, m1, s1, left),
        node_taken(m1, s1, m2, s2, right),
        !m0.fresh_at(s0, this),
        word_at(s5, this) == left,
        word_at(s5, this + 8) == right,
        built_tree(m0, s0, m5, s5, left, depth - 1),
        built_tree(m0, s0, m5, s5, right, depth - 1),
        depth - 1 > 0 ==> {
            &&& word_at(s5, left) == word_at(s4, left)
            &&& word_at(s5, left + 8) == word_at(s4, left + 8)
            &&& built_tree(m2, s3, m4, s4, word_at(s4, left), depth - 2)
            &&& built_tree(m2, s3, m4, s4, word_at(s4, left + 8), depth - 2)
            &&& tree_nodes(s5, word_at(s4, left), depth - 2) == tree_nodes(s4, word_at(s4, left), depth - 2)
            &&& tree_nodes(s5, word_at(s4, left + 8), depth - 2) == tree_nodes(
                s4,
                word_at(s4, left + 8),
                depth - 2,
            )
            &&& built_tree(m4, s4, m5, s5, word_at(s5, right), depth - 2)
            &&& built_tree(m4, s4, m5, s5, word_at(s5, right + 8), depth - 2)
        },
    ensures
        subtrees_apart(s5, this, depth),
{
    lemma_node_taken_at(m0, s0, m1, s1, left, left);
    lemma_node_taken_at(m1, s1, m2, s2, right, right);
    lemma_tree_nodes_taken(m0, s0, m5, s5, left, depth - 1);
    lemma_tree_nodes_taken(m0, s0, m5, s5, right, depth - 1);
    let l = tree_nodes(s5, left, depth - 1);
    let r = tree_nodes(s5, right, depth - 1);
    if depth - 1 > 0 {
        let lc0 = word_at(s4, left);
        let lc1 = word_at(s4, left + 8);
        let rc0 = word_at(s5, right);
        let rc1 = word_at(s5, right + 8);
        lemma_tree_nodes_taken(m2, s3, m4, s4, lc0, depth - 2);
        lemma_tree_nodes_taken(m2, s3, m4, s4, lc1, depth - 2);
        lemma_tree_nodes_taken(m4, s4, m5, s5, rc0, depth - 2);
        lemma_tree_nodes_taken(m4, s4, m5, s5, rc1, depth - 2);
        let ld = tree_nodes(s5, lc0, depth - 2) + tree_nodes(s5, lc1, depth - 2);
        let rd = tree_nodes(s5, rc0, depth - 2) + tree_nodes(s5, rc1, depth - 2);
        assert(l == ld.insert(left));
        assert(r == rd.insert(right));
        assert forall|x: int| ld.contains(x) implies m2.fresh_at(s3, x) && !m4.fresh_at(s4, x) by {
            if tree_nodes(s5, lc0, depth - 2).contains(x) {
                assert(tree_nodes(s4, lc0, depth - 2).contains(x));
            } else {
                assert(tree_nodes(s4, lc1, depth - 2).contains(x));
            }
        }
        assert forall|x: int| rd.contains(x) implies #[trigger] m4.fresh_at(s4, x) by {
            if tree_nodes(s5, rc0, depth - 2).contains(x) {
            } else {
                assert(tree_nodes(s5, rc1, depth - 2).contains(x));
            }
        }
        assert forall|x: int| l.contains(x) implies !r.contains(x) by {
            if x == left {
                assert(!m1.fresh_at(s1, x));
                if rd.contains(x) {
                    assert(m4.fresh_at(s4, x));
                }
            } else {
                assert(ld.contains(x));
                assert(m2.fresh_at(s3, x));
                assert(m2.fresh_at(s2, x));
                if x == right {
                    assert(!m2.fresh_at(s2, right));
                }
                if rd.contains(x) {
                    assert(m4.fresh_at(s4, x));
                }
            }
        }
    } else {
        assert(l == set![left]);
        assert(r == set![right]);
        assert(!m1.fresh_at(s1, left));
        assert(m1.fresh_at(s1, right));
    }
    assert(l.disjoint(r));
}

/// Sets the two reference fields of the node at `me` to `l` and `r`.
pub fn init_Node(space: &mut ImmixSpace, me: Address, l: Address, r: Address)
    requires
        old(space).wf(),
        old(space).start.0 <= me.0,
        me.0 + 16 <= old(space).end.0,
    ensures
        final(space).wf(),
        final(space).same_tables(old(space)),
        final(space).memory@ == spec_store(
            spec_store(old(space).memory@, me.0 - old(space).start.0, l.0 as u64),
            me.0 + 8 - old(space).start.0,
            r.0 as u64,
        ),
{
    space.store_u64(me, l.0 as u64);
    space.store_u64(me.plus(8), r.0 as u64);
}

/// Allocates a node and writes its encoding, or `None` when the space has
/// no usable block left. The node is a tree of depth zero, and nothing
/// else changes but what the mutator could allocate. It comes back `None`
/// only when no run of free lines, in the held block from its next line on
/// or in a usable block, has room for a node; a node that fits in the
/// window is taken from it, and the node ends where the new window starts.
pub fn alloc_node(
    mutator: &mut ImmixMutatorLocal,
    space: &mut ImmixSpace,
    mutators: &mut Vec<Option<ImmixMutatorGlobal>>,
) -> (r: Option<Address>)
    requires
        old(mutator).wf(old(space)),
        old(space).end.0 + 32 <= usize::MAX,
    ensures
        r is Some ==> final(mutators)@ == old(mutators)@,
        r is None ==> flags_raised(old(mutators)@, final(mutators)@),
        final(mutator).wf(final(space)),
        final(space).start == old(space).start,
        final(space).end == old(space).end,
        ImmixMutatorLocal::writes_within(old(mutator), old(space), final(mutator), final(space), 0, 0),
        r matches Some(a) ==> built_tree(
            old(mutator),
            old(space),
            final(mutator),
            final(space),
            a.0 as int,
            0,
        ),
        r is None ==> final(mutator).is_reset() && final(space).usable_blocks@.len() == 0,
        r is None ==> spec_align_up(old(mutator).spec_cursor() as int, 8) + NODE_SIZE > old(
            mutator,
        ).spec_limit(),
        r is None && blocks_distinct(old(mutator), old(space)) ==> held_no_fit(
            old(mutator),
            old(space),
            NODE_SIZE as int,
            8,
        ) && no_usable_fit(old(space), NODE_SIZE as int, 8),
        window_holds(old(mutator), 1) ==> r == Some(
            Address(spec_align_up(old(mutator).spec_cursor() as int, 8) as usize),
        ) && bumped(old(mutator), final(mutator), 1),
        r matches Some(a) ==> a.0 + NODE_SIZE == final(mutator).spec_cursor(),
{
    proof {
        lemma_pointer_size_is_power_of_two();
    }
    match mutator.allocate(space, mutators, NODE_SIZE, 8) {
        Some(addr) => {
            assert((addr.0 - space.start.0) / 8 < (space.end.0 - space.start.0) / 8) by (nonlinear_arith)
                requires
                    space.start.0 <= addr.0,
                    addr.0 + 24 <= space.end.0,
            ;
            let ghost s1 = *space;
            let ghost m1 = *mutator;
            mutator.init_object(space, addr, NODE_ENCODING);
            proof {
                mutator.lemma_wf_other_maps(&s1, space);
                lemma_new_node(old(mutator), old(space), &m1, &s1, space, addr);
            }
            Some(addr)
        },
        None => {
            proof {
                ImmixMutatorLocal::lemma_alloc_narrows(
                    old(mutator),
                    mutator,
                    old(space),
                    space,
                    NODE_SIZE,
                    8,
                    None,
                );
            }
            None
        },
    }
}

/// Gives the node at `thisNode` two children, each with two children, down
/// to depth `iDepth`. Returns `false` when the space ran out of usable
/// blocks before the tree was complete. Only the first two words of
/// `thisNode` and what the mutator could allocate change; when the tree is
/// complete and `thisNode` lies in bytes the mutator could not allocate,
/// `thisNode` is the root of a complete tree of depth `iDepth`. When the
/// window has room for all the nodes it allocates, it completes the tree and
/// takes them from the window. For a depth of zero or less it changes
/// nothing. The complete tree has `populate_nodes(iDepth)` distinct nodes
/// below `thisNode`, and the two subtrees of each node share none.
#[verifier::spinoff_prover]
#[verifier::rlimit(40)]
pub fn Populate(
    iDepth: i32,
    thisNode: Address,
    mutator: &mut ImmixMutatorLocal,
    space: &mut ImmixSpace,
    mutators: &mut Vec<Option<ImmixMutatorGlobal>>,
) -> (complete: bool)
    requires
        old(mutator).wf(old(space)),
        old(space).end.0 + 32 <= usize::MAX,
        old(space).start.0 <= thisNode.0,
        thisNode.0 + NODE_SIZE <= old(space).end.0,
    ensures
        complete ==> final(mutators)@ == old(mutators)@,
        !complete ==> flags_raised(old(mutators)@, final(mutators)@),
        final(mutator).wf(final(space)),
        final(space).start == old(space).start,
        final(space).end == old(space).end,
        ImmixMutatorLocal::writes_within(
            old(mutator),
            old(space),
            final(mutator),
            final(space),
            thisNode.0 as int,
            thisNode.0 + 16,
        ),
        complete && (forall|p: int|
            thisNode.0 <= p < thisNode.0 + NODE_SIZE ==> !#[trigger] old(mutator).fresh_at(
                old(space),
                p,
            )) ==> populated(
            old(mutator),
            old(space),
            final(mutator),
            final(space),
            thisNode.0 as int,
            iDepth as int,
        ),
        !complete ==> final(mutator).is_reset() && final(space).usable_blocks@.len() == 0,
        iDepth <= 0 ==> complete && *final(mutator) == *old(mutator) && *final(space) == *old(space),
        complete && (forall|p: int|
            thisNode.0 <= p < thisNode.0 + NODE_SIZE ==> !#[trigger] old(mutator).fresh_at(
                old(space),
                p,
            )) ==> tree_nodes(final(space), thisNode.0 as int, iDepth as int).finite() && tree_nodes(
            final(space),
            thisNode.0 as int,
            iDepth as int,
        ).len() == populate_nodes(iDepth as int) + 1,
        window_holds(old(mutator), populate_nodes(iDepth as int) as int) ==> complete && bumped(
            old(mutator),
            final(mutator),
            populate_nodes(iDepth as int) as int,
        ),
    decreases iDepth,
{
    if iDepth <= 0 {
        proof {
            reveal(ImmixMutatorLocal::writes_within);
            assert(set![thisNode.0 as int].len() == 1) by {
                vstd::set::axiom_set_insert_len(Set::<int>::empty(), thisNode.0 as int);
            }
        }
        return true;
    }
    let ghost p = populate_nodes(iDepth - 1) as int;
    let ghost a0 = spec_align_up(old(mutator).spec_cursor() as int, 8);
    proof {
        assert(populate_nodes(iDepth as int) == 2 + 2 * p);
        lemma_align8(old(mutator).spec_cursor() as int);
        lemma_align8(a0 + NODE_SIZE);
        lemma_align8(a0 + NODE_SIZE * 2);
        lemma_align8(a0 + NODE_SIZE * (2 + p));
    }
    let left = match alloc_node(mutator, space, mutators) {
        Some(a) => a,
        None => {
            proof {
                ImmixMutatorLocal::lemma_writes_within_widen(
                    old(mutator),
                    old(space),
                    mutator,
                    space,
                    0,
                    0,
                    thisNode.0 as int,
                    thisNode.0 + 16,
                );
            }
            return false;
        },
    };
    let ghost m1 = *mutator;
    let ghost s1 = *space;
    let right = match alloc_node(mutator, space, mutators) {
        Some(a) => a,
        None => {
            proof {
                ImmixMutatorLocal::lemma_writes_within_trans(
                    old(mutator),
                    old(space),
                    &m1,
                    &s1,
                    mutator,
                    space,
                    0,
                    0,
                    0,
                    0,
                    thisNode.0 as int,
                    thisNode.0 + 16,
                );
                if window_holds(old(mutator), 2 + 2 * p) {
                    assert(window_holds(&m1, 1));
                }
            }
            return false;
        },
    };
    let ghost m2 = *mutator;
    let ghost s2 = *space;
    proof {
        lemma_node_taken_at(old(mutator), old(space), &m1, &s1, left.0 as int, left.0 as int);
        lemma_node_taken_at(&m1, &s1, &m2, &s2, right.0 as int, right.0 as int);
    }
    init_Node(space, thisNode, left, right);
    let ghost s3 = *space;
    proof {
        mutator.lemma_wf_other_maps(&s2, space);
        lemma_node_stores_write_within(
            mutator,
            &s2,
            space,
            thisNode.0 as int,
            left.0 as u64,
            right.0 as u64,
        );
        ImmixMutatorLocal::lemma_writes_within_trans(old(mutator), old(space), &m1, &s1, &m2, &s2, 0, 0, 0, 0, 0, 0);
        ImmixMutatorLocal::lemma_writes_within_trans(
            old(mutator),
            old(space),
            &m2,
            &s2,
            mutator,
            space,
            0,
            0,
            thisNode.0 as int,
            thisNode.0 + 16,
            thisNode.0 as int,
            thisNode.0 + 16,
        );
    }
    let ok_left = Populate(iDepth - 1, left, mutator, space, mutators);
    let ghost m4 = *mutator;
    let ghost s4 = *space;
    if !ok_left {
        proof {
            ImmixMutatorLocal::lemma_writes_within_narrows(old(mutator), old(space), &m1, &s1, 0, 0);
            assert forall|p: int| left.0 <= p < left.0 + 16 implies old(mutator).fresh_at(old(space), p)
                || thisNode.0 <= p < thisNode.0 + 16 by {
                lemma_node_taken_at(old(mutator), old(space), &m1, &s1, left.0 as int, p);
            }
            ImmixMutatorLocal::lemma_writes_within_trans(
                old(mutator),
                old(space),
                &m2,
                &s3,
                mutator,
                space,
                thisNode.0 as int,
                thisNode.0 + 16,
                left.0 as int,
                left.0 + 16,
                thisNode.0 as int,
                thisNode.0 + 16,
            );
            if window_holds(old(mutator), 2 + 2 * p) {
                assert(window_holds(&m1, 1));
                assert(window_holds(&m2, p));
            }
        }
        return false;
    }
    let ok_right = Populate(iDepth - 1, right, mutator, space, mutators);
    proof {
        lemma_populate_step(
            old(mutator),
            old(space),
            &m1,
            &s1,
            &m2,
            &s2,
            &s3,
            &m4,
            &s4,
            mutator,
            space,
            thisNode.0 as int,
            left.0 as int,
            right.0 as int,
            iDepth as int,
            ok_left,
            ok_right,
        );
        if window_holds(old(mutator), 2 + 2 * p) {
            assert(window_holds(&m1, 1));
            assert(window_holds(&m2, p));
            assert(window_holds(&m4, p));
        }
        if ok_right && populated(old(mutator), old(space), mutator, space, thisNode.0 as int, iDepth as int) {
            lemma_populated_size(old(mutator), old(space), mutator, space, thisNode.0 as int, iDepth as int);
            lemma_node_counts(iDepth as int);
        }
    }
    ok_right
}

/// Builds a complete tree of depth `iDepth` bottom up and returns its root,
/// or `None` when the space ran out of usable blocks first (every
/// registered mutator is then asked to stop). Only what the mutator could
/// allocate changes. The tree has `make_tree_nodes(iDepth)` distinct nodes
/// (`tree_size(iDepth)` for a depth of zero or more), its two subtrees share
/// none, and the root is the node allocated last. When the window has room
/// for all its nodes, it succeeds and takes them from the window.
#[verifier::spinoff_prover]
#[verifier::rlimit(40)]
pub fn MakeTree(
    iDepth: i32,
    mutator: &mut ImmixMutatorLocal,
    space: &mut ImmixSpace,
    mutators: &mut Vec<Option<ImmixMutatorGlobal>>,
) -> (r: Option<Address>)
    requires
        old(mutator).wf(old(space)),
        old(space).end.0 + 32 <= usize::MAX,
    ensures
        r is Some ==> final(mutators)@ == old(mutators)@,
        r is None ==> flags_raised(old(mutators)@, final(mutators)@),
        final(mutator).wf(final(space)),
        final(space).start == old(space).start,
        final(space).end == old(space).end,
        ImmixMutatorLocal::writes_within(old(mutator), old(space), final(mutator), final(space), 0, 0),
        r matches Some(a) ==> built_tree(
            old(mutator),
            old(space),
            final(mutator),
            final(space),
            a.0 as int,
            iDepth as int,
        ),
        r is None ==> final(mutator).is_reset() && final(space).usable_blocks@.len() == 0,
        r matches Some(a) ==> a.0 + NODE_SIZE == final(mutator).spec_cursor(),
        r matches Some(a) ==> tree_nodes(final(space), a.0 as int, iDepth as int).finite() && tree_nodes(
            final(space),
            a.0 as int,
            iDepth as int,
        ).len() == make_tree_nodes(iDepth as int),
        window_holds(old(mutator), make_tree_nodes(iDepth as int) as int) ==> r is Some && bumped(
            old(mutator),
            final(mutator),
            make_tree_nodes(iDepth as int) as int,
        ),
    decreases iDepth,
{
    if iDepth <= 0 {
        let r = alloc_node(mutator, space, mutators);
        proof {
            if r.is_some() {
                lemma_built_tree_size(old(mutator), old(space), mutator, space, r.unwrap().0 as int, iDepth as int);
            }
        }
        r
    } else {
        let ghost t = make_tree_nodes(iDepth - 1) as int;
        let ghost a0 = spec_align_up(old(mutator).spec_cursor() as int, 8);
        proof {
            assert(make_tree_nodes(iDepth as int) == 2 * t + 1);
            lemma_align8(old(mutator).spec_cursor() as int);
            lemma_align8(a0 + NODE_SIZE * t);
            lemma_align8(a0 + NODE_SIZE * (2 * t));
        }
        let left = match MakeTree(iDepth - 1, mutator, space, mutators) {
            Some(a) => a,
            None => {
                return None;
            },
        };
        let ghost m1 = *mutator;
        let ghost s1 = *space;
        let right = match MakeTree(iDepth - 1, mutator, space, mutators) {
            Some(a) => a,
            None => {
                proof {
                    ImmixMutatorLocal::lemma_writes_within_trans(
                        old(mutator),
                        old(space),
                        &m1,
                        &s1,
                        mutator,
                        space,
                        0,
                        0,
                        0,
                        0,
                        0,
                        0,
                    );
                    if window_holds(old(mutator), 2 * t + 1) {
                        assert(window_holds(&m1, t));
                    }
                }
                return None;
            },
        };
        let ghost m2 = *mutator;
        let ghost s2 = *space;
        let result = match alloc_node(mutator, space, mutators) {
            Some(a) => a,
            None => {
                proof {
                    ImmixMutatorLocal::lemma_writes_within_trans(
                        &m1,
                        &s1,
                        &m2,
                        &s2,
                        mutator,
                        space,
                        0,
                        0,
                        0,
                        0,
                        0,
                        0,
                    );
                    ImmixMutatorLocal::lemma_writes_within_trans(
                        old(mutator),
                        old(space),
                        &m1,
                        &s1,
                        mutator,
                        space,
                        0,
                        0,
                        0,
                        0,
                        0,
                        0,
                    );
                    if window_holds(old(mutator), 2 * t + 1) {
                        assert(window_holds(&m1, t));
                        assert(window_holds(&m2, 1));
                    }
                }
                return None;
            },
        };
        let ghost s3 = *space;
        proof {
            lemma_node_taken_at(&m2, &s2, mutator, space, result.0 as int, result.0 as int);
        }
        init_Node(space, result, left, right);
        proof {
            mutator.lemma_wf_other_maps(&s3, space);
            lemma_node_stores_write_within(
                mutator,
                &s3,
                space,
                result.0 as int,
                left.0 as u64,
                right.0 as u64,
            );
            lemma_join_trees(
                old(mutator),
                old(space),
                &m1,
                &s1,
                &m2,
                &s2,
                mutator,
                &s3,
                space,
                left.0 as int,
                right.0 as int,
                result.0 as int,
                iDepth as int,
            );
            if window_holds(old(mutator), 2 * t + 1) {
                assert(window_holds(&m1, t));
                assert(window_holds(&m2, 1));
            }
            lemma_built_tree_size(old(mutator), old(space), mutator, space, result.0 as int, iDepth as int);
        }
        Some(result)
    }
}

} // verus!
