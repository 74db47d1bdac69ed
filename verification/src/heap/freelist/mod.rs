//! The large object space: each object is one node, its memory obtained from
//! an outside allocator, and a sweep returns the memory of every node that the
//! last trace did not mark live.
use vstd::prelude::*;
use crate::common::Address;
use crate::heap::immix::{ImmixMutatorGlobal, ImmixMutatorLocal};
use crate::heap::immix::immix_mutator::flag_raised;

verus! {

/// The mark of a large object.
#[derive(PartialEq, Eq, Structural, Copy, Clone, Debug)]
pub enum NodeMark {
    FreshAlloc,
    PrevLive,
    Live,
}

/// One large object: `size` bytes from `start`.
pub struct FreeListNode {
    id: usize,
    start: Address,
    size: usize,
    mark: NodeMark,
}

/// The large objects, most recent first, with the bytes they take and the
/// number of bytes the space may hold.
pub struct FreeListSpace {
    current_nodes: Vec<FreeListNode>,
    node_id: usize,
    size: usize,
    used_bytes: usize,
}

/// The total size of the nodes.
pub open spec fn total_size(nodes: Seq<FreeListNode>) -> int
    decreases nodes.len(),
{
    if nodes.len() == 0 {
        0
    } else {
        total_size(nodes.drop_last()) + nodes.last().spec_size()
    }
}

/// The node was marked live by the last trace.
pub open spec fn is_live_node(n: FreeListNode) -> bool {
    n.spec_mark() == NodeMark::Live
}

/// The nodes a sweep keeps: the live ones, in order, now marked as live in
/// the previous collection.
pub open spec fn kept_nodes(nodes: Seq<FreeListNode>) -> Seq<FreeListNode>
    decreases nodes.len(),
{
    if nodes.len() == 0 {
        Seq::empty()
    } else if is_live_node(nodes.last()) {
        kept_nodes(nodes.drop_last()).push(nodes.last().with_mark(NodeMark::PrevLive))
    } else {
        kept_nodes(nodes.drop_last())
    }
}

/// The memory a sweep releases: the start of each node that is not live, in
/// order.
pub open spec fn freed_starts(nodes: Seq<FreeListNode>) -> Seq<Address>
    decreases nodes.len(),
{
    if nodes.len() == 0 {
        Seq::empty()
    } else if is_live_node(nodes.last()) {
        freed_starts(nodes.drop_last())
    } else {
        freed_starts(nodes.drop_last()).push(Address(nodes.last().spec_start()))
    }
}

impl FreeListNode {
    pub closed spec fn spec_id(&self) -> usize {
        self.id
    }

    pub closed spec fn spec_start(&self) -> usize {
        self.start.0
    }

    pub closed spec fn spec_size(&self) -> usize {
        self.size
    }

    pub closed spec fn spec_mark(&self) -> NodeMark {
        self.mark
    }

    /// The node with its mark replaced.
    pub closed spec fn with_mark(&self, mark: NodeMark) -> FreeListNode {
        FreeListNode { mark: mark, ..*self }
    }

    /// The node `id` for `size` bytes from `start`, just allocated.
    pub closed spec fn fresh(id: usize, start: Address, size: usize) -> FreeListNode {
        FreeListNode { id: id, start: start, size: size, mark: NodeMark::FreshAlloc }
    }

    pub proof fn lemma_with_mark(&self, mark: NodeMark)
        ensures
            self.with_mark(mark).spec_mark() == mark,
            self.with_mark(mark).spec_id() == self.spec_id(),
            self.with_mark(mark).spec_start() == self.spec_start(),
            self.with_mark(mark).spec_size() == self.spec_size(),
    {
    }

    pub proof fn lemma_fresh(id: usize, start: Address, size: usize)
        ensures
            Self::fresh(id, start, size).spec_mark() == NodeMark::FreshAlloc,
            Self::fresh(id, start, size).spec_id() == id,
            Self::fresh(id, start, size).spec_start() == start.0,
            Self::fresh(id, start, size).spec_size() == size,
    {
    }

    pub fn set_mark(&mut self, mark: NodeMark)
        ensures
            *final(self) == old(self).with_mark(mark),
    {
        self.mark = mark;
    }

    pub fn id(&self) -> (r: usize)
        ensures
            r == self.spec_id(),
    {
        self.id
    }

    pub fn start(&self) -> (r: Address)
        ensures
            r.0 == self.spec_start(),
    {
        self.start
    }

    pub fn size(&self) -> (r: usize)
        ensures
            r == self.spec_size(),
    {
        self.size
    }

    pub fn mark(&self) -> (r: NodeMark)
        ensures
            r == self.spec_mark(),
    {
        self.mark
    }
}

impl View for FreeListSpace {
    type V = Seq<FreeListNode>;

    closed spec fn view(&self) -> Seq<FreeListNode> {
        self.current_nodes@
    }
}

impl FreeListSpace {
    pub closed spec fn spec_node_id(&self) -> usize {
        self.node_id
    }

    pub closed spec fn spec_size(&self) -> usize {
        self.size
    }

    pub closed spec fn spec_used_bytes(&self) -> usize {
        self.used_bytes
    }

    /// The bytes in use are those of the nodes, and fit in the space.
    pub open spec fn wf(&self) -> bool {
        &&& self.spec_used_bytes() == total_size(self@)
        &&& self.spec_used_bytes() <= self.spec_size()
    }

    /// An empty space that may hold `size` bytes.
    pub fn new(size: usize) -> (s: FreeListSpace)
        ensures
            s.wf(),
            s@.len() == 0,
            s.spec_node_id() == 0,
            s.spec_size() == size,
            s.spec_used_bytes() == 0,
    {
        FreeListSpace { current_nodes: Vec::new(), node_id: 0, size: size, used_bytes: 0 }
    }

    /// Marks the large object at `obj` live; large objects are not marked yet.
    pub fn mark(&mut self, obj: Address)
        ensures
            *final(self) == *old(self),
    {
    }

    /// Allocates `size` bytes aligned to `align` when the space has room for
    /// them: `allocate` obtains the memory, and a fresh node for it goes to
    /// the front. Returns `None`, changing nothing, when it has not. Whatever
    /// it returns, the bytes in use stay the total of the nodes' sizes and
    /// within the size of the space.
    pub fn allocate<F: FnOnce(usize, usize) -> Address>(
        &mut self,
        size: usize,
        align: usize,
        allocate: F,
    ) -> (r: Option<Address>)
        requires
            old(self).wf(),
            old(self).spec_node_id() < usize::MAX,
            call_requires(allocate, (size, align)),
        ensures
            final(self).wf(),
            final(self).spec_used_bytes() == total_size(final(self)@),
            final(self).spec_used_bytes() <= final(self).spec_size(),
            final(self).spec_size() == old(self).spec_size(),
            r is None <==> old(self).spec_used_bytes() + size > old(self).spec_size(),
            r is None ==> *final(self) == *old(self),
            r matches Some(a) ==> {
                &&& call_ensures(allocate, (size, align), a)
                &&& final(self)@ == seq![FreeListNode::fresh(old(self).spec_node_id(), a, size)]
                    + old(self)@
                &&& final(self).spec_node_id() == old(self).spec_node_id() + 1
                &&& final(self).spec_used_bytes() == old(self).spec_used_bytes() + size
            },
    {
        if size > self.size - self.used_bytes {
            None
        } else {
            let ret = allocate(size, align);
            let node = FreeListNode { id: self.node_id, start: ret, size: size, mark: NodeMark::FreshAlloc };
            self.current_nodes.insert(0, node);
            self.node_id += 1;
            self.used_bytes += size;
            proof {
                let s = self.current_nodes@;
                lemma_total_size_prepend(node, old(self)@);
                assert(s =~= seq![node] + old(self)@);
            }
            Some(ret)
        }
    }

    /// Keeps the nodes the last trace marked live, now marked as live in the
    /// previous collection, and drops the others. Returns the start of each
    /// dropped node, whose memory the caller gives back to the allocator.
    pub fn sweep(&mut self) -> (freed: Vec<Address>)
        requires
            old(self).wf(),
        ensures
            final(self).wf(),
            final(self)@ == kept_nodes(old(self)@),
            freed@ == freed_starts(old(self)@),
            freed@.len() + final(self)@.len() == old(self)@.len(),
            final(self).spec_used_bytes() == total_size(kept_nodes(old(self)@)),
            final(self).spec_size() == old(self).spec_size(),
            final(self).spec_node_id() == old(self).spec_node_id(),
    {
        let ghost nodes0 = self.current_nodes@;
        let mut ret: Vec<FreeListNode> = Vec::new();
        let mut freed: Vec<Address> = Vec::new();
        let mut used_bytes: usize = 0;
        let mut i: usize = 0;
        let n = self.current_nodes.len();
        proof {
            assert(nodes0.take(0) =~= Seq::<FreeListNode>::empty());
            lemma_kept_size_bounded(nodes0.take(0));
        }
        while i < n
            invariant
                n == nodes0.len(),
                self.current_nodes@ == nodes0,
                self.wf(),
                self.size == old(self).spec_size(),
                self.node_id == old(self).spec_node_id(),
                nodes0 == old(self)@,
                i <= n,
                ret@ == kept_nodes(nodes0.take(i as int)),
                freed@ == freed_starts(nodes0.take(i as int)),
                used_bytes == total_size(kept_nodes(nodes0.take(i as int))),
                total_size(kept_nodes(nodes0.take(i as int))) <= total_size(nodes0.take(i as int)),
            decreases n - i,
        {
            let ghost pre = nodes0.take(i as int);
            let ghost pre1 = nodes0.take(i + 1);
            let node_mark = self.current_nodes[i].mark;
            let node_start = self.current_nodes[i].start;
            let node_size = self.current_nodes[i].size;
            proof {
                assert(pre1.drop_last() =~= pre);
                assert(pre1.last() == nodes0[i as int]);
                lemma_total_size_prefix(nodes0, i as int);
                lemma_total_size_prefix_bounded(nodes0, i + 1);
                lemma_kept_step(pre1);
            }
            match node_mark {
                NodeMark::Live => {
                    let node = FreeListNode { id: self.current_nodes[i].id, start: node_start, size: node_size, mark: NodeMark::PrevLive };
                    assert(node == nodes0[i as int].with_mark(NodeMark::PrevLive));
                    used_bytes += node_size;
                    ret.push(node);
                    assert(ret@ =~= kept_nodes(pre1));
                    assert(freed@ =~= freed_starts(pre1));
                },
                NodeMark::PrevLive | NodeMark::FreshAlloc => {
                    freed.push(node_start);
                    assert(ret@ =~= kept_nodes(pre1));
                    assert(freed@ =~= freed_starts(pre1));
                },
            }
            i = i + 1;
        }
        proof {
            assert(nodes0.take(n as int) =~= nodes0);
            lemma_kept_size_bounded(kept_nodes(nodes0));
        }
        proof {
            lemma_sweep_partitions(nodes0);
        }
        self.current_nodes = ret;
        self.used_bytes = used_bytes;
        freed
    }

    pub fn current_nodes(&self) -> (r: &Vec<FreeListNode>)
        ensures
            r@ == self@,
    {
        &self.current_nodes
    }

    pub fn current_nodes_mut(&mut self) -> (r: &mut Vec<FreeListNode>)
        ensures
            r@ == old(self)@,
            final(self)@ == final(r)@,
            final(self).spec_node_id() == old(self).spec_node_id(),
            final(self).spec_size() == old(self).spec_size(),
            final(self).spec_used_bytes() == old(self).spec_used_bytes(),
    {
        &mut self.current_nodes
    }

    pub fn size(&self) -> (r: usize)
        ensures
            r == self.spec_size(),
    {
        self.size
    }

    pub fn used_bytes(&self) -> (r: usize)
        ensures
            r == self.spec_used_bytes(),
    {
        self.used_bytes
    }
}

proof fn lemma_total_size_prepend(node: FreeListNode, nodes: Seq<FreeListNode>)
    ensures
        total_size(seq![node] + nodes) == node.spec_size() + total_size(nodes),
    decreases nodes.len(),
{
    if nodes.len() > 0 {
        assert((seq![node] + nodes).drop_last() =~= seq![node] + nodes.drop_last());
        assert((seq![node] + nodes).last() == nodes.last());
        lemma_total_size_prepend(node, nodes.drop_last());
    } else {
        let whole = seq![node] + nodes;
        assert(whole.drop_last() =~= Seq::<FreeListNode>::empty());
        assert(whole.last() == node);
        assert(total_size(whole.drop_last()) == 0);
        assert(total_size(nodes) == 0);
    }
}

proof fn lemma_total_size_prefix(nodes: Seq<FreeListNode>, i: int)
    requires
        0 <= i < nodes.len(),
    ensures
        total_size(nodes.take(i + 1)) == total_size(nodes.take(i)) + nodes[i].spec_size(),
{
    assert(nodes.take(i + 1).drop_last() =~= nodes.take(i));
}

proof fn lemma_kept_step(pre1: Seq<FreeListNode>)
    requires
        pre1.len() > 0,
    ensures
        total_size(kept_nodes(pre1)) == total_size(kept_nodes(pre1.drop_last())) + if is_live_node(
            pre1.last(),
        ) {
            pre1.last().spec_size() as int
        } else {
            0int
        },
{
    let k = kept_nodes(pre1);
    if is_live_node(pre1.last()) {
        assert(k.drop_last() =~= kept_nodes(pre1.drop_last()));
        pre1.last().lemma_with_mark(NodeMark::PrevLive);
    }
}

proof fn lemma_total_size_prefix_bounded(nodes: Seq<FreeListNode>, i: int)
    requires
        0 <= i <= nodes.len(),
    ensures
        total_size(nodes.take(i)) <= total_size(nodes),
    decreases nodes.len() - i,
{
    if i < nodes.len() {
        lemma_total_size_prefix_bounded(nodes, i + 1);
        lemma_total_size_prefix(nodes, i);
    } else {
        assert(nodes.take(i) =~= nodes);
    }
}

proof fn lemma_kept_size_bounded(nodes: Seq<FreeListNode>)
    ensures
        total_size(kept_nodes(nodes)) <= total_size(nodes),
        0 <= total_size(nodes),
    decreases nodes.len(),
{
    if nodes.len() > 0 {
        lemma_kept_step(nodes);
        lemma_kept_size_bounded(nodes.drop_last());
    } else {
        assert(kept_nodes(nodes) =~= Seq::<FreeListNode>::empty());
    }
}

/// A sweep keeps or frees every node, and no node twice.
pub proof fn lemma_sweep_partitions(nodes: Seq<FreeListNode>)
    ensures
        kept_nodes(nodes).len() + freed_starts(nodes).len() == nodes.len(),
    decreases nodes.len(),
{
    if nodes.len() > 0 {
        lemma_sweep_partitions(nodes.drop_last());
    }
}

/// Allocates a large object for `mutator`: nothing when a collector asked the
/// mutator to stop, by the flag in its slot of `mutators`, else what `space.allocate` gives. `None` asks the caller
/// to collect and try again.
pub fn alloc_large<F: FnOnce(usize, usize) -> Address>(
    size: usize,
    align: usize,
    mutator: &mut ImmixMutatorLocal,
    mutators: &Vec<Option<ImmixMutatorGlobal>>,
    space: &mut FreeListSpace,
    allocate: F,
) -> (r: Option<Address>)
    requires
        old(space).wf(),
        old(space).spec_node_id() < usize::MAX,
        call_requires(allocate, (size, align)),
    ensures
        final(space).wf(),
        *final(mutator) == *old(mutator),
        flag_raised(mutators@, old(mutator).spec_id() as int) ==> r is None && *final(space) == *old(
            space,
        ),
        !flag_raised(mutators@, old(mutator).spec_id() as int) ==> {
            &&& (r is None <==> old(space).spec_used_bytes() + size > old(space).spec_size())
            &&& r is None ==> *final(space) == *old(space)
            &&& r matches Some(a) ==> {
                &&& call_ensures(allocate, (size, align), a)
                &&& final(space)@ == seq![FreeListNode::fresh(old(space).spec_node_id(), a, size)]
                    + old(space)@
                &&& final(space).spec_used_bytes() == old(space).spec_used_bytes() + size
            }
        },
{
    if mutator.yield_requested(mutators) {
        return None;
    }
    space.allocate(size, align, allocate)
}

} // verus!
