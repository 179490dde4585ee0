//! The flat layout of a k-means ball tree: each node names its centre vector
//! and the range of node slots that hold its children.
use vstd::prelude::*;

verus! {

/// A node of a k-means ball tree. `child_start..child_end` are the slots of its
/// children; a leaf has `child_start == -1`.
#[derive(Clone, Copy, PartialEq, Eq, Structural, Debug)]
pub struct BKTNode {
    pub center_id: i32,
    pub child_start: i32,
    pub child_end: i32,
}

/// A forest of k-means ball trees stored as one array of nodes.
pub struct BKTree {
    nodes: Vec<BKTNode>,
    num_trees: usize,
    k_means: usize,
    samples: usize,
}

/// Slots of the children of `n`: empty for a leaf and for an empty range.
pub open spec fn child_slots(n: BKTNode) -> Seq<int> {
    if n.child_start >= 0 && n.child_end > n.child_start {
        Seq::new((n.child_end - n.child_start) as nat, |j: int| n.child_start + j)
    } else {
        Seq::empty()
    }
}

/// Children sit in later slots than their parent, so every walk down the tree
/// ends.
pub open spec fn children_after_parent(nodes: Seq<BKTNode>) -> bool {
    forall|i: int| 0 <= i < nodes.len() && (#[trigger] nodes[i]).child_start >= 0
        ==> nodes[i].child_start > i
}

/// Distance from slot `i` to the end of the node array, as a termination measure.
pub open spec fn slots_left(nodes: Seq<BKTNode>, i: int) -> nat {
    if 0 <= i < nodes.len() { (nodes.len() - i) as nat } else { 0 }
}

/// Centres met by a pre-order walk from slot `i`: the centre of `i`, then the
/// walks from its children in slot order. A slot past the end adds nothing.
pub open spec fn walk_centers(nodes: Seq<BKTNode>, i: int) -> Seq<usize>
    decreases slots_left(nodes, i), 1nat, 0nat,
{
    if 0 <= i < nodes.len() {
        seq![nodes[i].center_id as usize] + walk_children(nodes, i, child_slots(nodes[i]).len())
    } else {
        Seq::empty()
    }
}

/// Walks from the first `m` children of slot `i`, one after the other. A
/// child slot that is not after `i` is skipped (no such slot in a tree whose
/// children come after their parent).
pub open spec fn walk_children(nodes: Seq<BKTNode>, i: int, m: nat) -> Seq<usize>
    decreases slots_left(nodes, i), 0nat, m,
{
    if m == 0 || !(0 <= i < nodes.len()) || m > child_slots(nodes[i]).len() {
        Seq::empty()
    } else {
        let c = child_slots(nodes[i])[m - 1];
        let rest = walk_children(nodes, i, (m - 1) as nat);
        if c > i {
            rest + walk_centers(nodes, c)
        } else {
            rest
        }
    }
}

impl BKTree {
    pub closed spec fn spec_nodes(&self) -> Seq<BKTNode> {
        self.nodes@
    }

    pub closed spec fn spec_num_trees(&self) -> usize {
        self.num_trees
    }

    pub closed spec fn spec_k_means(&self) -> usize {
        self.k_means
    }

    pub closed spec fn spec_samples(&self) -> usize {
        self.samples
    }

    /// An empty forest of `num_trees` trees with `k_means` children per node,
    /// trained on `samples` vectors.
    pub fn new(num_trees: usize, k_means: usize, samples: usize) -> (t: Self)
        ensures
            t.spec_nodes() == Seq::<BKTNode>::empty(),
            t.spec_num_trees() == num_trees,
            t.spec_k_means() == k_means,
            t.spec_samples() == samples,
    {
        BKTree { nodes: Vec::new(), num_trees, k_means, samples }
    }

    pub fn num_trees(&self) -> (r: usize)
        ensures
            r == self.spec_num_trees(),
    {
        self.num_trees
    }

    pub fn k_means(&self) -> (r: usize)
        ensures
            r == self.spec_k_means(),
    {
        self.k_means
    }

    pub fn samples(&self) -> (r: usize)
        ensures
            r == self.spec_samples(),
    {
        self.samples
    }

    pub fn nodes(&self) -> (r: &[BKTNode])
        ensures
            r@ == self.spec_nodes(),
    {
        self.nodes.as_slice()
    }

    /// Removes every node.
    pub fn clear(&mut self)
        ensures
            final(self).spec_nodes() == Seq::<BKTNode>::empty(),
            final(self).spec_num_trees() == old(self).spec_num_trees(),
            final(self).spec_k_means() == old(self).spec_k_means(),
            final(self).spec_samples() == old(self).spec_samples(),
    {
        self.nodes.clear();
    }

    /// Appends a node and returns its slot.
    pub fn push_node(&mut self, node: BKTNode) -> (slot: usize)
        ensures
            slot == old(self).spec_nodes().len(),
            final(self).spec_nodes() == old(self).spec_nodes().push(node),
            final(self).spec_num_trees() == old(self).spec_num_trees(),
            final(self).spec_k_means() == old(self).spec_k_means(),
            final(self).spec_samples() == old(self).spec_samples(),
    {
        let slot = self.nodes.len();
        self.nodes.push(node);
        slot
    }

    /// Sets the child range of the node in `slot`.
    pub fn set_children(&mut self, slot: usize, child_start: i32, child_end: i32)
        requires
            slot < old(self).spec_nodes().len(),
        ensures
            final(self).spec_nodes() == old(self).spec_nodes().update(
                slot as int,
                BKTNode { child_start, child_end, ..old(self).spec_nodes()[slot as int] },
            ),
            final(self).spec_num_trees() == old(self).spec_num_trees(),
            final(self).spec_k_means() == old(self).spec_k_means(),
            final(self).spec_samples() == old(self).spec_samples(),
    {
        let n = self.nodes[slot];
        self.nodes.set(slot, BKTNode { center_id: n.center_id, child_start, child_end });
    }

    /// Whether every node's children sit in later slots (see
    /// `children_after_parent`), so that the walk from any slot ends.
    pub fn children_follow_parents(&self) -> (r: bool)
        ensures
            r == children_after_parent(self.spec_nodes()),
    {
        let n = self.nodes.len();
        let mut i: usize = 0;
        while i < n
            invariant
                n == self.nodes@.len(),
                i <= n,
                forall|j: int| 0 <= j < i && (#[trigger] self.nodes@[j]).child_start >= 0
                    ==> self.nodes@[j].child_start > j,
            decreases n - i,
        {
            let node = self.nodes[i];
            if node.child_start >= 0 && node.child_start as usize <= i {
                return false;
            }
            i = i + 1;
        }
        true
    }

    /// Centres met by the search walk from slot `node`: the node's centre, then
    /// the walks from its children in slot order (a slot past the end adds
    /// nothing). Each centre is then scored against the query.
    pub fn walk_centers(&self, node: usize) -> (r: Vec<usize>)
        requires
            children_after_parent(self.spec_nodes()),
        ensures
            r@ == walk_centers(self.spec_nodes(), node as int),
        decreases slots_left(self.spec_nodes(), node as int),
    {
        let mut out: Vec<usize> = Vec::new();
        self.walk_into(node, &mut out);
        assert(out@ =~= walk_centers(self.spec_nodes(), node as int));
        out
    }

    fn walk_into(&self, node: usize, out: &mut Vec<usize>)
        requires
            children_after_parent(self.spec_nodes()),
        ensures
            final(out)@ == old(out)@ + walk_centers(self.spec_nodes(), node as int),
        decreases slots_left(self.spec_nodes(), node as int), 1nat,
    {
        let ghost nodes = self.spec_nodes();
        if node >= self.nodes.len() {
            assert(old(out)@ + walk_centers(nodes, node as int) =~= old(out)@);
            return;
        }
        let n = self.nodes[node];
        out.push(n.center_id as usize);
        if n.child_start >= 0 && n.child_end > n.child_start {
            let start = n.child_start as usize;
            let end = n.child_end as usize;
            let mut c = start;
            while c < end
                invariant
                    nodes == self.spec_nodes(),
                    children_after_parent(nodes),
                    node < nodes.len(),
                    n == nodes[node as int],
                    start == n.child_start,
                    end == n.child_end,
                    start > node,
                    start <= c <= end,
                    child_slots(n).len() == end - start,
                    out@ == old(out)@ + seq![n.center_id as usize] + walk_children(nodes, node as int, (c - start) as nat),
                decreases end - c,
            {
                let ghost before = out@;
                self.walk_into(c, out);
                proof {
                    assert(child_slots(n)[(c - start) as int] == c);
                    assert(walk_children(nodes, node as int, (c - start + 1) as nat)
                        == walk_children(nodes, node as int, (c - start) as nat) + walk_centers(nodes, c as int));
                    assert(out@ =~= old(out)@ + seq![n.center_id as usize] + walk_children(nodes, node as int, (c - start + 1) as nat));
                }
                c = c + 1;
            }
            assert(out@ =~= old(out)@ + walk_centers(nodes, node as int));
        } else {
            assert(child_slots(n).len() == 0);
            assert(out@ =~= old(out)@ + walk_centers(nodes, node as int));
        }
    }
}

} // verus!
