//! Head selection by hierarchical balanced clustering: a walk over the ball
//! tree that picks the centre of every cluster that is large enough, and the
//! centres of the largest sub-clusters of a cluster that is too large.
use vstd::prelude::*;
use crate::index::bktree_recursive::{BKTreeBuilder, BKTNode, node_info, tree_ordered, child_slots};

verus! {

/// Thresholds of the head selection: a cluster of at least `select_threshold`
/// nodes gives a head; one of more than `split_threshold` also gives heads for
/// its largest sub-clusters, one per `split_factor` nodes.
pub struct HBCSelector {
    select_threshold: usize,
    split_threshold: usize,
    split_factor: usize,
}

/// A child slot and the size of the cluster that it still leaves to its parent.
pub type ChildSize = (usize, usize);

/// Distance from slot `i` to the end of the node array, as a termination measure.
pub open spec fn slots_left(nodes: Seq<BKTNode>, i: int) -> nat {
    if 0 <= i < nodes.len() { (nodes.len() - i) as nat } else { 0 }
}

/// Inserts `x` after every entry at least as large, keeping equal sizes in the
/// order they came.
pub open spec fn insert_by_size(t: Seq<ChildSize>, x: ChildSize) -> Seq<ChildSize>
    decreases t.len(),
{
    if t.len() == 0 {
        seq![x]
    } else if t.last().1 >= x.1 {
        t.push(x)
    } else {
        insert_by_size(t.drop_last(), x).push(t.last())
    }
}

/// The entries sorted by size, largest first; entries of equal size keep their
/// order.
pub open spec fn sort_by_size(s: Seq<ChildSize>) -> Seq<ChildSize>
    decreases s.len(),
{
    if s.len() == 0 {
        Seq::empty()
    } else {
        insert_by_size(sort_by_size(s.drop_last()), s.last())
    }
}

/// Sum of the sizes.
pub open spec fn size_sum(s: Seq<ChildSize>) -> int
    decreases s.len(),
{
    if s.len() == 0 {
        0
    } else {
        size_sum(s.drop_last()) + s.last().1
    }
}

/// `a / b` rounded up.
pub open spec fn ceil_div(a: int, b: int) -> int {
    a / b + if a % b == 0 { 0int } else { 1int }
}

/// Heads picked by the walk from slot `i` and the size that its cluster leaves
/// to the parent. The walks from the children come first; then, when the
/// cluster (the node and what its children leave) has at least `sel` nodes,
/// its centre is picked and, when it has more than `split`, the centres of its
/// `ceil(size / factor)` largest children; such a cluster leaves nothing.
pub open spec fn hbc_walk(nodes: Seq<BKTNode>, i: int, sel: int, split: int, factor: int) -> (Seq<usize>, int)
    decreases slots_left(nodes, i), 1nat, 0nat,
{
    let info = node_info(nodes, i);
    let (picked, sizes) = hbc_children(nodes, i, info.1.len(), sel, split, factor);
    let total = 1 + size_sum(sizes);
    if total >= sel {
        let tops = if total > split {
            let n = if ceil_div(total, factor) < sizes.len() { ceil_div(total, factor) } else { sizes.len() as int };
            sort_by_size(sizes).take(n).map_values(|p: ChildSize| node_info(nodes, p.0 as int).0)
        } else {
            Seq::empty()
        };
        (picked + seq![info.0] + tops, 0)
    } else {
        (picked, total)
    }
}

/// Walks from the first `m` children of slot `i`: the heads they pick, in
/// order, and the children that leave a non-empty cluster with its size.
pub open spec fn hbc_children(nodes: Seq<BKTNode>, i: int, m: nat, sel: int, split: int, factor: int) -> (
    Seq<usize>,
    Seq<ChildSize>,
)
    decreases slots_left(nodes, i), 0nat, m,
{
    if m == 0 || !(0 <= i < nodes.len()) || m > child_slots(nodes[i]).len() {
        (Seq::empty(), Seq::empty())
    } else {
        let (p0, s0) = hbc_children(nodes, i, (m - 1) as nat, sel, split, factor);
        let c = child_slots(nodes[i])[m - 1];
        if c > i {
            let (p1, size) = hbc_walk(nodes, c as int, sel, split, factor);
            (p0 + p1, if size > 0 { s0.push((c, size as usize)) } else { s0 })
        } else {
            (p0, s0)
        }
    }
}

proof fn lemma_insert_at(t: Seq<ChildSize>, x: ChildSize, j: int)
    requires
        0 <= j <= t.len(),
        forall|i: int| j <= i < t.len() ==> #[trigger] t[i].1 < x.1,
        j == 0 || t[j - 1].1 >= x.1,
    ensures
        insert_by_size(t, x) == t.take(j).push(x) + t.skip(j),
    decreases t.len(),
{
    if t.len() == 0 {
        assert(t.take(j).push(x) + t.skip(j) =~= seq![x]);
    } else if j == t.len() {
        assert(t.last().1 >= x.1);
        assert(t.take(j).push(x) + t.skip(j) =~= t.push(x));
    } else {
        let d = t.drop_last();
        assert(t.last().1 < x.1);
        lemma_insert_at(d, x, j);
        assert(d.take(j).push(x) + d.skip(j) + seq![t.last()] =~= t.take(j).push(x) + t.skip(j));
        assert((d.take(j).push(x) + d.skip(j)).push(t.last()) =~= d.take(j).push(x) + d.skip(j) + seq![t.last()]);
    }
}

proof fn lemma_sort_len(s: Seq<ChildSize>)
    ensures
        sort_by_size(s).len() == s.len(),
    decreases s.len(),
{
    if s.len() > 0 {
        lemma_sort_len(s.drop_last());
        lemma_insert_len(sort_by_size(s.drop_last()), s.last());
    }
}

proof fn lemma_insert_len(t: Seq<ChildSize>, x: ChildSize)
    ensures
        insert_by_size(t, x).len() == t.len() + 1,
    decreases t.len(),
{
    if t.len() > 0 {
        lemma_insert_len(t.drop_last(), x);
    }
}

/// Sizes never grow along `s`: largest first.
pub open spec fn largest_first(s: Seq<ChildSize>) -> bool {
    forall|a: int, b: int| 0 <= a < b < s.len() ==> s[a].1 >= s[b].1
}

proof fn lemma_insert_props(t: Seq<ChildSize>, x: ChildSize)
    ensures
        insert_by_size(t, x).len() == t.len() + 1,
        insert_by_size(t, x).to_multiset() == t.to_multiset().insert(x),
        forall|a: int| 0 <= a < t.len() + 1 ==> insert_by_size(t, x)[a] == x || t.contains(#[trigger] insert_by_size(t, x)[a]),
        largest_first(t) ==> largest_first(insert_by_size(t, x)),
    decreases t.len(),
{
    broadcast use vstd::seq_lib::group_to_multiset_ensures;
    let r = insert_by_size(t, x);
    if t.len() == 0 {
        assert(seq![x] =~= Seq::<ChildSize>::empty().push(x));
    } else if t.last().1 >= x.1 {
        assert forall|a: int| 0 <= a < t.len() + 1 implies r[a] == x || t.contains(#[trigger] r[a]) by {
            if a < t.len() {
                assert(r[a] == t[a]);
            }
        }
        if largest_first(t) {
            assert forall|a: int, b: int| 0 <= a < b < r.len() implies r[a].1 >= r[b].1 by {
                if b == t.len() {
                    assert(r[a] == t[a]);
                    if a < t.len() - 1 {
                        assert(t[a].1 >= t[t.len() - 1].1);
                    }
                } else {
                    assert(r[a] == t[a] && r[b] == t[b]);
                }
            }
        }
    } else {
        let d = t.drop_last();
        let l = t.last();
        lemma_insert_props(d, x);
        let q = insert_by_size(d, x);
        assert(t =~= d.push(l));
        assert(r == q.push(l));
        assert(r.to_multiset() =~= t.to_multiset().insert(x));
        assert forall|a: int| 0 <= a < t.len() + 1 implies r[a] == x || t.contains(#[trigger] r[a]) by {
            if a < q.len() {
                assert(r[a] == q[a]);
                if q[a] != x {
                    let j = choose|j: int| 0 <= j < d.len() && d[j] == q[a];
                    assert(t[j] == d[j]);
                }
            } else {
                assert(r[a] == l);
                assert(t[t.len() - 1] == l);
            }
        }
        if largest_first(t) {
            assert(largest_first(d)) by {
                assert forall|a: int, b: int| 0 <= a < b < d.len() implies d[a].1 >= d[b].1 by {
                    assert(d[a] == t[a] && d[b] == t[b]);
                }
            }
            assert forall|a: int, b: int| 0 <= a < b < r.len() implies r[a].1 >= r[b].1 by {
                if b == q.len() {
                    assert(r[a] == q[a]);
                    assert(r[b] == l);
                    if q[a] == x {
                    } else {
                        let j = choose|j: int| 0 <= j < d.len() && d[j] == q[a];
                        assert(t[j] == d[j]);
                        assert(t[j].1 >= t[t.len() - 1].1);
                    }
                } else {
                    assert(r[a] == q[a] && r[b] == q[b]);
                }
            }
        }
    }
}

/// Sorting by size keeps the entries (as a multiset) and puts them largest first.
proof fn lemma_sort_props(s: Seq<ChildSize>)
    ensures
        sort_by_size(s).to_multiset() == s.to_multiset(),
        largest_first(sort_by_size(s)),
    decreases s.len(),
{
    broadcast use vstd::seq_lib::group_to_multiset_ensures;
    if s.len() == 0 {
        assert(sort_by_size(s).to_multiset() =~= s.to_multiset());
    } else {
        lemma_sort_props(s.drop_last());
        lemma_insert_props(sort_by_size(s.drop_last()), s.last());
        assert(s =~= s.drop_last().push(s.last()));
        assert(sort_by_size(s).to_multiset() =~= s.to_multiset());
    }
}

/// Law: a cluster that gives heads and is larger than the split threshold
/// adds, after the heads of its children's walks and its own centre, the
/// centres of `ceil(size / factor)` (at most all) of its sub-clusters, taken
/// largest first: the sub-clusters can be arranged (a permutation of those
/// its children leave) so that sizes never grow, and the extra heads are the
/// centres of the first ones of that arrangement. So every sub-cluster whose
/// centre is picked leaves a size at least as large as every one not picked.
pub proof fn lemma_large_cluster_takes_largest(nodes: Seq<BKTNode>, i: int, sel: int, split: int, factor: int)
    ensures
        ({
            let (picked, sizes) = hbc_children(nodes, i, node_info(nodes, i).1.len(), sel, split, factor);
            let total = 1 + size_sum(sizes);
            let n = if ceil_div(total, factor) < sizes.len() { ceil_div(total, factor) } else { sizes.len() as int };
            total >= sel && total > split ==> exists|order: Seq<ChildSize>|
                {
                    &&& order.to_multiset() == sizes.to_multiset()
                    &&& order.len() == sizes.len()
                    &&& largest_first(order)
                    &&& hbc_walk(nodes, i, sel, split, factor).0 == picked + seq![node_info(nodes, i).0] + order.take(
                        n,
                    ).map_values(|p: ChildSize| node_info(nodes, p.0 as int).0)
                }
        }),
{
    let (picked, sizes) = hbc_children(nodes, i, node_info(nodes, i).1.len(), sel, split, factor);
    let total = 1 + size_sum(sizes);
    if total >= sel && total > split {
        let order = sort_by_size(sizes);
        lemma_sort_props(sizes);
        lemma_sort_len(sizes);
        assert(hbc_walk(nodes, i, sel, split, factor).0 == picked + seq![node_info(nodes, i).0] + order.take(
            if ceil_div(total, factor) < sizes.len() { ceil_div(total, factor) } else { sizes.len() as int },
        ).map_values(|p: ChildSize| node_info(nodes, p.0 as int).0));
    }
}

/// Sorts by size, largest first, keeping equal sizes in order.
fn sort_sizes(s: &Vec<ChildSize>) -> (r: Vec<ChildSize>)
    ensures
        r@ == sort_by_size(s@),
{
    let mut out: Vec<ChildSize> = Vec::new();
    let mut k: usize = 0;
    while k < s.len()
        invariant
            k <= s@.len(),
            out@ == sort_by_size(s@.take(k as int)),
        decreases s@.len() - k,
    {
        let x = s[k];
        let mut j = out.len();
        while j > 0 && out[j - 1].1 < x.1
            invariant
                j <= out@.len(),
                forall|i: int| j <= i < out@.len() ==> #[trigger] out@[i].1 < x.1,
            decreases j,
        {
            j = j - 1;
        }
        proof {
            lemma_insert_at(out@, x, j as int);
            assert(s@.take(k + 1).drop_last() =~= s@.take(k as int));
        }
        let ghost before = out@;
        out.insert(j, x);
        assert(out@ =~= before.take(j as int).push(x) + before.skip(j as int));
        k = k + 1;
    }
    assert(s@.take(s@.len() as int) =~= s@);
    out
}

impl HBCSelector {
    pub closed spec fn spec_select_threshold(&self) -> usize {
        self.select_threshold
    }

    pub closed spec fn spec_split_threshold(&self) -> usize {
        self.split_threshold
    }

    pub closed spec fn spec_split_factor(&self) -> usize {
        self.split_factor
    }

    /// The default thresholds: a head per cluster of at least 6 nodes, and
    /// for a cluster of more than 25 one more head per 5 nodes.
    pub fn new() -> (h: Self)
        ensures
            h.spec_select_threshold() == 6,
            h.spec_split_threshold() == 25,
            h.spec_split_factor() == 5,
    {
        HBCSelector { select_threshold: 6, split_threshold: 25, split_factor: 5 }
    }

    pub fn select_threshold(&self) -> (r: usize)
        ensures
            r == self.spec_select_threshold(),
    {
        self.select_threshold
    }

    pub fn split_threshold(&self) -> (r: usize)
        ensures
            r == self.spec_split_threshold(),
    {
        self.split_threshold
    }

    pub fn split_factor(&self) -> (r: usize)
        ensures
            r == self.spec_split_factor(),
    {
        self.split_factor
    }
    /// Walks the tree from slot `node_idx` (see `hbc_walk`), appending the
    /// picked heads to `selected`, and returns the size that the cluster leaves
    /// to its parent. The number of sub-cluster heads of a large cluster is its
    /// size divided by the split factor, rounded up.
    pub fn select_recursive(
        &self,
        tree: &BKTreeBuilder,
        node_idx: usize,
        select_threshold: usize,
        split_threshold: usize,
        selected: &mut Vec<usize>,
    ) -> (r: usize)
        requires
            tree_ordered(tree@.nodes),
            self.spec_split_factor() > 0,
            tree@.nodes.len() * select_threshold < usize::MAX,
        ensures
            final(selected)@ == old(selected)@ + hbc_walk(
                tree@.nodes,
                node_idx as int,
                select_threshold as int,
                split_threshold as int,
                self.spec_split_factor() as int,
            ).0,
            r == hbc_walk(
                tree@.nodes,
                node_idx as int,
                select_threshold as int,
                split_threshold as int,
                self.spec_split_factor() as int,
            ).1,
            r <= select_threshold,
        decreases slots_left(tree@.nodes, node_idx as int),
    {
        let ghost nodes = tree@.nodes;
        let ghost idx = node_idx as int;
        let ghost sel = select_threshold as int;
        let ghost split = split_threshold as int;
        let ghost factor = self.split_factor as int;
        let (center_id, children) = tree.get_node_info(node_idx);
        let ghost info = node_info(nodes, idx);
        proof {
            if 0 <= idx < nodes.len() {
                assert(children@.len() <= nodes.len());
            } else {
                assert(children@.len() == 0);
            }
        }
        let mut children_size: usize = 1;
        let mut child_sizes: Vec<ChildSize> = Vec::new();
        let mut t: usize = 0;
        while t < children.len()
            invariant
                nodes == tree@.nodes,
                tree_ordered(nodes),
                self.spec_split_factor() > 0,
                factor == self.spec_split_factor(),
                nodes.len() * select_threshold < usize::MAX,
                idx == node_idx,
                sel == select_threshold,
                split == split_threshold,
                info == node_info(nodes, idx),
                children@ == info.1,
                center_id == info.0,
                children@.len() <= nodes.len(),
                0 <= idx < nodes.len() ==> children@ == child_slots(nodes[idx]),
                t <= children@.len(),
                selected@ == old(selected)@ + hbc_children(nodes, idx, t as nat, sel, split, factor).0,
                child_sizes@ == hbc_children(nodes, idx, t as nat, sel, split, factor).1,
                children_size == 1 + size_sum(child_sizes@),
                children_size <= 1 + t * select_threshold,
            decreases children@.len() - t,
        {
            let child_idx = children[t];
            proof {
                assert(0 <= idx < nodes.len());
                assert(child_idx == nodes[idx].child_start + t);
                assert(child_idx > node_idx);
            }
            let ghost before = selected@;
            let size = self.select_recursive(tree, child_idx, select_threshold, split_threshold, selected);
            proof {
                assert(t * select_threshold + select_threshold == (t + 1) * select_threshold) by (nonlinear_arith);
                assert((t + 1) * select_threshold <= nodes.len() * select_threshold) by (nonlinear_arith)
                    requires t + 1 <= nodes.len();
            }
            if size > 0 {
                let ghost s0 = child_sizes@;
                child_sizes.push((child_idx, size));
                children_size = children_size + size;
                assert(child_sizes@.drop_last() =~= s0);
            }
            proof {
                let (p0, s0) = hbc_children(nodes, idx, t as nat, sel, split, factor);
                assert(child_slots(nodes[idx])[t as int] == child_idx);
                assert(hbc_children(nodes, idx, (t + 1) as nat, sel, split, factor).0
                    == p0 + hbc_walk(nodes, child_idx as int, sel, split, factor).0);
                assert(selected@ =~= old(selected)@ + hbc_children(nodes, idx, (t + 1) as nat, sel, split, factor).0);
            }
            t = t + 1;
        }
        proof {
            assert(hbc_children(nodes, idx, info.1.len(), sel, split, factor) == hbc_children(nodes, idx, t as nat, sel, split, factor));
        }
        if children_size >= select_threshold {
            selected.push(center_id);
            let ghost after_center = selected@;
            if children_size > split_threshold {
                let sorted = sort_sizes(&child_sizes);
                let factor_x = self.split_factor;
                let q = children_size / factor_x;
                let cnt = if children_size % factor_x == 0 {
                    q
                } else {
                    assert(q < usize::MAX) by (nonlinear_arith)
                        requires
                            factor_x > 0,
                            children_size % factor_x != 0,
                            q == children_size / factor_x,
                    {
                        assert(factor_x != 1);
                        assert(q * factor_x <= children_size);
                        assert(q * 2 <= q * factor_x);
                    }
                    q + 1
                };
                assert(cnt == ceil_div(children_size as int, factor));
                let n = if cnt < sorted.len() { cnt } else { sorted.len() };
                let ghost tops = sort_by_size(child_sizes@).take(n as int).map_values(
                    |p: ChildSize| node_info(nodes, p.0 as int).0,
                );
                let mut i: usize = 0;
                while i < n
                    invariant
                        nodes == tree@.nodes,
                        n <= sorted@.len(),
                        sorted@ == sort_by_size(child_sizes@),
                        i <= n,
                        tops == sort_by_size(child_sizes@).take(n as int).map_values(
                            |p: ChildSize| node_info(nodes, p.0 as int).0,
                        ),
                        selected@ == after_center + tops.take(i as int),
                    decreases n - i,
                {
                    let (child_idx, _) = sorted[i];
                    let (child_center, _) = tree.get_node_info(child_idx);
                    selected.push(child_center);
                    assert(selected@ =~= after_center + tops.take(i + 1));
                    i = i + 1;
                }
                assert(tops.take(n as int) =~= tops);
                proof {
                    let (picked, sizes) = hbc_children(nodes, idx, info.1.len(), sel, split, factor);
                    assert(sizes == child_sizes@);
                    assert(after_center == old(selected)@ + picked + seq![info.0]);
                    let total = 1 + size_sum(sizes);
                    assert(total == children_size);
                    assert(total >= sel && total > split);
                    let nn = if ceil_div(total, factor) < sizes.len() { ceil_div(total, factor) } else { sizes.len() as int };
                    lemma_sort_len(sizes);
                    assert(nn == n);
                    assert(hbc_walk(nodes, idx, sel, split, factor).0 == picked + seq![info.0] + tops);
                }
                assert(selected@ =~= old(selected)@ + hbc_walk(nodes, idx, sel, split, factor).0);
            } else {
                assert(selected@ =~= old(selected)@ + hbc_walk(nodes, idx, sel, split, factor).0);
            }
            return 0;
        }
        children_size
    }
}

/// Number of vectors the head selection samples out of `n`: the requested
/// size, at most `n`, or all `n` when none is requested.
pub open spec fn sample_count(n: usize, sample_size: Option<usize>) -> usize {
    match sample_size {
        Some(size) => if size < n { size } else { n },
        None => n,
    }
}

/// Positions of the vectors the head selection samples out of `n`: when fewer
/// than `n` are asked for, every `n / s`-th position from 0, `s` of them;
/// otherwise every position. Asking for none of a non-empty set is left out
/// (the step would be a division by zero).
pub fn sample_indices(n: usize, sample_size: Option<usize>) -> (r: Vec<usize>)
    requires
        !(sample_size == Some(0usize) && n > 0),
    ensures
        ({
            let s = sample_count(n, sample_size);
            if s < n {
                r@ == Seq::new(s as nat, |k: int| (k * ((n / s) as int)) as usize)
            } else {
                r@ == Seq::new(n as nat, |k: int| k as usize)
            }
        }),
{
    let s = match sample_size {
        Some(size) => if size < n { size } else { n },
        None => n,
    };
    let mut out: Vec<usize> = Vec::new();
    if s < n {
        let step = n / s;
        let mut k: usize = 0;
        let mut pos: usize = 0;
        while k < s
            invariant
                0 < s < n,
                step == (n / s) as int,
                k <= s,
                pos == k * step,
                out@ == Seq::new(k as nat, |j: int| (j * ((n / s) as int)) as usize),
            decreases s - k,
        {
            proof {
                vstd::arithmetic::div_mod::lemma_fundamental_div_mod(n as int, s as int);
                assert(0 <= n % s < s);
                assert(step >= 1) by (nonlinear_arith)
                    requires
                        n == s * step + n % s,
                        0 <= n % s < s,
                        s < n,
                ;
                assert(k * step + step <= s * step) by (nonlinear_arith)
                    requires
                        k + 1 <= s,
                        step >= 0,
                ;
            }
            out.push(pos);
            proof {
                assert(out@ =~= Seq::new((k + 1) as nat, |j: int| (j * ((n / s) as int)) as usize));
                assert(pos + step == (k + 1) * step) by (nonlinear_arith)
                    requires
                        pos == k * step,
                ;
                assert((k + 1) * step == k * step + step) by (nonlinear_arith);
            }
            pos = pos + step;
            k = k + 1;
        }
    } else {
        let mut k: usize = 0;
        while k < n
            invariant
                k <= n,
                out@ == Seq::new(k as nat, |j: int| j as usize),
            decreases n - k,
        {
            out.push(k);
            k = k + 1;
            proof {
                assert(out@ =~= Seq::new(k as nat, |j: int| j as usize));
            }
        }
    }
    out
}

} // verus!
