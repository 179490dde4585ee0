//! The order of a recursive ball-tree build as a state machine: which range to
//! open next, whether it becomes a leaf, and when a node's children are all
//! built. Clustering a range is the caller's work; the machine takes the
//! cluster of each id and does the rest through the steps of `BKTreeBuilder`.
use vstd::prelude::*;
use crate::index::bktree_recursive::{
    BKTreeBuilder, TreeImage, tree_ordered, grouped, members, count_sum, subtree_ranges, subtree_ranges_of,
    lemma_grouping_permutes, lemma_grouped_prefix_len,
};

verus! {

/// A node whose children are being built: its slot, the ranges of its
/// children, how many of them have been opened, the depth of its children,
/// and where its own range ends.
pub struct BuildFrame {
    slot: usize,
    ranges: Vec<(usize, usize)>,
    next: usize,
    child_depth: usize,
    end: usize,
}

/// Progress of a build over ids `0..n`.
pub struct BKBuild {
    root: Option<(usize, usize)>,
    frames: Vec<BuildFrame>,
    opened: Option<(usize, usize, usize, usize)>,
    n: usize,
    cursor: Ghost<int>,
}

/// Deepest level at which a node is still split.
pub const MAX_SPLIT_DEPTH: usize = 50;

/// Sum of the first `m` counts is the length of the first `m` groups.
proof fn lemma_count_sum_grouped(seg: Seq<usize>, a: Seq<usize>, counts: Seq<usize>, m: nat)
    requires
        m <= counts.len(),
        forall|c: int| 0 <= c < counts.len() ==> #[trigger] counts[c] == members(seg, a, c as usize, seg.len()).len(),
        counts.len() <= usize::MAX + 1,
    ensures
        count_sum(counts, m as int) == grouped(seg, a, m).len(),
    decreases m,
{
    if m > 0 {
        lemma_count_sum_grouped(seg, a, counts, (m - 1) as nat);
    }
}

proof fn lemma_count_sum_mono(counts: Seq<usize>, i: int, j: int)
    requires
        0 <= i <= j <= counts.len(),
    ensures
        count_sum(counts, i) <= count_sum(counts, j),
        0 <= count_sum(counts, i),
    decreases j,
{
    if i < j {
        lemma_count_sum_mono(counts, i, j - 1);
    } else {
        lemma_count_sum_nonneg(counts, i);
    }
}

proof fn lemma_count_sum_nonneg(counts: Seq<usize>, i: int)
    ensures
        0 <= count_sum(counts, i),
    decreases i,
{
    if i > 0 {
        lemma_count_sum_nonneg(counts, i - 1);
    }
}

/// Every subtree range of the first `m` clusters lies inside
/// `first..first + count_sum(m)` and holds at least two ids, and the ranges
/// come in increasing order without overlapping.
proof fn lemma_subtree_ranges_inside(counts: Seq<usize>, first: int, m: int)
    requires
        0 <= m <= counts.len(),
        0 <= first,
        first + count_sum(counts, m) <= usize::MAX,
    ensures
        forall|k: int| 0 <= k < subtree_ranges(counts, first, m).len() ==> {
            let r = #[trigger] subtree_ranges(counts, first, m)[k];
            first <= r.0 && r.0 < r.1 && r.1 <= first + count_sum(counts, m)
        },
        forall|i: int, j: int|
            0 <= i < j < subtree_ranges(counts, first, m).len() ==> (#[trigger] subtree_ranges(counts, first, m)[i]).1
                <= (#[trigger] subtree_ranges(counts, first, m)[j]).0,
    decreases m,
{
    if m > 0 {
        lemma_count_sum_mono(counts, m - 1, m);
        lemma_count_sum_mono(counts, 0, m - 1);
        lemma_subtree_ranges_inside(counts, first, m - 1);
        let prev = subtree_ranges(counts, first, m - 1);
        let all = subtree_ranges(counts, first, m);
        assert forall|k: int| 0 <= k < all.len() implies {
            let r = #[trigger] all[k];
            first <= r.0 && r.0 < r.1 && r.1 <= first + count_sum(counts, m)
        } by {
            if k < prev.len() {
                assert(all[k] == prev[k]);
            }
        }
        assert forall|i: int, j: int| 0 <= i < j < all.len() implies (#[trigger] all[i]).1 <= (#[trigger] all[j]).0 by {
            assert(all[i] == prev[i]);
            if j < prev.len() {
                assert(all[j] == prev[j]);
            } else {
                assert(prev[i].1 <= first + count_sum(counts, m - 1));
            }
        }
    }
}

/// Ranges tagged with the depth at which they will be opened.
pub open spec fn at_depth(rs: Seq<(usize, usize)>, d: usize) -> Seq<(usize, usize, usize)> {
    rs.map_values(|r: (usize, usize)| (r.0, r.1, d))
}

/// Cost still ahead for a range `(first, last, depth)`: its length times the
/// number of levels left down to the depth limit.
pub open spec fn range_weight(r: (usize, usize, usize)) -> int {
    (r.1 - r.0) * (MAX_SPLIT_DEPTH + 1 - r.2)
}

/// Summed cost of pending ranges.
pub open spec fn work_weight(w: Seq<(usize, usize, usize)>) -> int
    decreases w.len(),
{
    if w.len() == 0 {
        0
    } else {
        work_weight(w.drop_last()) + range_weight(w.last())
    }
}

/// Summed length of ranges.
pub open spec fn ranges_len(rs: Seq<(usize, usize)>) -> int
    decreases rs.len(),
{
    if rs.len() == 0 {
        0
    } else {
        ranges_len(rs.drop_last()) + (rs.last().1 - rs.last().0)
    }
}

/// Size of each cluster among the ids of `seg` with clusters `a`, for `k` clusters.
pub open spec fn cluster_counts(seg: Seq<usize>, a: Seq<usize>, k: usize) -> Seq<usize> {
    Seq::new(k as nat, |c: int| members(seg, a, c as usize, seg.len()).len() as usize)
}

proof fn lemma_work_weight_append(a: Seq<(usize, usize, usize)>, b: Seq<(usize, usize, usize)>)
    ensures
        work_weight(a + b) == work_weight(a) + work_weight(b),
    decreases b.len(),
{
    if b.len() == 0 {
        assert(a + b =~= a);
    } else {
        assert((a + b).drop_last() =~= a + b.drop_last());
        lemma_work_weight_append(a, b.drop_last());
    }
}

proof fn lemma_work_weight_nonneg(w: Seq<(usize, usize, usize)>)
    requires
        forall|j: int| 0 <= j < w.len() ==> (#[trigger] w[j]).0 <= w[j].1 && w[j].2 <= MAX_SPLIT_DEPTH,
    ensures
        work_weight(w) >= 0,
    decreases w.len(),
{
    if w.len() > 0 {
        let r = w.last();
        assert(w[w.len() - 1] == r);
        assert(range_weight(r) >= 0) by (nonlinear_arith)
            requires
                r.0 <= r.1,
                r.2 <= MAX_SPLIT_DEPTH,
                range_weight(r) == (r.1 - r.0) * (MAX_SPLIT_DEPTH + 1 - r.2),
        ;
        assert forall|j: int| 0 <= j < w.drop_last().len() implies (#[trigger] w.drop_last()[j]).0
            <= w.drop_last()[j].1 && w.drop_last()[j].2 <= MAX_SPLIT_DEPTH by {
            assert(w.drop_last()[j] == w[j]);
        }
        lemma_work_weight_nonneg(w.drop_last());
    }
}

proof fn lemma_weight_at_depth(rs: Seq<(usize, usize)>, d: usize)
    requires
        d <= MAX_SPLIT_DEPTH + 1,
    ensures
        work_weight(at_depth(rs, d)) == ranges_len(rs) * (MAX_SPLIT_DEPTH + 1 - d),
    decreases rs.len(),
{
    if rs.len() > 0 {
        assert(at_depth(rs, d).drop_last() =~= at_depth(rs.drop_last(), d));
        lemma_weight_at_depth(rs.drop_last(), d);
        let r = rs.last();
        let f = MAX_SPLIT_DEPTH + 1 - d;
        let p = ranges_len(rs.drop_last());
        assert(at_depth(rs, d).last() == (r.0, r.1, d));
        assert(p * f + (r.1 - r.0) * f == (p + (r.1 - r.0)) * f) by (nonlinear_arith);
    }
}

proof fn lemma_ranges_len_nonneg(rs: Seq<(usize, usize)>)
    requires
        forall|j: int| 0 <= j < rs.len() ==> (#[trigger] rs[j]).0 <= rs[j].1,
    ensures
        ranges_len(rs) >= 0,
    decreases rs.len(),
{
    if rs.len() > 0 {
        assert(rs[rs.len() - 1] == rs.last());
        assert forall|j: int| 0 <= j < rs.drop_last().len() implies (#[trigger] rs.drop_last()[j]).0
            <= rs.drop_last()[j].1 by {
            assert(rs.drop_last()[j] == rs[j]);
        }
        lemma_ranges_len_nonneg(rs.drop_last());
    }
}

/// The subtree ranges of the first `m` clusters are no longer, together, than
/// those clusters.
proof fn lemma_subtree_ranges_len(counts: Seq<usize>, first: int, m: int)
    requires
        0 <= m <= counts.len(),
        0 <= first,
        forall|i: int| 0 <= i <= m ==> first + #[trigger] count_sum(counts, i) <= usize::MAX,
    ensures
        ranges_len(subtree_ranges(counts, first, m)) <= count_sum(counts, m),
    decreases m,
{
    if m > 0 {
        lemma_count_sum_mono(counts, 0, m - 1);
        lemma_count_sum_mono(counts, m - 1, m);
        assert(first + count_sum(counts, m) <= usize::MAX);
        assert(forall|i: int| 0 <= i <= m - 1 ==> first + #[trigger] count_sum(counts, i) <= usize::MAX);
        lemma_subtree_ranges_len(counts, first, m - 1);
        let prev = subtree_ranges(counts, first, m - 1);
        if counts[m - 1] > 1 {
            let r = ((first + count_sum(counts, m - 1)) as usize, (first + count_sum(counts, m)) as usize);
            assert(subtree_ranges(counts, first, m) == prev + seq![r]);
            assert((prev + seq![r]).drop_last() =~= prev);
        } else {
            assert(subtree_ranges(counts, first, m) =~= prev);
        }
    }
}

/// Pending ranges of a frame: those of its children not opened yet.
spec fn frame_work(fr: BuildFrame) -> Seq<(usize, usize, usize)> {
    at_depth(fr.ranges@.skip(fr.next as int), fr.child_depth)
}

/// Pending ranges of a stack of frames, innermost first.
spec fn frames_work(frs: Seq<BuildFrame>) -> Seq<(usize, usize, usize)>
    decreases frs.len(),
{
    if frs.len() == 0 {
        Seq::empty()
    } else {
        frame_work(frs.last()) + frames_work(frs.drop_last())
    }
}

/// Pending ranges of frames that are all `frame_ok` are non-empty ranges of
/// `0..n` at depths within the limit.
proof fn lemma_frames_work_ok(frs: Seq<BuildFrame>, nodes: nat, n: usize)
    requires
        forall|k: int| 0 <= k < frs.len() ==> #[trigger] frame_ok(
            frs[k].slot,
            frs[k].ranges@,
            frs[k].next,
            frs[k].child_depth,
            nodes,
            n,
        ),
    ensures
        forall|j: int| 0 <= j < frames_work(frs).len() ==> (#[trigger] frames_work(frs)[j]).0 < frames_work(frs)[j].1
            && frames_work(frs)[j].1 <= n && frames_work(frs)[j].2 <= MAX_SPLIT_DEPTH,
    decreases frs.len(),
{
    if frs.len() > 0 {
        let top = frs.last();
        assert(frame_ok(frs[frs.len() - 1].slot, frs[frs.len() - 1].ranges@, frs[frs.len() - 1].next,
            frs[frs.len() - 1].child_depth, nodes, n));
        assert forall|k: int| 0 <= k < frs.drop_last().len() implies #[trigger] frame_ok(
            frs.drop_last()[k].slot,
            frs.drop_last()[k].ranges@,
            frs.drop_last()[k].next,
            frs.drop_last()[k].child_depth,
            nodes,
            n,
        ) by {
            assert(frs.drop_last()[k] == frs[k]);
            assert(frame_ok(frs[k].slot, frs[k].ranges@, frs[k].next, frs[k].child_depth, nodes, n));
        }
        lemma_frames_work_ok(frs.drop_last(), nodes, n);
        let fw = frame_work(top);
        let rest = frames_work(frs.drop_last());
        assert forall|j: int| 0 <= j < fw.len() implies (#[trigger] fw[j]).0 < fw[j].1 && fw[j].1 <= n
            && fw[j].2 <= MAX_SPLIT_DEPTH by {
            let r = top.ranges@[top.next + j];
            assert(fw[j] == (r.0, r.1, top.child_depth));
        }
        assert forall|j: int| 0 <= j < frames_work(frs).len() implies (#[trigger] frames_work(frs)[j]).0
            < frames_work(frs)[j].1 && frames_work(frs)[j].1 <= n && frames_work(frs)[j].2 <= MAX_SPLIT_DEPTH by {
            if j < fw.len() {
                assert(frames_work(frs)[j] == fw[j]);
            } else {
                assert(frames_work(frs)[j] == rest[j - fw.len()]);
            }
        }
    }
}

/// Ranges come in increasing order without overlapping.
pub open spec fn in_order(r: Seq<(usize, usize)>) -> bool {
    forall|i: int, j: int| 0 <= i < j < r.len() ==> (#[trigger] r[i]).1 <= (#[trigger] r[j]).0
}

/// Leaves and the work still to do lie in order: the leaves are in order and
/// end at or before the cursor `c`; every range still to open starts at or
/// after it; each frame's child ranges are in order and inside its node's
/// range; a frame's node range ends before the rest of the work of every frame
/// below it; and so does the opened node's range.
spec fn ordered(
    c: int,
    fr: Seq<BuildFrame>,
    opened: Option<(usize, usize, usize, usize)>,
    at_root: bool,
    leaves: Seq<(usize, usize)>,
) -> bool {
    &&& in_order(leaves)
    &&& forall|i: int| 0 <= i < leaves.len() ==> (#[trigger] leaves[i]).1 <= c
    &&& at_root ==> c == 0
    &&& forall|k: int| 0 <= k < fr.len() ==> in_order((#[trigger] fr[k]).ranges@)
    &&& forall|k: int, j: int|
        #![trigger fr[k].ranges@[j]]
        0 <= k < fr.len() && 0 <= j < fr[k].ranges@.len() ==> fr[k].ranges@[j].1 <= fr[k].end
    &&& forall|k: int, j: int|
        #![trigger fr[k].ranges@[j]]
        0 <= k < fr.len() && fr[k].next <= j < fr[k].ranges@.len() ==> c <= fr[k].ranges@[j].0
    &&& forall|k: int, k2: int| 0 <= k < k2 < fr.len() ==> (#[trigger] fr[k2]).end <= (#[trigger] fr[k]).end
    &&& forall|k: int, k2: int, j: int|
        #![trigger fr[k2], fr[k].ranges@[j]]
        0 <= k < k2 < fr.len() && fr[k].next <= j < fr[k].ranges@.len() ==> fr[k2].end <= fr[k].ranges@[j].0
    &&& opened matches Some(o) ==> {
        &&& c <= o.1
        &&& forall|k: int| 0 <= k < fr.len() ==> o.2 <= (#[trigger] fr[k]).end
        &&& forall|k: int, j: int|
            #![trigger fr[k].ranges@[j]]
            0 <= k < fr.len() && fr[k].next <= j < fr[k].ranges@.len() ==> o.2 <= fr[k].ranges@[j].0
    }
}

/// The next child range of the top frame becomes a leaf.
proof fn lemma_order_leaf(c: int, fr: Seq<BuildFrame>, leaves: Seq<(usize, usize)>, top: BuildFrame)
    requires
        ordered(c, fr, None, false, leaves),
        fr.len() > 0,
        fr[fr.len() - 1].next < fr[fr.len() - 1].ranges@.len(),
        fr[fr.len() - 1].ranges@[fr[fr.len() - 1].next as int].0 <= fr[fr.len() - 1].ranges@[fr[fr.len() - 1].next as int].1,
        top.ranges@ == fr[fr.len() - 1].ranges@,
        top.end == fr[fr.len() - 1].end,
        top.next == fr[fr.len() - 1].next + 1,
    ensures
        ({
            let r = fr[fr.len() - 1].ranges@[fr[fr.len() - 1].next as int];
            ordered(r.1 as int, fr.update(fr.len() - 1, top), None, false, leaves.push(r))
        }),
{
    let t = fr.len() - 1;
    let old_top = fr[t];
    let r = old_top.ranges@[old_top.next as int];
    let nf = fr.update(t, top);
    let nl = leaves.push(r);
    assert(in_order(old_top.ranges@));
    assert(r.1 <= old_top.end);
    assert(c <= r.0);
    assert(in_order(nl)) by {
        assert forall|i: int, j: int| 0 <= i < j < nl.len() implies (#[trigger] nl[i]).1 <= (#[trigger] nl[j]).0 by {
            if j < leaves.len() {
                assert(nl[i] == leaves[i] && nl[j] == leaves[j]);
            } else {
                assert(nl[i] == leaves[i]);
                assert(leaves[i].1 <= c);
            }
        }
    }
    assert forall|i: int| 0 <= i < nl.len() implies (#[trigger] nl[i]).1 <= r.1 by {
        if i < leaves.len() {
            assert(nl[i] == leaves[i]);
            assert(leaves[i].1 <= c);
        }
    }
    assert forall|k: int, j: int|
        #![trigger nf[k].ranges@[j]]
        0 <= k < nf.len() && nf[k].next <= j < nf[k].ranges@.len() implies r.1 <= nf[k].ranges@[j].0 by {
        if k == t {
            assert(old_top.ranges@[old_top.next as int].1 <= old_top.ranges@[j].0);
        } else {
            assert(nf[k] == fr[k]);
            assert(fr[t].end <= fr[k].ranges@[j].0);
        }
    }
    assert forall|k: int| 0 <= k < nf.len() implies in_order((#[trigger] nf[k]).ranges@) by {
        if k != t {
            assert(nf[k] == fr[k]);
        }
    }
    assert forall|k: int, k2: int| 0 <= k < k2 < nf.len() implies (#[trigger] nf[k2]).end <= (#[trigger] nf[k]).end by {
        assert(fr[k2].end <= fr[k].end);
    }
    assert forall|k: int, k2: int, j: int|
        #![trigger nf[k2], nf[k].ranges@[j]]
        0 <= k < k2 < nf.len() && nf[k].next <= j < nf[k].ranges@.len() implies nf[k2].end <= nf[k].ranges@[j].0 by {
        assert(nf[k] == fr[k]);
        assert(fr[k2].end <= fr[k].ranges@[j].0);
    }
}

/// The next child range of the top frame is opened as a node to split.
proof fn lemma_order_open(c: int, fr: Seq<BuildFrame>, leaves: Seq<(usize, usize)>, top: BuildFrame, slot: usize, d: usize)
    requires
        ordered(c, fr, None, false, leaves),
        fr.len() > 0,
        fr[fr.len() - 1].next < fr[fr.len() - 1].ranges@.len(),
        top.ranges@ == fr[fr.len() - 1].ranges@,
        top.end == fr[fr.len() - 1].end,
        top.next == fr[fr.len() - 1].next + 1,
    ensures
        ({
            let r = fr[fr.len() - 1].ranges@[fr[fr.len() - 1].next as int];
            ordered(c, fr.update(fr.len() - 1, top), Some((slot, r.0, r.1, d)), false, leaves)
        }),
{
    let t = fr.len() - 1;
    let old_top = fr[t];
    let r = old_top.ranges@[old_top.next as int];
    let nf = fr.update(t, top);
    assert(in_order(old_top.ranges@));
    assert(r.1 <= old_top.end);
    assert(c <= r.0);
    assert forall|k: int| 0 <= k < nf.len() implies r.1 <= (#[trigger] nf[k]).end by {
        if k < t {
            assert(fr[t].end <= fr[k].end);
        }
    }
    assert forall|k: int, j: int|
        #![trigger nf[k].ranges@[j]]
        0 <= k < nf.len() && nf[k].next <= j < nf[k].ranges@.len() implies r.1 <= nf[k].ranges@[j].0 by {
        if k == t {
            assert(old_top.ranges@[old_top.next as int].1 <= old_top.ranges@[j].0);
        } else {
            assert(nf[k] == fr[k]);
            assert(fr[t].end <= fr[k].ranges@[j].0);
        }
    }
    assert forall|k: int, j: int|
        #![trigger nf[k].ranges@[j]]
        0 <= k < nf.len() && nf[k].next <= j < nf[k].ranges@.len() implies c <= nf[k].ranges@[j].0 by {
        if k != t {
            assert(nf[k] == fr[k]);
        }
    }
    assert forall|k: int| 0 <= k < nf.len() implies in_order((#[trigger] nf[k]).ranges@) by {
        if k != t {
            assert(nf[k] == fr[k]);
        }
    }
    assert forall|k: int, j: int|
        #![trigger nf[k].ranges@[j]]
        0 <= k < nf.len() && 0 <= j < nf[k].ranges@.len() implies nf[k].ranges@[j].1 <= nf[k].end by {
        if k != t {
            assert(nf[k] == fr[k]);
        }
    }
    assert forall|k: int, k2: int| 0 <= k < k2 < nf.len() implies (#[trigger] nf[k2]).end <= (#[trigger] nf[k]).end by {
        assert(fr[k2].end <= fr[k].end);
    }
    assert forall|k: int, k2: int, j: int|
        #![trigger nf[k2], nf[k].ranges@[j]]
        0 <= k < k2 < nf.len() && nf[k].next <= j < nf[k].ranges@.len() implies nf[k2].end <= nf[k].ranges@[j].0 by {
        assert(nf[k] == fr[k]);
        assert(fr[k2].end <= fr[k].ranges@[j].0);
    }
}

/// The opened node's children are queued in a new top frame.
proof fn lemma_order_push(c: int, fr: Seq<BuildFrame>, leaves: Seq<(usize, usize)>, o: (usize, usize, usize, usize), f: BuildFrame)
    requires
        ordered(c, fr, Some(o), false, leaves),
        in_order(f.ranges@),
        f.next == 0,
        f.end == o.2,
        forall|j: int| 0 <= j < f.ranges@.len() ==> o.1 <= (#[trigger] f.ranges@[j]).0 && f.ranges@[j].1 <= o.2,
    ensures
        ordered(c, fr.push(f), None, false, leaves),
{
    let nf = fr.push(f);
    let t = fr.len() as int;
    assert(nf[t] == f);
    assert forall|k: int| 0 <= k < nf.len() implies in_order((#[trigger] nf[k]).ranges@) by {
        if k < t {
            assert(nf[k] == fr[k]);
        }
    }
    assert forall|k: int, j: int|
        #![trigger nf[k].ranges@[j]]
        0 <= k < nf.len() && 0 <= j < nf[k].ranges@.len() implies nf[k].ranges@[j].1 <= nf[k].end by {
        if k < t {
            assert(nf[k] == fr[k]);
        }
    }
    assert forall|k: int, j: int|
        #![trigger nf[k].ranges@[j]]
        0 <= k < nf.len() && nf[k].next <= j < nf[k].ranges@.len() implies c <= nf[k].ranges@[j].0 by {
        if k < t {
            assert(nf[k] == fr[k]);
        }
    }
    assert forall|k: int, k2: int| 0 <= k < k2 < nf.len() implies (#[trigger] nf[k2]).end <= (#[trigger] nf[k]).end by {
        assert(nf[k] == fr[k]);
        if k2 < t {
            assert(nf[k2] == fr[k2]);
        }
    }
    assert forall|k: int, k2: int, j: int|
        #![trigger nf[k2], nf[k].ranges@[j]]
        0 <= k < k2 < nf.len() && nf[k].next <= j < nf[k].ranges@.len() implies nf[k2].end <= nf[k].ranges@[j].0 by {
        assert(nf[k] == fr[k]);
        if k2 < t {
            assert(nf[k2] == fr[k2]);
        }
    }
}

/// Dropping the top frame keeps the order.
proof fn lemma_order_pop(c: int, fr: Seq<BuildFrame>, leaves: Seq<(usize, usize)>)
    requires
        ordered(c, fr, None, false, leaves),
        fr.len() > 0,
    ensures
        ordered(c, fr.drop_last(), None, false, leaves),
{
    let nf = fr.drop_last();
    assert forall|k: int| 0 <= k < nf.len() implies in_order((#[trigger] nf[k]).ranges@) by {
        assert(nf[k] == fr[k]);
    }
    assert forall|k: int, j: int|
        #![trigger nf[k].ranges@[j]]
        0 <= k < nf.len() && 0 <= j < nf[k].ranges@.len() implies nf[k].ranges@[j].1 <= nf[k].end by {
        assert(nf[k] == fr[k]);
    }
    assert forall|k: int, j: int|
        #![trigger nf[k].ranges@[j]]
        0 <= k < nf.len() && nf[k].next <= j < nf[k].ranges@.len() implies c <= nf[k].ranges@[j].0 by {
        assert(nf[k] == fr[k]);
    }
    assert forall|k: int, k2: int| 0 <= k < k2 < nf.len() implies (#[trigger] nf[k2]).end <= (#[trigger] nf[k]).end by {
        assert(nf[k] == fr[k] && nf[k2] == fr[k2]);
    }
    assert forall|k: int, k2: int, j: int|
        #![trigger nf[k2], nf[k].ranges@[j]]
        0 <= k < k2 < nf.len() && nf[k].next <= j < nf[k].ranges@.len() implies nf[k2].end <= nf[k].ranges@[j].0 by {
        assert(nf[k] == fr[k] && nf[k2] == fr[k2]);
    }
}

/// A frame points at an existing node, has opened at most its ranges, has
/// children no deeper than the depth limit, and every child range holds two
/// or more ids of `0..n`.
pub open spec fn frame_ok(slot: usize, ranges: Seq<(usize, usize)>, next: usize, child_depth: usize, nodes: nat, n: usize) -> bool {
    &&& slot < nodes
    &&& next <= ranges.len()
    &&& child_depth <= MAX_SPLIT_DEPTH
    &&& forall|j: int| 0 <= j < ranges.len() ==> (#[trigger] ranges[j]).0 < ranges[j].1 && ranges[j].1 <= n
}

impl BKBuild {
    /// The node opened and waiting for the clusters of its ids: slot, range,
    /// depth.
    pub closed spec fn spec_opened(&self) -> Option<(usize, usize, usize, usize)> {
        self.opened
    }

    /// Number of ids in the range of the opened node.
    pub closed spec fn opened_len(&self) -> int {
        match self.opened {
            Some(o) => o.2 - o.1,
            None => 0,
        }
    }

    /// Number of ids the build covers.
    pub closed spec fn spec_n(&self) -> usize {
        self.n
    }

    /// The next range to open and its depth: the whole range first, then the
    /// next child range of the innermost node whose children are being built.
    pub closed spec fn spec_pending(&self) -> Option<(usize, usize, usize)> {
        if self.opened is Some {
            None
        } else if let Some(r) = self.root {
            Some((r.0, r.1, 0usize))
        } else if self.frames@.len() > 0 {
            let top = self.frames@[self.frames@.len() - 1];
            if top.next < top.ranges@.len() {
                Some((top.ranges@[top.next as int].0, top.ranges@[top.next as int].1, top.child_depth))
            } else {
                None
            }
        } else {
            None
        }
    }

    /// Ranges still to be opened, with their depths, in the order in which
    /// they will be opened: the whole range first, then the children not yet
    /// opened of the innermost node being built, then those of its parents.
    pub closed spec fn work(&self) -> Seq<(usize, usize, usize)> {
        match self.root {
            Some(r) => seq![(r.0, r.1, 0usize)],
            None => frames_work(self.frames@),
        }
    }

    /// A measure of the build's remaining steps: twice the weight of the
    /// pending ranges, plus twice the weight of the opened node less one.
    /// Every `open` and every `split` makes it smaller, and it is never
    /// negative, so a caller that alternates them stops.
    pub closed spec fn measure(&self) -> int {
        2 * work_weight(self.work()) + match self.opened {
            Some(o) => 2 * range_weight((o.1, o.2, o.3)) - 1,
            None => 0,
        }
    }

    /// The build state agrees with the tree `t` it drives.
    pub closed spec fn inv(&self, t: TreeImage) -> bool {
        &&& self.n == t.indices.len()
        &&& forall|j: int| 0 <= j < t.leaves.len() ==> (#[trigger] t.leaves[j]).0 <= t.leaves[j].1 && t.leaves[j].1 <= self.n
        &&& (self.root matches Some(r) ==> t.leaves.len() == 0)
        &&& (self.root matches Some(r) ==> r == (0usize, self.n) && self.frames@.len() == 0 && self.opened is None)
        &&& forall|k: int| 0 <= k < self.frames@.len() ==> #[trigger] frame_ok(
            self.frames@[k].slot,
            self.frames@[k].ranges@,
            self.frames@[k].next,
            self.frames@[k].child_depth,
            t.nodes.len(),
            self.n,
        )
        &&& (self.opened matches Some(o) ==> o.0 < t.nodes.len() && o.1 < o.2 && o.2 <= self.n && o.3 < MAX_SPLIT_DEPTH)
        &&& (self.opened is None && self.frames@.len() > 0 ==> self.frames@[self.frames@.len() - 1].next
            < self.frames@[self.frames@.len() - 1].ranges@.len())
        &&& ordered(self.cursor@, self.frames@, self.opened, self.root is Some, t.leaves)
    }

    /// Starts a build of `tree` over ids `0..n`: the tree is reset (see
    /// `BKTreeBuilder::reset`) and the whole range is pending.
    pub fn new(tree: &mut BKTreeBuilder, n: usize) -> (b: Self)
        ensures
            b.inv(final(tree)@),
            b.spec_n() == n,
            b.spec_pending() == Some((0usize, n, 0usize)),
            final(tree)@ == (TreeImage {
                nodes: Seq::empty(),
                indices: Seq::new(n as nat, |i: int| i as usize),
                leaves: Seq::empty(),
                ..old(tree)@
            }),
    {
        tree.reset(n);
        BKBuild { root: Some((0, n)), frames: Vec::new(), opened: None, n, cursor: Ghost(0) }
    }

    /// The next range to open, with its depth; `None` while a node waits for
    /// its clusters and once the build is over.
    pub fn pending(&self) -> (r: Option<(usize, usize, usize)>)
        ensures
            r == self.spec_pending(),
    {
        if self.opened.is_some() {
            return None;
        }
        match self.root {
            Some(r) => Some((r.0, r.1, 0)),
            None => {
                if self.frames.len() == 0 {
                    None
                } else {
                    let top = &self.frames[self.frames.len() - 1];
                    if top.next < top.ranges.len() {
                        Some((top.ranges[top.next].0, top.ranges[top.next].1, top.child_depth))
                    } else {
                        None
                    }
                }
            },
        }
    }

    /// Closes every node all of whose children are built.
    fn unwind(&mut self, tree: &mut BKTreeBuilder)
        requires
            old(self).opened is None,
            old(self).root is None,
            old(self).n == old(tree)@.indices.len(),
            forall|j: int| 0 <= j < old(tree)@.leaves.len() ==> (#[trigger] old(tree)@.leaves[j]).0 <= old(tree)@.leaves[j].1
                && old(tree)@.leaves[j].1 <= old(self).n,
            ordered(old(self).cursor@, old(self).frames@, None, false, old(tree)@.leaves),
            forall|k: int| 0 <= k < old(self).frames@.len() ==> #[trigger] frame_ok(
                old(self).frames@[k].slot,
                old(self).frames@[k].ranges@,
                old(self).frames@[k].next,
                old(self).frames@[k].child_depth,
                old(tree)@.nodes.len(),
                old(self).n,
            ),
        ensures
            final(self).inv(final(tree)@),
            final(self).n == old(self).n,
            final(self).opened is None,
            final(self).root is None,
            frames_work(final(self).frames@) == frames_work(old(self).frames@),
            final(tree)@.indices == old(tree)@.indices,
            final(tree)@.leaves == old(tree)@.leaves,
            final(tree)@.nodes.len() == old(tree)@.nodes.len(),
            final(tree)@.k == old(tree)@.k,
            final(tree)@.leaf_size == old(tree)@.leaf_size,
            tree_ordered(old(tree)@.nodes) ==> tree_ordered(final(tree)@.nodes),
    {
        while self.frames.len() > 0 && self.frames[self.frames.len() - 1].next == self.frames[self.frames.len() - 1].ranges.len()
            invariant
                self.opened is None,
                self.root is None,
                self.n == tree@.indices.len(),
                tree@.indices == old(tree)@.indices,
                tree@.leaves == old(tree)@.leaves,
                tree@.nodes.len() == old(tree)@.nodes.len(),
                self.cursor@ == old(self).cursor@,
                frames_work(self.frames@) == frames_work(old(self).frames@),
                ordered(self.cursor@, self.frames@, None, false, tree@.leaves),
                tree@.k == old(tree)@.k,
                tree@.leaf_size == old(tree)@.leaf_size,
                self.n == old(self).n,
                tree_ordered(old(tree)@.nodes) ==> tree_ordered(tree@.nodes),
                forall|k: int| 0 <= k < self.frames@.len() ==> #[trigger] frame_ok(
                    self.frames@[k].slot,
                    self.frames@[k].ranges@,
                    self.frames@[k].next,
                    self.frames@[k].child_depth,
                    tree@.nodes.len(),
                    self.n,
                ),
            decreases self.frames@.len(),
        {
            let ghost before = self.frames@;
            let top = self.frames.pop().unwrap();
            assert(self.frames@ == before.drop_last());
            proof {
                lemma_order_pop(self.cursor@, before, tree@.leaves);
                assert(before.last() == top);
                assert(frame_work(top) =~= Seq::<(usize, usize, usize)>::empty());
                assert(frames_work(before) =~= frames_work(self.frames@));
            }
            assert(frame_ok(top.slot, top.ranges@, top.next, top.child_depth, tree@.nodes.len(), self.n));
            tree.finish_node(top.slot);
            assert forall|k: int| 0 <= k < self.frames@.len() implies #[trigger] frame_ok(
                self.frames@[k].slot,
                self.frames@[k].ranges@,
                self.frames@[k].next,
                self.frames@[k].child_depth,
                tree@.nodes.len(),
                self.n,
            ) by {
                assert(self.frames@[k] == before[k]);
                assert(frame_ok(before[k].slot, before[k].ranges@, before[k].next, before[k].child_depth,
                    tree@.nodes.len(), self.n));
            }
        }
        proof {
            if self.frames@.len() > 0 {
                let k = self.frames@.len() - 1;
                assert(frame_ok(self.frames@[k].slot, self.frames@[k].ranges@, self.frames@[k].next,
                    self.frames@[k].child_depth, tree@.nodes.len(), self.n));
            }
        }
    }

    /// Opens a node for the next range. It becomes a leaf (its first id is its
    /// centre) when the range holds at most the tree's leaf size or the depth
    /// limit is reached; nodes whose children are then all built are closed,
    /// and `None` is returned. Otherwise the node's slot is returned and the
    /// build waits for the clusters of the range's ids (`split`).
    pub fn open(&mut self, tree: &mut BKTreeBuilder) -> (slot: Option<usize>)
        requires
            old(self).inv(old(tree)@),
            old(self).spec_pending() is Some,
            old(self).spec_n() > 0,
        ensures
            final(self).inv(final(tree)@),
            final(self).spec_n() == old(self).spec_n(),
            ({
                let (f, l, d) = old(self).spec_pending()->0;
                let leaf = l - f <= old(tree)@.leaf_size || d >= MAX_SPLIT_DEPTH;
                &&& slot is None <==> leaf
                &&& slot matches Some(s) ==> final(self).spec_opened() == Some((s, f, l, d))
                    && s == old(tree)@.nodes.len()
                &&& leaf ==> final(tree)@.leaves == old(tree)@.leaves.push((f, l))
                &&& !leaf ==> final(tree)@.leaves == old(tree)@.leaves
            }),
            old(self).work().len() > 0,
            old(self).work()[0] == old(self).spec_pending()->0,
            final(self).work() == old(self).work().drop_first(),
            0 <= final(self).measure() < old(self).measure(),
            final(tree)@.indices == old(tree)@.indices,
            final(tree)@.k == old(tree)@.k,
            final(tree)@.leaf_size == old(tree)@.leaf_size,
            tree_ordered(old(tree)@.nodes) ==> tree_ordered(final(tree)@.nodes),
    {
        let (f, l, d) = self.pending().unwrap();
        let ghost old_frames = self.frames@;
        let ghost from_root = self.root is Some;
        let ghost top_frame = if old_frames.len() > 0 { old_frames[old_frames.len() - 1] } else { arbitrary() };
        if self.root.is_some() {
            self.root = None;
            proof {
                assert(frames_work(self.frames@) =~= old(self).work().drop_first());
            }
        } else {
            let ghost k = old_frames.len() - 1;
            assert(frame_ok(old_frames[k].slot, old_frames[k].ranges@, old_frames[k].next, old_frames[k].child_depth,
                old(tree)@.nodes.len(), self.n));
            let mut top = self.frames.pop().unwrap();
            assert(top == old_frames[k]);
            assert(top.next < top.ranges@.len());
            assert(top.next < top.ranges.len());
            top.next = top.next + 1;
            self.frames.push(top);
            assert(self.frames@ =~= old_frames.update(k, top));
            proof {
                let old_top = old_frames[k];
                assert(old_frames.last() == old_top);
                assert(self.frames@.last() == top);
                assert(self.frames@.drop_last() =~= old_frames.drop_last());
                assert(top.ranges@.skip(top.next as int) =~= old_top.ranges@.skip(old_top.next as int).drop_first());
                assert(frame_work(top) =~= frame_work(old_top).drop_first());
                assert(frame_work(old_top).len() > 0);
                assert(frame_work(old_top)[0] == (old_top.ranges@[old_top.next as int].0,
                    old_top.ranges@[old_top.next as int].1, old_top.child_depth));
                assert(old(self).work() == frame_work(old_top) + frames_work(old_frames.drop_last()));
                assert(frames_work(self.frames@) =~= old(self).work().drop_first());
            }
            assert forall|j: int| 0 <= j < self.frames@.len() implies #[trigger] frame_ok(
                self.frames@[j].slot,
                self.frames@[j].ranges@,
                self.frames@[j].next,
                self.frames@[j].child_depth,
                old(tree)@.nodes.len(),
                self.n,
            ) by {
                if j < k {
                    assert(self.frames@[j] == old_frames[j]);
                    assert(frame_ok(old_frames[j].slot, old_frames[j].ranges@, old_frames[j].next,
                        old_frames[j].child_depth, old(tree)@.nodes.len(), self.n));
                }
            }
        }
        let slot = tree.open_node(f, l);
        proof {
            assert forall|j: int| 0 <= j < self.frames@.len() implies #[trigger] frame_ok(
                self.frames@[j].slot,
                self.frames@[j].ranges@,
                self.frames@[j].next,
                self.frames@[j].child_depth,
                tree@.nodes.len(),
                self.n,
            ) by {
                assert(frame_ok(self.frames@[j].slot, self.frames@[j].ranges@, self.frames@[j].next,
                    self.frames@[j].child_depth, old(tree)@.nodes.len(), self.n));
            }
        }
        proof {
            let w = old(self).work();
            assert(w[0] == (f, l, d));
            assert(w =~= seq![w[0]] + w.drop_first());
            lemma_work_weight_append(seq![w[0]], w.drop_first());
            assert(seq![w[0]].drop_last() =~= Seq::<(usize, usize, usize)>::empty());
            assert(seq![w[0]].last() == w[0]);
            assert(work_weight(seq![w[0]]) == work_weight(Seq::<(usize, usize, usize)>::empty()) + range_weight(w[0]));
            assert(work_weight(seq![w[0]]) == range_weight((f, l, d)));
            assert(range_weight((f, l, d)) >= 1) by (nonlinear_arith)
                requires
                    f < l,
                    d <= MAX_SPLIT_DEPTH,
                    range_weight((f, l, d)) == (l - f) * (MAX_SPLIT_DEPTH + 1 - d),
            ;
        }
        if l - f <= tree.leaf_size() || d >= MAX_SPLIT_DEPTH {
            tree.close_leaf(slot, f, l);
            proof {
                if from_root {
                    assert(in_order(tree@.leaves));
                } else {
                    let k = old_frames.len() - 1;
                    assert(frame_ok(top_frame.slot, top_frame.ranges@, top_frame.next, top_frame.child_depth,
                        old(tree)@.nodes.len(), self.n));
                    lemma_order_leaf(old(self).cursor@, old_frames, old(tree)@.leaves, self.frames@[k]);
                }
            }
            self.cursor = Ghost(l as int);
            proof {
                assert forall|j: int| 0 <= j < self.frames@.len() implies #[trigger] frame_ok(
                    self.frames@[j].slot,
                    self.frames@[j].ranges@,
                    self.frames@[j].next,
                    self.frames@[j].child_depth,
                    tree@.nodes.len(),
                    self.n,
                ) by {
                    assert(frame_ok(self.frames@[j].slot, self.frames@[j].ranges@, self.frames@[j].next,
                        self.frames@[j].child_depth, tree@.nodes.len(), self.n));
                }
            }
            self.unwind(tree);
            proof {
                self.lemma_work_ok(tree@);
            }
            None
        } else {
            proof {
                if !from_root {
                    let k = old_frames.len() - 1;
                    lemma_order_open(old(self).cursor@, old_frames, old(tree)@.leaves, self.frames@[k], slot, d);
                }
            }
            self.opened = Some((slot, f, l, d));
            proof {
                self.lemma_work_ok(tree@);
            }
            Some(slot)
        }
    }

    /// Groups the ids of the opened node's range by their clusters
    /// (`BKTreeBuilder::split_node`), queues the ranges of its clusters of two
    /// or more ids (`subtree_ranges_of`) one level deeper, and closes every
    /// node whose children are then all built.
    pub fn split(&mut self, tree: &mut BKTreeBuilder, assignments: &[usize])
        requires
            old(self).inv(old(tree)@),
            old(self).spec_opened() is Some,
            assignments@.len() == old(self).opened_len(),
            forall|i: int| 0 <= i < assignments@.len() ==> #[trigger] assignments@[i] < old(tree)@.k,
            old(tree)@.nodes.len() <= i32::MAX,
        ensures
            final(self).inv(final(tree)@),
            final(self).spec_n() == old(self).spec_n(),
            final(self).spec_opened() is None,
            ({
                let (s, f, l, d) = old(self).spec_opened()->0;
                let seg = old(tree)@.indices.subrange(f as int, l as int);
                let counts = cluster_counts(seg, assignments@, old(tree)@.k);
                final(self).work() == at_depth(subtree_ranges(counts, f as int, counts.len() as int), (d + 1) as usize)
                    + old(self).work()
            }),
            0 <= final(self).measure() < old(self).measure(),
            final(tree)@.indices.to_multiset() == old(tree)@.indices.to_multiset(),
            final(tree)@.leaves == old(tree)@.leaves,
            final(tree)@.k == old(tree)@.k,
            final(tree)@.leaf_size == old(tree)@.leaf_size,
            tree_ordered(old(tree)@.nodes) ==> tree_ordered(final(tree)@.nodes),
    {
        let (slot, f, l, d) = self.opened.unwrap();
        let ghost seg = tree@.indices.subrange(f as int, l as int);
        let ghost a = assignments@;
        let ghost k = tree@.k;
        let counts = tree.split_node(slot, f, l, assignments);
        proof {
            lemma_grouping_permutes(seg, a, k);
            assert forall|m: int| 0 <= m <= counts@.len() implies f + #[trigger] count_sum(counts@, m) <= usize::MAX by {
                lemma_count_sum_grouped(seg, a, counts@, m as nat);
                lemma_grouped_prefix_len(seg, a, m as nat, k as nat);
            }
            lemma_count_sum_grouped(seg, a, counts@, counts@.len());
            lemma_subtree_ranges_inside(counts@, f as int, counts@.len() as int);
        }
        let ranges = subtree_ranges_of(&counts, f);
        proof {
            assert(counts@ =~= cluster_counts(seg, a, k));
            lemma_subtree_ranges_len(counts@, f as int, counts@.len() as int);
            lemma_grouped_prefix_len(seg, a, k as nat, k as nat);
            lemma_weight_at_depth(ranges@, (d + 1) as usize);
            assert forall|j: int| 0 <= j < ranges@.len() implies (#[trigger] ranges@[j]).0 <= ranges@[j].1 by {
                assert(ranges@[j] == subtree_ranges(counts@, f as int, counts@.len() as int)[j]);
            }
            lemma_ranges_len_nonneg(ranges@);
        }
        let frame = BuildFrame { slot, ranges, next: 0, child_depth: d + 1, end: l };
        proof {
            assert forall|j: int| 0 <= j < frame.ranges@.len() implies f <= (#[trigger] frame.ranges@[j]).0
                && frame.ranges@[j].1 <= l by {
                assert(frame.ranges@[j] == subtree_ranges(counts@, f as int, counts@.len() as int)[j]);
            }
            assert(in_order(frame.ranges@)) by {
                assert forall|i: int, j: int| 0 <= i < j < frame.ranges@.len() implies (#[trigger] frame.ranges@[i]).1
                    <= (#[trigger] frame.ranges@[j]).0 by {
                    let sr = subtree_ranges(counts@, f as int, counts@.len() as int);
                    assert(frame.ranges@[i] == sr[i] && frame.ranges@[j] == sr[j]);
                }
            }
            lemma_order_push(self.cursor@, self.frames@, tree@.leaves, (slot, f, l, d), frame);
        }
        let ghost before = self.frames@;
        self.frames.push(frame);
        self.opened = None;
        proof {
            assert(self.frames@.drop_last() =~= before);
            assert(frame.ranges@.skip(0) =~= frame.ranges@);
            assert(frames_work(self.frames@) == at_depth(ranges@, (d + 1) as usize) + frames_work(before));
            lemma_work_weight_append(at_depth(ranges@, (d + 1) as usize), frames_work(before));
        }
        proof {
            assert forall|j: int| 0 <= j < self.frames@.len() implies #[trigger] frame_ok(
                self.frames@[j].slot,
                self.frames@[j].ranges@,
                self.frames@[j].next,
                self.frames@[j].child_depth,
                tree@.nodes.len(),
                self.n,
            ) by {
                if j < self.frames@.len() - 1 {
                    assert(self.frames@[j] == old(self).frames@[j]);
                    assert(frame_ok(old(self).frames@[j].slot, old(self).frames@[j].ranges@, old(self).frames@[j].next,
                        old(self).frames@[j].child_depth, old(tree)@.nodes.len(), self.n));
                } else {
                    assert forall|i: int| 0 <= i < ranges@.len() implies (#[trigger] ranges@[i]).0 < ranges@[i].1
                        && ranges@[i].1 <= self.n by {
                        let r = subtree_ranges(counts@, f as int, counts@.len() as int)[i];
                        assert(r == ranges@[i]);
                    }
                }
            }
        }
        self.unwind(tree);
        proof {
            self.lemma_work_ok(tree@);
            let rl = ranges_len(ranges@);
            let len = l - f;
            assert(rl <= len);
            assert(2 * (rl * (MAX_SPLIT_DEPTH + 1 - (d + 1))) < 2 * (len * (MAX_SPLIT_DEPTH + 1 - d)) - 1)
                by (nonlinear_arith)
                requires
                    0 <= rl <= len,
                    1 <= len,
                    d < MAX_SPLIT_DEPTH,
            ;
        }
    }

    /// Pending ranges run forwards inside `0..n` at depths within the limit,
    /// and the measure is never negative.
    proof fn lemma_work_ok(&self, t: TreeImage)
        requires
            self.inv(t),
        ensures
            forall|j: int| 0 <= j < self.work().len() ==> (#[trigger] self.work()[j]).0 <= self.work()[j].1
                && self.work()[j].2 <= MAX_SPLIT_DEPTH,
            work_weight(self.work()) >= 0,
            self.measure() >= 0,
    {
        if self.root is None {
            lemma_frames_work_ok(self.frames@, t.nodes.len(), self.n);
        }
        lemma_work_weight_nonneg(self.work());
        if let Some(o) = self.opened {
            assert(range_weight((o.1, o.2, o.3)) >= 1) by (nonlinear_arith)
                requires
                    o.1 < o.2,
                    o.3 < MAX_SPLIT_DEPTH,
                    range_weight((o.1, o.2, o.3)) == (o.2 - o.1) * (MAX_SPLIT_DEPTH + 1 - o.3),
            ;
        }
    }

    /// Whether the build is over: nothing pending and no node waiting.
    pub fn is_done(&self) -> (r: bool)
        ensures
            r == (self.spec_pending() is None && self.spec_opened() is None),
    {
        self.pending().is_none() && self.opened.is_none()
    }

    /// The leaves of the tree that this build drives are ranges of `0..n`
    /// that come in increasing order without overlapping.
    pub proof fn lemma_leaves_in_order(&self, t: TreeImage)
        requires
            self.inv(t),
        ensures
            forall|j: int| 0 <= j < t.leaves.len() ==> (#[trigger] t.leaves[j]).0 <= t.leaves[j].1 && t.leaves[j].1
                <= self.spec_n(),
            in_order(t.leaves),
    {
    }
}

} // verus!
