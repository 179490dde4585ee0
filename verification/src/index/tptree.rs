//! TP-tree parameters and the in-place split of a range of vector ids by the
//! side of the projection plane on which each vector falls.
use vstd::prelude::*;

verus! {

/// Parameters of a TP-tree: the largest leaf, how many vectors are sampled to
/// choose a split, and how many high-variance dimensions a split projects on.
pub struct TPTree {
    leaf_size: usize,
    samples: usize,
    top_dims: usize,
}

impl TPTree {
    pub closed spec fn spec_leaf_size(&self) -> usize {
        self.leaf_size
    }

    pub closed spec fn spec_samples(&self) -> usize {
        self.samples
    }

    pub closed spec fn spec_top_dims(&self) -> usize {
        self.top_dims
    }

    pub fn new(leaf_size: usize, samples: usize, top_dims: usize) -> (t: Self)
        ensures
            t.spec_leaf_size() == leaf_size,
            t.spec_samples() == samples,
            t.spec_top_dims() == top_dims,
    {
        TPTree { leaf_size, samples, top_dims }
    }

    pub fn leaf_size(&self) -> (r: usize)
        ensures
            r == self.spec_leaf_size(),
    {
        self.leaf_size
    }

    pub fn samples(&self) -> (r: usize)
        ensures
            r == self.spec_samples(),
    {
        self.samples
    }

    pub fn top_dims(&self) -> (r: usize)
        ensures
            r == self.spec_top_dims(),
    {
        self.top_dims
    }

    /// Whether a range of `size` vectors is stored as a leaf without splitting.
    pub fn is_leaf_size(&self, size: usize) -> (r: bool)
        ensures
            r == (size <= self.spec_leaf_size()),
    {
        size <= self.leaf_size
    }
}

/// Ranges `r` follow one another from `0` to `n`: the first starts at `0`, each
/// starts where the previous ends, the last ends at `n`, and none is reversed.
pub open spec fn tiles(r: Seq<(usize, usize)>, n: usize) -> bool {
    &&& r.len() == 0 ==> n == 0
    &&& r.len() > 0 ==> r[0].0 == 0 && r[r.len() - 1].1 == n
    &&& forall|i: int| 0 <= i < r.len() ==> (#[trigger] r[i]).0 <= r[i].1
    &&& forall|i: int| 0 <= i < r.len() - 1 ==> (#[trigger] r[i]).1 == r[i + 1].0
}

/// No range is empty.
pub open spec fn all_nonempty(r: Seq<(usize, usize)>) -> bool {
    forall|i: int| 0 <= i < r.len() ==> (#[trigger] r[i]).0 < r[i].1
}

/// A measure of the work left in pending ranges: twice their summed length
/// less their number. Splitting a range into two non-empty parts lowers it by
/// one, and making a non-empty range a leaf lowers it by at least one.
pub open spec fn split_measure(r: Seq<(usize, usize)>) -> int
    decreases r.len(),
{
    if r.len() == 0 {
        0
    } else {
        split_measure(r.drop_last()) + 2 * (r.last().1 - r.last().0) - 1
    }
}

proof fn lemma_split_measure_append(a: Seq<(usize, usize)>, b: Seq<(usize, usize)>)
    ensures
        split_measure(a + b) == split_measure(a) + split_measure(b),
    decreases b.len(),
{
    if b.len() == 0 {
        assert(a + b =~= a);
    } else {
        assert((a + b).drop_last() =~= a + b.drop_last());
        lemma_split_measure_append(a, b.drop_last());
    }
}

proof fn lemma_split_measure_nonneg(r: Seq<(usize, usize)>)
    requires
        all_nonempty(r),
    ensures
        split_measure(r) >= r.len(),
    decreases r.len(),
{
    if r.len() > 0 {
        assert(r[r.len() - 1] == r.last());
        assert forall|i: int| 0 <= i < r.drop_last().len() implies (#[trigger] r.drop_last()[i]).0
            < r.drop_last()[i].1 by {
            assert(r.drop_last()[i] == r[i]);
        }
        lemma_split_measure_nonneg(r.drop_last());
    }
}

proof fn lemma_nonempty_append(a: Seq<(usize, usize)>, b: Seq<(usize, usize)>)
    ensures
        all_nonempty(a + b) <==> all_nonempty(a) && all_nonempty(b),
{
    if all_nonempty(a + b) {
        assert forall|i: int| 0 <= i < a.len() implies (#[trigger] a[i]).0 < a[i].1 by {
            assert((a + b)[i] == a[i]);
        }
        assert forall|i: int| 0 <= i < b.len() implies (#[trigger] b[i]).0 < b[i].1 by {
            assert((a + b)[a.len() + i] == b[i]);
        }
    }
    if all_nonempty(a) && all_nonempty(b) {
        assert forall|i: int| 0 <= i < (a + b).len() implies (#[trigger] (a + b)[i]).0 < (a + b)[i].1 by {
            if i < a.len() {
                assert((a + b)[i] == a[i]);
            } else {
                assert((a + b)[i] == b[i - a.len()]);
            }
        }
    }
}

proof fn lemma_split_measure_single(x: (usize, usize))
    ensures
        split_measure(seq![x]) == 2 * (x.1 - x.0) - 1,
{
    reveal_with_fuel(split_measure, 2);
    assert(seq![x].drop_last() =~= Seq::<(usize, usize)>::empty());
    assert(seq![x].last() == x);
}

/// Making the first pending range a leaf keeps the ranges non-empty and, when
/// that range is non-empty, lowers the measure.
proof fn lemma_take_leaf_step(l0: Seq<(usize, usize)>, q: Seq<(usize, usize)>)
    requires
        q.len() > 0,
    ensures
        q[0].0 < q[0].1 ==> split_measure(q.drop_first()) < split_measure(q),
        all_nonempty(l0 + q) ==> all_nonempty(l0.push(q[0]) + q.drop_first()) && split_measure(q.drop_first()) >= 0,
{
    lemma_split_measure_first(q);
    lemma_nonempty_append(l0, q);
    assert(l0.push(q[0]) =~= l0 + seq![q[0]]);
    lemma_nonempty_append(l0, seq![q[0]]);
    lemma_nonempty_append(l0.push(q[0]), q.drop_first());
    if all_nonempty(l0 + q) {
        lemma_split_measure_nonneg(q.drop_first());
    }
}

/// Replacing the first pending range by two non-empty halves keeps the ranges
/// non-empty and lowers the measure.
proof fn lemma_split_two_step(l0: Seq<(usize, usize)>, q: Seq<(usize, usize)>, p: usize)
    requires
        q.len() > 0,
        q[0].0 < p < q[0].1,
    ensures
        split_measure(seq![(q[0].0, p), (p, q[0].1)] + q.drop_first()) < split_measure(q),
        all_nonempty(l0 + q) ==> all_nonempty(l0 + (seq![(q[0].0, p), (p, q[0].1)] + q.drop_first()))
            && split_measure(seq![(q[0].0, p), (p, q[0].1)] + q.drop_first()) >= 0,
{
    let two = seq![(q[0].0, p), (p, q[0].1)];
    lemma_split_measure_first(q);
    lemma_nonempty_append(l0, q);
    assert(two =~= seq![(q[0].0, p)] + seq![(p, q[0].1)]);
    lemma_split_measure_append(seq![(q[0].0, p)], seq![(p, q[0].1)]);
    lemma_split_measure_single((q[0].0, p));
    lemma_split_measure_single((p, q[0].1));
    lemma_split_measure_append(two, q.drop_first());
    assert(all_nonempty(two)) by {
        assert forall|i: int| 0 <= i < two.len() implies (#[trigger] two[i]).0 < two[i].1 by {
            if i == 0 {
                assert(two[0] == (q[0].0, p));
            } else {
                assert(two[1] == (p, q[0].1));
            }
        }
    }
    lemma_nonempty_append(two, q.drop_first());
    lemma_nonempty_append(l0, two + q.drop_first());
    if all_nonempty(l0 + q) {
        lemma_split_measure_nonneg(two + q.drop_first());
    }
}

/// Taking the first pending range: the measure loses its term.
proof fn lemma_split_measure_first(r: Seq<(usize, usize)>)
    requires
        r.len() > 0,
    ensures
        split_measure(r) == 2 * (r[0].1 - r[0].0) - 1 + split_measure(r.drop_first()),
        all_nonempty(r) <==> r[0].0 < r[0].1 && all_nonempty(r.drop_first()),
{
    assert(r =~= seq![r[0]] + r.drop_first());
    lemma_split_measure_append(seq![r[0]], r.drop_first());
    lemma_nonempty_append(seq![r[0]], r.drop_first());
    lemma_split_measure_single(r[0]);
    assert(all_nonempty(seq![r[0]]) <==> r[0].0 < r[0].1) by {
        assert(seq![r[0]][0] == r[0]);
    }
}

/// The progress of a TP-tree build over ids `0..n`: the leaves found so far,
/// and the ranges still to split, the next one last.
pub struct TPBuild {
    stack: Vec<(usize, usize)>,
    leaves: Vec<(usize, usize)>,
    n: usize,
}

impl TPBuild {
    /// Leaves found so far.
    pub closed spec fn spec_leaves(&self) -> Seq<(usize, usize)> {
        self.leaves@
    }

    /// Ranges still to split, the next one first.
    pub closed spec fn spec_pending(&self) -> Seq<(usize, usize)> {
        Seq::new(self.stack@.len(), |i: int| self.stack@[self.stack@.len() - 1 - i])
    }

    /// Number of ids the build covers.
    pub closed spec fn spec_n(&self) -> usize {
        self.n
    }

    /// The leaves and the pending ranges together tile `0..n`.
    pub open spec fn wf(&self) -> bool {
        tiles(self.spec_leaves() + self.spec_pending(), self.spec_n())
    }

    /// A build over ids `0..n`: the whole range is pending.
    pub fn new(n: usize) -> (b: Self)
        ensures
            b.wf(),
            b.spec_n() == n,
            b.spec_leaves() == Seq::<(usize, usize)>::empty(),
            b.spec_pending() == seq![(0usize, n)],
            n > 0 ==> all_nonempty(b.spec_leaves() + b.spec_pending()),
    {
        let mut stack: Vec<(usize, usize)> = Vec::new();
        stack.push((0, n));
        let b = TPBuild { stack, leaves: Vec::new(), n };
        assert(b.spec_pending() =~= seq![(0usize, n)]);
        assert(b.spec_leaves() + b.spec_pending() =~= seq![(0usize, n)]);
        assert((b.spec_leaves() + b.spec_pending())[0] == (0usize, n));
        b
    }

    /// The next range to handle, if any.
    pub fn pending(&self) -> (r: Option<(usize, usize)>)
        ensures
            self.spec_pending().len() == 0 ==> r is None,
            self.spec_pending().len() > 0 ==> r == Some(self.spec_pending()[0]),
    {
        if self.stack.len() == 0 {
            None
        } else {
            Some(self.stack[self.stack.len() - 1])
        }
    }

    /// The leaves found so far; once nothing is pending they tile `0..n`.
    pub fn leaves(&self) -> (r: &[(usize, usize)])
        requires
            self.wf(),
        ensures
            r@ == self.spec_leaves(),
            self.spec_pending().len() == 0 ==> tiles(r@, self.spec_n()),
    {
        if self.stack.len() == 0 {
            assert(self.spec_leaves() + self.spec_pending() =~= self.spec_leaves());
        }
        self.leaves.as_slice()
    }

    fn take_leaf(&mut self)
        requires
            old(self).wf(),
            old(self).spec_pending().len() > 0,
        ensures
            final(self).wf(),
            final(self).spec_n() == old(self).spec_n(),
            final(self).spec_leaves() == old(self).spec_leaves().push(old(self).spec_pending()[0]),
            final(self).spec_pending() == old(self).spec_pending().drop_first(),
    {
        let top = self.stack.pop().unwrap();
        self.leaves.push(top);
        assert(self.spec_pending() =~= old(self).spec_pending().drop_first());
        assert(self.spec_leaves() + self.spec_pending() =~= old(self).spec_leaves() + old(self).spec_pending());
    }

    /// Makes the next range a leaf when it holds at most `tree`'s leaf size;
    /// returns whether it did.
    pub fn settle_small(&mut self, tree: &TPTree) -> (leaf: bool)
        requires
            old(self).wf(),
            old(self).spec_pending().len() > 0,
        ensures
            final(self).wf(),
            final(self).spec_n() == old(self).spec_n(),
            leaf == (old(self).spec_pending()[0].1 - old(self).spec_pending()[0].0 <= tree.spec_leaf_size()),
            leaf ==> final(self).spec_leaves() == old(self).spec_leaves().push(old(self).spec_pending()[0])
                && final(self).spec_pending() == old(self).spec_pending().drop_first(),
            !leaf ==> final(self).spec_leaves() == old(self).spec_leaves() && final(self).spec_pending()
                == old(self).spec_pending(),
            all_nonempty(old(self).spec_leaves() + old(self).spec_pending()) ==> {
                &&& all_nonempty(final(self).spec_leaves() + final(self).spec_pending())
                &&& 0 <= split_measure(final(self).spec_pending())
                &&& leaf ==> split_measure(final(self).spec_pending()) < split_measure(old(self).spec_pending())
            },
    {
        let (first, last) = self.stack[self.stack.len() - 1];
        proof {
            let all = old(self).spec_leaves() + old(self).spec_pending();
            assert(all[old(self).spec_leaves().len() as int] == old(self).spec_pending()[0]);
        }
        proof {
            lemma_take_leaf_step(old(self).spec_leaves(), old(self).spec_pending());
            let q = old(self).spec_pending();
            lemma_split_measure_first(q);
            lemma_nonempty_append(old(self).spec_leaves(), q);
            if all_nonempty(old(self).spec_leaves() + q) {
                lemma_split_measure_nonneg(q);
            }
        }
        if tree.is_leaf_size(last - first) {
            self.take_leaf();
            true
        } else {
            false
        }
    }

    /// Splits the next range of `indices` by the side of each vector
    /// (`partition_by_side`). When no vector falls below, the range becomes a
    /// leaf; otherwise it is replaced by its lower part and then its upper part.
    /// Returns the split position.
    #[verifier::rlimit(50)]
    pub fn split(&mut self, indices: &mut Vec<usize>, below: &[bool]) -> (p: usize)
        requires
            old(self).wf(),
            old(self).spec_pending().len() > 0,
            old(self).spec_pending()[0].0 < old(self).spec_pending()[0].1 <= old(indices)@.len(),
            forall|k: int|
                old(self).spec_pending()[0].0 <= k < old(self).spec_pending()[0].1 ==> (#[trigger] old(indices)@[k])
                    < below@.len(),
        ensures
            final(self).wf(),
            final(self).spec_n() == old(self).spec_n(),
            ({
                let (first, last) = old(self).spec_pending()[0];
                &&& first <= p < last
                &&& final(indices)@.len() == old(indices)@.len()
                &&& final(indices)@.to_multiset() == old(indices)@.to_multiset()
                &&& forall|k: int| 0 <= k < first || last <= k < old(indices)@.len()
                    ==> #[trigger] final(indices)@[k] == old(indices)@[k]
                &&& forall|k: int| first <= k < p ==> below@[#[trigger] final(indices)@[k] as int]
                &&& forall|k: int| p < k < last ==> !below@[#[trigger] final(indices)@[k] as int]
                &&& p == first ==> final(self).spec_leaves() == old(self).spec_leaves().push((first, last))
                    && final(self).spec_pending() == old(self).spec_pending().drop_first()
                &&& p != first ==> final(self).spec_leaves() == old(self).spec_leaves() && final(self).spec_pending()
                    == seq![(first, p), (p, last)] + old(self).spec_pending().drop_first()
            }),
            split_measure(final(self).spec_pending()) < split_measure(old(self).spec_pending()),
            all_nonempty(old(self).spec_leaves() + old(self).spec_pending()) ==> {
                &&& all_nonempty(final(self).spec_leaves() + final(self).spec_pending())
                &&& 0 <= split_measure(final(self).spec_pending())
            },
    {
        let (first, last) = self.stack[self.stack.len() - 1];
        let p = partition_by_side(indices, first, last, below);
        proof {
            let q = old(self).spec_pending();
            if p == first {
                lemma_take_leaf_step(old(self).spec_leaves(), q);
            } else {
                lemma_split_two_step(old(self).spec_leaves(), q, p);
            }
        }
        if p == first {
            self.take_leaf();
        } else {
            self.stack.pop();
            self.stack.push((p, last));
            self.stack.push((first, p));
            proof {
                assert(self.spec_pending() =~= seq![(first, p), (p, last)] + old(self).spec_pending().drop_first());
                lemma_tiles_split(old(self).spec_leaves(), old(self).spec_pending(), self.n, p);
            }
        }
        p
    }
}

/// Replacing a range of a tiling by its two halves keeps a tiling.
#[verifier::rlimit(40)]
#[verifier::spinoff_prover]
proof fn lemma_tiles_split(l: Seq<(usize, usize)>, q: Seq<(usize, usize)>, n: usize, p: usize)
    requires
        tiles(l + q, n),
        q.len() > 0,
        q[0].0 <= p <= q[0].1,
    ensures
        tiles(l + (seq![(q[0].0, p), (p, q[0].1)] + q.drop_first()), n),
{
    let old_all = l + q;
    let all = l + (seq![(q[0].0, p), (p, q[0].1)] + q.drop_first());
    let lc = l.len() as int;
    assert(old_all[lc] == q[0]);
    assert(all.len() == old_all.len() + 1);
    assert(all[lc] == (q[0].0, p));
    assert(all[lc + 1] == (p, q[0].1));
    assert forall|i: int| 0 <= i < all.len() implies (#[trigger] all[i]).0 <= all[i].1 by {
        if i < lc {
            assert(all[i] == old_all[i]);
        } else if i > lc + 1 {
            assert(all[i] == old_all[i - 1]);
        }
    }
    assert forall|i: int| 0 <= i < all.len() - 1 implies (#[trigger] all[i]).1 == all[i + 1].0 by {
        if i < lc - 1 {
            assert(all[i] == old_all[i] && all[i + 1] == old_all[i + 1]);
        } else if i == lc - 1 {
            assert(all[i] == old_all[i] && old_all[i].1 == old_all[i + 1].0);
        } else if i > lc + 1 {
            assert(all[i] == old_all[i - 1] && all[i + 1] == old_all[i]);
        } else if i == lc + 1 {
            assert(all[i + 1] == old_all[i]);
            assert(old_all[lc].1 == old_all[lc + 1].0);
        }
    }
    if lc == 0 {
        assert(all[0] == (q[0].0, p));
    } else {
        assert(all[0] == old_all[0]);
    }
    if lc == old_all.len() - 1 {
        assert(all[all.len() - 1] == (p, q[0].1));
    } else {
        assert(all[all.len() - 1] == old_all[old_all.len() - 1]);
    }
}

/// Splits `indices[first..last]` in place: vectors whose projection falls
/// below the split value (`below[id]`) move to the front. Scans from the front,
/// swapping every vector that is not below with the back of the unscanned
/// part; the returned position `p` is where the scan met the back, so
/// `indices[first..p]` are below, `indices[p + 1..last]` are not, and the
/// vector at `p` itself was never tested. The ids are only permuted, and
/// nothing outside the range moves.
pub fn partition_by_side(indices: &mut Vec<usize>, first: usize, last: usize, below: &[bool]) -> (p: usize)
    requires
        first < last <= old(indices)@.len(),
        forall|k: int| first <= k < last ==> (#[trigger] old(indices)@[k]) < below@.len(),
    ensures
        first <= p < last,
        final(indices)@.len() == old(indices)@.len(),
        final(indices)@.to_multiset() == old(indices)@.to_multiset(),
        forall|k: int| 0 <= k < first || last <= k < old(indices)@.len()
            ==> #[trigger] final(indices)@[k] == old(indices)@[k],
        forall|k: int| first <= k < last ==> (#[trigger] final(indices)@[k]) < below@.len(),
        forall|k: int| first <= k < p ==> below@[#[trigger] final(indices)@[k] as int],
        forall|k: int| p < k < last ==> !below@[#[trigger] final(indices)@[k] as int],
{
    broadcast use vstd::seq_lib::group_to_multiset_ensures, vstd::multiset::group_multiset_properties;
    let mut left = first;
    let mut right = last - 1;
    while left < right
        invariant
            first <= left <= right < last,
            last <= indices@.len(),
            indices@.len() == old(indices)@.len(),
            indices@.to_multiset() == old(indices)@.to_multiset(),
            forall|k: int| 0 <= k < first || last <= k < old(indices)@.len()
                ==> #[trigger] indices@[k] == old(indices)@[k],
            forall|k: int| first <= k < last ==> (#[trigger] indices@[k]) < below@.len(),
            forall|k: int| first <= k < left ==> below@[#[trigger] indices@[k] as int],
            forall|k: int| right < k < last ==> !below@[#[trigger] indices@[k] as int],
        decreases right - left,
    {
        let id = indices[left];
        if below[id] {
            left = left + 1;
        } else {
            let other = indices[right];
            let ghost before = indices@;
            indices.set(left, other);
            indices.set(right, id);
            proof {
                let mid = before.update(left as int, other);
                vstd::seq_lib::to_multiset_update(before, left as int, other);
                assert(indices@ == mid.update(right as int, id));
                assert(mid[right as int] == other);
                vstd::seq_lib::to_multiset_update(mid, right as int, id);
                assert(before[left as int] == id);
                vstd::seq_lib::to_multiset_contains(before, id);
                assert(before.to_multiset().count(id) > 0);
                assert(before.to_multiset().insert(other).remove(id).insert(id).remove(other)
                    =~= before.to_multiset());
            }
            right = right - 1;
        }
    }
    left
}

} // verus!
