//! Ground truth files and recall counting.
//!
//! A ground-truth file (`ivecs`) holds one record per query: the number of
//! neighbours as a little-endian `u32`, then that many neighbour ids as `u32`s.
use vstd::prelude::*;
use vstd::bytes::*;
use crate::codec::read_u32_le;

verus! {

broadcast use vstd::seq_lib::group_seq_properties;

/// Records of a ground-truth file starting at `pos`: `n` of them, or `None`
/// when the bytes run out first.
pub open spec fn ground_truth_from(data: Seq<u8>, pos: int, n: nat) -> Option<Seq<Seq<usize>>>
    decreases n,
{
    if n == 0 {
        Some(Seq::empty())
    } else if pos + 4 > data.len() {
        None
    } else {
        let dim = spec_u32_from_le_bytes(data.subrange(pos, pos + 4)) as int;
        if pos + 4 + 4 * dim > data.len() {
            None
        } else {
            let row = Seq::new(
                dim as nat,
                |j: int| spec_u32_from_le_bytes(data.subrange(pos + 4 + 4 * j, pos + 8 + 4 * j)) as usize,
            );
            match ground_truth_from(data, pos + 4 + 4 * dim, (n - 1) as nat) {
                Some(rest) => Some(seq![row] + rest),
                None => None,
            }
        }
    }
}

proof fn lemma_ground_truth_len(data: Seq<u8>, pos: int, n: nat)
    ensures
        ground_truth_from(data, pos, n) matches Some(rows) ==> rows.len() == n,
    decreases n,
{
    if n > 0 && pos + 4 <= data.len() {
        let dim = spec_u32_from_le_bytes(data.subrange(pos, pos + 4)) as int;
        lemma_ground_truth_len(data, pos + 4 + 4 * dim, (n - 1) as nat);
    }
}

/// Reads the first `n` records of a ground-truth file; `None` when the file
/// ends before them.
pub fn parse_ground_truth(data: &[u8], n: usize) -> (r: Option<Vec<Vec<usize>>>)
    ensures
        match ground_truth_from(data@, 0, n as nat) {
            Some(rows) => r matches Some(v) && v@.len() == rows.len() && forall|i: int|
                0 <= i < rows.len() ==> (#[trigger] v@[i])@ == rows[i],
            None => r is None,
        },
{
    let len = data.len();
    let mut rows: Vec<Vec<usize>> = Vec::new();
    let mut pos: usize = 0;
    let mut k: usize = 0;
    proof {
        lemma_ground_truth_len(data@, 0, n as nat);
    }
    while k < n
        invariant
            k <= n,
            pos <= len,
            len == data@.len(),
            rows@.len() == k,
            ground_truth_from(data@, 0, n as nat) matches Some(all) ==> ground_truth_from(data@, pos as int, (n - k) as nat)
                matches Some(rest) && all.len() == n && rest.len() == n - k && (forall|i: int|
                0 <= i < k ==> (#[trigger] rows@[i])@ == all[i]) && (forall|i: int| 0 <= i < n - k ==> #[trigger] rest[i] == all[k + i]),
            ground_truth_from(data@, 0, n as nat) is None ==> ground_truth_from(data@, pos as int, (n - k) as nat) is None,
        decreases n - k,
    {
        if len < 4 || pos > len - 4 {
            return None;
        }
        let dim = read_u32_le(data, pos) as usize;
        let start = pos + 4;
        if dim > (len - start) / 4 {
            return None;
        }
        let mut row: Vec<usize> = Vec::new();
        let mut j: usize = 0;
        while j < dim
            invariant
                j <= dim,
                start + 4 * dim <= len,
                len == data@.len(),
                row@ == Seq::new(
                    j as nat,
                    |t: int| spec_u32_from_le_bytes(data@.subrange(start + 4 * t, start + 4 + 4 * t)) as usize,
                ),
            decreases dim - j,
        {
            let id = read_u32_le(data, start + 4 * j) as usize;
            row.push(id);
            j = j + 1;
            proof {
                assert(row@ =~= Seq::new(
                    j as nat,
                    |t: int| spec_u32_from_le_bytes(data@.subrange(start + 4 * t, start + 4 + 4 * t)) as usize,
                ));
            }
        }
        let ghost old_pos = pos as int;
        let ghost r = row@;
        rows.push(row);
        pos = start + 4 * dim;
        k = k + 1;
        proof {
            lemma_ground_truth_len(data@, pos as int, (n - k) as nat);
            if let Some(all) = ground_truth_from(data@, 0, n as nat) {
                let rest0 = ground_truth_from(data@, old_pos, (n - k + 1) as nat)->Some_0;
                let rest1 = ground_truth_from(data@, pos as int, (n - k) as nat)->Some_0;
                assert(rest0 == seq![r] + rest1);
                assert forall|i: int| 0 <= i < n - k implies #[trigger] rest1[i] == all[k + i] by {
                    assert(rest0[i + 1] == all[k - 1 + i + 1]);
                }
                assert(rest0[0] == all[k - 1]);
            }
        }
    }
    Some(rows)
}

/// Number of positions `i < min(k, len)` whose result id is among the first
/// `k` ground-truth ids.
pub open spec fn recall_matches(results: Seq<usize>, truth: Seq<usize>, k: nat) -> nat
    decreases results.len(),
{
    if results.len() == 0 {
        0
    } else {
        let rest = recall_matches(results.drop_last(), truth, k);
        if results.len() <= k && truth.take(if k <= truth.len() { k as int } else { truth.len() as int }).contains(
            results.last(),
        ) {
            rest + 1
        } else {
            rest
        }
    }
}

/// Counts the hits of recall@k: among the first `k` result ids, those found in
/// the first `k` ground-truth ids (a repeated result counts each time).
pub fn count_recall_matches(result_ids: &[usize], ground_truth: &[usize], k: usize) -> (m: usize)
    ensures
        m == recall_matches(result_ids@, ground_truth@, k as nat),
        m <= k,
{
    let kk = if k < ground_truth.len() { k } else { ground_truth.len() };
    let ghost gt = ground_truth@.take(kk as int);
    let mut m: usize = 0;
    let mut i: usize = 0;
    let n = result_ids.len();
    while i < n
        invariant
            i <= n,
            n == result_ids@.len(),
            kk == (if k <= ground_truth@.len() { k } else { ground_truth@.len() as usize }),
            gt == ground_truth@.take(kk as int),
            m == recall_matches(result_ids@.take(i as int), ground_truth@, k as nat),
            m <= i,
            m <= k,
        decreases n - i,
    {
        proof {
            assert(result_ids@.take(i + 1).drop_last() =~= result_ids@.take(i as int));
        }
        if i < k {
            let id = result_ids[i];
            let mut found = false;
            let mut j: usize = 0;
            while j < kk
                invariant
                    j <= kk,
                    kk <= ground_truth@.len(),
                    found == exists|t: int| 0 <= t < j && ground_truth@[t] == id,
                decreases kk - j,
            {
                if ground_truth[j] == id {
                    found = true;
                }
                j = j + 1;
            }
            proof {
                if found {
                    let t = choose|t: int| 0 <= t < kk && ground_truth@[t] == id;
                    assert(gt[t] == id);
                } else {
                    assert forall|t: int| 0 <= t < gt.len() implies gt[t] != id by {
                        assert(gt[t] == ground_truth@[t]);
                    }
                }
                assert(found == gt.contains(id));
            }
            if found {
                m = m + 1;
            }
        }
        i = i + 1;
    }
    proof {
        assert(result_ids@.take(n as int) =~= result_ids@);
    }
    m
}

/// Law: recall@k counts exactly the positions `i` below `k` (and below the
/// number of results) whose result id occurs among the first `k`
/// ground-truth ids; a result id that the ground truth holds only at
/// position `k` or later adds nothing.
pub proof fn lemma_recall_counts_hits(results: Seq<usize>, truth: Seq<usize>, k: nat)
    ensures
        recall_matches(results, truth, k) == Seq::new(results.len(), |i: int| i).filter(
            |i: int| i < k && exists|j: int| 0 <= j < k && j < truth.len() && truth[j] == results[i],
        ).len(),
{
    lemma_recall_prefix(results, truth, k, results.len());
    assert(results.take(results.len() as int) =~= results);
}

proof fn lemma_recall_prefix(results: Seq<usize>, truth: Seq<usize>, k: nat, m: nat)
    requires
        m <= results.len(),
    ensures
        recall_matches(results.take(m as int), truth, k) == Seq::new(m, |i: int| i).filter(
            |i: int| i < k && exists|j: int| 0 <= j < k && j < truth.len() && truth[j] == results[i],
        ).len(),
    decreases m,
{
    reveal(Seq::filter);
    let pred = |i: int| i < k && exists|j: int| 0 <= j < k && j < truth.len() && truth[j] == results[i];
    if m == 0 {
        assert(Seq::new(0, |i: int| i).filter(pred) =~= Seq::<int>::empty());
    } else {
        lemma_recall_prefix(results, truth, k, (m - 1) as nat);
        let r = results.take(m as int);
        assert(r.drop_last() =~= results.take(m - 1));
        assert(r.last() == results[m - 1]);
        let pos = Seq::new(m, |i: int| i);
        assert(pos.drop_last() =~= Seq::new((m - 1) as nat, |i: int| i));
        assert(pos.last() == m - 1);
        let x = results[m - 1];
        let kk = if k <= truth.len() { k as int } else { truth.len() as int };
        let g = truth.take(kk);
        if g.contains(x) {
            let j = choose|j: int| 0 <= j < g.len() && g[j] == x;
            assert(truth[j] == x);
        }
        if exists|j: int| 0 <= j < k && j < truth.len() && truth[j] == x {
            let j = choose|j: int| 0 <= j < k && j < truth.len() && truth[j] == x;
            assert(g[j] == x);
        }
        assert(pred(m - 1) == ((m - 1) < k && g.contains(x)));
        let prev = Seq::new((m - 1) as nat, |i: int| i);
        assert(pos.filter(pred) == if pred(pos.last()) {
            pos.drop_last().filter(pred).push(pos.last())
        } else {
            pos.drop_last().filter(pred)
        });
        assert(recall_matches(r, truth, k) == if r.len() <= k && g.contains(r.last()) {
            recall_matches(r.drop_last(), truth, k) + 1
        } else {
            recall_matches(r.drop_last(), truth, k)
        });
    }
}

/// Law: only the first `k` ground-truth ids matter: cutting the ground truth
/// to them leaves the count unchanged.
pub proof fn lemma_recall_ignores_truth_past_k(results: Seq<usize>, truth: Seq<usize>, k: nat)
    ensures
        recall_matches(results, truth, k) == recall_matches(
            results,
            truth.take(if k <= truth.len() { k as int } else { truth.len() as int }),
            k,
        ),
    decreases results.len(),
{
    let kk = if k <= truth.len() { k as int } else { truth.len() as int };
    let t2 = truth.take(kk);
    let kk2 = if k <= t2.len() { k as int } else { t2.len() as int };
    assert(t2.take(kk2) =~= truth.take(kk));
    if results.len() > 0 {
        lemma_recall_ignores_truth_past_k(results.drop_last(), truth, k);
    }
}

} // verus!
