//! The integer side of the SPANN index: its settings, its posting lists, the
//! map from head positions to vector ids, and the gathering of candidates from
//! the posting lists of the heads a query reaches.
use vstd::prelude::*;
use vstd::bytes::*;
use crate::codec::{push_u32_le, read_u32_le, u32s_le, lemma_u32s_le};
use crate::spann::fast_dedup::{FastDedup, dedup_key, dedup_step, empty_table, recordable, table_mask};
use crate::spann::storage::{ids_as_u32, ids_from_bytes, lemma_ids_roundtrip};

verus! {

broadcast use vstd::seq_lib::group_seq_properties;

/// Distance used by the index.
#[derive(Clone, Copy, PartialEq, Eq, Structural, Debug)]
pub enum DistanceMetric {
    L2,
    InnerProduct,
}

/// How posting-list vectors are stored.
#[derive(Clone, Copy, PartialEq, Eq, Structural, Debug)]
pub enum QuantizationType {
    Full,
    OneBit,
    TwoBit,
    FourBit,
}

/// Counters of one search.
#[derive(Clone, Copy, PartialEq, Eq, Structural, Debug)]
pub struct SearchStats {
    pub bytes_read: usize,
    pub posting_lists_accessed: usize,
    pub head_search_time_us: u64,
    pub posting_search_time_us: u64,
}

impl SearchStats {
    /// All counters at zero.
    pub fn new() -> (s: Self)
        ensures
            s == (SearchStats { bytes_read: 0, posting_lists_accessed: 0, head_search_time_us: 0, posting_search_time_us: 0 }),
    {
        SearchStats { bytes_read: 0, posting_lists_accessed: 0, head_search_time_us: 0, posting_search_time_us: 0 }
    }
}

/// Bits per dimension of a quantization type (0 for full precision).
pub open spec fn quantization_bits(q: QuantizationType) -> nat {
    match q {
        QuantizationType::Full => 0,
        QuantizationType::OneBit => 1,
        QuantizationType::TwoBit => 2,
        QuantizationType::FourBit => 4,
    }
}

impl QuantizationType {
    /// Bits per dimension, or `None` for full precision.
    pub fn bits(&self) -> (b: Option<usize>)
        ensures
            match *self {
                QuantizationType::Full => b is None,
                _ => b == Some(quantization_bits(*self) as usize),
            },
    {
        match self {
            QuantizationType::Full => None,
            QuantizationType::OneBit => Some(1),
            QuantizationType::TwoBit => Some(2),
            QuantizationType::FourBit => Some(4),
        }
    }
}

/// Bytes that hold `dim` codes of `bits` bits each.
pub fn quantized_bytes_per_vector(dim: usize, bits: usize) -> (n: usize)
    requires
        dim * bits + 7 <= usize::MAX,
    ensures
        n == (dim * bits + 7) / 8,
{
    (dim * bits + 7) / 8
}

/// The number of vectors each posting list may keep: the larger of
/// `replica_count * n / num_heads` and the configured limit.
pub fn posting_limit(replica_count: usize, n: usize, num_heads: usize, limit: usize) -> (r: usize)
    requires
        num_heads > 0,
        replica_count * n <= usize::MAX,
    ensures
        r as int == if (replica_count * n) / (num_heads as int) > limit { (replica_count * n) / (num_heads as int) } else { limit as int },
{
    let ideal = (replica_count * n) / num_heads;
    if ideal > limit { ideal } else { limit }
}

/// A posting list of the index: its head vector, the ids of the vectors it
/// holds, and their quantized codes when quantization is on.
pub struct PostingList {
    pub head_id: usize,
    pub vector_ids: Vec<usize>,
    pub quantized_data: Option<Vec<u8>>,
}

impl PostingList {
    /// An empty posting list for `head_id`.
    pub fn new(head_id: usize) -> (p: Self)
        ensures
            p.head_id == head_id,
            p.vector_ids@ == Seq::<usize>::empty(),
            p.quantized_data is None,
    {
        PostingList { head_id, vector_ids: Vec::new(), quantized_data: None }
    }
}

/// Encodes the head map: each vector id as a little-endian `u32`.
pub fn encode_head_map(head_id_map: &[usize]) -> (b: Vec<u8>)
    ensures
        b@ == u32s_le(ids_as_u32(head_id_map@)),
{
    let mut out: Vec<u8> = Vec::new();
    let n = head_id_map.len();
    let mut i: usize = 0;
    while i < n
        invariant
            i <= n,
            n == head_id_map@.len(),
            out@ == u32s_le(ids_as_u32(head_id_map@.take(i as int))),
        decreases n - i,
    {
        push_u32_le(&mut out, head_id_map[i] as u32);
        i = i + 1;
        proof {
            let t = ids_as_u32(head_id_map@.take(i as int));
            assert(t.drop_last() =~= ids_as_u32(head_id_map@.take(i - 1)));
        }
    }
    proof {
        assert(head_id_map@.take(n as int) =~= head_id_map@);
    }
    out
}

/// Decodes the head map: one id per whole 4-byte chunk; a trailing partial
/// chunk is ignored.
pub fn decode_head_map(bytes: &[u8]) -> (ids: Vec<usize>)
    ensures
        ids@ == ids_from_bytes(bytes@, bytes@.len() / 4),
{
    let n = bytes.len() / 4;
    crate::spann::storage::parse_vector_ids(bytes, n)
}

/// Law: the head map reads back as written when every id fits in 32 bits.
pub proof fn lemma_head_map_roundtrip(head_id_map: Seq<usize>)
    requires
        forall|i: int| 0 <= i < head_id_map.len() ==> #[trigger] head_id_map[i] <= u32::MAX,
    ensures
        ids_from_bytes(u32s_le(ids_as_u32(head_id_map)), u32s_le(ids_as_u32(head_id_map)).len() / 4) == head_id_map,
{
    lemma_ids_roundtrip(head_id_map, Seq::empty());
    assert(u32s_le(ids_as_u32(head_id_map)) + Seq::<u8>::empty() =~= u32s_le(ids_as_u32(head_id_map)));
}

// ----- candidate gathering -------------------------------------------------

/// What a search needs of a posting list to gather candidates: its vector ids,
/// the number of quantized codes it has when it is searched through its
/// quantizer (`None` for full precision), and whether ids without a code are
/// still looked up in the deduplication table (the on-demand quantized search
/// does so, the in-memory one does not).
pub struct PostingCandidates {
    pub vector_ids: Vec<usize>,
    pub quantized_count: Option<usize>,
    pub check_uncoded: bool,
}

/// A candidate: the head rank that reached it, the posting list, the position
/// of the id in that list, and the vector id.
#[derive(Clone, Copy, PartialEq, Eq, Structural, Debug)]
pub struct CandidateRef {
    pub rank: usize,
    pub posting: usize,
    pub slot: usize,
    pub vector_id: usize,
}

/// Entry `(rank, slot)` exists: the head at `rank` names a posting list, which
/// has a position `slot`.
pub open spec fn entry_exists(head: Seq<usize>, ps: Seq<PostingCandidates>, rank: int, slot: int) -> bool {
    &&& 0 <= rank < head.len()
    &&& head[rank] < ps.len()
    &&& 0 <= slot < ps[head[rank] as int].vector_ids@.len()
}

/// Id of entry `(rank, slot)`.
pub open spec fn entry_id(head: Seq<usize>, ps: Seq<PostingCandidates>, rank: int, slot: int) -> usize {
    ps[head[rank] as int].vector_ids@[slot]
}

/// The entry is looked up in the deduplication table: every entry of a
/// full-precision list, and the entries of a quantized list that have a code.
pub open spec fn entry_checked(head: Seq<usize>, ps: Seq<PostingCandidates>, rank: int, slot: int) -> bool {
    entry_exists(head, ps, rank, slot) && match ps[head[rank] as int].quantized_count {
        Some(c) => slot < c || ps[head[rank] as int].check_uncoded,
        None => true,
    }
}

/// The entry may become a candidate: it has a code (quantized list) or its
/// vector exists (full precision).
pub open spec fn entry_eligible(head: Seq<usize>, ps: Seq<PostingCandidates>, num_vectors: usize, rank: int, slot: int) -> bool {
    entry_exists(head, ps, rank, slot) && match ps[head[rank] as int].quantized_count {
        Some(c) => slot < c,
        None => entry_id(head, ps, rank, slot) < num_vectors,
    }
}

/// `(r1, s1)` comes before `(r2, s2)` in the scan.
pub open spec fn before(r1: int, s1: int, r2: int, s2: int) -> bool {
    r1 < r2 || (r1 == r2 && s1 < s2)
}

/// No checked entry before `(rank, slot)` has the same id.
pub open spec fn first_occurrence(head: Seq<usize>, ps: Seq<PostingCandidates>, rank: int, slot: int) -> bool {
    forall|r: int, s: int|
        #![trigger entry_checked(head, ps, r, s)]
        entry_checked(head, ps, r, s) && before(r, s, rank, slot) ==> entry_id(head, ps, r, s) != entry_id(
            head,
            ps,
            rank,
            slot,
        )
}

/// The deduplication table of the candidate scan just before entry
/// `(rank, slot)`: the scan starts from the empty table made for `max_check`
/// candidates, and every checked entry before goes through one
/// `check_and_set`. (Where the scan stops at `max_check` candidates, later
/// entries are not scanned.)
pub open spec fn gc_scan_state(head: Seq<usize>, ps: Seq<PostingCandidates>, max_check: usize, rank: nat, slot: nat) -> Seq<u32>
    decreases rank, slot,
{
    if slot == 0 {
        if rank == 0 {
            empty_table(max_check)
        } else if head[rank - 1] < ps.len() {
            gc_scan_state(head, ps, max_check, (rank - 1) as nat, ps[head[rank - 1] as int].vector_ids@.len())
        } else {
            gc_scan_state(head, ps, max_check, (rank - 1) as nat, 0)
        }
    } else {
        let t = gc_scan_state(head, ps, max_check, rank, (slot - 1) as nat);
        if entry_checked(head, ps, rank as int, slot - 1) {
            dedup_step(t, table_mask(max_check), dedup_key(entry_id(head, ps, rank as int, slot - 1))).1
        } else {
            t
        }
    }
}

/// When entry `(rank, slot)` of the candidate scan was scanned, the table had
/// room to record its id.
pub open spec fn gc_kept(head: Seq<usize>, ps: Seq<PostingCandidates>, max_check: usize, rank: int, slot: int) -> bool {
    recordable(
        gc_scan_state(head, ps, max_check, rank as nat, slot as nat),
        table_mask(max_check),
        dedup_key(entry_id(head, ps, rank, slot)),
    )
}

/// Number of the first `n` heads that name a posting list.
pub open spec fn heads_named(head: Seq<usize>, ps: Seq<PostingCandidates>, n: nat) -> nat
    decreases n,
{
    if n == 0 {
        0
    } else {
        heads_named(head, ps, (n - 1) as nat) + if head[n - 1] < ps.len() { 1nat } else { 0nat }
    }
}

/// How many heads a scan that stops at the first entry at or after
/// `(rank, slot)` has reached: up to and including that entry's head, or all
/// of them when no entry follows.
pub open spec fn heads_reached_from(head: Seq<usize>, ps: Seq<PostingCandidates>, rank: nat, slot: nat) -> nat
    decreases head.len() - rank,
{
    if rank >= head.len() {
        head.len()
    } else if entry_exists(head, ps, rank as int, slot as int) {
        rank + 1
    } else {
        heads_reached_from(head, ps, rank + 1, 0)
    }
}

/// How many heads the candidate scan reaches: all of them when it gathers
/// fewer than `max_check` candidates, otherwise those up to the first entry
/// after the last candidate (or the first entry, when `max_check` is 0).
pub open spec fn heads_reached(head: Seq<usize>, ps: Seq<PostingCandidates>, out: Seq<CandidateRef>, max_check: usize) -> nat {
    if out.len() < max_check {
        head.len()
    } else if out.len() == 0 {
        heads_reached_from(head, ps, 0, 0)
    } else {
        heads_reached_from(head, ps, out.last().rank as nat, (out.last().slot + 1) as nat)
    }
}

/// Gathers the candidates of a query from the posting lists of the heads it
/// reached, in the order of `head_order` and of each list: heads that name no posting list are skipped; each checked id
/// is looked up in a deduplication table sized for `max_check` and skipped
/// when already recorded; eligible ids become candidates; the scan stops when
/// `max_check` candidates are gathered. Also returns how many posting lists
/// were accessed. Every candidate is an eligible entry, candidates come in scan
/// order, there are at most `max_check`, and the first checked occurrence of
/// every id, when eligible, is a candidate if it comes before the last
/// candidate or the limit was not reached. Two candidates share an id only
/// when the table had no room to record it at the earlier one (`gc_kept`),
/// and the count of posting lists accessed is that of the heads naming one,
/// up to where the scan stopped (`heads_reached`).
#[verifier::rlimit(50)]
pub fn gather_candidates(
    head_order: &[usize],
    postings: &[PostingCandidates],
    num_vectors: usize,
    max_check: usize,
) -> (r: (Vec<CandidateRef>, usize))
    requires
        max_check <= usize::MAX / 4 + 1,
        forall|p: int, i: int|
            0 <= p < postings@.len() && 0 <= i < postings@[p].vector_ids@.len() ==> #[trigger] postings@[p].vector_ids@[i]
                < u32::MAX,
    ensures
        r.0@.len() <= max_check,
        r.1 <= head_order@.len(),
        forall|i: int|
            0 <= i < r.0@.len() ==> {
                let c = #[trigger] r.0@[i];
                &&& entry_eligible(head_order@, postings@, num_vectors, c.rank as int, c.slot as int)
                &&& c.posting == head_order@[c.rank as int]
                &&& c.vector_id == entry_id(head_order@, postings@, c.rank as int, c.slot as int)
            },
        forall|i: int, j: int|
            0 <= i < j < r.0@.len() ==> before(
                r.0@[i].rank as int,
                r.0@[i].slot as int,
                r.0@[j].rank as int,
                r.0@[j].slot as int,
            ),
        forall|rank: int, slot: int|
            #![trigger entry_eligible(head_order@, postings@, num_vectors, rank, slot)]
            entry_eligible(head_order@, postings@, num_vectors, rank, slot) && entry_checked(
                head_order@,
                postings@,
                rank,
                slot,
            ) && first_occurrence(head_order@, postings@, rank, slot) && (r.0@.len() < max_check || (r.0@.len() > 0
                && before(rank, slot, r.0@.last().rank as int, r.0@.last().slot as int))) ==> exists|i: int|
                0 <= i < r.0@.len() && (#[trigger] r.0@[i]).rank == rank && r.0@[i].slot == slot,
        forall|k: int, l: int|
            0 <= k < l < r.0@.len() && r.0@[k].vector_id == r.0@[l].vector_id ==> !gc_kept(
                head_order@,
                postings@,
                max_check,
                r.0@[k].rank as int,
                r.0@[k].slot as int,
            ),
        r.1 == heads_named(head_order@, postings@, heads_reached(head_order@, postings@, r.0@, max_check)),
{
    let ghost head = head_order@;
    let ghost ps = postings@;
    let mut dedup = FastDedup::new(max_check);
    let mut out: Vec<CandidateRef> = Vec::new();
    let mut accessed: usize = 0;
    let mut rank: usize = 0;
    while rank < head_order.len()
        invariant
            head == head_order@,
            ps == postings@,
            rank <= head.len(),
            accessed <= rank,
            dedup.wf(),
            dedup.max_check_limit() == max_check,
            out@.len() <= max_check,
            forall|p: int, i: int|
                0 <= p < ps.len() && 0 <= i < ps[p].vector_ids@.len() ==> #[trigger] ps[p].vector_ids@[i] < u32::MAX,
            forall|k: u32|
                #[trigger] dedup.keys().contains(k) ==> exists|r: int, s: int|
                    entry_checked(head, ps, r, s) && before(r, s, rank as int, 0) && dedup_key(entry_id(head, ps, r, s)) == k,
            forall|i: int|
                0 <= i < out@.len() ==> {
                    let c = #[trigger] out@[i];
                    &&& entry_eligible(head, ps, num_vectors, c.rank as int, c.slot as int)
                    &&& c.posting == head[c.rank as int]
                    &&& c.vector_id == entry_id(head, ps, c.rank as int, c.slot as int)
                    &&& c.rank < rank
                },
            forall|i: int, j: int|
                0 <= i < j < out@.len() ==> before(out@[i].rank as int, out@[i].slot as int, out@[j].rank as int, out@[j].slot as int),
            forall|r: int, s: int|
                #![trigger entry_eligible(head, ps, num_vectors, r, s)]
                entry_eligible(head, ps, num_vectors, r, s) && entry_checked(head, ps, r, s) && r < rank && first_occurrence(head, ps, r, s)
                    ==> exists|i: int| 0 <= i < out@.len() && (#[trigger] out@[i]).rank == r && out@[i].slot == s,
            dedup.slot_mask() == table_mask(max_check),
            dedup.slots() == gc_scan_state(head, ps, max_check, rank as nat, 0),
            forall|k: int|
                0 <= k < out@.len() && gc_kept(head, ps, max_check, out@[k].rank as int, out@[k].slot as int)
                    ==> #[trigger] dedup.keys().contains(dedup_key(out@[k].vector_id)),
            forall|k: int, l: int|
                0 <= k < l < out@.len() && out@[k].vector_id == out@[l].vector_id ==> !gc_kept(
                    head,
                    ps,
                    max_check,
                    out@[k].rank as int,
                    out@[k].slot as int,
                ),
            accessed == heads_named(head, ps, rank as nat),
            out@.len() >= max_check ==> heads_reached(head, ps, out@, max_check) == heads_reached_from(head, ps, rank as nat, 0),
        decreases head.len() - rank,
    {
        let p = head_order[rank];
        if p < postings.len() {
            accessed = accessed + 1;
            let posting = &postings[p];
            let n = posting.vector_ids.len();
            let mut slot: usize = 0;
            while slot < n
                invariant
                    head == head_order@,
                    ps == postings@,
                    rank < head.len(),
                    p == head[rank as int],
                    p < ps.len(),
                    *posting == ps[p as int],
                    n == ps[p as int].vector_ids@.len(),
                    slot <= n,
                    dedup.wf(),
                    dedup.max_check_limit() == max_check,
                    out@.len() <= max_check,
                    accessed <= rank + 1,
                    forall|p2: int, i: int|
                        0 <= p2 < ps.len() && 0 <= i < ps[p2].vector_ids@.len() ==> #[trigger] ps[p2].vector_ids@[i] < u32::MAX,
                    forall|k: u32|
                        #[trigger] dedup.keys().contains(k) ==> exists|r: int, s: int|
                            entry_checked(head, ps, r, s) && before(r, s, rank as int, slot as int) && dedup_key(entry_id(head, ps, r, s))
                                == k,
                    forall|i: int|
                        0 <= i < out@.len() ==> {
                            let c = #[trigger] out@[i];
                            &&& entry_eligible(head, ps, num_vectors, c.rank as int, c.slot as int)
                            &&& c.posting == head[c.rank as int]
                            &&& c.vector_id == entry_id(head, ps, c.rank as int, c.slot as int)
                            &&& before(c.rank as int, c.slot as int, rank as int, slot as int)
                        },
                    forall|i: int, j: int|
                        0 <= i < j < out@.len() ==> before(
                            out@[i].rank as int,
                            out@[i].slot as int,
                            out@[j].rank as int,
                            out@[j].slot as int,
                        ),
                    forall|r: int, s: int|
                        #![trigger entry_eligible(head, ps, num_vectors, r, s)]
                        entry_eligible(head, ps, num_vectors, r, s) && entry_checked(head, ps, r, s) && before(r, s, rank as int, slot as int)
                            && first_occurrence(head, ps, r, s) ==> exists|i: int|
                            0 <= i < out@.len() && (#[trigger] out@[i]).rank == r && out@[i].slot == s,
                    dedup.slot_mask() == table_mask(max_check),
                    dedup.slots() == gc_scan_state(head, ps, max_check, rank as nat, slot as nat),
                    forall|k: int|
                        0 <= k < out@.len() && gc_kept(head, ps, max_check, out@[k].rank as int, out@[k].slot as int)
                            ==> #[trigger] dedup.keys().contains(dedup_key(out@[k].vector_id)),
                    forall|k: int, l: int|
                        0 <= k < l < out@.len() && out@[k].vector_id == out@[l].vector_id ==> !gc_kept(
                            head,
                            ps,
                            max_check,
                            out@[k].rank as int,
                            out@[k].slot as int,
                        ),
                    accessed == heads_named(head, ps, (rank + 1) as nat),
                    out@.len() >= max_check ==> heads_reached(head, ps, out@, max_check) == heads_reached_from(
                        head,
                        ps,
                        rank as nat,
                        slot as nat,
                    ),
                decreases n - slot,
            {
                if out.len() >= max_check {
                    proof {
                        assert(entry_exists(head, ps, rank as int, slot as int));
                        assert(heads_reached_from(head, ps, rank as nat, slot as nat) == rank + 1);
                        if out@.len() > 0 {
                            let last = out@[out@.len() - 1];
                            assert(before(last.rank as int, last.slot as int, rank as int, slot as int));
                        }
                        assert forall|r: int, s: int|
                            #![trigger entry_eligible(head, ps, num_vectors, r, s)]
                            entry_eligible(head, ps, num_vectors, r, s) && entry_checked(head, ps, r, s)
                                && first_occurrence(head, ps, r, s) && (out@.len() < max_check || (out@.len() > 0
                                && before(r, s, out@.last().rank as int, out@.last().slot as int))) implies exists|i: int|
                            0 <= i < out@.len() && (#[trigger] out@[i]).rank == r && out@[i].slot == s by {
                            assert(before(r, s, rank as int, slot as int));
                        }
                    }
                    return (out, accessed);
                }
                let id = posting.vector_ids[slot];
                let checked = match posting.quantized_count {
                    Some(c) => slot < c || posting.check_uncoded,
                    None => true,
                };
                let eligible = match posting.quantized_count {
                    Some(c) => slot < c,
                    None => id < num_vectors,
                };
                let ghost old_keys = dedup.keys();
                let ghost old_out = out@;
                proof {
                    assert(entry_exists(head, ps, rank as int, slot as int));
                    assert(id == entry_id(head, ps, rank as int, slot as int));
                    assert(id < u32::MAX);
                }
                if checked {
                    let ghost old_slots = dedup.slots();
                    let seen = dedup.check_and_set(id);
                    proof {
                        assert(entry_checked(head, ps, rank as int, slot as int));
                        assert(gc_scan_state(head, ps, max_check, rank as nat, (slot + 1) as nat) == dedup.slots());
                        assert(gc_kept(head, ps, max_check, rank as int, slot as int) == recordable(
                            old_slots,
                            table_mask(max_check),
                            dedup_key(id),
                        ));
                        assert(dedup_key(id) != 0);
                        assert forall|k: int|
                            0 <= k < out@.len() && gc_kept(head, ps, max_check, out@[k].rank as int, out@[k].slot as int)
                                implies #[trigger] dedup.keys().contains(dedup_key(out@[k].vector_id)) by {
                            assert(old_keys.contains(dedup_key(out@[k].vector_id)));
                        }
                    }
                    if !seen && eligible {
                        out.push(CandidateRef { rank, posting: p, slot, vector_id: id });
                        proof {
                            let kk = out@.len() - 1;
                            assert(out@[kk].vector_id == id);
                            assert forall|k: int, l: int|
                                0 <= k < l < out@.len() && out@[k].vector_id == out@[l].vector_id implies !gc_kept(
                                    head,
                                    ps,
                                    max_check,
                                    out@[k].rank as int,
                                    out@[k].slot as int,
                                ) by {
                                assert(out@[k] == old_out[k]);
                                if l < kk {
                                    assert(out@[l] == old_out[l]);
                                } else {
                                    assert(!old_keys.contains(dedup_key(id)));
                                    if gc_kept(head, ps, max_check, old_out[k].rank as int, old_out[k].slot as int) {
                                        assert(old_keys.contains(dedup_key(old_out[k].vector_id)));
                                    }
                                }
                            }
                            assert forall|k: int|
                                0 <= k < out@.len() && gc_kept(head, ps, max_check, out@[k].rank as int, out@[k].slot as int)
                                    implies #[trigger] dedup.keys().contains(dedup_key(out@[k].vector_id)) by {
                                if k < kk {
                                    assert(out@[k] == old_out[k]);
                                } else {
                                    assert(dedup.keys() == old_keys.insert(dedup_key(id)));
                                }
                            }
                            assert(out@.last() == out@[kk]);
                        }
                    }
                    proof {
                        if !seen && eligible {
                            assert(out@[out@.len() - 1] == CandidateRef { rank, posting: p, slot, vector_id: id });
                        }
                        self::lemma_gather_step(head, ps, num_vectors, rank as int, slot as int, old_keys, dedup.keys(), seen);
                        assert forall|r: int, s: int|
                            #![trigger entry_eligible(head, ps, num_vectors, r, s)]
                            entry_eligible(head, ps, num_vectors, r, s) && entry_checked(head, ps, r, s) && before(
                                r,
                                s,
                                rank as int,
                                slot + 1,
                            ) && first_occurrence(head, ps, r, s) implies exists|i: int|
                            0 <= i < out@.len() && (#[trigger] out@[i]).rank == r && out@[i].slot == s by {
                            if r == rank && s == slot {
                                let k = out@.len() - 1;
                                assert(out@[k].rank == r && out@[k].slot == s);
                            } else {
                                assert(before(r, s, rank as int, slot as int));
                                let i = choose|i: int| 0 <= i < old_out.len() && (#[trigger] old_out[i]).rank == r && old_out[i].slot == s;
                                assert(out@[i] == old_out[i]);
                            }
                        }
                    }
                } else {
                    proof {
                        assert(!entry_checked(head, ps, rank as int, slot as int));
                        assert(gc_scan_state(head, ps, max_check, rank as nat, (slot + 1) as nat) == gc_scan_state(
                            head,
                            ps,
                            max_check,
                            rank as nat,
                            slot as nat,
                        ));
                        assert forall|k: u32| #[trigger] dedup.keys().contains(k) implies exists|r: int, s: int|
                            entry_checked(head, ps, r, s) && before(r, s, rank as int, slot + 1) && dedup_key(entry_id(head, ps, r, s))
                                == k by {
                            let (r, s) = choose|r: int, s: int|
                                entry_checked(head, ps, r, s) && before(r, s, rank as int, slot as int) && dedup_key(
                                    entry_id(head, ps, r, s),
                                ) == k;
                            assert(before(r, s, rank as int, slot + 1));
                        }
                    }
                }
                slot = slot + 1;
            }
            proof {
                assert(gc_scan_state(head, ps, max_check, (rank + 1) as nat, 0) == gc_scan_state(
                    head,
                    ps,
                    max_check,
                    rank as nat,
                    n as nat,
                ));
                assert(!entry_exists(head, ps, rank as int, n as int));
                assert(heads_reached_from(head, ps, rank as nat, n as nat) == heads_reached_from(head, ps, (rank + 1) as nat, 0));
                assert forall|k: u32| #[trigger] dedup.keys().contains(k) implies exists|r: int, s: int|
                    entry_checked(head, ps, r, s) && before(r, s, rank + 1, 0) && dedup_key(entry_id(head, ps, r, s)) == k by {
                    let (r, s) = choose|r: int, s: int|
                        entry_checked(head, ps, r, s) && before(r, s, rank as int, slot as int) && dedup_key(entry_id(head, ps, r, s)) == k;
                    assert(before(r, s, rank + 1, 0));
                }
                assert forall|r: int, s: int|
                    #![trigger entry_eligible(head, ps, num_vectors, r, s)]
                    entry_eligible(head, ps, num_vectors, r, s) && entry_checked(head, ps, r, s) && r < rank + 1 && first_occurrence(
                        head,
                        ps,
                        r,
                        s,
                    ) implies exists|i: int| 0 <= i < out@.len() && (#[trigger] out@[i]).rank == r && out@[i].slot == s by {
                    assert(before(r, s, rank as int, slot as int));
                }
            }
        } else {
            proof {
                assert(gc_scan_state(head, ps, max_check, (rank + 1) as nat, 0) == gc_scan_state(
                    head,
                    ps,
                    max_check,
                    rank as nat,
                    0,
                ));
                assert(!entry_exists(head, ps, rank as int, 0));
                assert(heads_reached_from(head, ps, rank as nat, 0) == heads_reached_from(head, ps, (rank + 1) as nat, 0));
                assert forall|k: u32| #[trigger] dedup.keys().contains(k) implies exists|r: int, s: int|
                    entry_checked(head, ps, r, s) && before(r, s, rank + 1, 0) && dedup_key(entry_id(head, ps, r, s)) == k by {
                    let (r, s) = choose|r: int, s: int|
                        entry_checked(head, ps, r, s) && before(r, s, rank as int, 0) && dedup_key(entry_id(head, ps, r, s)) == k;
                    assert(before(r, s, rank + 1, 0));
                }
            }
        }
        rank = rank + 1;
    }
    (out, accessed)
}

/// One step of the scan keeps the recorded keys those of earlier checked
/// entries, and a first occurrence is never reported as seen.
proof fn lemma_gather_step(
    head: Seq<usize>,
    ps: Seq<PostingCandidates>,
    num_vectors: usize,
    rank: int,
    slot: int,
    old_keys: Set<u32>,
    new_keys: Set<u32>,
    seen: bool,
)
    requires
        entry_checked(head, ps, rank, slot),
        forall|p: int, i: int|
            0 <= p < ps.len() && 0 <= i < ps[p].vector_ids@.len() ==> #[trigger] ps[p].vector_ids@[i] < u32::MAX,
        forall|k: u32|
            #[trigger] old_keys.contains(k) ==> exists|r: int, s: int|
                entry_checked(head, ps, r, s) && before(r, s, rank, slot) && dedup_key(entry_id(head, ps, r, s)) == k,
        seen == old_keys.contains(dedup_key(entry_id(head, ps, rank, slot))),
        new_keys == old_keys || new_keys == old_keys.insert(dedup_key(entry_id(head, ps, rank, slot))),
    ensures
        forall|k: u32|
            #[trigger] new_keys.contains(k) ==> exists|r: int, s: int|
                entry_checked(head, ps, r, s) && before(r, s, rank, slot + 1) && dedup_key(entry_id(head, ps, r, s)) == k,
        first_occurrence(head, ps, rank, slot) ==> !seen,
{
    let id = entry_id(head, ps, rank, slot);
    assert forall|k: u32| #[trigger] new_keys.contains(k) implies exists|r: int, s: int|
        entry_checked(head, ps, r, s) && before(r, s, rank, slot + 1) && dedup_key(entry_id(head, ps, r, s)) == k by {
        if old_keys.contains(k) {
            let (r, s) = choose|r: int, s: int|
                entry_checked(head, ps, r, s) && before(r, s, rank, slot) && dedup_key(entry_id(head, ps, r, s)) == k;
            assert(before(r, s, rank, slot + 1));
        } else {
            assert(k == dedup_key(id));
            assert(entry_checked(head, ps, rank, slot) && before(rank, slot, rank, slot + 1));
        }
    }
    if first_occurrence(head, ps, rank, slot) && seen {
        let (r, s) = choose|r: int, s: int|
            entry_checked(head, ps, r, s) && before(r, s, rank, slot) && dedup_key(entry_id(head, ps, r, s)) == dedup_key(id);
        let other = entry_id(head, ps, r, s);
        assert(ps[head[r] as int].vector_ids@[s] < u32::MAX);
        assert(ps[head[rank] as int].vector_ids@[slot] < u32::MAX);
        assert(dedup_key(other) == (other + 1) as u32);
        assert(other == id);
        assert(entry_checked(head, ps, r, s));
    }
}


// ----- on-demand posting lists ---------------------------------------------

/// Number of ids an on-demand posting list yields: its element count, cut to
/// the whole 4-byte ids its data holds.
pub open spec fn available_ids(data: Seq<u8>, count: nat) -> nat {
    if 4 * count <= data.len() { count } else { data.len() / 4 }
}

/// Reads the ids at the start of on-demand posting data: up to `count`, as
/// many as whole 4-byte ids are present.
pub fn parse_posting_ids_prefix(data: &[u8], count: usize) -> (ids: Vec<usize>)
    ensures
        ids@ == ids_from_bytes(data@, available_ids(data@, count as nat)),
{
    let n = if count <= data.len() / 4 { count } else { data.len() / 4 };
    crate::spann::storage::parse_vector_ids(data, n)
}

/// Sections of a quantized on-demand posting list: its ids, where the quantizer
/// metadata starts and how long it is, and where the codes start. `None` when
/// the metadata length or the metadata is missing, or when no code byte follows.
pub fn quantized_sections(data: &[u8], count: usize) -> (r: Option<(Vec<usize>, usize, usize, usize)>)
    ensures
        ({
            let m = available_ids(data@, count as nat) as int;
            let cur = 4 * m;
            let meta_len = spec_u32_from_le_bytes(data@.subrange(cur, cur + 4)) as int;
            &&& (cur + 4 > data@.len() || cur + 4 + meta_len >= data@.len()) <==> r is None
            &&& r matches Some(t) ==> t.0@ == ids_from_bytes(data@, m as nat) && t.1 == cur + 4 && t.2 == meta_len
                && t.3 == cur + 4 + meta_len
        }),
{
    let ids = parse_posting_ids_prefix(data, count);
    let n = if count <= data.len() / 4 { count } else { data.len() / 4 };
    assert(n == available_ids(data@, count as nat));
    let cur = 4 * n;
    if data.len() < 4 || cur > data.len() - 4 {
        return None;
    }
    let meta_len = read_u32_le(data, cur) as usize;
    let meta_start = cur + 4;
    if meta_len >= data.len() - meta_start {
        return None;
    }
    Some((ids, meta_start, meta_len, meta_start + meta_len))
}

/// A candidate of the on-demand search: the loaded posting list it comes from,
/// its position in that list, its vector id, and where its vector starts in
/// the posting list's data.
#[derive(Clone, Copy, PartialEq, Eq, Structural, Debug)]
pub struct OnDemandCandidate {
    pub posting: usize,
    pub slot: usize,
    pub vector_id: usize,
    pub offset: usize,
}

/// Id at position `i` of loaded posting list `p`.
pub open spec fn od_id(data: Seq<Vec<u8>>, counts: Seq<u16>, p: int, i: int) -> usize {
    ids_from_bytes(data[p]@, available_ids(data[p]@, counts[p] as nat))[i]
}

/// Position `i` of loaded posting list `p` exists.
pub open spec fn od_entry(data: Seq<Vec<u8>>, counts: Seq<u16>, p: int, i: int) -> bool {
    0 <= p < data.len() && 0 <= i < available_ids(data[p]@, counts[p] as nat)
}

/// Where the vector of position `i` of loaded posting list `p` starts.
pub open spec fn od_offset(data: Seq<Vec<u8>>, counts: Seq<u16>, dim: usize, p: int, i: int) -> int {
    4 * available_ids(data[p]@, counts[p] as nat) + i * 4 * dim
}

/// The vector of position `i` of loaded posting list `p` lies inside its data.
pub open spec fn od_in_bounds(data: Seq<Vec<u8>>, counts: Seq<u16>, dim: usize, p: int, i: int) -> bool {
    od_offset(data, counts, dim, p, i) + 4 * dim <= data[p]@.len()
}

/// No earlier position of any loaded posting list holds the same id.
pub open spec fn od_first(data: Seq<Vec<u8>>, counts: Seq<u16>, p: int, i: int) -> bool {
    forall|q: int, j: int|
        #![trigger od_entry(data, counts, q, j)]
        od_entry(data, counts, q, j) && before(q, j, p, i) ==> od_id(data, counts, q, j) != od_id(data, counts, p, i)
}

proof fn lemma_ids_bound(b: Seq<u8>, n: nat, i: int)
    requires
        0 <= i < n,
    ensures
        ids_from_bytes(b, n)[i] <= u32::MAX,
{
}

/// The deduplication table of the on-demand scan just before entry `(p, i)`,
/// and whether list `p` has ended before it. The scan starts from the empty
/// table made for `max_check` candidates; each entry of a list that has not
/// ended goes through one `check_and_set`, and an entry not seen before whose
/// vector runs past the list's data ends the list. (Where the scan stops at
/// `max_check` candidates, later entries are not scanned.)
pub open spec fn od_scan_state(data: Seq<Vec<u8>>, counts: Seq<u16>, dim: usize, max_check: usize, p: nat, i: nat) -> (
    Seq<u32>,
    bool,
)
    decreases p, i,
{
    if i == 0 {
        if p == 0 {
            (empty_table(max_check), false)
        } else {
            (
                od_scan_state(data, counts, dim, max_check, (p - 1) as nat, available_ids(data[p - 1]@, counts[p - 1] as nat)).0,
                false,
            )
        }
    } else {
        let prev = od_scan_state(data, counts, dim, max_check, p, (i - 1) as nat);
        if prev.1 {
            prev
        } else {
            let step = dedup_step(prev.0, table_mask(max_check), dedup_key(od_id(data, counts, p as int, i - 1)));
            (step.1, !step.0 && !od_in_bounds(data, counts, dim, p as int, i - 1))
        }
    }
}

/// When entry `(p, i)` of the on-demand scan was scanned, the table had room
/// to record its id.
pub open spec fn od_kept(data: Seq<Vec<u8>>, counts: Seq<u16>, dim: usize, max_check: usize, p: int, i: int) -> bool {
    recordable(
        od_scan_state(data, counts, dim, max_check, p as nat, i as nat).0,
        table_mask(max_check),
        dedup_key(od_id(data, counts, p, i)),
    )
}

/// Once a list has ended, the rest of it leaves the scan state as it is.
proof fn lemma_od_done_stays(data: Seq<Vec<u8>>, counts: Seq<u16>, dim: usize, max_check: usize, p: nat, i: nat, j: nat)
    requires
        i <= j,
        od_scan_state(data, counts, dim, max_check, p, i).1,
    ensures
        od_scan_state(data, counts, dim, max_check, p, j) == od_scan_state(data, counts, dim, max_check, p, i),
    decreases j - i,
{
    if j > i {
        lemma_od_done_stays(data, counts, dim, max_check, p, i, (j - 1) as nat);
    }
}

/// Gathers the candidates of the on-demand full-precision search from the
/// loaded posting lists, in order. Each list yields its ids (up to its element
/// count); then, for each id in turn, the scan stops once `max_check`
/// candidates are gathered, an id already recorded in the deduplication table
/// is skipped, and an id whose vector would run past the data ends that list.
/// Every candidate's vector lies inside its list's data; candidates come in
/// scan order; there are at most `max_check`; and every id whose first
/// occurrence has its vector inside the data is a candidate if that
/// occurrence comes before the last candidate or the limit was not reached.
/// Two candidates share an id only when the table had no room to record it
/// at the earlier one (`od_kept`).
#[verifier::rlimit(60)]
pub fn gather_on_demand(posting_data: &[Vec<u8>], counts: &[u16], dim: usize, max_check: usize) -> (r: Vec<OnDemandCandidate>)
    requires
        max_check <= usize::MAX / 4 + 1,
        counts@.len() == posting_data@.len(),
        4 * 65537 * (dim + 1) <= usize::MAX,
    ensures
        r@.len() <= max_check,
        forall|k: int|
            0 <= k < r@.len() ==> {
                let c = #[trigger] r@[k];
                &&& od_entry(posting_data@, counts@, c.posting as int, c.slot as int)
                &&& c.vector_id == od_id(posting_data@, counts@, c.posting as int, c.slot as int)
                &&& c.offset == od_offset(posting_data@, counts@, dim, c.posting as int, c.slot as int)
                &&& od_in_bounds(posting_data@, counts@, dim, c.posting as int, c.slot as int)
            },
        forall|k: int, l: int|
            0 <= k < l < r@.len() ==> before(r@[k].posting as int, r@[k].slot as int, r@[l].posting as int, r@[l].slot as int),
        forall|p: int, i: int|
            #![trigger od_entry(posting_data@, counts@, p, i)]
            od_entry(posting_data@, counts@, p, i) && od_in_bounds(posting_data@, counts@, dim, p, i) && od_first(
                posting_data@,
                counts@,
                p,
                i,
            ) && (r@.len() < max_check || (r@.len() > 0 && before(p, i, r@.last().posting as int, r@.last().slot as int)))
                ==> exists|k: int| 0 <= k < r@.len() && (#[trigger] r@[k]).posting == p && r@[k].slot == i,
        forall|k: int, l: int|
            0 <= k < l < r@.len() && r@[k].vector_id == r@[l].vector_id ==> !od_kept(
                posting_data@,
                counts@,
                dim,
                max_check,
                r@[k].posting as int,
                r@[k].slot as int,
            ),
{
    let ghost data = posting_data@;
    let ghost cs = counts@;
    let mut dedup = FastDedup::new(max_check);
    let mut out: Vec<OnDemandCandidate> = Vec::new();
    proof {
        assert(dim * 4 <= 4 * 65537 * (dim + 1)) by (nonlinear_arith);
    }
    let vbytes = dim * 4;
    let mut p: usize = 0;
    while p < posting_data.len()
        invariant
            data == posting_data@,
            cs == counts@,
            cs.len() == data.len(),
            vbytes == 4 * dim,
            4 * 65537 * (dim + 1) <= usize::MAX,
            p <= data.len(),
            dedup.wf(),
            dedup.max_check_limit() == max_check,
            out@.len() <= max_check,
            forall|k: u32|
                #[trigger] dedup.keys().contains(k) ==> exists|q: int, j: int|
                    od_entry(data, cs, q, j) && before(q, j, p as int, 0) && dedup_key(od_id(data, cs, q, j)) == k,
            forall|k: int|
                0 <= k < out@.len() ==> {
                    let c = #[trigger] out@[k];
                    &&& od_entry(data, cs, c.posting as int, c.slot as int)
                    &&& c.vector_id == od_id(data, cs, c.posting as int, c.slot as int)
                    &&& c.offset == od_offset(data, cs, dim, c.posting as int, c.slot as int)
                    &&& od_in_bounds(data, cs, dim, c.posting as int, c.slot as int)
                    &&& c.posting < p
                },
            forall|k: int, l: int|
                0 <= k < l < out@.len() ==> before(out@[k].posting as int, out@[k].slot as int, out@[l].posting as int, out@[l].slot as int),
            forall|q: int, i: int|
                #![trigger od_entry(data, cs, q, i)]
                od_entry(data, cs, q, i) && q < p && od_in_bounds(data, cs, dim, q, i) && od_first(data, cs, q, i)
                    ==> exists|k: int| 0 <= k < out@.len() && (#[trigger] out@[k]).posting == q && out@[k].slot == i,
            dedup.slot_mask() == table_mask(max_check),
            dedup.slots() == od_scan_state(data, cs, dim, max_check, p as nat, 0).0,
            forall|k: int|
                0 <= k < out@.len() && od_kept(data, cs, dim, max_check, out@[k].posting as int, out@[k].slot as int)
                    ==> #[trigger] dedup.keys().contains(dedup_key(out@[k].vector_id)),
            forall|k: int, l: int|
                0 <= k < l < out@.len() && out@[k].vector_id == out@[l].vector_id ==> !od_kept(
                    data,
                    cs,
                    dim,
                    max_check,
                    out@[k].posting as int,
                    out@[k].slot as int,
                ),
        decreases data.len() - p,
    {
        let d = &posting_data[p];
        let ids = parse_posting_ids_prefix(d.as_slice(), counts[p] as usize);
        let m = ids.len();
        let len = d.len();
        let mut cursor: usize = 4 * m;
        let mut i: usize = 0;
        let mut done = false;
        let ghost pp = p as int;
        proof {
            assert(m <= 65535);
            assert(0 * 4 * dim == 0) by (nonlinear_arith);
        }
        while i < m && !done
            invariant
                done ==> i < m && forall|j: int| i <= j < m ==> !od_in_bounds(data, cs, dim, pp, j),
                data == posting_data@,
                cs == counts@,
                cs.len() == data.len(),
                vbytes == 4 * dim,
                4 * 65537 * (dim + 1) <= usize::MAX,
                pp == p,
                p < data.len(),
                *d == data[pp],
                len == data[pp]@.len(),
                ids@ == ids_from_bytes(data[pp]@, available_ids(data[pp]@, cs[pp] as nat)),
                m == ids@.len(),
                m <= 65535,
                i <= m,
                cursor == od_offset(data, cs, dim, pp, i as int),
                dedup.wf(),
                dedup.max_check_limit() == max_check,
                out@.len() <= max_check,
                forall|k: u32|
                    #[trigger] dedup.keys().contains(k) ==> exists|q: int, j: int|
                        od_entry(data, cs, q, j) && before(q, j, pp, i as int + if done { 1int } else { 0int }) && dedup_key(
                            od_id(data, cs, q, j),
                        ) == k,
                forall|k: int|
                    0 <= k < out@.len() ==> {
                        let c = #[trigger] out@[k];
                        &&& od_entry(data, cs, c.posting as int, c.slot as int)
                        &&& c.vector_id == od_id(data, cs, c.posting as int, c.slot as int)
                        &&& c.offset == od_offset(data, cs, dim, c.posting as int, c.slot as int)
                        &&& od_in_bounds(data, cs, dim, c.posting as int, c.slot as int)
                        &&& before(c.posting as int, c.slot as int, pp, i as int)
                    },
                forall|k: int, l: int|
                    0 <= k < l < out@.len() ==> before(out@[k].posting as int, out@[k].slot as int, out@[l].posting as int, out@[l].slot as int),
                forall|q: int, j: int|
                    #![trigger od_entry(data, cs, q, j)]
                    od_entry(data, cs, q, j) && before(q, j, pp, i as int) && od_in_bounds(data, cs, dim, q, j) && od_first(data, cs, q, j)
                        ==> exists|k: int| 0 <= k < out@.len() && (#[trigger] out@[k]).posting == q && out@[k].slot == j,
                dedup.slot_mask() == table_mask(max_check),
                dedup.slots() == od_scan_state(data, cs, dim, max_check, p as nat, (i + if done { 1int } else { 0int }) as nat).0,
                od_scan_state(data, cs, dim, max_check, p as nat, (i + if done { 1int } else { 0int }) as nat).1 == done,
                forall|k: int|
                    0 <= k < out@.len() && od_kept(data, cs, dim, max_check, out@[k].posting as int, out@[k].slot as int)
                        ==> #[trigger] dedup.keys().contains(dedup_key(out@[k].vector_id)),
                forall|k: int, l: int|
                    0 <= k < l < out@.len() && out@[k].vector_id == out@[l].vector_id ==> !od_kept(
                        data,
                        cs,
                        dim,
                        max_check,
                        out@[k].posting as int,
                        out@[k].slot as int,
                    ),
            decreases m - i + (if done { 0int } else { 1int }),
        {
            if out.len() >= max_check {
                proof {
                    if out@.len() > 0 {
                        let last = out@[out@.len() - 1];
                        assert(before(last.posting as int, last.slot as int, pp, i as int));
                    }
                    assert forall|q: int, j: int|
                        #![trigger od_entry(data, cs, q, j)]
                        od_entry(data, cs, q, j) && od_in_bounds(data, cs, dim, q, j) && od_first(data, cs, q, j) && (out@.len()
                            < max_check || (out@.len() > 0 && before(q, j, out@.last().posting as int, out@.last().slot as int)))
                            implies exists|k: int| 0 <= k < out@.len() && (#[trigger] out@[k]).posting == q && out@[k].slot == j by {
                        assert(before(q, j, pp, i as int));
                    }
                }
                return out;
            }
            let id = ids[i];
            let ghost old_keys = dedup.keys();
            let ghost old_out = out@;
            proof {
                lemma_ids_bound(data[pp]@, available_ids(data[pp]@, cs[pp] as nat), i as int);
                assert(od_entry(data, cs, pp, i as int));
                assert(id == od_id(data, cs, pp, i as int));
            }
            proof {
                dedup.lemma_zero_not_key();
            }
            let ghost old_slots = dedup.slots();
            let seen = dedup.check_and_set(id);
            proof {
                assert(od_scan_state(data, cs, dim, max_check, p as nat, (i + 1) as nat) == (
                    dedup.slots(),
                    !seen && !od_in_bounds(data, cs, dim, pp, i as int),
                ));
                assert(od_kept(data, cs, dim, max_check, pp, i as int) == recordable(old_slots, table_mask(max_check), dedup_key(id)));
                assert forall|k: int|
                    0 <= k < out@.len() && od_kept(data, cs, dim, max_check, out@[k].posting as int, out@[k].slot as int)
                        implies #[trigger] dedup.keys().contains(dedup_key(out@[k].vector_id)) by {
                    assert(old_keys.contains(dedup_key(out@[k].vector_id)));
                }
                lemma_od_step(data, cs, pp, i as int, old_keys, dedup.keys(), seen);
                assert(i * 4 * dim <= 65535 * 4 * dim) by (nonlinear_arith)
                    requires i <= 65535;
                assert(available_ids(data[pp]@, cs[pp] as nat) == m);
                assert(cursor == 4 * m + i * 4 * dim);
                assert(65536 * 4 * dim <= 65537 * 4 * dim) by (nonlinear_arith);
                assert(cursor + vbytes <= 4 * 65537 * (dim + 1)) by (nonlinear_arith)
                    requires cursor == 4 * m + i * 4 * dim, m <= 65535, i * 4 * dim <= 65535 * 4 * dim, vbytes == 4 * dim, dim >= 0;
            }
            if seen {
                cursor = cursor + vbytes;
                proof {
                    assert forall|q: int, j: int|
                        #![trigger od_entry(data, cs, q, j)]
                        od_entry(data, cs, q, j) && before(q, j, pp, i + 1) && od_in_bounds(data, cs, dim, q, j) && od_first(data, cs, q, j)
                            implies exists|k: int| 0 <= k < out@.len() && (#[trigger] out@[k]).posting == q && out@[k].slot == j by {
                        if q == pp && j == i {
                            assert(!od_first(data, cs, q, j));
                        } else {
                            assert(before(q, j, pp, i as int));
                        }
                    }
                    assert(cursor == od_offset(data, cs, dim, pp, i + 1)) by (nonlinear_arith)
                        requires cursor == od_offset(data, cs, dim, pp, i as int) + 4 * dim;
                }
                i = i + 1;
                continue;
            }
            if cursor > len || vbytes > len - cursor {
                proof {
                    assert(!od_in_bounds(data, cs, dim, pp, i as int));
                    assert forall|j: int| i <= j < m implies !od_in_bounds(data, cs, dim, pp, j) by {
                        assert(od_offset(data, cs, dim, pp, i as int) <= od_offset(data, cs, dim, pp, j)) by (nonlinear_arith)
                            requires i <= j, dim >= 0;
                    }
                    assert forall|q: int, j: int|
                        #![trigger od_entry(data, cs, q, j)]
                        od_entry(data, cs, q, j) && before(q, j, pp, i as int) && od_in_bounds(data, cs, dim, q, j) && od_first(data, cs, q, j)
                            implies exists|k: int| 0 <= k < out@.len() && (#[trigger] out@[k]).posting == q && out@[k].slot == j by {
                    }
                }
                done = true;
            } else {
            out.push(OnDemandCandidate { posting: p, slot: i, vector_id: id, offset: cursor });
            cursor = cursor + vbytes;
            proof {
                let kk = out@.len() - 1;
                assert forall|k: int, l: int|
                    0 <= k < l < out@.len() && out@[k].vector_id == out@[l].vector_id implies !od_kept(
                        data,
                        cs,
                        dim,
                        max_check,
                        out@[k].posting as int,
                        out@[k].slot as int,
                    ) by {
                    assert(out@[k] == old_out[k]);
                    if l < kk {
                        assert(out@[l] == old_out[l]);
                    } else {
                        assert(!old_keys.contains(dedup_key(id)));
                        if od_kept(data, cs, dim, max_check, old_out[k].posting as int, old_out[k].slot as int) {
                            assert(old_keys.contains(dedup_key(old_out[k].vector_id)));
                        }
                    }
                }
                assert forall|k: int|
                    0 <= k < out@.len() && od_kept(data, cs, dim, max_check, out@[k].posting as int, out@[k].slot as int)
                        implies #[trigger] dedup.keys().contains(dedup_key(out@[k].vector_id)) by {
                    if k < kk {
                        assert(out@[k] == old_out[k]);
                    } else {
                        assert(dedup.keys() == old_keys.insert(dedup_key(id)));
                    }
                }
                assert(out@[kk] == OnDemandCandidate { posting: p, slot: i, vector_id: id, offset: od_offset(data, cs, dim, pp, i as int) as usize });
                assert forall|q: int, j: int|
                    #![trigger od_entry(data, cs, q, j)]
                    od_entry(data, cs, q, j) && before(q, j, pp, i + 1) && od_in_bounds(data, cs, dim, q, j) && od_first(data, cs, q, j)
                        implies exists|k: int| 0 <= k < out@.len() && (#[trigger] out@[k]).posting == q && out@[k].slot == j by {
                    if q == pp && j == i {
                        assert(out@[kk].posting == q && out@[kk].slot == j);
                    } else {
                        assert(before(q, j, pp, i as int));
                        let k = choose|k: int| 0 <= k < old_out.len() && (#[trigger] old_out[k]).posting == q && old_out[k].slot == j;
                        assert(out@[k] == old_out[k]);
                    }
                }
                assert(cursor == od_offset(data, cs, dim, pp, i + 1)) by (nonlinear_arith)
                    requires cursor == od_offset(data, cs, dim, pp, i as int) + 4 * dim;
            }
            i = i + 1;
            }
        }
        proof {
            if done {
                lemma_od_done_stays(data, cs, dim, max_check, p as nat, (i + 1) as nat, m as nat);
            }
            assert(available_ids(data[pp]@, cs[pp] as nat) == m);
            assert(od_scan_state(data, cs, dim, max_check, (p + 1) as nat, 0).0 == od_scan_state(
                data,
                cs,
                dim,
                max_check,
                p as nat,
                m as nat,
            ).0);
            assert forall|k: u32| #[trigger] dedup.keys().contains(k) implies exists|q: int, j: int|
                od_entry(data, cs, q, j) && before(q, j, pp + 1, 0) && dedup_key(od_id(data, cs, q, j)) == k by {
                let (q, j) = choose|q: int, j: int|
                    od_entry(data, cs, q, j) && before(q, j, pp, i as int + if done { 1int } else { 0int }) && dedup_key(
                        od_id(data, cs, q, j),
                    ) == k;
                assert(before(q, j, pp + 1, 0));
            }
            assert forall|q: int, j: int|
                #![trigger od_entry(data, cs, q, j)]
                od_entry(data, cs, q, j) && q < pp + 1 && od_in_bounds(data, cs, dim, q, j) && od_first(data, cs, q, j)
                    implies exists|k: int| 0 <= k < out@.len() && (#[trigger] out@[k]).posting == q && out@[k].slot == j by {
                if q == pp && j >= i {
                    assert(done);
                } else {
                    assert(before(q, j, pp, i as int));
                }
            }
        }
        p = p + 1;
    }
    out
}

/// One lookup of the on-demand scan: recorded keys stay those of earlier
/// positions, and a first occurrence is never reported as seen.
proof fn lemma_od_step(
    data: Seq<Vec<u8>>,
    cs: Seq<u16>,
    p: int,
    i: int,
    old_keys: Set<u32>,
    new_keys: Set<u32>,
    seen: bool,
)
    requires
        od_entry(data, cs, p, i),
        forall|k: u32|
            #[trigger] old_keys.contains(k) ==> exists|q: int, j: int|
                od_entry(data, cs, q, j) && before(q, j, p, i) && dedup_key(od_id(data, cs, q, j)) == k,
        seen == old_keys.contains(dedup_key(od_id(data, cs, p, i))),
        new_keys == old_keys || new_keys == old_keys.insert(dedup_key(od_id(data, cs, p, i))),
        old_keys.contains(0u32) == false,
    ensures
        forall|k: u32|
            #[trigger] new_keys.contains(k) ==> exists|q: int, j: int|
                od_entry(data, cs, q, j) && before(q, j, p, i + 1) && dedup_key(od_id(data, cs, q, j)) == k,
        od_first(data, cs, p, i) ==> !seen,
{
    let id = od_id(data, cs, p, i);
    assert forall|k: u32| #[trigger] new_keys.contains(k) implies exists|q: int, j: int|
        od_entry(data, cs, q, j) && before(q, j, p, i + 1) && dedup_key(od_id(data, cs, q, j)) == k by {
        if old_keys.contains(k) {
            let (q, j) = choose|q: int, j: int|
                od_entry(data, cs, q, j) && before(q, j, p, i) && dedup_key(od_id(data, cs, q, j)) == k;
            assert(before(q, j, p, i + 1));
        } else {
            assert(before(p, i, p, i + 1));
        }
    }
    if od_first(data, cs, p, i) && seen {
        let (q, j) = choose|q: int, j: int|
            od_entry(data, cs, q, j) && before(q, j, p, i) && dedup_key(od_id(data, cs, q, j)) == dedup_key(id);
        let other = od_id(data, cs, q, j);
        lemma_ids_bound(data[q]@, available_ids(data[q]@, cs[q] as nat), j);
        lemma_ids_bound(data[p]@, available_ids(data[p]@, cs[p] as nat), i);
        assert(dedup_key(id) != 0);
        assert(id <= u32::MAX ==> (id == u32::MAX ==> (id + 1) as u32 == 0)) by (bit_vector);
        assert(other <= u32::MAX ==> (other == u32::MAX ==> (other + 1) as u32 == 0)) by (bit_vector);
        assert(id < u32::MAX);
        assert(other < u32::MAX);
        assert(dedup_key(id) == id + 1);
        assert(dedup_key(other) == other + 1);
        assert(other == id);
    }
}

} // verus!
