//! Which stored copy of each vector an index load decodes: vectors are stored
//! once per posting list that holds them, and the first copy met, in posting
//! order, among the posting lists that store full vectors is the one read.
use vstd::prelude::*;
use crate::spann::storage::LoadedPosting;
use std::collections::HashMap;
use std::collections::hash_map::RandomState;
use vstd::std_specs::hash::{obeys_key_model, builds_valid_hashers};

verus! {

broadcast use vstd::std_specs::hash::group_hash_axioms;

/// A stored copy of a vector: the posting list, the position of its id there,
/// the vector id, and where its components start in the posting list's bytes.
#[derive(Clone, Copy, PartialEq, Eq, Structural, Debug)]
pub struct VectorCopy {
    pub posting: usize,
    pub slot: usize,
    pub vector_id: usize,
    pub offset: usize,
}

/// Position `i` of posting list `p` exists and the list stores full vectors.
pub open spec fn copy_entry(ps: Seq<LoadedPosting>, decode: Seq<bool>, p: int, i: int) -> bool {
    &&& 0 <= p < ps.len()
    &&& p < decode.len()
    &&& decode[p]
    &&& 0 <= i < ps[p].vector_ids@.len()
}

/// Vector id at position `i` of posting list `p`.
pub open spec fn copy_id(ps: Seq<LoadedPosting>, p: int, i: int) -> usize {
    ps[p].vector_ids@[i]
}

/// `(q, j)` comes before `(p, i)` in posting order.
pub open spec fn earlier(q: int, j: int, p: int, i: int) -> bool {
    q < p || (q == p && j < i)
}

/// No earlier stored copy has the same vector id.
pub open spec fn first_copy(ps: Seq<LoadedPosting>, decode: Seq<bool>, p: int, i: int) -> bool {
    forall|q: int, j: int|
        #![trigger copy_entry(ps, decode, q, j)]
        copy_entry(ps, decode, q, j) && earlier(q, j, p, i) ==> copy_id(ps, q, j) != copy_id(ps, p, i)
}

/// Where the components of the vector at position `i` of posting list `p`
/// start: after the ids, `i` vectors of `dim` components in.
pub open spec fn copy_offset(ps: Seq<LoadedPosting>, dim: usize, p: int, i: int) -> int {
    4 * ps[p].vector_ids@.len() + i * 4 * dim
}

/// Some stored copy before `(p, i)` has vector id `x`.
pub open spec fn met_before(ps: Seq<LoadedPosting>, decode: Seq<bool>, p: int, i: int, x: usize) -> bool {
    exists|q: int, j: int|
        #![trigger copy_entry(ps, decode, q, j)]
        copy_entry(ps, decode, q, j) && earlier(q, j, p, i) && copy_id(ps, q, j) == x
}

/// The first stored copy of every vector, in posting order, among the posting
/// lists marked in `decode` (those that store full vectors). Every vector id
/// The vector ids met are kept in a `HashMap`.
pub fn first_copies(postings: &[LoadedPosting], decode: &[bool], dim: usize) -> (r: Vec<VectorCopy>)
    requires
        decode@.len() == postings@.len(),
        4 * 65536 * (dim + 1) <= usize::MAX,
        forall|p: int| 0 <= p < postings@.len() ==> (#[trigger] postings@[p]).vector_ids@.len() <= 65535,
    ensures
        forall|k: int|
            0 <= k < r@.len() ==> {
                let c = #[trigger] r@[k];
                &&& copy_entry(postings@, decode@, c.posting as int, c.slot as int)
                &&& c.vector_id == copy_id(postings@, c.posting as int, c.slot as int)
                &&& c.offset == copy_offset(postings@, dim, c.posting as int, c.slot as int)
                &&& first_copy(postings@, decode@, c.posting as int, c.slot as int)
            },
        forall|k: int, l: int|
            0 <= k < l < r@.len() ==> earlier(r@[k].posting as int, r@[k].slot as int, r@[l].posting as int, r@[l].slot as int),
        forall|k: int, l: int| 0 <= k < l < r@.len() ==> r@[k].vector_id != r@[l].vector_id,
        forall|p: int, i: int|
            #![trigger copy_entry(postings@, decode@, p, i)]
            copy_entry(postings@, decode@, p, i) && first_copy(postings@, decode@, p, i) ==> exists|k: int|
                0 <= k < r@.len() && (#[trigger] r@[k]).posting == p && r@[k].slot == i,
{
    let ghost ps = postings@;
    let ghost dc = decode@;
    let mut seen: HashMap<usize, bool> = HashMap::new();
    proof {
        assert(obeys_key_model::<usize>());
        assert(builds_valid_hashers::<RandomState>());
        assert forall|x: usize| #[trigger] seen@.contains_key(x) <==> met_before(ps, dc, 0, 0, x) by {
            if met_before(ps, dc, 0, 0, x) {
                let (q, j) = choose|q: int, j: int|
                    #![trigger copy_entry(ps, dc, q, j)]
                    copy_entry(ps, dc, q, j) && earlier(q, j, 0, 0) && copy_id(ps, q, j) == x;
            }
        }
    }
    let mut out: Vec<VectorCopy> = Vec::new();
    let mut p: usize = 0;
    while p < postings.len()
        invariant
            ps == postings@,
            dc == decode@,
            dc.len() == ps.len(),
            p <= ps.len(),
            4 * 65536 * (dim + 1) <= usize::MAX,
            forall|q: int| 0 <= q < ps.len() ==> (#[trigger] ps[q]).vector_ids@.len() <= 65535,
            obeys_key_model::<usize>(),
            builds_valid_hashers::<RandomState>(),
            forall|x: usize| #[trigger] seen@.contains_key(x) <==> met_before(ps, dc, p as int, 0, x),
            forall|k: int|
                0 <= k < out@.len() ==> {
                    let c = #[trigger] out@[k];
                    &&& copy_entry(ps, dc, c.posting as int, c.slot as int)
                    &&& c.vector_id == copy_id(ps, c.posting as int, c.slot as int)
                    &&& c.offset == copy_offset(ps, dim, c.posting as int, c.slot as int)
                    &&& first_copy(ps, dc, c.posting as int, c.slot as int)
                    &&& c.posting < p
                },
            forall|k: int, l: int|
                0 <= k < l < out@.len() ==> earlier(out@[k].posting as int, out@[k].slot as int, out@[l].posting as int, out@[l].slot as int),
            forall|q: int, i: int|
                #![trigger copy_entry(ps, dc, q, i)]
                copy_entry(ps, dc, q, i) && q < p && first_copy(ps, dc, q, i) ==> exists|k: int|
                    0 <= k < out@.len() && (#[trigger] out@[k]).posting == q && out@[k].slot == i,
        decreases ps.len() - p,
    {
        let ghost pp = p as int;
        if decode[p] {
            let ids = &postings[p].vector_ids;
            let m = ids.len();
            let mut i: usize = 0;
            while i < m
                invariant
                    ps == postings@,
                    dc == decode@,
                    dc.len() == ps.len(),
                    pp == p,
                    p < ps.len(),
                    dc[pp],
                    ids@ == ps[pp].vector_ids@,
                    m == ids@.len(),
                    m <= 65535,
                    i <= m,
                            4 * 65536 * (dim + 1) <= usize::MAX,
                    obeys_key_model::<usize>(),
            builds_valid_hashers::<RandomState>(),
                    forall|x: usize| #[trigger] seen@.contains_key(x) <==> met_before(ps, dc, pp, i as int, x),
                    forall|k: int|
                        0 <= k < out@.len() ==> {
                            let c = #[trigger] out@[k];
                            &&& copy_entry(ps, dc, c.posting as int, c.slot as int)
                            &&& c.vector_id == copy_id(ps, c.posting as int, c.slot as int)
                            &&& c.offset == copy_offset(ps, dim, c.posting as int, c.slot as int)
                            &&& first_copy(ps, dc, c.posting as int, c.slot as int)
                            &&& earlier(c.posting as int, c.slot as int, pp, i as int)
                        },
                    forall|k: int, l: int|
                        0 <= k < l < out@.len() ==> earlier(out@[k].posting as int, out@[k].slot as int, out@[l].posting as int, out@[l].slot as int),
                    forall|q: int, j: int|
                        #![trigger copy_entry(ps, dc, q, j)]
                        copy_entry(ps, dc, q, j) && earlier(q, j, pp, i as int) && first_copy(ps, dc, q, j) ==> exists|k: int|
                            0 <= k < out@.len() && (#[trigger] out@[k]).posting == q && out@[k].slot == j,
                decreases m - i,
            {
                let id = ids[i];
                proof {
                    assert(copy_entry(ps, dc, pp, i as int));
                    assert(id == copy_id(ps, pp, i as int));
                }
                let ghost old_seen = seen@;
                let ghost old_out = out@;
                if !seen.contains_key(&id) {
                    proof {
                        assert(first_copy(ps, dc, pp, i as int)) by {
                            assert forall|q: int, j: int|
                                #![trigger copy_entry(ps, dc, q, j)]
                                copy_entry(ps, dc, q, j) && earlier(q, j, pp, i as int) implies copy_id(ps, q, j) != id by {
                                if copy_id(ps, q, j) == id {
                                    assert(met_before(ps, dc, pp, i as int, id));
                                }
                            }
                        }
                        assert(4 * m + i * 4 * dim <= 4 * 65536 * (dim + 1)) by (nonlinear_arith)
                            requires
                                m <= 65535,
                                i < m,
                        ;
                    }
                    let offset = 4 * m + i * 4 * dim;
                    seen.insert(id, true);
                    out.push(VectorCopy { posting: p, slot: i, vector_id: id, offset });
                    proof {
                        assert forall|k: int, l: int| 0 <= k < l < out@.len() implies earlier(
                            out@[k].posting as int,
                            out@[k].slot as int,
                            out@[l].posting as int,
                            out@[l].slot as int,
                        ) by {
                            if l < old_out.len() {
                                assert(out@[k] == old_out[k] && out@[l] == old_out[l]);
                            } else {
                                assert(out@[k] == old_out[k]);
                            }
                        }
                    }
                } else {
                    proof {
                        assert(met_before(ps, dc, pp, i as int, id));
                        let (q, j) = choose|q: int, j: int|
                            #![trigger copy_entry(ps, dc, q, j)]
                            copy_entry(ps, dc, q, j) && earlier(q, j, pp, i as int) && copy_id(ps, q, j) == id;
                        assert(!first_copy(ps, dc, pp, i as int));
                    }
                }
                proof {
                    assert forall|x: usize| #[trigger] seen@.contains_key(x) <==> met_before(ps, dc, pp, i + 1, x) by {
                        if met_before(ps, dc, pp, i + 1, x) {
                            let (q, j) = choose|q: int, j: int|
                                #![trigger copy_entry(ps, dc, q, j)]
                                copy_entry(ps, dc, q, j) && earlier(q, j, pp, i + 1) && copy_id(ps, q, j) == x;
                            if q == pp && j == i {
                                assert(x == id);
                            } else {
                                assert(earlier(q, j, pp, i as int));
                                assert(met_before(ps, dc, pp, i as int, x));
                            }
                        }
                        if x == id {
                            assert(copy_entry(ps, dc, pp, i as int) && earlier(pp, i as int, pp, i + 1));
                            assert(met_before(ps, dc, pp, i + 1, x));
                        } else if old_seen.contains_key(x) {
                            let (q, j) = choose|q: int, j: int|
                                #![trigger copy_entry(ps, dc, q, j)]
                                copy_entry(ps, dc, q, j) && earlier(q, j, pp, i as int) && copy_id(ps, q, j) == x;
                            assert(earlier(q, j, pp, i + 1));
                        }
                    }
                    assert forall|q: int, j: int|
                        #![trigger copy_entry(ps, dc, q, j)]
                        copy_entry(ps, dc, q, j) && earlier(q, j, pp, i + 1) && first_copy(ps, dc, q, j) implies exists|k: int|
                            0 <= k < out@.len() && (#[trigger] out@[k]).posting == q && out@[k].slot == j by {
                        if q == pp && j == i {
                            assert(out@[old_out.len() as int].posting == q && out@[old_out.len() as int].slot == j);
                        } else {
                            assert(earlier(q, j, pp, i as int));
                            let k = choose|k: int| 0 <= k < old_out.len() && (#[trigger] old_out[k]).posting == q && old_out[k].slot == j;
                            assert(out@[k] == old_out[k]);
                        }
                    }
                }
                i = i + 1;
            }
            proof {
                assert forall|x: usize| #[trigger] seen@.contains_key(x) <==> met_before(ps, dc, pp + 1, 0, x) by {
                    if met_before(ps, dc, pp + 1, 0, x) {
                        let (q, j) = choose|q: int, j: int|
                            #![trigger copy_entry(ps, dc, q, j)]
                            copy_entry(ps, dc, q, j) && earlier(q, j, pp + 1, 0) && copy_id(ps, q, j) == x;
                        assert(earlier(q, j, pp, i as int));
                    }
                    if met_before(ps, dc, pp, i as int, x) {
                        let (q, j) = choose|q: int, j: int|
                            #![trigger copy_entry(ps, dc, q, j)]
                            copy_entry(ps, dc, q, j) && earlier(q, j, pp, i as int) && copy_id(ps, q, j) == x;
                        assert(earlier(q, j, pp + 1, 0));
                    }
                }
                assert forall|q: int, j: int|
                    #![trigger copy_entry(ps, dc, q, j)]
                    copy_entry(ps, dc, q, j) && q < pp + 1 && first_copy(ps, dc, q, j) implies exists|k: int|
                        0 <= k < out@.len() && (#[trigger] out@[k]).posting == q && out@[k].slot == j by {
                    assert(earlier(q, j, pp, i as int));
                }
            }
        } else {
            proof {
                assert forall|x: usize| #[trigger] seen@.contains_key(x) <==> met_before(ps, dc, pp + 1, 0, x) by {
                    if met_before(ps, dc, pp + 1, 0, x) {
                        let (q, j) = choose|q: int, j: int|
                            #![trigger copy_entry(ps, dc, q, j)]
                            copy_entry(ps, dc, q, j) && earlier(q, j, pp + 1, 0) && copy_id(ps, q, j) == x;
                        assert(q != pp);
                        assert(earlier(q, j, pp, 0));
                    }
                    if met_before(ps, dc, pp, 0, x) {
                        let (q, j) = choose|q: int, j: int|
                            #![trigger copy_entry(ps, dc, q, j)]
                            copy_entry(ps, dc, q, j) && earlier(q, j, pp, 0) && copy_id(ps, q, j) == x;
                        assert(earlier(q, j, pp + 1, 0));
                    }
                }
            }
        }
        p = p + 1;
    }
    proof {
        assert forall|k: int, l: int| 0 <= k < l < out@.len() implies out@[k].vector_id != out@[l].vector_id by {
            let a = out@[k];
            let b = out@[l];
            assert(copy_entry(ps, dc, a.posting as int, a.slot as int));
            assert(earlier(a.posting as int, a.slot as int, b.posting as int, b.slot as int));
            assert(first_copy(ps, dc, b.posting as int, b.slot as int));
        }
    }
    out
}

} // verus!
