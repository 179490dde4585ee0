//! The file of a complete SPTAG-BKT index: the ball tree, then the graph, then
//! the vectors (each component as the bits of an `f32`), then the number of
//! TP-trees used to build the graph.
use vstd::prelude::*;
use crate::codec::{u32s_le, word_at, read_word, push_u32_le, lemma_u32s_le_push, lemma_words_read_back};
use crate::index::bktree_recursive::{
    BKTreeBuilder, TreeImage, TreeLoadError, tree_bytes, tree_from_bytes, tree_loadable, stored_tree_len, tree_fits,
    lemma_tree_save_load,
};
use crate::index::rng::{
    RNGGraph, GraphImage, GraphLoadError, graph_bytes, graph_from_bytes, graph_loadable, stored_graph_len, graph_fits,
    lemma_graph_save_load,
};

verus! {

broadcast use vstd::seq_lib::group_seq_properties;

/// The parts of an index file.
pub struct IndexFile {
    pub tree: BKTreeBuilder,
    pub graph: RNGGraph,
    pub vectors: Vec<Vec<u32>>,
    pub num_tpt_trees: usize,
}

/// The components of the vectors, one after the other.
pub open spec fn flatten(vs: Seq<Seq<u32>>) -> Seq<u32>
    decreases vs.len(),
{
    if vs.len() == 0 {
        Seq::empty()
    } else {
        flatten(vs.drop_last()) + vs.last()
    }
}

/// The words after the graph: the vector count, the dimension of the first
/// vector when there is one, every component, and the TP-tree count.
pub open spec fn tail_words(vs: Seq<Seq<u32>>, num_tpt_trees: usize) -> Seq<u32> {
    seq![vs.len() as u32] + (if vs.len() > 0 { seq![vs[0].len() as u32] } else { Seq::empty() }) + flatten(vs)
        + seq![num_tpt_trees as u32]
}

/// The bytes of an index file.
pub open spec fn index_bytes(t: TreeImage, g: GraphImage, vs: Seq<Seq<u32>>, num_tpt_trees: usize) -> Seq<u8> {
    tree_bytes(t) + graph_bytes(g) + u32s_le(tail_words(vs, num_tpt_trees))
}

/// What follows the tree and the graph in `s`.
pub open spec fn index_tail(s: Seq<u8>) -> Seq<u8> {
    let s1 = s.skip(stored_tree_len(s));
    s1.skip(stored_graph_len(s1))
}

/// Number of words of the vector section stored at the start of `t`.
pub open spec fn tail_len_words(t: Seq<u8>) -> int {
    if word_at(t, 0) == 0 { 2 } else { 3 + word_at(t, 0) * word_at(t, 1) }
}

/// Whether `s` starts with a whole index file.
pub open spec fn index_loadable(s: Seq<u8>) -> bool {
    let s1 = s.skip(stored_tree_len(s));
    &&& tree_loadable(s)
    &&& graph_loadable(s1)
    &&& 4 <= index_tail(s).len()
    &&& (word_at(index_tail(s), 0) > 0 ==> 8 <= index_tail(s).len())
    &&& 4 * tail_len_words(index_tail(s)) <= index_tail(s).len()
}

/// The vectors stored in the section at the start of `t`.
pub open spec fn tail_vectors(t: Seq<u8>) -> Seq<Seq<u32>> {
    let n = word_at(t, 0) as int;
    let dim = word_at(t, 1) as int;
    Seq::new(n as nat, |v: int| Seq::new(dim as nat, |d: int| word_at(t, 2 + v * dim + d)))
}

/// The TP-tree count stored after the vectors at the start of `t`.
pub open spec fn tail_tpt(t: Seq<u8>) -> usize {
    word_at(t, tail_len_words(t) - 1) as usize
}

/// Why an index file could not be read.
#[derive(Clone, Copy, PartialEq, Eq, Structural, Debug)]
pub enum IndexLoadError {
    /// The bytes end inside the tree.
    Tree,
    /// The bytes end inside the graph.
    Graph,
    /// The bytes end inside the vectors or before the TP-tree count.
    Vectors,
}

/// The bytes of an index file (see `index_bytes`).
pub fn save_index(tree: &BKTreeBuilder, graph: &RNGGraph, vectors: &Vec<Vec<u32>>, num_tpt_trees: usize) -> (out: Vec<u8>)
    ensures
        out@ == index_bytes(tree@, graph@, Seq::new(vectors@.len(), |i: int| vectors@[i]@), num_tpt_trees),
{
    let ghost vs = Seq::new(vectors@.len(), |i: int| vectors@[i]@);
    let mut out = tree.save();
    let mut gb = graph.save();
    out.append(&mut gb);
    let ghost prefix = out@;
    let mut tail: Vec<u8> = Vec::new();
    let ghost mut ws: Seq<u32> = Seq::empty();
    let nv = vectors.len();
    proof { lemma_u32s_le_push(ws, nv as u32); ws = ws.push(nv as u32); }
    push_u32_le(&mut tail, nv as u32);
    if nv > 0 {
        let dim = vectors[0].len() as u32;
        proof { lemma_u32s_le_push(ws, dim); ws = ws.push(dim); }
        push_u32_le(&mut tail, dim);
    }
    let ghost w0 = ws;
    let mut v: usize = 0;
    while v < nv
        invariant
            nv == vectors@.len(),
            vs == Seq::new(vectors@.len(), |i: int| vectors@[i]@),
            v <= nv,
            ws == w0 + flatten(vs.take(v as int)),
            tail@ == u32s_le(ws),
        decreases nv - v,
    {
        let vec = &vectors[v];
        let ghost wv = ws;
        let mut d: usize = 0;
        while d < vec.len()
            invariant
                d <= vec@.len(),
                ws == wv + vec@.take(d as int),
                tail@ == u32s_le(ws),
            decreases vec@.len() - d,
        {
            proof {
                lemma_u32s_le_push(ws, vec@[d as int]);
                assert(wv + vec@.take(d + 1) =~= ws.push(vec@[d as int]));
                ws = ws.push(vec@[d as int]);
            }
            push_u32_le(&mut tail, vec[d]);
            d = d + 1;
        }
        proof {
            assert(vec@.take(d as int) =~= vec@);
            assert(vs.take(v + 1).drop_last() =~= vs.take(v as int));
            assert(vs[v as int] == vec@);
            assert(ws =~= w0 + flatten(vs.take(v + 1)));
        }
        v = v + 1;
    }
    proof {
        assert(vs.take(nv as int) =~= vs);
        lemma_u32s_le_push(ws, num_tpt_trees as u32);
        ws = ws.push(num_tpt_trees as u32);
        assert(ws =~= tail_words(vs, num_tpt_trees));
    }
    push_u32_le(&mut tail, num_tpt_trees as u32);
    out.append(&mut tail);
    out
}

/// Reads the index file at the start of `data`: the tree, the graph, the
/// vectors and the TP-tree count. The error names the part in which the
/// bytes end.
pub fn load_index(data: &[u8]) -> (r: Result<IndexFile, IndexLoadError>)
    ensures
        r is Ok <==> index_loadable(data@),
        r matches Ok(f) ==> ({
            let s1 = data@.skip(stored_tree_len(data@));
            &&& f.tree@ == tree_from_bytes(data@)
            &&& f.graph@ == graph_from_bytes(s1)
            &&& Seq::new(f.vectors@.len(), |i: int| f.vectors@[i]@) == tail_vectors(index_tail(data@))
            &&& f.num_tpt_trees == tail_tpt(index_tail(data@))
        }),
        r matches Err(e) ==> (e == IndexLoadError::Tree <==> !tree_loadable(data@))
            && (e == IndexLoadError::Graph <==> tree_loadable(data@) && !graph_loadable(
                data@.skip(stored_tree_len(data@)),
            )),
{
    let (tree, used1) = match BKTreeBuilder::load(data) {
        Ok(p) => p,
        Err(_) => {
            return Err(IndexLoadError::Tree);
        },
    };
    let rest1 = vstd::slice::slice_subrange(data, used1, data.len());
    assert(rest1@ =~= data@.skip(stored_tree_len(data@)));
    let (graph, used2) = match RNGGraph::load(rest1) {
        Ok(p) => p,
        Err(_) => {
            return Err(IndexLoadError::Graph);
        },
    };
    let t = vstd::slice::slice_subrange(rest1, used2, rest1.len());
    assert(t@ =~= index_tail(data@));
    let ghost ts = t@;
    let total = t.len() / 4;
    if total < 1 {
        return Err(IndexLoadError::Vectors);
    }
    let nv = read_word(t, 0) as usize;
    let mut vectors: Vec<Vec<u32>> = Vec::new();
    let mut pos: usize = 1;
    if nv > 0 {
        if total < 2 {
            return Err(IndexLoadError::Vectors);
        }
        let dim = read_word(t, 1) as usize;
        pos = 2;
        // the vectors take nv * dim words; check them without overflow
        let room = total - 2;
        if dim > 0 && nv > room / dim {
            proof {
                let lim = room / dim;
                assert(4 * tail_len_words(ts) > ts.len()) by (nonlinear_arith)
                    requires
                        dim > 0,
                        nv > lim,
                        lim == room / dim,
                        room == total - 2,
                        total == ts.len() / 4,
                        tail_len_words(ts) == 3 + nv * dim,
                {
                    assert(nv >= lim + 1);
                    assert(nv * dim >= (lim + 1) * dim);
                    assert((lim + 1) * dim > room);
                }
            }
            return Err(IndexLoadError::Vectors);
        }
        proof {
            if dim > 0 {
                let lim = room / dim;
                assert(nv * dim <= room) by (nonlinear_arith)
                    requires
                        dim > 0,
                        nv <= lim,
                        lim == room / dim,
                {
                    assert(nv * dim <= lim * dim);
                    assert(lim * dim <= room);
                }
            } else {
                assert(nv * dim == 0) by (nonlinear_arith)
                    requires
                        dim == 0,
                ;
            }
        }
        let mut v: usize = 0;
        while v < nv
            invariant
                ts == t@,
                total == ts.len() / 4,
                nv == word_at(ts, 0),
                dim == word_at(ts, 1),
                nv * dim <= total - 2,
                total >= 2,
                v <= nv,
                pos == 2 + v * dim,
                vectors@.len() == v,
                forall|i: int| 0 <= i < v ==> (#[trigger] vectors@[i])@ == tail_vectors(ts)[i],
            decreases nv - v,
        {
            assert(pos + dim <= total) by (nonlinear_arith)
                requires
                    pos == 2 + v * dim,
                    v < nv,
                    nv * dim <= total - 2,
            {
                assert((v + 1) * dim <= nv * dim);
            }
            let mut vec: Vec<u32> = Vec::new();
            let mut d: usize = 0;
            while d < dim
                invariant
                    ts == t@,
                    total == ts.len() / 4,
                    pos + dim <= total,
                    d <= dim,
                    vec@ == Seq::new(d as nat, |j: int| word_at(ts, pos + j)),
                decreases dim - d,
            {
                vec.push(read_word(t, pos + d));
                assert(vec@ =~= Seq::new((d + 1) as nat, |j: int| word_at(ts, pos + j)));
                d = d + 1;
            }
            assert(vec@ =~= tail_vectors(ts)[v as int]);
            vectors.push(vec);
            pos = pos + dim;
            assert(pos == 2 + (v + 1) * dim) by (nonlinear_arith)
                requires
                    pos == 2 + v * dim + dim,
            ;
            v = v + 1;
        }
    }
    if pos >= total {
        return Err(IndexLoadError::Vectors);
    }
    let num_tpt_trees = read_word(t, pos) as usize;
    proof {
        if nv > 0 {
            assert(pos == 2 + nv * word_at(ts, 1));
        }
        assert(vectors@.len() == nv);
        assert(Seq::new(vectors@.len(), |i: int| vectors@[i]@) =~= tail_vectors(ts)) by {
            if nv == 0 {
                assert(tail_vectors(ts).len() == 0);
            }
        }
    }
    Ok(IndexFile { tree, graph, vectors, num_tpt_trees })
}

proof fn lemma_flatten(vs: Seq<Seq<u32>>, dim: nat)
    requires
        forall|i: int| 0 <= i < vs.len() ==> (#[trigger] vs[i]).len() == dim,
    ensures
        flatten(vs).len() == vs.len() * dim,
        forall|v: int, d: int| 0 <= v < vs.len() && 0 <= d < dim ==> #[trigger] flatten(vs)[v * dim + d]
            == vs[v][d],
    decreases vs.len(),
{
    if vs.len() > 0 {
        let p = vs.drop_last();
        lemma_flatten(p, dim);
        let n = p.len();
        assert(flatten(vs).len() == vs.len() * dim) by (nonlinear_arith)
            requires
                flatten(vs).len() == n * dim + dim,
                vs.len() == n + 1,
        ;
        assert forall|v: int, d: int| 0 <= v < vs.len() && 0 <= d < dim implies #[trigger] flatten(vs)[v * dim
            + d] == vs[v][d] by {
            if v < n {
                assert(v * dim + d < n * dim) by (nonlinear_arith)
                    requires
                        v < n,
                        d < dim,
                {
                    assert((v + 1) * dim <= n * dim);
                }
                assert(p[v] == vs[v]);
            } else {
                assert(v * dim == n * dim);
            }
        }
    }
}

/// Reading back an index file whose tree and graph fit their words, whose
/// vectors all have the dimension of the first and whose counts fit 32 bits
/// gives the same tree, graph, vectors and TP-tree count, whatever follows.
pub proof fn lemma_index_save_load(t: TreeImage, g: GraphImage, vs: Seq<Seq<u32>>, num_tpt_trees: usize, rest: Seq<u8>)
    requires
        tree_fits(t),
        graph_fits(g),
        vs.len() <= u32::MAX,
        num_tpt_trees <= u32::MAX,
        vs.len() > 0 ==> vs[0].len() <= u32::MAX,
        forall|i: int| 0 <= i < vs.len() ==> (#[trigger] vs[i]).len() == vs[0].len(),
    ensures
        ({
            let s = index_bytes(t, g, vs, num_tpt_trees) + rest;
            &&& index_loadable(s)
            &&& tree_from_bytes(s) == t
            &&& graph_from_bytes(s.skip(stored_tree_len(s))) == g
            &&& tail_vectors(index_tail(s)) == vs
            &&& tail_tpt(index_tail(s)) == num_tpt_trees
        }),
{
    let tw = tail_words(vs, num_tpt_trees);
    let tb = u32s_le(tw) + rest;
    let s = index_bytes(t, g, vs, num_tpt_trees) + rest;
    let s1 = graph_bytes(g) + tb;
    assert(s =~= tree_bytes(t) + s1);
    lemma_tree_save_load(t, s1);
    assert(s.skip(stored_tree_len(s)) =~= s1);
    lemma_graph_save_load(g, tb);
    assert(s1.skip(stored_graph_len(s1)) =~= tb);
    assert(index_tail(s) == tb);
    lemma_words_read_back(tw, rest);
    let nv = vs.len();
    assert(word_at(tb, 0) == nv) by { assert(tw[0] == nv as u32); }
    if nv > 0 {
        let dim = vs[0].len();
        lemma_flatten(vs, dim);
        assert(word_at(tb, 1) == dim) by { assert(tw[1] == dim as u32); }
        assert(tw.len() == 3 + nv * dim);
        assert(tail_len_words(tb) == tw.len());
        assert(word_at(tb, tw.len() - 1) == num_tpt_trees);
        let r = tail_vectors(tb);
        assert forall|v: int| 0 <= v < nv implies #[trigger] r[v] == vs[v] by {
            assert forall|d: int| 0 <= d < dim implies #[trigger] r[v][d] == vs[v][d] by {
                assert(v * dim + d < nv * dim) by (nonlinear_arith)
                    requires
                        v < nv,
                        d < dim,
                {
                    assert((v + 1) * dim <= nv * dim);
                }
                assert(tw[2 + v * dim + d] == flatten(vs)[v * dim + d]);
            }
            assert(r[v] =~= vs[v]);
        }
        assert(r =~= vs);
    } else {
        assert(flatten(vs) == Seq::<u32>::empty());
        assert(tw.len() == 2);
        assert(word_at(tb, 1) == num_tpt_trees);
        assert(tail_vectors(tb) =~= vs);
    }
}

} // verus!
