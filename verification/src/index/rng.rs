//! The relative-neighbourhood graph that SPTAG searches: adjacency lists,
//! build parameters, and its byte layout.
use vstd::prelude::*;
use crate::codec::{u32s_le, word_at, read_word, push_u32_le, lemma_u32s_le_push, lemma_words_read_back};

verus! {

broadcast use vstd::seq_lib::group_seq_properties;

/// Adjacency lists of the graph, the most neighbours a node keeps, the bits of
/// the pruning factor (an `f32`) and the candidate count of a refinement
/// search.
pub struct RNGGraph {
    neighbors: Vec<Vec<usize>>,
    max_degree: usize,
    rng_factor_bits: u32,
    cef: usize,
}

/// The value of a graph, as the contracts speak of it.
pub struct GraphImage {
    pub neighbors: Seq<Seq<usize>>,
    pub max_degree: usize,
    pub rng_factor_bits: u32,
    pub cef: usize,
}

impl View for RNGGraph {
    type V = GraphImage;

    closed spec fn view(&self) -> GraphImage {
        GraphImage {
            neighbors: Seq::new(self.neighbors@.len(), |i: int| self.neighbors@[i]@),
            max_degree: self.max_degree,
            rng_factor_bits: self.rng_factor_bits,
            cef: self.cef,
        }
    }
}

/// The words of one adjacency list: its length, then its ids.
pub open spec fn list_words(l: Seq<usize>) -> Seq<u32> {
    seq![l.len() as u32] + Seq::new(l.len(), |j: int| l[j] as u32)
}

/// The words of a run of adjacency lists.
pub open spec fn lists_words(ls: Seq<Seq<usize>>) -> Seq<u32>
    decreases ls.len(),
{
    if ls.len() == 0 {
        Seq::empty()
    } else {
        lists_words(ls.drop_last()) + list_words(ls.last())
    }
}

/// The words of a stored graph: the maximum degree, the bits of the pruning
/// factor, the candidate count, the node count, then the adjacency lists.
pub open spec fn graph_words(g: GraphImage) -> Seq<u32> {
    seq![g.max_degree as u32, g.rng_factor_bits, g.cef as u32, g.neighbors.len() as u32] + lists_words(g.neighbors)
}

/// The bytes of a stored graph: its words, little-endian.
pub open spec fn graph_bytes(g: GraphImage) -> Seq<u8> {
    u32s_le(graph_words(g))
}

/// Word position of the length of list `k` of the graph stored in `s`.
pub open spec fn list_pos(s: Seq<u8>, k: nat) -> int
    decreases k,
{
    if k == 0 {
        4
    } else {
        list_pos(s, (k - 1) as nat) + 1 + word_at(s, list_pos(s, (k - 1) as nat))
    }
}

/// Whether `s` starts with a whole stored graph.
pub open spec fn graph_loadable(s: Seq<u8>) -> bool {
    16 <= s.len() && 4 * list_pos(s, word_at(s, 3) as nat) <= s.len()
}

/// Number of bytes that the stored graph at the start of `s` takes.
pub open spec fn stored_graph_len(s: Seq<u8>) -> int {
    4 * list_pos(s, word_at(s, 3) as nat)
}

/// The graph stored at the start of `s`.
pub open spec fn graph_from_bytes(s: Seq<u8>) -> GraphImage {
    GraphImage {
        neighbors: Seq::new(
            word_at(s, 3) as nat,
            |k: int| Seq::new(word_at(s, list_pos(s, k as nat)) as nat, |j: int| word_at(s, list_pos(s, k as nat) + 1 + j) as usize),
        ),
        max_degree: word_at(s, 0) as usize,
        rng_factor_bits: word_at(s, 1),
        cef: word_at(s, 2) as usize,
    }
}

/// Every stored value of the graph fits its word.
pub open spec fn graph_fits(g: GraphImage) -> bool {
    &&& g.neighbors.len() <= u32::MAX
    &&& g.max_degree <= u32::MAX
    &&& g.cef <= u32::MAX
    &&& forall|k: int| 0 <= k < g.neighbors.len() ==> (#[trigger] g.neighbors[k]).len() <= u32::MAX
    &&& forall|k: int, j: int| 0 <= k < g.neighbors.len() && 0 <= j < g.neighbors[k].len()
        ==> #[trigger] g.neighbors[k][j] <= u32::MAX
}

/// Why a stored graph could not be read.
#[derive(Clone, Copy, PartialEq, Eq, Structural, Debug)]
pub enum GraphLoadError {
    /// The bytes end before the graph does.
    Truncated,
}

impl RNGGraph {
    /// A graph without nodes.
    pub fn new(max_degree: usize, rng_factor_bits: u32, cef: usize) -> (g: Self)
        ensures
            g@.neighbors == Seq::<Seq<usize>>::empty(),
            g@.max_degree == max_degree,
            g@.rng_factor_bits == rng_factor_bits,
            g@.cef == cef,
    {
        let g = RNGGraph { neighbors: Vec::new(), max_degree, rng_factor_bits, cef };
        assert(g@.neighbors =~= Seq::<Seq<usize>>::empty());
        g
    }

    pub fn max_degree(&self) -> (r: usize)
        ensures
            r == self@.max_degree,
    {
        self.max_degree
    }

    pub fn rng_factor_bits(&self) -> (r: u32)
        ensures
            r == self@.rng_factor_bits,
    {
        self.rng_factor_bits
    }

    pub fn cef(&self) -> (r: usize)
        ensures
            r == self@.cef,
    {
        self.cef
    }

    /// Number of nodes.
    pub fn len(&self) -> (r: usize)
        ensures
            r == self@.neighbors.len(),
    {
        self.neighbors.len()
    }

    /// The neighbours of `node`.
    pub fn get_neighbors(&self, node: usize) -> (r: &[usize])
        requires
            node < self@.neighbors.len(),
        ensures
            r@ == self@.neighbors[node as int],
    {
        self.neighbors[node].as_slice()
    }

    /// Replaces every adjacency list.
    pub fn set_all_neighbors(&mut self, lists: Vec<Vec<usize>>)
        ensures
            final(self)@ == (GraphImage {
                neighbors: Seq::new(lists@.len(), |i: int| lists@[i]@),
                ..old(self)@
            }),
    {
        self.neighbors = lists;
    }

    /// Replaces the neighbours of `node`.
    pub fn set_neighbors(&mut self, node: usize, list: Vec<usize>)
        requires
            node < old(self)@.neighbors.len(),
        ensures
            final(self)@ == (GraphImage { neighbors: old(self)@.neighbors.update(node as int, list@), ..old(self)@ }),
    {
        self.neighbors.set(node, list);
        assert(self@.neighbors =~= old(self)@.neighbors.update(node as int, list@));
    }

    /// The bytes of the graph (see `graph_bytes`).
    pub fn save(&self) -> (out: Vec<u8>)
        ensures
            out@ == graph_bytes(self@),
    {
        let ghost lists = self@.neighbors;
        let mut out: Vec<u8> = Vec::new();
        let head: [u32; 4] = [self.max_degree as u32, self.rng_factor_bits, self.cef as u32, self.neighbors.len() as u32];
        let ghost mut ws: Seq<u32> = Seq::empty();
        let mut q: usize = 0;
        while q < 4
            invariant
                q <= 4,
                ws == head@.take(q as int),
                out@ == u32s_le(ws),
            decreases 4 - q,
        {
            proof {
                lemma_u32s_le_push(ws, head@[q as int]);
                assert(head@.take(q + 1) =~= ws.push(head@[q as int]));
                ws = ws.push(head@[q as int]);
            }
            push_u32_le(&mut out, head[q]);
            q = q + 1;
        }
        let ghost w0 = ws;
        let n = self.neighbors.len();
        let mut k: usize = 0;
        while k < n
            invariant
                lists == self@.neighbors,
                n == lists.len(),
                k <= n,
                ws == w0 + lists_words(lists.take(k as int)),
                out@ == u32s_le(ws),
            decreases n - k,
        {
            let l = &self.neighbors[k];
            assert(l@ == lists[k as int]);
            let ghost wk = ws;
            proof {
                lemma_u32s_le_push(ws, l.len() as u32);
                ws = ws.push(l.len() as u32);
            }
            push_u32_le(&mut out, l.len() as u32);
            let mut j: usize = 0;
            while j < l.len()
                invariant
                    j <= l@.len(),
                    ws == wk + list_words(l@).take(j + 1),
                    out@ == u32s_le(ws),
                decreases l@.len() - j,
            {
                let x = l[j] as u32;
                proof {
                    lemma_u32s_le_push(ws, x);
                    assert(wk + list_words(l@).take(j + 2) =~= ws.push(x));
                    ws = ws.push(x);
                }
                push_u32_le(&mut out, x);
                j = j + 1;
            }
            proof {
                assert(list_words(l@).take(j + 1) =~= list_words(l@));
                assert(lists.take(k + 1).drop_last() =~= lists.take(k as int));
                assert(ws =~= w0 + lists_words(lists.take(k + 1)));
            }
            k = k + 1;
        }
        proof {
            assert(lists.take(n as int) =~= lists);
            assert(head@.take(4) =~= head@);
            assert(ws =~= graph_words(self@));
        }
        out
    }

    /// Reads the graph stored at the start of `data` (see `graph_from_bytes`)
    /// and the number of bytes it takes; `Truncated` when `data` ends first.
    pub fn load(data: &[u8]) -> (r: Result<(RNGGraph, usize), GraphLoadError>)
        ensures
            r is Ok <==> graph_loadable(data@),
            r matches Ok((g, used)) ==> g@ == graph_from_bytes(data@) && used == stored_graph_len(data@),
            r matches Err(e) ==> e == GraphLoadError::Truncated,
    {
        let ghost s = data@;
        let total = data.len() / 4;
        if total < 4 {
            return Err(GraphLoadError::Truncated);
        }
        let max_degree = read_word(data, 0) as usize;
        let rng_factor_bits = read_word(data, 1);
        let cef = read_word(data, 2) as usize;
        let n = read_word(data, 3) as usize;
        let mut lists: Vec<Vec<usize>> = Vec::new();
        let mut pos: usize = 4;
        let mut k: usize = 0;
        while k < n
            invariant
                s == data@,
                total == s.len() / 4,
                n == word_at(s, 3),
                k <= n,
                pos == list_pos(s, k as nat),
                pos <= total,
                lists@.len() == k,
                forall|i: int| 0 <= i < k ==> (#[trigger] lists@[i])@ == graph_from_bytes(s).neighbors[i],
            decreases n - k,
        {
            if pos >= total {
                proof { lemma_list_pos_grows(s, (k + 1) as nat, n as nat); }
                return Err(GraphLoadError::Truncated);
            }
            let cnt = read_word(data, pos) as usize;
            if cnt > total - pos - 1 {
                proof { lemma_list_pos_grows(s, (k + 1) as nat, n as nat); }
                return Err(GraphLoadError::Truncated);
            }
            let mut l: Vec<usize> = Vec::new();
            let mut j: usize = 0;
            while j < cnt
                invariant
                    s == data@,
                    pos + 1 + cnt <= total,
                    total == s.len() / 4,
                    j <= cnt,
                    l@ == Seq::new(j as nat, |t: int| word_at(s, pos + 1 + t) as usize),
                decreases cnt - j,
            {
                l.push(read_word(data, pos + 1 + j) as usize);
                assert(l@ =~= Seq::new((j + 1) as nat, |t: int| word_at(s, pos + 1 + t) as usize));
                j = j + 1;
            }
            assert(l@ =~= graph_from_bytes(s).neighbors[k as int]);
            lists.push(l);
            pos = pos + 1 + cnt;
            k = k + 1;
        }
        let g = RNGGraph { neighbors: lists, max_degree, rng_factor_bits, cef };
        assert(g@.neighbors =~= graph_from_bytes(s).neighbors);
        Ok((g, 4 * pos))
    }
}

proof fn lemma_list_pos_grows(s: Seq<u8>, k: nat, n: nat)
    requires
        k <= n,
    ensures
        list_pos(s, k) <= list_pos(s, n),
    decreases n - k,
{
    if k < n {
        lemma_list_pos_grows(s, k, (n - 1) as nat);
    }
}

proof fn lemma_lists_prefix(ls: Seq<Seq<usize>>, k: int)
    requires
        0 <= k <= ls.len(),
    ensures
        lists_words(ls.take(k)).len() <= lists_words(ls).len(),
        forall|i: int| 0 <= i < lists_words(ls.take(k)).len() ==> #[trigger] lists_words(ls)[i]
            == lists_words(ls.take(k))[i],
    decreases ls.len(),
{
    if k == ls.len() {
        assert(ls.take(k) =~= ls);
    } else {
        let d = ls.drop_last();
        lemma_lists_prefix(d, k);
        assert(ls.take(k) =~= d.take(k));
        assert forall|i: int| 0 <= i < lists_words(ls.take(k)).len() implies #[trigger] lists_words(ls)[i]
            == lists_words(ls.take(k))[i] by {
            assert(lists_words(ls)[i] == lists_words(d)[i]);
        }
    }
}

proof fn lemma_list_pos_of_saved(g: GraphImage, rest: Seq<u8>, k: nat)
    requires
        graph_fits(g),
        k <= g.neighbors.len(),
    ensures
        list_pos(graph_bytes(g) + rest, k) == 4 + lists_words(g.neighbors.take(k as int)).len(),
    decreases k,
{
    let ls = g.neighbors;
    let w = graph_words(g);
    let s = graph_bytes(g) + rest;
    if k > 0 {
        let k1 = (k - 1) as int;
        lemma_list_pos_of_saved(g, rest, (k - 1) as nat);
        lemma_words_read_back(w, rest);
        lemma_lists_prefix(ls, k as int);
        let a = lists_words(ls.take(k1));
        assert(ls.take(k as int).drop_last() =~= ls.take(k1));
        assert(lists_words(ls.take(k as int)) == a + list_words(ls[k1]));
        assert(lists_words(ls)[a.len() as int] == list_words(ls[k1])[0]);
        assert(w[4 + a.len() as int] == lists_words(ls)[a.len() as int]);
        assert(word_at(s, 4 + a.len() as int) == ls[k1].len());
    }
}

/// Reading back the bytes of a graph whose values fit their words gives the
/// same graph and consumes exactly those bytes, whatever follows them.
pub proof fn lemma_graph_save_load(g: GraphImage, rest: Seq<u8>)
    requires
        graph_fits(g),
    ensures
        graph_loadable(graph_bytes(g) + rest),
        stored_graph_len(graph_bytes(g) + rest) == graph_bytes(g).len(),
        graph_from_bytes(graph_bytes(g) + rest) == g,
{
    let ls = g.neighbors;
    let n = ls.len();
    let w = graph_words(g);
    let s = graph_bytes(g) + rest;
    lemma_words_read_back(w, rest);
    crate::codec::lemma_u32s_le(w);
    assert(word_at(s, 0) == g.max_degree && word_at(s, 1) == g.rng_factor_bits && word_at(s, 2) == g.cef) by {
        assert(w[0] == g.max_degree as u32 && w[1] == g.rng_factor_bits && w[2] == g.cef as u32);
    }
    assert(word_at(s, 3) == n) by { assert(w[3] == n as u32); }
    lemma_list_pos_of_saved(g, rest, n);
    assert(ls.take(n as int) =~= ls);
    let r = graph_from_bytes(s);
    assert forall|k: int| 0 <= k < n implies #[trigger] r.neighbors[k] == ls[k] by {
        lemma_list_pos_of_saved(g, rest, k as nat);
        lemma_list_pos_of_saved(g, rest, (k + 1) as nat);
        lemma_lists_prefix(ls, k + 1);
        let a = lists_words(ls.take(k));
        assert(ls.take(k + 1).drop_last() =~= ls.take(k));
        assert(lists_words(ls.take(k + 1)) == a + list_words(ls[k]));
        assert(word_at(s, 4 + a.len() as int) == ls[k].len()) by {
            assert(lists_words(ls)[a.len() as int] == list_words(ls[k])[0]);
            assert(w[4 + a.len() as int] == lists_words(ls)[a.len() as int]);
        }
        assert forall|j: int| 0 <= j < ls[k].len() implies #[trigger] word_at(s, 4 + a.len() as int + 1 + j) as usize == ls[k][j] by {
            assert(lists_words(ls)[a.len() + 1 + j] == list_words(ls[k])[1 + j]);
            assert(w[4 + a.len() as int + 1 + j] == lists_words(ls)[a.len() + 1 + j]);
        }
        assert(r.neighbors[k] =~= ls[k]);
    }
    assert(r.neighbors =~= ls);
}

} // verus!
