//! The ball tree built by recursive balanced k-means: its state, the integer
//! steps of the build (grouping a range of vector ids by cluster, opening and
//! closing nodes), the walk used to read a node, and its byte layout.
use vstd::prelude::*;
use vstd::bytes::*;
use crate::codec::{u32s_le, word_at, read_word, push_u32_le, lemma_u32s_le_push, lemma_words_read_back};

verus! {

broadcast use vstd::seq_lib::group_seq_properties;

/// A node of the tree. `child_start..child_end` are the slots of its children
/// (`-1` while it has none) and `data_start..data_end` the range of the
/// reordered ids that it covers.
#[derive(Clone, Copy, PartialEq, Eq, Structural, Debug)]
pub struct BKTNode {
    pub center_id: i32,
    pub child_start: i32,
    pub child_end: i32,
    pub data_start: usize,
    pub data_end: usize,
}

/// The state of a tree: its nodes, the vector ids reordered so that each node
/// covers a contiguous range, the leaf ranges, the build parameters, and the
/// bits of the balance factor `lambda` (an `f32`; negative until chosen).
pub struct BKTreeBuilder {
    nodes: Vec<BKTNode>,
    indices: Vec<usize>,
    leaves: Vec<(usize, usize)>,
    k: usize,
    leaf_size: usize,
    samples: usize,
    lambda_bits: u32,
}

/// The value of a tree, as the contracts speak of it.
pub struct TreeImage {
    pub nodes: Seq<BKTNode>,
    pub indices: Seq<usize>,
    pub leaves: Seq<(usize, usize)>,
    pub k: usize,
    pub leaf_size: usize,
    pub samples: usize,
    pub lambda_bits: u32,
}

/// Bits of the `f32` value `-1.0`, the balance factor of a tree whose factor
/// has not been chosen.
pub const UNSET_LAMBDA_BITS: u32 = 0xBF80_0000u32;

impl View for BKTreeBuilder {
    type V = TreeImage;

    closed spec fn view(&self) -> TreeImage {
        TreeImage {
            nodes: self.nodes@,
            indices: self.indices@,
            leaves: self.leaves@,
            k: self.k,
            leaf_size: self.leaf_size,
            samples: self.samples,
            lambda_bits: self.lambda_bits,
        }
    }
}

/// Word `f` (0 to 4) of the stored form of a node.
pub open spec fn node_word(n: BKTNode, f: int) -> u32 {
    if f == 0 {
        n.center_id as u32
    } else if f == 1 {
        n.child_start as u32
    } else if f == 2 {
        n.child_end as u32
    } else if f == 3 {
        n.data_start as u32
    } else {
        n.data_end as u32
    }
}

/// The five words of a node.
pub open spec fn node_words(n: BKTNode) -> Seq<u32> {
    seq![node_word(n, 0), node_word(n, 1), node_word(n, 2), node_word(n, 3), node_word(n, 4)]
}

/// The words of a run of nodes.
pub open spec fn nodes_words(ns: Seq<BKTNode>) -> Seq<u32>
    decreases ns.len(),
{
    if ns.len() == 0 {
        Seq::empty()
    } else {
        nodes_words(ns.drop_last()) + node_words(ns.last())
    }
}

/// The words of a run of ids.
pub open spec fn ids_words(xs: Seq<usize>) -> Seq<u32> {
    Seq::new(xs.len(), |k: int| xs[k] as u32)
}

/// The words of a run of leaf ranges, two per range.
pub open spec fn ranges_words(ls: Seq<(usize, usize)>) -> Seq<u32>
    decreases ls.len(),
{
    if ls.len() == 0 {
        Seq::empty()
    } else {
        ranges_words(ls.drop_last()) + seq![ls.last().0 as u32, ls.last().1 as u32]
    }
}

/// The words of a stored tree: the node count and the nodes, the id count and
/// the ids, the leaf count and the leaves, then `k`, the leaf size, the sample
/// count and the bits of `lambda`.
pub open spec fn tree_words(t: TreeImage) -> Seq<u32> {
    seq![t.nodes.len() as u32] + nodes_words(t.nodes) + seq![t.indices.len() as u32] + ids_words(t.indices)
        + seq![t.leaves.len() as u32] + ranges_words(t.leaves) + seq![
        t.k as u32,
        t.leaf_size as u32,
        t.samples as u32,
        t.lambda_bits,
    ]
}

/// The bytes of a stored tree: its words, little-endian.
pub open spec fn tree_bytes(t: TreeImage) -> Seq<u8> {
    u32s_le(tree_words(t))
}

/// The node stored in the five words from word `base` of `s`.
pub open spec fn node_at(s: Seq<u8>, base: int) -> BKTNode {
    BKTNode {
        center_id: word_at(s, base) as i32,
        child_start: word_at(s, base + 1) as i32,
        child_end: word_at(s, base + 2) as i32,
        data_start: word_at(s, base + 3) as usize,
        data_end: word_at(s, base + 4) as usize,
    }
}

/// Word position of the id count.
pub open spec fn ids_pos(s: Seq<u8>) -> int {
    1 + 5 * word_at(s, 0)
}

/// Word position of the leaf count.
pub open spec fn leaves_pos(s: Seq<u8>) -> int {
    ids_pos(s) + 1 + word_at(s, ids_pos(s))
}

/// Word position of the parameters.
pub open spec fn params_pos(s: Seq<u8>) -> int {
    leaves_pos(s) + 1 + 2 * word_at(s, leaves_pos(s))
}

/// Number of bytes that the stored tree at the start of `s` takes.
pub open spec fn stored_tree_len(s: Seq<u8>) -> int {
    4 * (params_pos(s) + 4)
}

/// Whether `s` starts with a whole stored tree.
pub open spec fn tree_loadable(s: Seq<u8>) -> bool {
    4 <= s.len() && stored_tree_len(s) <= s.len()
}

/// The tree stored at the start of `s`.
pub open spec fn tree_from_bytes(s: Seq<u8>) -> TreeImage {
    let ip = ids_pos(s);
    let lp = leaves_pos(s);
    let pp = params_pos(s);
    TreeImage {
        nodes: Seq::new(word_at(s, 0) as nat, |k: int| node_at(s, 1 + 5 * k)),
        indices: Seq::new(word_at(s, ip) as nat, |k: int| word_at(s, ip + 1 + k) as usize),
        leaves: Seq::new(
            word_at(s, lp) as nat,
            |k: int| (word_at(s, lp + 1 + 2 * k) as usize, word_at(s, lp + 2 + 2 * k) as usize),
        ),
        k: word_at(s, pp) as usize,
        leaf_size: word_at(s, pp + 1) as usize,
        samples: word_at(s, pp + 2) as usize,
        lambda_bits: word_at(s, pp + 3),
    }
}

/// Why a stored tree could not be read.
#[derive(Clone, Copy, PartialEq, Eq, Structural, Debug)]
pub enum TreeLoadError {
    /// The bytes end before the tree does.
    Truncated,
}

/// Every stored value of the tree fits its word: counts, ids, ranges and
/// parameters are below `2^32`.
pub open spec fn tree_fits(t: TreeImage) -> bool {
    &&& t.nodes.len() <= u32::MAX
    &&& t.indices.len() <= u32::MAX
    &&& t.leaves.len() <= u32::MAX
    &&& forall|i: int| 0 <= i < t.nodes.len() ==> (#[trigger] t.nodes[i]).data_start <= u32::MAX
        && t.nodes[i].data_end <= u32::MAX
    &&& forall|i: int| 0 <= i < t.indices.len() ==> #[trigger] t.indices[i] <= u32::MAX
    &&& forall|i: int| 0 <= i < t.leaves.len() ==> (#[trigger] t.leaves[i]).0 <= u32::MAX
        && t.leaves[i].1 <= u32::MAX
    &&& t.k <= u32::MAX
    &&& t.leaf_size <= u32::MAX
    &&& t.samples <= u32::MAX
}

proof fn lemma_nodes_words(ns: Seq<BKTNode>)
    ensures
        nodes_words(ns).len() == 5 * ns.len(),
        forall|k: int, f: int| 0 <= k < ns.len() && 0 <= f < 5 ==> #[trigger] nodes_words(ns)[5 * k + f]
            == node_word(#[trigger] ns[k], f),
    decreases ns.len(),
{
    if ns.len() > 0 {
        let p = ns.drop_last();
        lemma_nodes_words(p);
        assert forall|k: int, f: int| 0 <= k < ns.len() && 0 <= f < 5 implies #[trigger] nodes_words(ns)[5 * k + f]
            == node_word(#[trigger] ns[k], f) by {
            if k < p.len() {
                assert(p[k] == ns[k]);
                assert(nodes_words(ns)[5 * k + f] == nodes_words(p)[5 * k + f]);
            } else {
                assert(nodes_words(ns)[5 * k + f] == node_words(ns.last())[f]);
            }
        }
    }
}

proof fn lemma_ranges_words(ls: Seq<(usize, usize)>)
    ensures
        ranges_words(ls).len() == 2 * ls.len(),
        forall|k: int| 0 <= k < ls.len() ==> #[trigger] ranges_words(ls)[2 * k] == ls[k].0 as u32
            && ranges_words(ls)[2 * k + 1] == ls[k].1 as u32,
    decreases ls.len(),
{
    if ls.len() > 0 {
        let p = ls.drop_last();
        lemma_ranges_words(p);
        assert forall|k: int| 0 <= k < ls.len() implies #[trigger] ranges_words(ls)[2 * k] == ls[k].0 as u32
            && ranges_words(ls)[2 * k + 1] == ls[k].1 as u32 by {
            let tail = seq![ls.last().0 as u32, ls.last().1 as u32];
            assert(ranges_words(ls) == ranges_words(p) + tail);
            if k < p.len() {
                assert(p[k] == ls[k]);
                assert(ranges_words(ls)[2 * k] == ranges_words(p)[2 * k]);
                assert(ranges_words(ls)[2 * k + 1] == ranges_words(p)[2 * k + 1]);
            } else {
                assert(ranges_words(ls)[2 * k] == tail[0]);
                assert(ranges_words(ls)[2 * k + 1] == tail[1]);
            }
        }
    }
}

proof fn lemma_i32_word(x: i32)
    ensures
        (x as u32) as i32 == x,
{
    assert((x as u32) as i32 == x) by (bit_vector);
}

/// Reading back the bytes of a tree whose values fit their words gives the
/// same tree and consumes exactly those bytes, whatever follows them.
pub proof fn lemma_tree_save_load(t: TreeImage, rest: Seq<u8>)
    requires
        tree_fits(t),
    ensures
        tree_loadable(tree_bytes(t) + rest),
        stored_tree_len(tree_bytes(t) + rest) == tree_bytes(t).len(),
        tree_from_bytes(tree_bytes(t) + rest) == t,
{
    let w = tree_words(t);
    let s = tree_bytes(t) + rest;
    lemma_words_read_back(w, rest);
    lemma_nodes_words(t.nodes);
    lemma_ranges_words(t.leaves);
    crate::codec::lemma_u32s_le(w);
    let nn = t.nodes.len() as int;
    let ni = t.indices.len() as int;
    let nl = t.leaves.len() as int;
    let a = seq![nn as u32] + nodes_words(t.nodes);
    let b = a + seq![ni as u32] + ids_words(t.indices);
    let c = b + seq![nl as u32] + ranges_words(t.leaves);
    assert(w == c + seq![t.k as u32, t.leaf_size as u32, t.samples as u32, t.lambda_bits]);
    assert(w.len() == 7 + 5 * nn + ni + 2 * nl);
    assert(word_at(s, 0) == nn) by { assert(w[0] == nn as u32); }
    assert(ids_pos(s) == 1 + 5 * nn);
    assert(word_at(s, 1 + 5 * nn) == ni) by { assert(w[1 + 5 * nn] == ni as u32); }
    assert(leaves_pos(s) == 2 + 5 * nn + ni);
    assert(word_at(s, 2 + 5 * nn + ni) == nl) by { assert(w[2 + 5 * nn + ni] == nl as u32); }
    assert(params_pos(s) == 3 + 5 * nn + ni + 2 * nl);
    let pp = params_pos(s);
    assert(w[pp] == t.k as u32 && w[pp + 1] == t.leaf_size as u32 && w[pp + 2] == t.samples as u32
        && w[pp + 3] == t.lambda_bits);
    let r = tree_from_bytes(s);
    assert forall|k: int| 0 <= k < nn implies #[trigger] r.nodes[k] == t.nodes[k] by {
        let n = t.nodes[k];
        assert(w[1 + 5 * k] == nodes_words(t.nodes)[5 * k + 0]);
        assert(w[1 + 5 * k + 1] == nodes_words(t.nodes)[5 * k + 1]);
        assert(w[1 + 5 * k + 2] == nodes_words(t.nodes)[5 * k + 2]);
        assert(w[1 + 5 * k + 3] == nodes_words(t.nodes)[5 * k + 3]);
        assert(w[1 + 5 * k + 4] == nodes_words(t.nodes)[5 * k + 4]);
        assert(node_word(n, 0) == n.center_id as u32);
        lemma_i32_word(n.center_id);
        lemma_i32_word(n.child_start);
        lemma_i32_word(n.child_end);
    }
    assert forall|k: int| 0 <= k < ni implies #[trigger] r.indices[k] == t.indices[k] by {
        assert(w[2 + 5 * nn + k] == ids_words(t.indices)[k]);
    }
    assert forall|k: int| 0 <= k < nl implies #[trigger] r.leaves[k] == t.leaves[k] by {
        assert(w[3 + 5 * nn + ni + 2 * k] == ranges_words(t.leaves)[2 * k]);
        assert(w[3 + 5 * nn + ni + 2 * k + 1] == ranges_words(t.leaves)[2 * k + 1]);
    }
    assert(r.nodes =~= t.nodes);
    assert(r.indices =~= t.indices);
    assert(r.leaves =~= t.leaves);
}

impl BKTreeBuilder {
    /// A tree whose values all fit their words.
    pub open spec fn fits(&self) -> bool {
        tree_fits(self@)
    }
}

impl BKTreeBuilder {
    /// A tree with no nodes whose nodes get up to `k` children, whose leaves
    /// hold up to `leaf_size` ids, and whose clustering trains on `samples`
    /// vectors; its balance factor is not chosen yet.
    pub fn new(k: usize, leaf_size: usize, samples: usize) -> (t: Self)
        ensures
            t@.nodes == Seq::<BKTNode>::empty(),
            t@.indices == Seq::<usize>::empty(),
            t@.leaves == Seq::<(usize, usize)>::empty(),
            t@.k == k,
            t@.leaf_size == leaf_size,
            t@.samples == samples,
            t@.lambda_bits == UNSET_LAMBDA_BITS,
    {
        BKTreeBuilder {
            nodes: Vec::new(),
            indices: Vec::new(),
            leaves: Vec::new(),
            k,
            leaf_size,
            samples,
            lambda_bits: UNSET_LAMBDA_BITS,
        }
    }

    pub fn k(&self) -> (r: usize)
        ensures
            r == self@.k,
    {
        self.k
    }

    pub fn leaf_size(&self) -> (r: usize)
        ensures
            r == self@.leaf_size,
    {
        self.leaf_size
    }

    pub fn samples(&self) -> (r: usize)
        ensures
            r == self@.samples,
    {
        self.samples
    }

    /// Bits of the balance factor.
    pub fn lambda_bits(&self) -> (r: u32)
        ensures
            r == self@.lambda_bits,
    {
        self.lambda_bits
    }

    /// Sets the bits of the balance factor.
    pub fn set_lambda_bits(&mut self, bits: u32)
        ensures
            final(self)@ == (TreeImage { lambda_bits: bits, ..old(self)@ }),
    {
        self.lambda_bits = bits;
    }

    /// The reordered vector ids.
    pub fn get_indices(&self) -> (r: &[usize])
        ensures
            r@ == self@.indices,
    {
        self.indices.as_slice()
    }

    /// The nodes.
    pub fn nodes(&self) -> (r: &[BKTNode])
        ensures
            r@ == self@.nodes,
    {
        self.nodes.as_slice()
    }

    /// The leaf ranges.
    pub fn leaves(&self) -> (r: &[(usize, usize)])
        ensures
            r@ == self@.leaves,
    {
        self.leaves.as_slice()
    }

    /// The bytes of the tree (see `tree_bytes`). Counts, ids and ranges are
    /// stored as `u32`, node slots as `i32`.
    pub fn save(&self) -> (out: Vec<u8>)
        ensures
            out@ == tree_bytes(self@),
    {
        let mut out: Vec<u8> = Vec::new();
        let ghost mut ws: Seq<u32> = Seq::empty();
        let nn = self.nodes.len();
        proof { lemma_u32s_le_push(ws, nn as u32); ws = ws.push(nn as u32); }
        push_u32_le(&mut out, nn as u32);
        let mut i: usize = 0;
        while i < nn
            invariant
                nn == self.nodes@.len(),
                i <= nn,
                ws == seq![nn as u32] + nodes_words(self.nodes@.take(i as int)),
                out@ == u32s_le(ws),
            decreases nn - i,
        {
            let n = self.nodes[i];
            let ghost w0 = ws;
            let vals: [u32; 5] = [
                n.center_id as u32,
                n.child_start as u32,
                n.child_end as u32,
                n.data_start as u32,
                n.data_end as u32,
            ];
            let mut f: usize = 0;
            while f < 5
                invariant
                    f <= 5,
                    vals@ == node_words(n),
                    ws == w0 + node_words(n).take(f as int),
                    out@ == u32s_le(ws),
                decreases 5 - f,
            {
                proof {
                    lemma_u32s_le_push(ws, vals@[f as int]);
                    assert(w0 + node_words(n).take(f + 1) =~= (w0 + node_words(n).take(f as int)).push(vals@[f as int]));
                    ws = ws.push(vals@[f as int]);
                }
                push_u32_le(&mut out, vals[f]);
                f = f + 1;
            }
            proof {
                assert(self.nodes@.take(i + 1).drop_last() =~= self.nodes@.take(i as int));
                assert(node_words(n).take(5) =~= node_words(n));
                assert(ws =~= seq![nn as u32] + nodes_words(self.nodes@.take(i + 1)));
            }
            i = i + 1;
        }
        proof { assert(self.nodes@.take(nn as int) =~= self.nodes@); }
        let ni = self.indices.len();
        proof { lemma_u32s_le_push(ws, ni as u32); ws = ws.push(ni as u32); }
        push_u32_le(&mut out, ni as u32);
        let ghost w1 = ws;
        let mut j: usize = 0;
        while j < ni
            invariant
                ni == self.indices@.len(),
                j <= ni,
                ws == w1 + ids_words(self.indices@.take(j as int)),
                out@ == u32s_le(ws),
            decreases ni - j,
        {
            let x = self.indices[j] as u32;
            proof {
                lemma_u32s_le_push(ws, x);
                assert(w1 + ids_words(self.indices@.take(j + 1)) =~= ws.push(x));
                ws = ws.push(x);
            }
            push_u32_le(&mut out, x);
            j = j + 1;
        }
        proof { assert(self.indices@.take(ni as int) =~= self.indices@); }
        let nl = self.leaves.len();
        proof { lemma_u32s_le_push(ws, nl as u32); ws = ws.push(nl as u32); }
        push_u32_le(&mut out, nl as u32);
        let ghost w2 = ws;
        let mut l: usize = 0;
        while l < nl
            invariant
                nl == self.leaves@.len(),
                l <= nl,
                ws == w2 + ranges_words(self.leaves@.take(l as int)),
                out@ == u32s_le(ws),
            decreases nl - l,
        {
            let (a, b) = self.leaves[l];
            proof {
                lemma_u32s_le_push(ws, a as u32);
                lemma_u32s_le_push(ws.push(a as u32), b as u32);
                assert(self.leaves@.take(l + 1).drop_last() =~= self.leaves@.take(l as int));
                assert(w2 + ranges_words(self.leaves@.take(l + 1)) =~= ws.push(a as u32).push(b as u32));
                ws = ws.push(a as u32).push(b as u32);
            }
            push_u32_le(&mut out, a as u32);
            push_u32_le(&mut out, b as u32);
            l = l + 1;
        }
        proof { assert(self.leaves@.take(nl as int) =~= self.leaves@); }
        let params: [u32; 4] = [self.k as u32, self.leaf_size as u32, self.samples as u32, self.lambda_bits];
        let ghost w3 = ws;
        let mut q: usize = 0;
        while q < 4
            invariant
                q <= 4,
                params@ == seq![self.k as u32, self.leaf_size as u32, self.samples as u32, self.lambda_bits],
                ws == w3 + params@.take(q as int),
                out@ == u32s_le(ws),
            decreases 4 - q,
        {
            proof {
                lemma_u32s_le_push(ws, params@[q as int]);
                assert(w3 + params@.take(q + 1) =~= ws.push(params@[q as int]));
                ws = ws.push(params@[q as int]);
            }
            push_u32_le(&mut out, params[q]);
            q = q + 1;
        }
        proof {
            assert(params@.take(4) =~= params@);
            assert(ws =~= tree_words(self@));
        }
        out
    }

    /// Reads the tree stored at the start of `data` (see `tree_from_bytes`)
    /// and the number of bytes it takes; `Truncated` when `data` ends first.
    pub fn load(data: &[u8]) -> (r: Result<(BKTreeBuilder, usize), TreeLoadError>)
        ensures
            r is Ok <==> tree_loadable(data@),
            r matches Ok((t, used)) ==> t@ == tree_from_bytes(data@) && used == stored_tree_len(data@),
            r matches Err(e) ==> e == TreeLoadError::Truncated,
    {
        let total = data.len() / 4;
        if total < 1 {
            return Err(TreeLoadError::Truncated);
        }
        let ghost s = data@;
        let nn = read_word(data, 0) as usize;
        // word 0 is the node count; the nodes take the next 5 * nn words
        if nn > (total - 1) / 5 {
            proof { assert(stored_tree_len(s) > s.len()) by (nonlinear_arith)
                requires nn > (total - 1) / 5, total == s.len() / 4, stored_tree_len(s) >= 4 * (1 + 5 * nn + 5),
                    stored_tree_len(s) == 4 * (params_pos(s) + 4); }
            return Err(TreeLoadError::Truncated);
        }
        let mut nodes: Vec<BKTNode> = Vec::new();
        let mut i: usize = 0;
        while i < nn
            invariant
                s == data@,
                total == s.len() / 4,
                nn == word_at(s, 0),
                1 + 5 * nn <= total,
                i <= nn,
                nodes@ == Seq::new(i as nat, |k: int| node_at(s, 1 + 5 * k)),
            decreases nn - i,
        {
            let b = 1 + 5 * i;
            let n = BKTNode {
                center_id: read_word(data, b) as i32,
                child_start: read_word(data, b + 1) as i32,
                child_end: read_word(data, b + 2) as i32,
                data_start: read_word(data, b + 3) as usize,
                data_end: read_word(data, b + 4) as usize,
            };
            nodes.push(n);
            proof { assert(nodes@ =~= Seq::new((i + 1) as nat, |k: int| node_at(s, 1 + 5 * k))); }
            i = i + 1;
        }
        let ip = 1 + 5 * nn;
        if ip >= total {
            return Err(TreeLoadError::Truncated);
        }
        let ni = read_word(data, ip) as usize;
        if ni > total - ip - 1 {
            return Err(TreeLoadError::Truncated);
        }
        let mut indices: Vec<usize> = Vec::new();
        let mut j: usize = 0;
        while j < ni
            invariant
                s == data@,
                total == s.len() / 4,
                ip == ids_pos(s),
                ni == word_at(s, ip as int),
                ip + 1 + ni <= total,
                j <= ni,
                indices@ == Seq::new(j as nat, |k: int| word_at(s, ip + 1 + k) as usize),
            decreases ni - j,
        {
            indices.push(read_word(data, ip + 1 + j) as usize);
            proof { assert(indices@ =~= Seq::new((j + 1) as nat, |k: int| word_at(s, ip + 1 + k) as usize)); }
            j = j + 1;
        }
        let lp = ip + 1 + ni;
        if lp >= total {
            return Err(TreeLoadError::Truncated);
        }
        let nl = read_word(data, lp) as usize;
        if nl > (total - lp - 1) / 2 {
            return Err(TreeLoadError::Truncated);
        }
        let mut leaves: Vec<(usize, usize)> = Vec::new();
        let mut l: usize = 0;
        while l < nl
            invariant
                s == data@,
                total == s.len() / 4,
                lp == leaves_pos(s),
                nl == word_at(s, lp as int),
                lp + 1 + 2 * nl <= total,
                l <= nl,
                leaves@ == Seq::new(
                    l as nat,
                    |k: int| (word_at(s, lp + 1 + 2 * k) as usize, word_at(s, lp + 2 + 2 * k) as usize),
                ),
            decreases nl - l,
        {
            let a = read_word(data, lp + 1 + 2 * l) as usize;
            let b = read_word(data, lp + 2 + 2 * l) as usize;
            leaves.push((a, b));
            proof {
                assert(leaves@ =~= Seq::new(
                    (l + 1) as nat,
                    |k: int| (word_at(s, lp + 1 + 2 * k) as usize, word_at(s, lp + 2 + 2 * k) as usize),
                ));
            }
            l = l + 1;
        }
        let pp = lp + 1 + 2 * nl;
        if 4 > total - pp {
            return Err(TreeLoadError::Truncated);
        }
        let t = BKTreeBuilder {
            nodes,
            indices,
            leaves,
            k: read_word(data, pp) as usize,
            leaf_size: read_word(data, pp + 1) as usize,
            samples: read_word(data, pp + 2) as usize,
            lambda_bits: read_word(data, pp + 3),
        };
        Ok((t, 4 * (pp + 4)))
    }
}

/// Ids of `seg` (first `m` positions) whose cluster `a[i]` is `c`, in order.
pub open spec fn members(seg: Seq<usize>, a: Seq<usize>, c: usize, m: nat) -> Seq<usize>
    decreases m,
{
    if m == 0 {
        Seq::empty()
    } else {
        members(seg, a, c, (m - 1) as nat) + if a[m - 1] == c {
            seq![seg[m - 1]]
        } else {
            Seq::empty()
        }
    }
}

/// The ids of `seg` grouped by cluster: those of cluster 0, then cluster 1, and
/// so on up to cluster `upto - 1`, each group in the order of the range.
pub open spec fn grouped(seg: Seq<usize>, a: Seq<usize>, upto: nat) -> Seq<usize>
    decreases upto,
{
    if upto == 0 {
        Seq::empty()
    } else {
        grouped(seg, a, (upto - 1) as nat) + members(seg, a, (upto - 1) as usize, seg.len())
    }
}

/// Ids of `seg` (first `m` positions) whose cluster is below `c`, in order.
pub open spec fn below(seg: Seq<usize>, a: Seq<usize>, c: nat, m: nat) -> Seq<usize>
    decreases m,
{
    if m == 0 {
        Seq::empty()
    } else {
        below(seg, a, c, (m - 1) as nat) + if a[m - 1] < c {
            seq![seg[m - 1]]
        } else {
            Seq::empty()
        }
    }
}

proof fn lemma_below_step(seg: Seq<usize>, a: Seq<usize>, c: nat, m: nat)
    requires
        c < usize::MAX,
    ensures
        below(seg, a, c + 1, m).to_multiset() == below(seg, a, c, m).to_multiset().add(
            members(seg, a, c as usize, m).to_multiset(),
        ),
    decreases m,
{
    broadcast use vstd::multiset::group_multiset_axioms, vstd::seq_lib::lemma_multiset_commutative;
    if m > 0 {
        lemma_below_step(seg, a, c, (m - 1) as nat);
        let x = seg[m - 1];
        let e = Seq::<usize>::empty();
        let one = seq![x];
        let bp = below(seg, a, c, (m - 1) as nat);
        let bq = below(seg, a, c + 1, (m - 1) as nat);
        let mp = members(seg, a, c as usize, (m - 1) as nat);
        if a[m - 1] < c {
            assert(below(seg, a, c + 1, m) == bq + one);
            assert(below(seg, a, c, m) == bp + one);
            assert(members(seg, a, c as usize, m) == mp + e);
        } else if a[m - 1] == c {
            assert(below(seg, a, c + 1, m) == bq + one);
            assert(below(seg, a, c, m) == bp + e);
            assert(members(seg, a, c as usize, m) == mp + one);
        } else {
            assert(below(seg, a, c + 1, m) == bq + e);
            assert(below(seg, a, c, m) == bp + e);
            assert(members(seg, a, c as usize, m) == mp + e);
        }
        assert(below(seg, a, c + 1, m).to_multiset() =~= below(seg, a, c, m).to_multiset().add(
            members(seg, a, c as usize, m).to_multiset(),
        ));
    } else {
        assert(below(seg, a, c + 1, m).to_multiset() =~= below(seg, a, c, m).to_multiset().add(
            members(seg, a, c as usize, m).to_multiset(),
        ));
    }
}

proof fn lemma_grouped_below(seg: Seq<usize>, a: Seq<usize>, c: nat)
    requires
        c <= usize::MAX,
    ensures
        grouped(seg, a, c).to_multiset() == below(seg, a, c, seg.len()).to_multiset(),
    decreases c,
{
    broadcast use vstd::multiset::group_multiset_axioms, vstd::seq_lib::lemma_multiset_commutative;
    if c == 0 {
        assert forall|m: nat| below(seg, a, 0, m) == Seq::<usize>::empty() by {
            lemma_below_none(seg, a, m);
        }
        assert(grouped(seg, a, c).to_multiset() =~= below(seg, a, c, seg.len()).to_multiset());
    } else {
        lemma_grouped_below(seg, a, (c - 1) as nat);
        lemma_below_step(seg, a, (c - 1) as nat, seg.len());
    }
}

proof fn lemma_below_none(seg: Seq<usize>, a: Seq<usize>, m: nat)
    ensures
        below(seg, a, 0, m) == Seq::<usize>::empty(),
    decreases m,
{
    if m > 0 {
        lemma_below_none(seg, a, (m - 1) as nat);
        assert(below(seg, a, 0, m) =~= Seq::<usize>::empty());
    }
}

proof fn lemma_below_all(seg: Seq<usize>, a: Seq<usize>, k: nat, m: nat)
    requires
        m <= seg.len(),
        m <= a.len(),
        forall|i: int| 0 <= i < m ==> a[i] < k,
    ensures
        below(seg, a, k, m) == seg.take(m as int),
    decreases m,
{
    if m > 0 {
        lemma_below_all(seg, a, k, (m - 1) as nat);
        assert(seg.take(m as int) =~= seg.take(m - 1) + seq![seg[m - 1]]);
    } else {
        assert(seg.take(0) =~= Seq::<usize>::empty());
    }
}

/// Grouping a range of ids by cluster only reorders it, when every cluster is
/// below `k`.
pub proof fn lemma_grouping_permutes(seg: Seq<usize>, a: Seq<usize>, k: usize)
    requires
        a.len() == seg.len(),
        forall|i: int| 0 <= i < a.len() ==> a[i] < k,
    ensures
        grouped(seg, a, k as nat).to_multiset() == seg.to_multiset(),
        grouped(seg, a, k as nat).len() == seg.len(),
{
    broadcast use vstd::seq_lib::group_to_multiset_ensures;
    lemma_grouped_below(seg, a, k as nat);
    lemma_below_all(seg, a, k as nat, seg.len());
    assert(seg.take(seg.len() as int) =~= seg);
    vstd::seq_lib::to_multiset_len(grouped(seg, a, k as nat));
    vstd::seq_lib::to_multiset_len(seg);
}

/// Sum of the first `m` counts.
pub open spec fn count_sum(counts: Seq<usize>, m: int) -> int
    decreases m,
{
    if m <= 0 {
        0
    } else {
        count_sum(counts, m - 1) + counts[m - 1]
    }
}

/// Ranges of the child clusters that get a subtree: for each cluster, in order,
/// that holds more than one id, its range of the grouped ids starting at
/// `first`. A cluster of one id is covered by its parent alone.
pub open spec fn subtree_ranges(counts: Seq<usize>, first: int, m: int) -> Seq<(usize, usize)>
    decreases m,
{
    if m <= 0 {
        Seq::empty()
    } else {
        subtree_ranges(counts, first, m - 1) + if counts[m - 1] > 1 {
            seq![((first + count_sum(counts, m - 1)) as usize, (first + count_sum(counts, m)) as usize)]
        } else {
            Seq::empty()
        }
    }
}

/// Children sit in later slots than their parent, so every walk down the tree
/// ends, and no child range reaches past the last node.
pub open spec fn tree_ordered(nodes: Seq<BKTNode>) -> bool {
    forall|i: int| 0 <= i < nodes.len() ==> (#[trigger] nodes[i]).child_end <= nodes.len()
        && (nodes[i].child_start >= 0 ==> nodes[i].child_start > i)
}

/// Slots of the children of `n`: empty for a leaf and for an empty range.
pub open spec fn child_slots(n: BKTNode) -> Seq<usize> {
    if n.child_start >= 0 && n.child_end > n.child_start {
        Seq::new((n.child_end - n.child_start) as nat, |j: int| (n.child_start + j) as usize)
    } else {
        Seq::empty()
    }
}

/// What a reader learns of slot `i`: the node's centre and its child slots;
/// `(0, [])` for a slot past the end.
pub open spec fn node_info(nodes: Seq<BKTNode>, i: int) -> (usize, Seq<usize>) {
    if 0 <= i < nodes.len() {
        (nodes[i].center_id as usize, child_slots(nodes[i]))
    } else {
        (0, Seq::empty())
    }
}

/// Ranges of the children whose subtrees the build opens after grouping a
/// range that starts at `first` into clusters of sizes `counts`.
pub fn subtree_ranges_of(counts: &[usize], first: usize) -> (r: Vec<(usize, usize)>)
    requires
        forall|m: int| 0 <= m <= counts@.len() ==> first + #[trigger] count_sum(counts@, m) <= usize::MAX,
    ensures
        r@ == subtree_ranges(counts@, first as int, counts@.len() as int),
{
    let mut out: Vec<(usize, usize)> = Vec::new();
    let mut offset = first;
    let mut c: usize = 0;
    while c < counts.len()
        invariant
            c <= counts@.len(),
            forall|m: int| 0 <= m <= counts@.len() ==> first + #[trigger] count_sum(counts@, m) <= usize::MAX,
            offset == first + count_sum(counts@, c as int),
            out@ == subtree_ranges(counts@, first as int, c as int),
        decreases counts@.len() - c,
    {
        assert(first + count_sum(counts@, c + 1) <= usize::MAX);
        if counts[c] > 1 {
            out.push((offset, offset + counts[c]));
        }
        assert(out@ =~= subtree_ranges(counts@, first as int, c + 1));
        offset = offset + counts[c];
        c = c + 1;
    }
    out
}

impl BKTreeBuilder {
    /// Starts a build over the ids `0..n`: no nodes, no leaves.
    pub fn reset(&mut self, n: usize)
        ensures
            final(self)@ == (TreeImage {
                nodes: Seq::empty(),
                indices: Seq::new(n as nat, |i: int| i as usize),
                leaves: Seq::empty(),
                ..old(self)@
            }),
    {
        self.nodes.clear();
        self.leaves.clear();
        let mut ids: Vec<usize> = Vec::new();
        let mut i: usize = 0;
        while i < n
            invariant
                i <= n,
                ids@ == Seq::new(i as nat, |j: int| j as usize),
            decreases n - i,
        {
            ids.push(i);
            assert(ids@ =~= Seq::new((i + 1) as nat, |j: int| j as usize));
            i = i + 1;
        }
        self.indices = ids;
        assert(self@.nodes =~= Seq::<BKTNode>::empty());
        assert(self@.leaves =~= Seq::<(usize, usize)>::empty());
    }

    /// Appends a node for the ids in `first..last`, with no centre and no
    /// children yet, and returns its slot.
    pub fn open_node(&mut self, first: usize, last: usize) -> (slot: usize)
        ensures
            slot == old(self)@.nodes.len(),
            final(self)@ == (TreeImage {
                nodes: old(self)@.nodes.push(
                    BKTNode { center_id: -1i32, child_start: -1i32, child_end: -1i32, data_start: first, data_end: last },
                ),
                ..old(self)@
            }),
            tree_ordered(old(self)@.nodes) ==> tree_ordered(final(self)@.nodes),
    {
        let slot = self.nodes.len();
        self.nodes.push(BKTNode { center_id: -1, child_start: -1, child_end: -1, data_start: first, data_end: last });
        slot
    }

    /// Makes the node in `slot` a leaf over `first..last`: its centre is the
    /// first id of the range and the range joins the leaves.
    pub fn close_leaf(&mut self, slot: usize, first: usize, last: usize)
        requires
            slot < old(self)@.nodes.len(),
            first < old(self)@.indices.len(),
        ensures
            final(self)@ == (TreeImage {
                nodes: old(self)@.nodes.update(
                    slot as int,
                    BKTNode { center_id: old(self)@.indices[first as int] as i32, ..old(self)@.nodes[slot as int] },
                ),
                leaves: old(self)@.leaves.push((first, last)),
                ..old(self)@
            }),
            tree_ordered(old(self)@.nodes) ==> tree_ordered(final(self)@.nodes),
    {
        let n = self.nodes[slot];
        let center = self.indices[first] as i32;
        self.nodes.set(slot, BKTNode { center_id: center, ..n });
        self.leaves.push((first, last));
    }

    /// Groups the ids in `first..last` by their cluster `assignments[i]`
    /// (cluster 0 first, each group in the order of the range), makes the first
    /// grouped id the centre of the node in `slot`, points its children at the
    /// next free slot, and returns the size of each of the `k` clusters.
    pub fn split_node(&mut self, slot: usize, first: usize, last: usize, assignments: &[usize]) -> (counts: Vec<usize>)
        requires
            slot < old(self)@.nodes.len(),
            old(self)@.nodes.len() <= i32::MAX,
            first < last <= old(self)@.indices.len(),
            assignments@.len() == last - first,
            forall|i: int| 0 <= i < assignments@.len() ==> #[trigger] assignments@[i] < old(self)@.k,
        ensures
            ({
                let seg = old(self)@.indices.subrange(first as int, last as int);
                let g = grouped(seg, assignments@, old(self)@.k as nat);
                &&& g.len() == seg.len()
                &&& final(self)@ == (TreeImage {
                    indices: old(self)@.indices.take(first as int) + g + old(self)@.indices.skip(last as int),
                    nodes: old(self)@.nodes.update(
                        slot as int,
                        BKTNode {
                            center_id: g[0] as i32,
                            child_start: old(self)@.nodes.len() as i32,
                            ..old(self)@.nodes[slot as int]
                        },
                    ),
                    ..old(self)@
                })
                &&& counts@.len() == old(self)@.k
                &&& forall|c: int| 0 <= c < counts@.len()
                    ==> #[trigger] counts@[c] == members(seg, assignments@, c as usize, seg.len()).len()
            }),
            final(self)@.indices.to_multiset() == old(self)@.indices.to_multiset(),
            tree_ordered(old(self)@.nodes) ==> tree_ordered(final(self)@.nodes),
    {
        let ghost seg = self.indices@.subrange(first as int, last as int);
        let ghost a = assignments@;
        let n = last - first;
        let k = self.k;
        let mut reordered: Vec<usize> = Vec::new();
        let mut counts: Vec<usize> = Vec::new();
        let mut c: usize = 0;
        while c < k
            invariant
                c <= k,
                k == self.k,
                n == last - first,
                first < last <= self.indices@.len(),
                seg == self.indices@.subrange(first as int, last as int),
                a == assignments@,
                a.len() == n,
                forall|i: int| 0 <= i < a.len() ==> #[trigger] a[i] < k,
                reordered@ == grouped(seg, a, c as nat),
                reordered@.len() <= n,
                counts@.len() == c,
                forall|d: int| 0 <= d < c ==> #[trigger] counts@[d] == members(seg, a, d as usize, seg.len()).len(),
            decreases k - c,
        {
            let ghost base = reordered@;
            let mut cnt: usize = 0;
            let mut i: usize = 0;
            while i < n
                invariant
                    c < k,
                    i <= n,
                    n == last - first,
                    first < last <= self.indices@.len(),
                    seg == self.indices@.subrange(first as int, last as int),
                    a == assignments@,
                    a.len() == n,
                    base == grouped(seg, a, c as nat),
                    reordered@ == base + members(seg, a, c, i as nat),
                    cnt == members(seg, a, c, i as nat).len(),
                    cnt <= i,
                decreases n - i,
            {
                if assignments[i] == c {
                    reordered.push(self.indices[first + i]);
                    cnt = cnt + 1;
                }
                assert(reordered@ =~= base + members(seg, a, c, (i + 1) as nat));
                i = i + 1;
            }
            proof {
                lemma_grouping_permutes(seg, a, k);
                lemma_grouped_prefix_len(seg, a, (c + 1) as nat, k as nat);
            }
            counts.push(cnt);
            c = c + 1;
        }
        proof { lemma_grouping_permutes(seg, a, k); }
        let ghost old_indices = self.indices@;
        let mut j: usize = 0;
        while j < n
            invariant
                j <= n,
                n == last - first,
                first < last <= old_indices.len(),
                self.indices@.len() == old_indices.len(),
                reordered@.len() == n,
                self.indices@ == old_indices.take(first as int) + reordered@.take(j as int) + old_indices.skip(first + j),
                self.nodes@ == old(self)@.nodes,
                self.leaves@ == old(self)@.leaves,
                self.k == old(self)@.k,
                self.leaf_size == old(self)@.leaf_size,
                self.samples == old(self)@.samples,
                self.lambda_bits == old(self)@.lambda_bits,
            decreases n - j,
        {
            self.indices.set(first + j, reordered[j]);
            assert(self.indices@ =~= old_indices.take(first as int) + reordered@.take(j + 1) + old_indices.skip(first + j + 1));
            j = j + 1;
        }
        assert(reordered@.take(n as int) =~= reordered@);
        assert(old_indices.skip(first + n) =~= old_indices.skip(last as int));
        proof {
            let pre = old_indices.take(first as int);
            let post = old_indices.skip(last as int);
            assert(old_indices =~= pre + seg + post);
            vstd::seq_lib::lemma_multiset_commutative(pre + seg, post);
            vstd::seq_lib::lemma_multiset_commutative(pre, seg);
            vstd::seq_lib::lemma_multiset_commutative(pre + reordered@, post);
            vstd::seq_lib::lemma_multiset_commutative(pre, reordered@);
        }
        let center = reordered[0] as i32;
        let child_start = self.nodes.len() as i32;
        let node = self.nodes[slot];
        self.nodes.set(slot, BKTNode { center_id: center, child_start, ..node });
        counts
    }

    /// Closes the child range of the node in `slot` at the next free slot.
    pub fn finish_node(&mut self, slot: usize)
        requires
            slot < old(self)@.nodes.len(),
        ensures
            final(self)@ == (TreeImage {
                nodes: old(self)@.nodes.update(
                    slot as int,
                    BKTNode { child_end: old(self)@.nodes.len() as i32, ..old(self)@.nodes[slot as int] },
                ),
                ..old(self)@
            }),
            tree_ordered(old(self)@.nodes) ==> tree_ordered(final(self)@.nodes),
    {
        let node = self.nodes[slot];
        let end = self.nodes.len() as i32;
        self.nodes.set(slot, BKTNode { child_end: end, ..node });
    }

    /// Whether the children of every node sit after it and end within the
    /// node array (see `tree_ordered`); true of every tree built by the steps
    /// above, to be checked on a tree read from bytes.
    pub fn is_ordered(&self) -> (r: bool)
        ensures
            r == tree_ordered(self@.nodes),
    {
        let n = self.nodes.len();
        let mut i: usize = 0;
        while i < n
            invariant
                n == self.nodes@.len(),
                i <= n,
                forall|j: int| 0 <= j < i ==> (#[trigger] self.nodes@[j]).child_end <= n
                    && (self.nodes@[j].child_start >= 0 ==> self.nodes@[j].child_start > j),
            decreases n - i,
        {
            let node = self.nodes[i];
            if node.child_end >= 0 && node.child_end as usize > n {
                return false;
            }
            if node.child_start >= 0 && node.child_start as usize <= i {
                return false;
            }
            i = i + 1;
        }
        true
    }

    /// The centre of the node in `node_idx` and the slots of its children;
    /// `(0, [])` past the last node.
    pub fn get_node_info(&self, node_idx: usize) -> (r: (usize, Vec<usize>))
        ensures
            r.0 == node_info(self@.nodes, node_idx as int).0,
            r.1@ == node_info(self@.nodes, node_idx as int).1,
    {
        if node_idx >= self.nodes.len() {
            return (0, Vec::new());
        }
        let node = self.nodes[node_idx];
        let center_id = node.center_id as usize;
        let mut children: Vec<usize> = Vec::new();
        if node.child_start >= 0 && node.child_end > node.child_start {
            let mut i = node.child_start;
            while i < node.child_end
                invariant
                    node.child_start >= 0,
                    node.child_start <= i <= node.child_end,
                    children@ == Seq::new((i - node.child_start) as nat, |j: int| (node.child_start + j) as usize),
                decreases node.child_end - i,
            {
                children.push(i as usize);
                assert(children@ =~= Seq::new((i + 1 - node.child_start) as nat, |j: int| (node.child_start + j) as usize));
                i = i + 1;
            }
        }
        proof {
            assert(children@ =~= child_slots(node));
        }
        (center_id, children)
    }
}

pub(crate) proof fn lemma_grouped_prefix_len(seg: Seq<usize>, a: Seq<usize>, c: nat, k: nat)
    requires
        c <= k,
    ensures
        grouped(seg, a, c).len() <= grouped(seg, a, k).len(),
    decreases k - c,
{
    if c < k {
        lemma_grouped_prefix_len(seg, a, c, (k - 1) as nat);
    }
}

} // verus!
