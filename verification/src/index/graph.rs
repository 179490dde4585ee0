//! K-nearest-neighbour graph: adjacency lists and the candidate sets that a
//! refinement pass draws from them.
use vstd::prelude::*;

verus! {

broadcast use vstd::seq_lib::group_seq_properties;

/// Adjacency lists of a k-nearest-neighbour graph over vectors `0..n`.
pub struct NeighborhoodGraph {
    graph: Vec<Vec<usize>>,
    k: usize,
}

/// Whether `x` is a refinement candidate of node `i`: a neighbour of `i`, or a
/// neighbour of a neighbour of `i` other than `i` itself.
pub open spec fn is_candidate(g: Seq<Seq<usize>>, i: int, x: usize) -> bool {
    g[i].contains(x) || (x != i && exists|j: int|
        0 <= j < g[i].len() && #[trigger] g[g[i][j] as int].contains(x))
}

/// Every neighbour of `i` names a node of the graph.
pub open spec fn neighbors_in_range(g: Seq<Seq<usize>>, i: int) -> bool {
    forall|j: int| 0 <= j < g[i].len() ==> #[trigger] g[i][j] < g.len()
}

impl NeighborhoodGraph {
    /// The adjacency lists.
    pub closed spec fn lists(&self) -> Seq<Seq<usize>> {
        Seq::new(self.graph@.len(), |i: int| self.graph@[i]@)
    }

    /// Number of neighbours each node keeps.
    pub closed spec fn spec_k(&self) -> usize {
        self.k
    }

    /// An empty graph that keeps `k` neighbours per node.
    pub fn new(k: usize) -> (g: Self)
        ensures
            g.lists() == Seq::<Seq<usize>>::empty(),
            g.spec_k() == k,
    {
        let g = NeighborhoodGraph { graph: Vec::new(), k };
        assert(g.lists() =~= Seq::<Seq<usize>>::empty());
        g
    }

    /// Number of neighbours each node keeps.
    pub fn k(&self) -> (r: usize)
        ensures
            r == self.spec_k(),
    {
        self.k
    }

    /// Number of nodes.
    pub fn len(&self) -> (r: usize)
        ensures
            r == self.lists().len(),
    {
        self.graph.len()
    }

    /// Replaces the graph by `n` nodes without neighbours.
    pub fn reset(&mut self, n: usize)
        ensures
            final(self).lists() == Seq::new(n as nat, |i: int| Seq::<usize>::empty()),
            final(self).spec_k() == old(self).spec_k(),
    {
        let mut graph: Vec<Vec<usize>> = Vec::new();
        let mut i: usize = 0;
        while i < n
            invariant
                i <= n,
                graph@.len() == i,
                forall|j: int| 0 <= j < i ==> (#[trigger] graph@[j])@ == Seq::<usize>::empty(),
            decreases n - i,
        {
            graph.push(Vec::new());
            i = i + 1;
        }
        self.graph = graph;
        assert(self.lists() =~= Seq::new(n as nat, |i: int| Seq::<usize>::empty()));
    }

    /// The neighbours of `node`.
    pub fn get_neighbors(&self, node: usize) -> (r: &[usize])
        requires
            node < self.lists().len(),
        ensures
            r@ == self.lists()[node as int],
    {
        self.graph[node].as_slice()
    }

    /// Replaces the neighbours of `node`.
    pub fn set_neighbors(&mut self, node: usize, neighbors: Vec<usize>)
        requires
            node < old(self).lists().len(),
        ensures
            final(self).lists() == old(self).lists().update(node as int, neighbors@),
            final(self).spec_k() == old(self).spec_k(),
    {
        self.graph.set(node, neighbors);
        assert(self.lists() =~= old(self).lists().update(node as int, neighbors@));
    }

    /// The candidates from which one refinement pass picks the new neighbours
    /// of node `i`: its neighbours and the neighbours of its neighbours, except
    /// `i` itself, each once, in the order in which they are first met.
    pub fn refine_candidates(&self, i: usize) -> (r: Vec<usize>)
        requires
            i < self.lists().len(),
            neighbors_in_range(self.lists(), i as int),
        ensures
            r@.no_duplicates(),
            forall|x: usize| r@.contains(x) <==> is_candidate(self.lists(), i as int, x),
            r@ == first_occurrences(met_order(self.lists(), i as int, self.lists()[i as int].len())),
    {
        let ghost g = self.lists();
        let nbs = &self.graph[i];
        let mut out: Vec<usize> = Vec::new();
        let mut j: usize = 0;
        while j < nbs.len()
            invariant
                g == self.lists(),
                i < g.len(),
                nbs@ == g[i as int],
                neighbors_in_range(g, i as int),
                j <= nbs@.len(),
                out@.no_duplicates(),
                forall|x: usize| out@.contains(x) <==> (g[i as int].take(j as int).contains(x) || (
                    x != i && exists|a: int| 0 <= a < j && #[trigger] g[g[i as int][a] as int].contains(x))),
                out@ == first_occurrences(met_order(g, i as int, j as nat)),
            decreases nbs@.len() - j,
        {
            let nb = nbs[j];
            let ghost m0 = met_order(g, i as int, j as nat);
            proof {
                lemma_first_occurrences_contains(m0);
                lemma_first_occurrences_push(m0, nb);
                assert(m0 + seq![nb] =~= m0.push(nb));
                assert(skip_node(g[nb as int].take(0), i) =~= Seq::<usize>::empty());
                assert(m0 + seq![nb] + skip_node(g[nb as int].take(0), i) =~= m0.push(nb));
            }
            push_new(&mut out, nb);
            assert(g[i as int].take(j + 1) =~= g[i as int].take(j as int).push(nb));
            let inner = &self.graph[nb];
            let mut t: usize = 0;
            while t < inner.len()
                invariant
                    g == self.lists(),
                    i < g.len(),
                    nbs@ == g[i as int],
                    j < nbs@.len(),
                    nb == g[i as int][j as int],
                    nb < g.len(),
                    inner@ == g[nb as int],
                    t <= inner@.len(),
                    out@.no_duplicates(),
                    forall|x: usize| out@.contains(x) <==> (g[i as int].take(j + 1).contains(x) || (
                        x != i && (exists|a: int| 0 <= a < j && #[trigger] g[g[i as int][a] as int].contains(x)))
                        || (x != i && inner@.take(t as int).contains(x))),
                    m0 == met_order(g, i as int, j as nat),
                    out@ == first_occurrences(m0 + seq![nb] + skip_node(inner@.take(t as int), i)),
                decreases inner@.len() - t,
            {
                let nn = inner[t];
                let ghost prev = out@;
                let ghost cur = m0 + seq![nb] + skip_node(inner@.take(t as int), i);
                proof {
                    assert(inner@.take(t + 1).drop_last() =~= inner@.take(t as int));
                    assert(inner@.take(t + 1).last() == nn);
                    lemma_first_occurrences_contains(cur);
                    lemma_first_occurrences_push(cur, nn);
                    if nn != i {
                        assert(m0 + seq![nb] + skip_node(inner@.take(t + 1), i) =~= cur.push(nn));
                    } else {
                        assert(m0 + seq![nb] + skip_node(inner@.take(t + 1), i) =~= cur);
                    }
                }
                if nn != i {
                    push_new(&mut out, nn);
                }
                proof {
                    assert(inner@.take(t + 1) =~= inner@.take(t as int).push(nn));
                    assert forall|x: usize| out@.contains(x) <==> (g[i as int].take(j + 1).contains(x) || (
                        x != i && (exists|a: int| 0 <= a < j && #[trigger] g[g[i as int][a] as int].contains(x)))
                        || (x != i && inner@.take(t + 1).contains(x))) by {
                        assert(out@.contains(x) <==> (prev.contains(x) || (nn != i && x == nn)));
                        assert(inner@.take(t + 1).contains(x) <==> (inner@.take(t as int).contains(x) || x == nn));
                    }
                }
                t = t + 1;
            }
            proof {
                assert(inner@.take(t as int) =~= inner@);
                assert(met_order(g, i as int, (j + 1) as nat) == m0 + seq![nb] + skip_node(g[nb as int], i));
                assert forall|x: usize| out@.contains(x) <==> (g[i as int].take(j + 1).contains(x) || (
                    x != i && exists|a: int| 0 <= a < j + 1 && #[trigger] g[g[i as int][a] as int].contains(x))) by {
                    if x != i && inner@.contains(x) {
                        assert(g[g[i as int][j as int] as int].contains(x));
                    }
                    if x != i && (exists|a: int| 0 <= a < j + 1 && #[trigger] g[g[i as int][a] as int].contains(x)) {
                        let a = choose|a: int| 0 <= a < j + 1 && #[trigger] g[g[i as int][a] as int].contains(x);
                        if a == j {
                            assert(inner@.contains(x));
                        }
                    }
                }
            }
            j = j + 1;
        }
        proof {
            assert(g[i as int].take(j as int) =~= g[i as int]);
        }
        out
    }
}

/// `s` without the occurrences of `i`.
pub open spec fn skip_node(s: Seq<usize>, i: usize) -> Seq<usize>
    decreases s.len(),
{
    if s.len() == 0 {
        s
    } else {
        skip_node(s.drop_last(), i) + if s.last() != i { seq![s.last()] } else { Seq::<usize>::empty() }
    }
}

/// Ids in the order a refinement of node `i` meets them through its first
/// `j` neighbours: each neighbour, then that neighbour's own neighbours other
/// than `i`.
pub open spec fn met_order(g: Seq<Seq<usize>>, i: int, j: nat) -> Seq<usize>
    decreases j,
{
    if j == 0 {
        Seq::empty()
    } else {
        let nb = g[i][j - 1];
        met_order(g, i, (j - 1) as nat) + seq![nb] + skip_node(g[nb as int], i as usize)
    }
}

/// The first occurrence of each value of `s`, in order.
pub open spec fn first_occurrences(s: Seq<usize>) -> Seq<usize>
    decreases s.len(),
{
    if s.len() == 0 {
        s
    } else if s.drop_last().contains(s.last()) {
        first_occurrences(s.drop_last())
    } else {
        first_occurrences(s.drop_last()).push(s.last())
    }
}

proof fn lemma_first_occurrences_contains(s: Seq<usize>)
    ensures
        forall|x: usize| first_occurrences(s).contains(x) <==> s.contains(x),
    decreases s.len(),
{
    if s.len() > 0 {
        lemma_first_occurrences_contains(s.drop_last());
        assert(s =~= s.drop_last().push(s.last()));
        assert forall|x: usize| first_occurrences(s).contains(x) <==> s.contains(x) by {
            if s.contains(x) && x != s.last() {
                let m = choose|m: int| 0 <= m < s.len() && s[m] == x;
                assert(s.drop_last()[m] == x);
            }
            if s.drop_last().contains(x) {
                let m = choose|m: int| 0 <= m < s.drop_last().len() && s.drop_last()[m] == x;
                assert(s[m] == x);
            }
        }
    }
}

/// Appending `x` adds it to the first occurrences unless it was met before.
proof fn lemma_first_occurrences_push(s: Seq<usize>, x: usize)
    ensures
        first_occurrences(s.push(x)) == if s.contains(x) { first_occurrences(s) } else { first_occurrences(s).push(x) },
{
    assert(s.push(x).drop_last() =~= s);
    assert(s.push(x).last() == x);
}

/// Appends `x` to `out` unless it is already there.
fn push_new(out: &mut Vec<usize>, x: usize)
    requires
        old(out)@.no_duplicates(),
    ensures
        final(out)@.no_duplicates(),
        forall|y: usize| final(out)@.contains(y) <==> (old(out)@.contains(y) || y == x),
        final(out)@ == if old(out)@.contains(x) { old(out)@ } else { old(out)@.push(x) },
{
    let mut k: usize = 0;
    while k < out.len()
        invariant
            k <= out@.len(),
            out@ == old(out)@,
            old(out)@.no_duplicates(),
            forall|m: int| 0 <= m < k ==> out@[m] != x,
        decreases out@.len() - k,
    {
        if out[k] == x {
            assert(old(out)@[k as int] == x);
            return;
        }
        k = k + 1;
    }
    assert(!old(out)@.contains(x));
    out.push(x);
    proof {
        assert forall|y: usize| #[trigger] final(out)@.contains(y) <==> (old(out)@.contains(y) || y == x) by {
            if final(out)@.contains(y) {
                let m = choose|m: int| 0 <= m < final(out)@.len() && final(out)@[m] == y;
                if m < old(out)@.len() {
                    assert(old(out)@[m] == y);
                }
            }
            if old(out)@.contains(y) {
                let m = choose|m: int| 0 <= m < old(out)@.len() && old(out)@[m] == y;
                assert(final(out)@[m] == y);
            }
            if y == x {
                assert(final(out)@[old(out)@.len() as int] == y);
            }
        }
    }
}

} // verus!
