use vstd::prelude::*;
use crate::dense::{addressable, arc_list, arc_set, lemma_arc_list_count, arcs_upto, count_arcs, has_arc, row_arcs, words_needed, DenseGraph, Nodes};
use crate::matrix::{
    arc, compose, is_canonical_form, is_iso, is_matrix, is_perm, isomorphic, lemma_compose_perm,
    lemma_inverse, lemma_lex_antisymmetric, lex_le, lemma_permuted_arc, lemma_permuted_iso, permuted, words_for,
};
use crate::search::canonical_search;

verus! {

/// The canonical form of a graph: its least relabelling, the number of arcs
/// in it, and the number of vertices. Two graphs on the same vertices get
/// equal labels exactly when they are isomorphic.
#[derive(Debug, PartialEq, Eq, Hash)]
pub struct CanonLabeling {
    pub g: Vec<u64>,
    pub e: usize,
    pub n: usize,
}

impl CanonLabeling {
    /// `self` is the canonical label of the `n`-vertex matrix `g`.
    pub open spec fn labels(&self, g: Seq<u64>, n: nat) -> bool {
        &&& is_canonical_form(g, n, words_for(n), self.g@)
        &&& self.n == n
        &&& self.e == arc_list(self.g@, n, words_for(n)).len()
    }

    /// Computes the canonical label of a graph.
    pub fn new(graph: &DenseGraph) -> (r: Self)
        requires
            graph.wf(),
        ensures
            r.labels(graph.g@, graph.n as nat),
    {
        let res = canonical_search(&graph.g, graph.n, graph.m);
        let e = count_arcs(&res.canon, graph.n, graph.m);
        CanonLabeling { g: res.canon, e, n: graph.n }
    }

    /// The canonical matrix as `n * n` entries, row by row: 1 for an arc, 0 otherwise.
    pub fn flat_adjacency(&self) -> (r: Vec<usize>)
        requires
            is_matrix(self.g@, self.n as nat, words_for(self.n as nat)),
            addressable(self.n as nat),
        ensures
            r@.len() == self.n * self.n,
            forall|i: nat, j: nat|
                i < self.n && j < self.n ==> #[trigger] r@[(i * self.n + j) as int] == if arc(
                    self.g@,
                    words_for(self.n as nat),
                    i,
                    j,
                ) {
                    1usize
                } else {
                    0usize
                },
    {
        let n = self.n;
        let m = words_needed(n);
        let mut r: Vec<usize> = Vec::new();
        let mut i: usize = 0;
        while i < n
            invariant
                n == self.n,
                m == words_for(n as nat),
                is_matrix(self.g@, n as nat, m as nat),
                addressable(n as nat),
                i <= n,
                r@.len() == i * n,
                forall|u: nat, v: nat|
                    u < i && v < n ==> #[trigger] r@[(u * n + v) as int] == if arc(self.g@, m as nat, u, v) {
                        1usize
                    } else {
                        0usize
                    },
            decreases n - i,
        {
            let mut j: usize = 0;
            proof {
                assert(i * n + n <= n * n) by (nonlinear_arith)
                    requires
                        i < n,
                ;
            }
            while j < n
                invariant
                    n == self.n,
                    m == words_for(n as nat),
                    is_matrix(self.g@, n as nat, m as nat),
                    addressable(n as nat),
                    i < n,
                    j <= n,
                    i * n + n <= n * n,
                    r@.len() == i * n + j,
                    forall|u: nat, v: nat|
                        (u < i && v < n) || (u == i && v < j) ==> #[trigger] r@[(u * n + v) as int] == if arc(
                            self.g@,
                            m as nat,
                            u,
                            v,
                        ) {
                            1usize
                        } else {
                            0usize
                        },
                decreases n - j,
            {
                let ghost r0 = r@;
                if has_arc(&self.g, n, m, i, j) {
                    r.push(1);
                } else {
                    r.push(0);
                }
                proof {
                    assert forall|u: nat, v: nat| (u < i && v < n) || (u == i && v < j + 1) implies #[trigger] r@[(u
                        * n + v) as int] == if arc(self.g@, m as nat, u, v) {
                        1usize
                    } else {
                        0usize
                    } by {
                        if u < i {
                            assert(u * n + v < i * n) by (nonlinear_arith)
                                requires
                                    u < i,
                                    v < n,
                            ;
                            assert(r@[(u * n + v) as int] == r0[(u * n + v) as int]);
                        } else if v < j {
                            assert(r@[(u * n + v) as int] == r0[(u * n + v) as int]);
                        }
                    }
                }
                j = j + 1;
            }
            assert(i * n + n == (i + 1) * n) by (nonlinear_arith);
            i = i + 1;
        }
        r
    }
}

/// Lists the arcs of an `n`-vertex packed matrix in row-major order. `e` is
/// the expected number of arcs and only sizes the list up front.
pub fn bit_adj_to_edgelist(adj: &[u64], e: usize, n: usize) -> (r: Vec<(u32, u32)>)
    requires
        is_matrix(adj@, n as nat, words_for(n as nat)),
        addressable(n as nat),
    ensures
        r@ == arc_list(adj@, n as nat, words_for(n as nat)),
{
    let m = words_needed(n);
    let g = vstd::slice::slice_to_vec(adj);
    let mut edges: Vec<(u32, u32)> = Vec::with_capacity(e);
    let mut i: usize = 0;
    while i < n
        invariant
            m == words_for(n as nat),
            g@ == adj@,
            is_matrix(g@, n as nat, m as nat),
            addressable(n as nat),
            i <= n,
            edges@ == arcs_upto(g@, n as nat, m as nat, i as nat),
        decreases n - i,
    {
        let mut j: usize = 0;
        while j < n
            invariant
                m == words_for(n as nat),
                is_matrix(g@, n as nat, m as nat),
                addressable(n as nat),
                i < n,
                j <= n,
                edges@ == arcs_upto(g@, n as nat, m as nat, i as nat) + row_arcs(
                    g@,
                    m as nat,
                    i as nat,
                    j as nat,
                ),
            decreases n - j,
        {
            if has_arc(&g, n, m, i, j) {
                edges.push((i as u32, j as u32));
            }
            proof {
                let a = arcs_upto(g@, n as nat, m as nat, i as nat);
                let b = row_arcs(g@, m as nat, i as nat, j as nat);
                assert((a + b).push((i as u32, j as u32)) =~= a + b.push((i as u32, j as u32)));
            }
            j = j + 1;
        }
        i = i + 1;
    }
    edges
}

/// The canonical form of a graph, as a graph: vertex `i` of the result is
/// the `i`-th vertex of the canonical order.
pub fn canonize(graph: &DenseGraph) -> (r: DenseGraph)
    requires
        graph.wf(),
    ensures
        r.wf(),
        r.n == graph.n,
        r.m == graph.m,
        is_canonical_form(graph.g@, graph.n as nat, graph.m as nat, r.g@),
{
    let label = CanonLabeling::new(graph);
    DenseGraph { g: label.g, n: label.n, e: label.e, m: graph.m, nodes: Nodes::new(graph.n) }
}

/// Isomorphic graphs have the same canonical label.
pub proof fn lemma_isomorphic_same_label(
    g: Seq<u64>,
    h: Seq<u64>,
    n: nat,
    lg: CanonLabeling,
    lh: CanonLabeling,
)
    requires
        isomorphic(g, h, n, words_for(n)),
        lg.labels(g, n),
        lh.labels(h, n),
    ensures
        lg.g@ == lh.g@,
        lg.e == lh.e,
        lg.n == lh.n,
{
    let m = words_for(n);
    let t = choose|t: Seq<usize>| is_iso(g, h, n, m, t);
    let ph = choose|p: Seq<usize>| is_perm(p, n) && lh.g@ == permuted(h, n, m, p);
    let pg = choose|p: Seq<usize>| is_perm(p, n) && lg.g@ == permuted(g, n, m, p);
    // h relabelled by ph is g relabelled by t after ph.
    lemma_permuted_iso(g, h, n, m, t, ph);
    assert(lex_le(lg.g@, permuted(g, n, m, compose(t, ph))));
    // g relabelled by pg is h relabelled by the inverse of t after pg.
    let s = lemma_inverse(t, n);
    lemma_compose_perm(s, pg, n);
    lemma_permuted_iso(g, h, n, m, t, compose(s, pg));
    assert(compose(t, compose(s, pg)) =~= pg);
    assert(lex_le(lh.g@, permuted(h, n, m, compose(s, pg))));
    lemma_lex_antisymmetric(lg.g@, lh.g@);
}


/// Graphs on the same vertices with the same canonical matrix are isomorphic.
pub proof fn lemma_same_label_isomorphic(g: Seq<u64>, h: Seq<u64>, n: nat, lg: CanonLabeling, lh: CanonLabeling)
    requires
        is_matrix(g, n, words_for(n)),
        is_matrix(h, n, words_for(n)),
        lg.labels(g, n),
        lh.labels(h, n),
        lg.g@ == lh.g@,
    ensures
        isomorphic(g, h, n, words_for(n)),
{
    let m = words_for(n);
    let ph = choose|p: Seq<usize>| is_perm(p, n) && lh.g@ == permuted(h, n, m, p);
    let pg = choose|p: Seq<usize>| is_perm(p, n) && lg.g@ == permuted(g, n, m, p);
    let s = lemma_inverse(ph, n);
    let t = compose(pg, s);
    lemma_compose_perm(pg, s, n);
    assert forall|u: nat, v: nat| u < n && v < n implies #[trigger] arc(h, m, u, v) == arc(
        g,
        m,
        t[u as int] as nat,
        t[v as int] as nat,
    ) by {
        let a = s[u as int] as nat;
        let b = s[v as int] as nat;
        assert(a < n && b < n);
        lemma_permuted_arc(h, n, m, ph, a, b);
        lemma_permuted_arc(g, n, m, pg, a, b);
    }
    assert(is_iso(g, h, n, m, t));
}

/// The label does not depend on how a graph was handed in: two matrices with
/// the same arcs get the same label.
pub proof fn lemma_label_deterministic(g: Seq<u64>, h: Seq<u64>, n: nat, lg: CanonLabeling, lh: CanonLabeling)
    requires
        n <= usize::MAX,
        forall|i: nat, j: nat| i < n && j < n ==> #[trigger] arc(g, words_for(n), i, j) == arc(h, words_for(n), i, j),
        lg.labels(g, n),
        lh.labels(h, n),
    ensures
        lg.g@ == lh.g@,
        lg.e == lh.e,
        lg.n == lh.n,
{
    let id = Seq::new(n, |i: int| i as usize);
    assert forall|v: usize| v < n implies #[trigger] id.contains(v) by {
        assert(id[v as int] == v);
    }
    assert(is_iso(g, h, n, words_for(n), id));
    lemma_isomorphic_same_label(g, h, n, lg, lh);
}

/// Relabelling a graph keeps its number of arcs.
pub proof fn lemma_permuted_arc_count(g: Seq<u64>, n: nat, p: Seq<usize>)
    requires
        is_perm(p, n),
    ensures
        arc_list(permuted(g, n, words_for(n), p), n, words_for(n)).len() == arc_list(g, n, words_for(n)).len(),
{
    let m = words_for(n);
    let h = permuted(g, n, m, p);
    let s = lemma_inverse(p, n);
    let f = |q: (int, int)| (s[q.0] as int, s[q.1] as int);
    lemma_arc_list_count(g, n, m);
    lemma_arc_list_count(h, n, m);
    assert forall|i: int| 0 <= i < n implies #[trigger] s[p[i] as int] == i by {
        assert(p[i] < n);
        assert(p[s[p[i] as int] as int] == p[i]);
        assert(s[p[i] as int] < n);
    }
    assert(arc_set(g, n, m).map(f) =~= arc_set(h, n, m)) by {
        assert forall|q: (int, int)| arc_set(g, n, m).contains(q) implies arc_set(h, n, m).contains(f(q)) by {
            let a = s[q.0];
            let b = s[q.1];
            assert(a < n && b < n);
            lemma_permuted_arc(g, n, m, p, a as nat, b as nat);
        }
        assert forall|q: (int, int)| arc_set(h, n, m).contains(q) implies arc_set(g, n, m).map(f).contains(q) by {
            let w = (p[q.0] as int, p[q.1] as int);
            assert(p[q.0] < n && p[q.1] < n);
            lemma_permuted_arc(g, n, m, p, q.0 as nat, q.1 as nat);
            assert(arc_set(g, n, m).contains(w));
            assert(f(w) == q);
        }
    }
    assert(vstd::relations::injective_on(f, arc_set(g, n, m))) by {
        assert forall|x1: (int, int), x2: (int, int)|
            arc_set(g, n, m).contains(x1) && arc_set(g, n, m).contains(x2) && #[trigger] f(x1) == #[trigger] f(
                x2,
            ) implies x1 == x2 by {
            if x1.0 != x2.0 {
                assert(s[x1.0] != s[x2.0]);
            }
            if x1.1 != x2.1 {
                assert(s[x1.1] != s[x2.1]);
            }
        }
    }
    vstd::set_lib::lemma_map_size(arc_set(g, n, m), arc_set(h, n, m), f);
}

/// The label records as many arcs as the graph has: each edge once for a
/// directed graph, and in both directions for a graph without direction.
pub proof fn lemma_label_edge_count(graph: DenseGraph, l: CanonLabeling)
    requires
        graph.wf(),
        l.labels(graph.g@, graph.n as nat),
    ensures
        l.e == graph.e,
{
    let n = graph.n as nat;
    let p = choose|p: Seq<usize>| is_perm(p, n) && l.g@ == permuted(graph.g@, n, words_for(n), p);
    lemma_permuted_arc_count(graph.g@, n, p);
}

} // verus!
