use vstd::prelude::*;
use crate::matrix::{arc, is_matrix, lemma_bit_set, lemma_bit_zero, lemma_index, lemma_index_injective, words_for};

verus! {

/// The arcs of row `i` among the first `j` columns, in column order.
pub open spec fn row_arcs(g: Seq<u64>, m: nat, i: nat, j: nat) -> Seq<(u32, u32)>
    decreases j,
{
    if j == 0 {
        Seq::empty()
    } else {
        let s = row_arcs(g, m, i, (j - 1) as nat);
        if arc(g, m, i, (j - 1) as nat) {
            s.push((i as u32, (j - 1) as u32))
        } else {
            s
        }
    }
}

/// The arcs of the first `i` rows of an `n x n` matrix, in row-major order.
pub open spec fn arcs_upto(g: Seq<u64>, n: nat, m: nat, i: nat) -> Seq<(u32, u32)>
    decreases i,
{
    if i == 0 {
        Seq::empty()
    } else {
        arcs_upto(g, n, m, (i - 1) as nat) + row_arcs(g, m, (i - 1) as nat, n)
    }
}

/// Every arc of the matrix, in row-major order.
pub open spec fn arc_list(g: Seq<u64>, n: nat, m: nat) -> Seq<(u32, u32)> {
    arcs_upto(g, n, m, n)
}

/// The edge list holds `i -> j`, or `j -> i` when edges have no direction.
pub open spec fn has_edge(edges: Seq<(u32, u32)>, directed: bool, i: nat, j: nat) -> bool {
    exists|k: int|
        0 <= k < edges.len() && (((#[trigger] edges[k]) == (i as u32, j as u32)) || (!directed
            && edges[k] == (j as u32, i as u32)))
}

/// Vertex counts that the packed form and its edge lists can address.
pub open spec fn addressable(n: nat) -> bool {
    n <= u32::MAX && n * n <= usize::MAX
}

pub proof fn lemma_row_arcs_len(g: Seq<u64>, m: nat, i: nat, j: nat)
    ensures
        row_arcs(g, m, i, j).len() <= j,
    decreases j,
{
    if j > 0 {
        lemma_row_arcs_len(g, m, i, (j - 1) as nat);
    }
}

pub proof fn lemma_arcs_upto_len(g: Seq<u64>, n: nat, m: nat, i: nat)
    ensures
        arcs_upto(g, n, m, i).len() <= i * n,
    decreases i,
{
    if i > 0 {
        lemma_arcs_upto_len(g, n, m, (i - 1) as nat);
        lemma_row_arcs_len(g, m, (i - 1) as nat, n);
        assert((i - 1) * n + n == i * n) by (nonlinear_arith);
    }
}

/// The arcs `(i, j)` of row `i` with `j < c`, as a set.
pub open spec fn row_set(g: Seq<u64>, m: nat, i: nat, c: nat) -> Set<(int, int)> {
    Set::new(|q: (int, int)| q.0 == i && 0 <= q.1 < c && arc(g, m, i, q.1 as nat))
}

/// The arcs of the first `r` rows of an `n x n` matrix, as a set.
pub open spec fn rows_set(g: Seq<u64>, n: nat, m: nat, r: nat) -> Set<(int, int)> {
    Set::new(|q: (int, int)| 0 <= q.0 < r && 0 <= q.1 < n && arc(g, m, q.0 as nat, q.1 as nat))
}

/// Every arc of an `n x n` matrix, as a set.
pub open spec fn arc_set(g: Seq<u64>, n: nat, m: nat) -> Set<(int, int)> {
    rows_set(g, n, m, n)
}

pub proof fn lemma_row_arcs_count(g: Seq<u64>, m: nat, i: nat, c: nat)
    ensures
        row_set(g, m, i, c).finite(),
        row_arcs(g, m, i, c).len() == row_set(g, m, i, c).len(),
    decreases c,
{
    if c == 0 {
        assert(row_set(g, m, i, c) =~= Set::empty());
    } else {
        let c1 = (c - 1) as nat;
        lemma_row_arcs_count(g, m, i, c1);
        let prev = row_set(g, m, i, c1);
        let q = (i as int, c1 as int);
        assert(!prev.contains(q));
        if arc(g, m, i, c1) {
            assert(row_set(g, m, i, c) =~= prev.insert(q));
        } else {
            assert(row_set(g, m, i, c) =~= prev);
        }
    }
}

pub proof fn lemma_arcs_upto_count(g: Seq<u64>, n: nat, m: nat, r: nat)
    ensures
        rows_set(g, n, m, r).finite(),
        arcs_upto(g, n, m, r).len() == rows_set(g, n, m, r).len(),
    decreases r,
{
    if r == 0 {
        assert(rows_set(g, n, m, r) =~= Set::empty());
    } else {
        let r1 = (r - 1) as nat;
        lemma_arcs_upto_count(g, n, m, r1);
        lemma_row_arcs_count(g, m, r1, n);
        let a = rows_set(g, n, m, r1);
        let b = row_set(g, m, r1, n);
        assert(rows_set(g, n, m, r) =~= a + b);
        assert(a.disjoint(b));
        vstd::set_lib::lemma_set_disjoint_lens(a, b);
    }
}

/// The length of the arc list is the number of arcs.
pub proof fn lemma_arc_list_count(g: Seq<u64>, n: nat, m: nat)
    ensures
        arc_set(g, n, m).finite(),
        arc_list(g, n, m).len() == arc_set(g, n, m).len(),
{
    lemma_arcs_upto_count(g, n, m, n);
}

/// Words per row for `n` vertices.
pub fn words_needed(n: usize) -> (m: usize)
    requires
        n <= u32::MAX,
    ensures
        m == words_for(n as nat),
{
    proof {
        vstd::arithmetic::div_mod::lemma_fundamental_div_mod(n as int, 64);
        let q = n as int / 64;
        let r = n as int % 64;
        if r == 0 {
            vstd::arithmetic::div_mod::lemma_fundamental_div_mod_converse(n + 63, 64, q, 63);
        } else {
            vstd::arithmetic::div_mod::lemma_fundamental_div_mod_converse(n + 63, 64, q + 1, r - 1);
        }
    }
    if n % 64 == 0 {
        n / 64
    } else {
        n / 64 + 1
    }
}

/// Reads the arc `i -> j` of a packed matrix.
pub fn has_arc(g: &Vec<u64>, n: usize, m: usize, i: usize, j: usize) -> (r: bool)
    requires
        is_matrix(g@, n as nat, m as nat),
        i < n,
        j < n,
    ensures
        r == arc(g@, m as nat, i as nat, j as nat),
{
    proof {
        lemma_index(n as nat, m as nat, i as nat, j as nat);
    }
    let len = g.len();
    assert(i * m <= i * m + j / 64 < len);
    let w = g[i * m + j / 64];
    (w >> ((63 - j % 64) as u64)) & 1u64 == 1u64
}

/// Sets the arc `i -> j` of a packed matrix and leaves every other arc as it was.
pub fn set_arc(g: &mut Vec<u64>, n: usize, m: usize, i: usize, j: usize)
    requires
        is_matrix(old(g)@, n as nat, m as nat),
        i < n,
        j < n,
    ensures
        is_matrix(final(g)@, n as nat, m as nat),
        forall|u: nat, v: nat|
            u < n && v < n ==> #[trigger] arc(final(g)@, m as nat, u, v) == (arc(old(g)@, m as nat, u, v)
                || (u == i && v == j)),
{
    proof {
        lemma_index(n as nat, m as nat, i as nat, j as nat);
    }
    let len = g.len();
    assert(i * m <= i * m + j / 64 < len);
    let x = i * m + j / 64;
    let w = g[x];
    g.set(x, w | (1u64 << ((63 - j % 64) as u64)));
    proof {
        assert forall|u: nat, v: nat| u < n && v < n implies #[trigger] arc(g@, m as nat, u, v) == (arc(
            old(g)@,
            m as nat,
            u,
            v,
        ) || (u == i && v == j)) by {
            lemma_index(n as nat, m as nat, u, v);
            let y = u * m + v / 64;
            if y == x {
                lemma_bit_set(w, (j % 64) as nat, v % 64);
                if v % 64 == j % 64 {
                    lemma_index_injective(n as nat, m as nat, i as nat, j as nat, u, v);
                }
            }
        }
    }
}

/// Counts the arcs of a packed matrix.
pub fn count_arcs(g: &Vec<u64>, n: usize, m: usize) -> (e: usize)
    requires
        is_matrix(g@, n as nat, m as nat),
        addressable(n as nat),
    ensures
        e == arc_list(g@, n as nat, m as nat).len(),
{
    let mut e: usize = 0;
    let mut i: usize = 0;
    while i < n
        invariant
            i <= n,
            is_matrix(g@, n as nat, m as nat),
            addressable(n as nat),
            e == arcs_upto(g@, n as nat, m as nat, i as nat).len(),
        decreases n - i,
    {
        let mut j: usize = 0;
        proof {
            lemma_arcs_upto_len(g@, n as nat, m as nat, i as nat);
            assert(i * n + n <= n * n) by (nonlinear_arith)
                requires
                    i < n,
            ;
        }
        while j < n
            invariant
                i < n,
                j <= n,
                is_matrix(g@, n as nat, m as nat),
                addressable(n as nat),
                i * n + n <= n * n,
                arcs_upto(g@, n as nat, m as nat, i as nat).len() <= i * n,
                e == arcs_upto(g@, n as nat, m as nat, i as nat).len() + row_arcs(
                    g@,
                    m as nat,
                    i as nat,
                    j as nat,
                ).len(),
            decreases n - j,
        {
            proof {
                lemma_row_arcs_len(g@, m as nat, i as nat, j as nat);
            }
            if has_arc(g, n, m, i, j) {
                e = e + 1;
            }
            j = j + 1;
        }
        i = i + 1;
    }
    e
}

/// Vertex bookkeeping kept beside a dense graph: a labelling, a partition
/// marker and an orbit representative for each vertex.
#[derive(Debug, PartialEq, Eq, Hash)]
pub struct Nodes {
    pub lab: Vec<usize>,
    pub ptn: Vec<usize>,
    pub orbits: Vec<usize>,
}

impl Nodes {
    /// The identity labelling, with every marker and orbit entry zero.
    pub fn new(n: usize) -> (r: Self)
        ensures
            r.lab@ == Seq::new(n as nat, |i: int| i as usize),
            r.ptn@ == Seq::new(n as nat, |i: int| 0usize),
            r.orbits@ == Seq::new(n as nat, |i: int| 0usize),
    {
        let mut lab: Vec<usize> = Vec::new();
        let mut i: usize = 0;
        while i < n
            invariant
                i <= n,
                lab@ == Seq::new(i as nat, |k: int| k as usize),
            decreases n - i,
        {
            lab.push(i);
            i = i + 1;
            assert(lab@ =~= Seq::new(i as nat, |k: int| k as usize));
        }
        let ptn = vec![0usize; n];
        let orbits = vec![0usize; n];
        assert(ptn@ =~= Seq::new(n as nat, |i: int| 0usize));
        assert(orbits@ =~= Seq::new(n as nat, |i: int| 0usize));
        Nodes { lab, ptn, orbits }
    }
}

/// A graph on vertices `0..n` as a packed bit matrix of `n` rows of `m` words.
#[derive(Debug, PartialEq, Eq, Hash)]
pub struct DenseGraph {
    pub g: Vec<u64>,
    pub n: usize,
    pub e: usize,
    pub m: usize,
    pub nodes: Nodes,
}

impl DenseGraph {
    /// The matrix has the right shape and `e` counts its arcs.
    pub open spec fn wf(&self) -> bool {
        &&& is_matrix(self.g@, self.n as nat, self.m as nat)
        &&& addressable(self.n as nat)
        &&& self.e == arc_list(self.g@, self.n as nat, self.m as nat).len()
        &&& self.nodes.lab@.len() == self.n
        &&& self.nodes.ptn@.len() == self.n
        &&& self.nodes.orbits@.len() == self.n
    }

    /// Packs an edge list on vertices `0..n`. Without direction each edge
    /// sets both of its arcs, so the matrix is symmetric.
    pub fn from_edges(n: usize, edges: &Vec<(u32, u32)>, directed: bool) -> (r: Self)
        requires
            addressable(n as nat),
            forall|k: int| 0 <= k < edges@.len() ==> (#[trigger] edges@[k]).0 < n && edges@[k].1 < n,
        ensures
            r.wf(),
            r.n == n,
            forall|i: nat, j: nat|
                i < n && j < n ==> #[trigger] arc(r.g@, r.m as nat, i, j) == has_edge(
                    edges@,
                    directed,
                    i,
                    j,
                ),
    {
        let m = words_needed(n);
        proof {
            assert(m <= n) by {
                assert((n + 63) / 64 <= n || n == 0) by (nonlinear_arith);
            }
            assert(n * m <= n * n) by (nonlinear_arith)
                requires
                    m <= n,
            ;
        }
        let mut g = vec![0u64; n * m];
        proof {
            assert forall|u: nat, v: nat| u < n && v < n implies !#[trigger] arc(g@, m as nat, u, v) by {
                lemma_index(n as nat, m as nat, u, v);
                lemma_bit_zero(v % 64);
            }
        }
        let mut k: usize = 0;
        while k < edges.len()
            invariant
                k <= edges@.len(),
                addressable(n as nat),
                is_matrix(g@, n as nat, m as nat),
                forall|q: int| 0 <= q < edges@.len() ==> (#[trigger] edges@[q]).0 < n && edges@[q].1 < n,
                forall|u: nat, v: nat|
                    u < n && v < n ==> #[trigger] arc(g@, m as nat, u, v) == has_edge(
                        edges@.subrange(0, k as int),
                        directed,
                        u,
                        v,
                    ),
            decreases edges@.len() - k,
        {
            let (a, b) = edges[k];
            let ghost g0 = g@;
            set_arc(&mut g, n, m, a as usize, b as usize);
            if !directed {
                set_arc(&mut g, n, m, b as usize, a as usize);
            }
            proof {
                assert forall|u: nat, v: nat| u < n && v < n implies #[trigger] arc(g@, m as nat, u, v)
                    == (arc(g0, m as nat, u, v) || (u == a && v == b) || (!directed && u == b && v == a)) by {
                }
                let pre = edges@.subrange(0, k as int);
                let post = edges@.subrange(0, k + 1);
                assert forall|u: nat, v: nat| u < n && v < n implies #[trigger] arc(g@, m as nat, u, v)
                    == has_edge(post, directed, u, v) by {
                    assert(arc(g0, m as nat, u, v) == has_edge(pre, directed, u, v));
                    assert(post[k as int] == (a, b));
                    if has_edge(pre, directed, u, v) {
                        let q = choose|q: int|
                            0 <= q < pre.len() && (((#[trigger] pre[q]) == (u as u32, v as u32)) || (
                            !directed && pre[q] == (v as u32, u as u32)));
                        assert(post[q] == pre[q]);
                    }
                    if has_edge(post, directed, u, v) {
                        let q = choose|q: int|
                            0 <= q < post.len() && (((#[trigger] post[q]) == (u as u32, v as u32)) || (
                            !directed && post[q] == (v as u32, u as u32)));
                        if q < k {
                            assert(pre[q] == post[q]);
                        } else {
                            assert(q == k);
                            assert((u == a && v == b) || (!directed && u == b && v == a));
                        }
                    }
                    if (u == a && v == b) || (!directed && u == b && v == a) {
                        assert(post[k as int] == (a, b));
                    }
                }
            }
            k = k + 1;
        }
        assert(edges@.subrange(0, edges@.len() as int) =~= edges@);
        let e = count_arcs(&g, n, m);
        DenseGraph { g, n, e, m, nodes: Nodes::new(n) }
    }

    /// The orbit entry of each vertex.
    pub fn orbits(&self) -> (r: &[usize])
        ensures
            r@ == self.nodes.orbits@,
    {
        self.nodes.orbits.as_slice()
    }
}

} // verus!
