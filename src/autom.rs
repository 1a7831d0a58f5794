use vstd::prelude::*;
use crate::dense::{DenseGraph, Nodes};
use crate::matrix::{is_aut, is_canonical_form, is_iso, is_perm, permuted, words_for};
use crate::search::{canonical_search, lists_automorphisms};

verus! {

/// `r` is the least vertex that an automorphism of `g` sends `v` to: the
/// representative of the orbit of `v`.
pub open spec fn is_orbit_rep(g: Seq<u64>, n: nat, m: nat, v: nat, r: usize) -> bool {
    &&& exists|a: Seq<usize>| #[trigger] is_aut(g, n, m, a) && a[v as int] == r
    &&& forall|a: Seq<usize>| #[trigger] is_aut(g, n, m, a) ==> r <= a[v as int]
}

/// The set of all automorphisms of `g`.
pub open spec fn aut_set(g: Seq<u64>, n: nat, m: nat) -> Set<Seq<usize>> {
    Set::new(|a: Seq<usize>| is_aut(g, n, m, a))
}

/// Why the automorphism group was not handed out.
#[derive(Debug, Clone, Copy, PartialEq, Eq)]
pub enum AutomError {
    /// The group has more elements than the caller allowed.
    GroupTooLarge,
}

/// The whole automorphism group of a graph, listed element by element, with
/// its orbits and its canonical form.
#[derive(Debug)]
pub struct AutoGroups {
    /// Every automorphism of the graph, as the image of each vertex.
    pub data: Vec<Vec<usize>>,
    /// The number of automorphisms of the graph.
    pub count: usize,
    /// The number of vertices of the graph.
    pub n: usize,
    /// The canonical matrix of the graph.
    pub canon: Vec<u64>,
    /// The canonical order in `lab` and the orbit representative of each vertex in `orbits`.
    pub nodes: Nodes,
}

/// The identity is an automorphism of every graph.
proof fn lemma_identity_aut(g: Seq<u64>, n: nat, m: nat) -> (id: Seq<usize>)
    requires
        n <= usize::MAX,
    ensures
        is_aut(g, n, m, id),
        forall|i: int| 0 <= i < n ==> #[trigger] id[i] == i,
{
    let id = Seq::new(n, |i: int| i as usize);
    assert forall|v: usize| v < n implies #[trigger] id.contains(v) by {
        assert(id[v as int] == v);
    }
    assert(is_iso(g, g, n, m, id));
    id
}

impl AutoGroups {
    /// `self` describes the graph with `n`-vertex matrix `g`.
    pub open spec fn describes(&self, g: Seq<u64>, n: nat) -> bool {
        &&& lists_automorphisms(g, n, words_for(n), self.data@)
        &&& self.count == self.data@.len()
        &&& self.n == n
        &&& is_canonical_form(g, n, words_for(n), self.canon@)
        &&& is_perm(self.nodes.lab@, n)
        &&& self.canon@ == permuted(g, n, words_for(n), self.nodes.lab@)
        &&& self.nodes.orbits@.len() == n
        &&& forall|v: int| 0 <= v < n ==> is_orbit_rep(g, n, words_for(n), v as nat, #[trigger] self.nodes.orbits@[v])
    }

    /// A group with no automorphism recorded yet.
    pub fn new(n: usize, canon: Vec<u64>, nodes: Nodes) -> (r: Self)
        ensures
            r.data@.len() == 0,
            r.count == 0,
            r.n == n,
            r.canon == canon,
            r.nodes == nodes,
    {
        AutoGroups { data: Vec::new(), count: 0, n, canon, nodes }
    }

    /// Computes the canonical form, every automorphism and the orbits of a graph.
    pub fn from_dense(dense: DenseGraph) -> (r: Self)
        requires
            dense.wf(),
        ensures
            r.describes(dense.g@, dense.n as nat),
    {
        let n = dense.n;
        let res = canonical_search(&dense.g, n, dense.m);
        let ghost g = dense.g@;
        let ghost m = dense.m as nat;
        let data = res.autos;
        let ghost id = lemma_identity_aut(g, n as nat, m);
        let mut orbits: Vec<usize> = Vec::new();
        let mut v: usize = 0;
        while v < n
            invariant
                v <= n,
                m == words_for(n as nat),
                lists_automorphisms(g, n as nat, m, data@),
                is_aut(g, n as nat, m, id),
                forall|i: int| 0 <= i < n ==> #[trigger] id[i] == i,
                orbits@.len() == v,
                forall|u: int| 0 <= u < v ==> is_orbit_rep(g, n as nat, m, u as nat, #[trigger] orbits@[u]),
            decreases n - v,
        {
            let mut rep: usize = v;
            let mut k: usize = 0;
            while k < data.len()
                invariant
                    v < n,
                    k <= data@.len(),
                    m == words_for(n as nat),
                    lists_automorphisms(g, n as nat, m, data@),
                    is_aut(g, n as nat, m, id),
                    forall|i: int| 0 <= i < n ==> #[trigger] id[i] == i,
                    exists|a: Seq<usize>| #[trigger] is_aut(g, n as nat, m, a) && a[v as int] == rep,
                    forall|t: int| 0 <= t < k ==> rep <= (#[trigger] data@[t])@[v as int],
                decreases data@.len() - k,
            {
                assert(is_aut(g, n as nat, m, data@[k as int]@));
                let x = data[k][v];
                if x < rep {
                    rep = x;
                }
                k = k + 1;
            }
            proof {
                assert forall|a: Seq<usize>| #[trigger] is_aut(g, n as nat, m, a) implies rep <= a[v as int] by {
                    let t = choose|t: int| 0 <= t < data@.len() && data@[t]@ == a;
                }
            }
            orbits.push(rep);
            v = v + 1;
        }
        let count = data.len();
        let nodes = Nodes { lab: res.lab, ptn: dense.nodes.ptn, orbits };
        AutoGroups { data, count, n, canon: res.canon, nodes }
    }

    /// As `from_dense`, but refuses a group with more than `cap` elements
    /// rather than hand out part of it.
    pub fn from_dense_capped(dense: DenseGraph, cap: usize) -> (r: Result<Self, AutomError>)
        requires
            dense.wf(),
        ensures
            r is Ok <==> aut_set(dense.g@, dense.n as nat, words_for(dense.n as nat)).len() <= cap,
            r is Err ==> r == Err::<Self, AutomError>(AutomError::GroupTooLarge),
            r matches Ok(ag) ==> ag.describes(dense.g@, dense.n as nat),
    {
        let ghost g = dense.g@;
        let ghost n = dense.n as nat;
        let ag = AutoGroups::from_dense(dense);
        proof {
            lemma_count_is_group_order(ag, g, n);
        }
        if ag.count > cap {
            Err(AutomError::GroupTooLarge)
        } else {
            Ok(ag)
        }
    }

    /// The orbit representative of each vertex.
    pub fn orbits(&self) -> (r: &[usize])
        ensures
            r@ == self.nodes.orbits@,
    {
        self.nodes.orbits.as_slice()
    }

    /// Every automorphism of the graph.
    pub fn automorphisms(&self) -> (r: &Vec<Vec<usize>>)
        ensures
            r == &self.data,
    {
        &self.data
    }

    /// The number of automorphisms of the graph.
    pub fn n_automorphisms(&self) -> (r: usize)
        ensures
            r == self.count,
    {
        self.count
    }

    /// The number of vertices of the graph.
    pub fn n_nodes(&self) -> (r: usize)
        ensures
            r == self.n,
    {
        self.n
    }

    /// The canonical matrix of the graph.
    pub fn canonical(&self) -> (r: &Vec<u64>)
        ensures
            r == &self.canon,
    {
        &self.canon
    }
}

/// The recorded count is the size of the automorphism group: the list holds
/// every automorphism exactly once.
pub proof fn lemma_count_is_group_order(ag: AutoGroups, g: Seq<u64>, n: nat)
    requires
        ag.describes(g, n),
    ensures
        aut_set(g, n, words_for(n)).finite(),
        ag.count == aut_set(g, n, words_for(n)).len(),
{
    let m = words_for(n);
    let s = ag.data@.map_values(|a: Vec<usize>| a@);
    assert(s.no_duplicates()) by {
        assert forall|i: int, j: int| 0 <= i < s.len() && 0 <= j < s.len() && i != j implies s[i] != s[j] by {
            if i < j {
                assert(ag.data@[i]@ != ag.data@[j]@);
            } else {
                assert(ag.data@[j]@ != ag.data@[i]@);
            }
        }
    }
    assert(s.to_set() =~= aut_set(g, n, m)) by {
        assert forall|a: Seq<usize>| s.to_set().contains(a) implies aut_set(g, n, m).contains(a) by {
            let i = choose|i: int| 0 <= i < s.len() && s[i] == a;
            assert(is_aut(g, n, m, ag.data@[i]@));
        }
        assert forall|a: Seq<usize>| aut_set(g, n, m).contains(a) implies s.to_set().contains(a) by {
            assert(is_aut(g, n, m, a));
            let k = choose|k: int| 0 <= k < ag.data@.len() && ag.data@[k]@ == a;
            assert(s[k] == a);
        }
    }
    s.unique_seq_to_set();
}

} // verus!
