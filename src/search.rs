use vstd::prelude::*;
use crate::dense::{addressable, has_arc};
use crate::matrix::{
    arc, is_aut, is_canonical_form, is_matrix, is_perm, lex_le, lex_lt, lemma_lex_trans, permuted,
    pword,
};
use vstd::arithmetic::div_mod::lemma_fundamental_div_mod_converse;

verus! {

/// `q` and `p` agree on their first `d` positions.
pub open spec fn agrees(q: Seq<usize>, p: Seq<usize>, d: nat) -> bool {
    forall|t: int| 0 <= t < d ==> #[trigger] q[t] == p[t]
}

/// Builds the matrix of `g` with its vertices put in the order `p`.
pub fn relabel(g: &Vec<u64>, n: usize, m: usize, p: &Vec<usize>) -> (r: Vec<u64>)
    requires
        is_matrix(g@, n as nat, m as nat),
        addressable(n as nat),
        p@.len() == n,
        forall|i: int| 0 <= i < n ==> #[trigger] p@[i] < n,
    ensures
        r@ == permuted(g@, n as nat, m as nat, p@),
{
    let mut r: Vec<u64> = Vec::new();
    let mut i: usize = 0;
    while i < n
        invariant
            i <= n,
            is_matrix(g@, n as nat, m as nat),
            addressable(n as nat),
            p@.len() == n,
            forall|t: int| 0 <= t < n ==> #[trigger] p@[t] < n,
            r@.len() == i * m,
            forall|x: int|
                0 <= x < r@.len() ==> #[trigger] r@[x] == pword(
                    g@,
                    n as nat,
                    m as nat,
                    p@,
                    (x / m as int) as nat,
                    (x % m as int) as nat,
                    64,
                ),
        decreases n - i,
    {
        let mut k: usize = 0;
        proof {
            assert(i * m + m <= n * m) by (nonlinear_arith)
                requires
                    i < n,
            ;
        }
        while k < m
            invariant
                i < n,
                k <= m,
                is_matrix(g@, n as nat, m as nat),
                addressable(n as nat),
                p@.len() == n,
                forall|t: int| 0 <= t < n ==> #[trigger] p@[t] < n,
                i * m + m <= n * m,
                r@.len() == i * m + k,
                forall|x: int|
                    0 <= x < r@.len() ==> #[trigger] r@[x] == pword(
                        g@,
                        n as nat,
                        m as nat,
                        p@,
                        (x / m as int) as nat,
                        (x % m as int) as nat,
                        64,
                    ),
            decreases m - k,
        {
            let mut w: u64 = 0;
            let mut b: usize = 0;
            proof {
                assert(k * 64 < n + 64) by {
                    assert(m * 64 <= n + 63) by {
                        vstd::arithmetic::div_mod::lemma_fundamental_div_mod(n + 63, 64);
                    }
                }
            }
            while b < 64
                invariant
                    i < n,
                    k < m,
                    b <= 64,
                    k * 64 < n + 64,
                    is_matrix(g@, n as nat, m as nat),
                    addressable(n as nat),
                    p@.len() == n,
                    forall|t: int| 0 <= t < n ==> #[trigger] p@[t] < n,
                    w == pword(g@, n as nat, m as nat, p@, i as nat, k as nat, b as nat),
                decreases 64 - b,
            {
                let j = k * 64 + b;
                if j < n && has_arc(g, n, m, p[i], p[j]) {
                    w = w | (1u64 << ((63 - b) as u64));
                }
                b = b + 1;
            }
            proof {
                let x = (i * m + k) as int;
                lemma_fundamental_div_mod_converse(x, m as int, i as int, k as int);
            }
            r.push(w);
            k = k + 1;
        }
        assert(i * m + m == (i + 1) * m) by (nonlinear_arith);
        i = i + 1;
    }
    proof {
        assert forall|x: int| 0 <= x < r@.len() implies #[trigger] r@[x] == permuted(
            g@,
            n as nat,
            m as nat,
            p@,
        )[x] by {}
    }
    assert(r@ =~= permuted(g@, n as nat, m as nat, p@));
    r
}

/// Compares two matrices of the same shape word by word.
pub fn lex_less(a: &Vec<u64>, b: &Vec<u64>) -> (r: bool)
    requires
        a@.len() == b@.len(),
    ensures
        r == lex_lt(a@, b@),
        !r ==> lex_le(b@, a@),
{
    let mut i: usize = 0;
    while i < a.len()
        invariant
            a@.len() == b@.len(),
            i <= a@.len(),
            forall|t: int| 0 <= t < i ==> a@[t] == b@[t],
        decreases a@.len() - i,
    {
        if a[i] < b[i] {
            return true;
        }
        if a[i] > b[i] {
            proof {
                assert(lex_lt(b@, a@));
                assert forall|k: int|
                    !(0 <= k < a@.len() && k < b@.len() && (forall|t: int| 0 <= t < k ==> a@[t] == b@[t])
                        && #[trigger] a@[k] < b@[k]) by {
                    if 0 <= k < a@.len() && k > i && (forall|t: int| 0 <= t < k ==> a@[t] == b@[t]) {
                        assert(a@[i as int] == b@[i as int]);
                    }
                }
            }
            return false;
        }
        i = i + 1;
    }
    assert(a@ =~= b@);
    false
}

/// Tests whether `p` maps `g` onto itself.
pub fn is_automorphism(g: &Vec<u64>, n: usize, m: usize, p: &Vec<usize>) -> (r: bool)
    requires
        is_matrix(g@, n as nat, m as nat),
        is_perm(p@, n as nat),
    ensures
        r == is_aut(g@, n as nat, m as nat, p@),
{
    let mut i: usize = 0;
    while i < n
        invariant
            i <= n,
            is_matrix(g@, n as nat, m as nat),
            is_perm(p@, n as nat),
            forall|u: nat, v: nat|
                u < i && v < n ==> #[trigger] arc(g@, m as nat, u, v) == arc(
                    g@,
                    m as nat,
                    p@[u as int] as nat,
                    p@[v as int] as nat,
                ),
        decreases n - i,
    {
        let mut j: usize = 0;
        while j < n
            invariant
                i < n,
                j <= n,
                is_matrix(g@, n as nat, m as nat),
                is_perm(p@, n as nat),
                forall|u: nat, v: nat|
                    (u < i && v < n) || (u == i && v < j) ==> #[trigger] arc(g@, m as nat, u, v) == arc(
                        g@,
                        m as nat,
                        p@[u as int] as nat,
                        p@[v as int] as nat,
                    ),
            decreases n - j,
        {
            assert(p@[i as int] < n && p@[j as int] < n);
            if has_arc(g, n, m, p[i], p[j]) != has_arc(g, n, m, i, j) {
                return false;
            }
            j = j + 1;
        }
        i = i + 1;
    }
    true
}

/// A copy of a vertex sequence.
pub fn copy_labels(p: &Vec<usize>) -> (r: Vec<usize>)
    ensures
        r@ == p@,
{
    let mut r: Vec<usize> = Vec::new();
    let mut i: usize = 0;
    while i < p.len()
        invariant
            i <= p@.len(),
            r@ == p@.subrange(0, i as int),
        decreases p@.len() - i,
    {
        r.push(p[i]);
        i = i + 1;
        assert(r@ =~= p@.subrange(0, i as int));
    }
    assert(p@.subrange(0, p@.len() as int) =~= p@);
    r
}

/// Exchanges two entries of a vertex sequence.
pub fn swap_labels(p: &mut Vec<usize>, a: usize, b: usize)
    requires
        a < old(p)@.len(),
        b < old(p)@.len(),
    ensures
        final(p)@ == old(p)@.update(a as int, old(p)@[b as int]).update(b as int, old(p)@[a as int]),
{
    let x = p[a];
    let y = p[b];
    p.set(a, y);
    p.set(b, x);
}

/// Exchanging two entries of a permutation gives a permutation.
pub proof fn lemma_swap_perm(p: Seq<usize>, n: nat, a: int, b: int)
    requires
        is_perm(p, n),
        0 <= a < n,
        0 <= b < n,
    ensures
        is_perm(p.update(a, p[b]).update(b, p[a]), n),
{
    let s = p.update(a, p[b]).update(b, p[a]);
    assert forall|i: int| 0 <= i < n implies #[trigger] s[i] == p[if i == a { b } else if i == b { a } else { i }] by {}
    assert forall|i: int| 0 <= i < n implies #[trigger] s[i] < n by {
        let _ = p[if i == a { b } else if i == b { a } else { i }];
    }
    assert forall|i: int, j: int| 0 <= i < n && 0 <= j < n && i != j implies #[trigger] s[i] != #[trigger] s[j] by {
        let i2 = if i == a { b } else if i == b { a } else { i };
        let j2 = if j == a { b } else if j == b { a } else { j };
        assert(p[i2] != p[j2]);
    }
    assert forall|v: usize| v < n implies #[trigger] s.contains(v) by {
        assert(p.contains(v));
        let k = choose|k: int| 0 <= k < p.len() && p[k] == v;
        let k2 = if k == a { b } else if k == b { a } else { k };
        assert(s[k2] == v);
    }
}

/// Depth-first search over every permutation that agrees with `p` on its first `d`
/// positions. Keeps in `best` (with its order in `best_lab`) the least relabelling
/// seen so far, and appends to `autos` each automorphism met, once.
fn search(
    g: &Vec<u64>,
    n: usize,
    m: usize,
    p: &mut Vec<usize>,
    d: usize,
    best: &mut Vec<u64>,
    best_lab: &mut Vec<usize>,
    autos: &mut Vec<Vec<usize>>,
)
    requires
        is_matrix(g@, n as nat, m as nat),
        addressable(n as nat),
        d <= n,
        is_perm(old(p)@, n as nat),
        is_perm(old(best_lab)@, n as nat),
        old(best)@ == permuted(g@, n as nat, m as nat, old(best_lab)@),
    ensures
        final(p)@ == old(p)@,
        is_perm(final(best_lab)@, n as nat),
        final(best)@ == permuted(g@, n as nat, m as nat, final(best_lab)@),
        lex_le(final(best)@, old(best)@),
        forall|q: Seq<usize>|
            is_perm(q, n as nat) && agrees(q, old(p)@, d as nat) ==> lex_le(
                final(best)@,
                #[trigger] permuted(g@, n as nat, m as nat, q),
            ),
        final(autos)@.len() >= old(autos)@.len(),
        final(autos)@.subrange(0, old(autos)@.len() as int) == old(autos)@,
        forall|k: int|
            old(autos)@.len() <= k < final(autos)@.len() ==> is_aut(
                g@,
                n as nat,
                m as nat,
                #[trigger] final(autos)@[k]@,
            ) && agrees(final(autos)@[k]@, old(p)@, d as nat),
        forall|k1: int, k2: int|
            old(autos)@.len() <= k1 < k2 < final(autos)@.len() ==> #[trigger] final(autos)@[k1]@
                != #[trigger] final(autos)@[k2]@,
        forall|q: Seq<usize>|
            #[trigger] is_aut(g@, n as nat, m as nat, q) && agrees(q, old(p)@, d as nat) ==> exists|k: int|
                old(autos)@.len() <= k < final(autos)@.len() && final(autos)@[k]@ == q,
    decreases n - d,
{
    let ghost p0 = p@;
    let ghost best0 = best@;
    let ghost a0 = autos@;
    if d == n {
        let cand = relabel(g, n, m, p);
        if lex_less(&cand, best) {
            *best = cand;
            *best_lab = copy_labels(p);
        }
        if is_automorphism(g, n, m, p) {
            autos.push(copy_labels(p));
        }
        proof {
            assert forall|q: Seq<usize>| is_perm(q, n as nat) && agrees(q, p0, d as nat) implies q == p0 by {
                assert(q =~= p0);
            }
            assert(autos@.subrange(0, a0.len() as int) =~= a0);
            assert forall|q: Seq<usize>|
                #[trigger] is_aut(g@, n as nat, m as nat, q) && agrees(q, p0, d as nat) implies exists|k: int|
                    a0.len() <= k < autos@.len() && autos@[k]@ == q by {
                assert(q =~= p0);
                assert(autos@[a0.len() as int]@ == p0);
            }
        }
    } else {
        let mut i: usize = d;
        while i < n
            invariant
                is_matrix(g@, n as nat, m as nat),
                addressable(n as nat),
                d < n,
                d <= i <= n,
                p@ == p0,
                is_perm(p0, n as nat),
                is_perm(best_lab@, n as nat),
                best@ == permuted(g@, n as nat, m as nat, best_lab@),
                lex_le(best@, best0),
                forall|q: Seq<usize>|
                    is_perm(q, n as nat) && agrees(q, p0, d as nat) && (exists|t: int|
                        d <= t < i && q[d as int] == p0[t]) ==> lex_le(
                        best@,
                        #[trigger] permuted(g@, n as nat, m as nat, q),
                    ),
                autos@.len() >= a0.len(),
                autos@.subrange(0, a0.len() as int) == a0,
                forall|k: int|
                    a0.len() <= k < autos@.len() ==> is_aut(g@, n as nat, m as nat, #[trigger] autos@[k]@)
                        && agrees(autos@[k]@, p0, d as nat) && exists|t: int|
                        d <= t < i && autos@[k]@[d as int] == p0[t],
                forall|k1: int, k2: int|
                    a0.len() <= k1 < k2 < autos@.len() ==> #[trigger] autos@[k1]@ != #[trigger] autos@[k2]@,
                forall|q: Seq<usize>|
                    #[trigger] is_aut(g@, n as nat, m as nat, q) && agrees(q, p0, d as nat) && (exists|t: int|
                        d <= t < i && q[d as int] == p0[t]) ==> exists|k: int|
                        a0.len() <= k < autos@.len() && autos@[k]@ == q,
            decreases n - i,
        {
            let ghost best1 = best@;
            let ghost a1 = autos@;
            swap_labels(p, d, i);
            let ghost p1 = p@;
            proof {
                lemma_swap_perm(p0, n as nat, d as int, i as int);
            }
            search(g, n, m, p, d + 1, best, best_lab, autos);
            swap_labels(p, d, i);
            proof {
                assert(p@ =~= p0);
                lemma_lex_trans(best@, best1, best0);
                assert forall|q: Seq<usize>|
                    is_perm(q, n as nat) && agrees(q, p0, d as nat) && (exists|t: int|
                        d <= t < i + 1 && q[d as int] == p0[t]) implies lex_le(
                    best@,
                    #[trigger] permuted(g@, n as nat, m as nat, q),
                ) by {
                    let t = choose|t: int| d <= t < i + 1 && q[d as int] == p0[t];
                    if t < i {
                        lemma_lex_trans(best@, best1, permuted(g@, n as nat, m as nat, q));
                    } else {
                        assert(agrees(q, p1, (d + 1) as nat));
                    }
                }
                assert forall|k: int| 0 <= k < a1.len() implies autos@[k] == a1[k] by {
                    assert(autos@.subrange(0, a1.len() as int)[k] == autos@[k]);
                }
                assert(autos@.subrange(0, a0.len() as int) =~= a0) by {
                    assert forall|k: int| 0 <= k < a0.len() implies autos@[k] == a0[k] by {
                        assert(a1.subrange(0, a0.len() as int)[k] == a1[k]);
                    }
                }
                assert forall|k: int|
                    a0.len() <= k < autos@.len() implies is_aut(g@, n as nat, m as nat, #[trigger] autos@[k]@)
                        && agrees(autos@[k]@, p0, d as nat) && exists|t: int|
                        d <= t < i + 1 && autos@[k]@[d as int] == p0[t] by {
                    if k < a1.len() {
                        assert(autos@[k] == a1[k]);
                    } else {
                        assert(agrees(autos@[k]@, p1, (d + 1) as nat));
                        assert(autos@[k]@[d as int] == p1[d as int]);
                        assert(agrees(autos@[k]@, p0, d as nat));
                    }
                }
                assert forall|k1: int, k2: int|
                    a0.len() <= k1 < k2 < autos@.len() implies #[trigger] autos@[k1]@
                        != #[trigger] autos@[k2]@ by {
                    if k2 < a1.len() {
                        assert(autos@[k1] == a1[k1]);
                        assert(autos@[k2] == a1[k2]);
                    } else if k1 < a1.len() {
                        assert(autos@[k1] == a1[k1]);
                        let t = choose|t: int| d <= t < i && a1[k1]@[d as int] == p0[t];
                        assert(agrees(autos@[k2]@, p1, (d + 1) as nat));
                        assert(autos@[k2]@[d as int] == p1[d as int]);
                        assert(p0[t] != p0[i as int]);
                    }
                }
                assert forall|q: Seq<usize>|
                    #[trigger] is_aut(g@, n as nat, m as nat, q) && agrees(q, p0, d as nat) && (exists|t: int|
                        d <= t < i + 1 && q[d as int] == p0[t]) implies exists|k: int|
                        a0.len() <= k < autos@.len() && autos@[k]@ == q by {
                    let t = choose|t: int| d <= t < i + 1 && q[d as int] == p0[t];
                    if t < i {
                        let k = choose|k: int| a0.len() <= k < a1.len() && a1[k]@ == q;
                        assert(autos@[k] == a1[k]);
                    } else {
                        assert(agrees(q, p1, (d + 1) as nat));
                    }
                }
            }
            i = i + 1;
        }
        proof {
            assert forall|q: Seq<usize>| is_perm(q, n as nat) && agrees(q, p0, d as nat) implies exists|t: int|
                d <= t < n && q[d as int] == p0[t] by {
                let v = q[d as int];
                assert(v < n);
                assert(p0.contains(v));
                let t = choose|t: int| 0 <= t < p0.len() && p0[t] == v;
                if t < d {
                    assert(q[t] == p0[t]);
                }
            }
            assert forall|q: Seq<usize>|
                #[trigger] is_aut(g@, n as nat, m as nat, q) && agrees(q, p0, d as nat) implies exists|k: int|
                    a0.len() <= k < autos@.len() && autos@[k]@ == q by {
                assert(is_perm(q, n as nat));
                assert(exists|t: int| d <= t < n && q[d as int] == p0[t]);
            }
        }
    }
}

/// The identity permutation of `0..n`.
pub fn identity(n: usize) -> (r: Vec<usize>)
    ensures
        is_perm(r@, n as nat),
        forall|i: int| 0 <= i < n ==> #[trigger] r@[i] == i,
{
    let mut r: Vec<usize> = Vec::new();
    let mut i: usize = 0;
    while i < n
        invariant
            i <= n,
            r@.len() == i,
            forall|t: int| 0 <= t < i ==> #[trigger] r@[t] == t,
        decreases n - i,
    {
        r.push(i);
        i = i + 1;
    }
    assert forall|v: usize| v < n implies #[trigger] r@.contains(v) by {
        assert(r@[v as int] == v);
    }
    r
}

/// The outcome of a full search on a graph: the least relabelling, the order
/// that gives it, and every automorphism, each once.
pub struct SearchResult {
    pub canon: Vec<u64>,
    pub lab: Vec<usize>,
    pub autos: Vec<Vec<usize>>,
}

/// Every automorphism of `g` stands in `autos`, each exactly once, and nothing else does.
pub open spec fn lists_automorphisms(g: Seq<u64>, n: nat, m: nat, autos: Seq<Vec<usize>>) -> bool {
    &&& forall|k: int| 0 <= k < autos.len() ==> is_aut(g, n, m, #[trigger] autos[k]@)
    &&& forall|k1: int, k2: int|
        0 <= k1 < k2 < autos.len() ==> #[trigger] autos[k1]@ != #[trigger] autos[k2]@
    &&& forall|q: Seq<usize>|
        #[trigger] is_aut(g, n, m, q) ==> exists|k: int| 0 <= k < autos.len() && autos[k]@ == q
}

/// Searches every ordering of the vertices of `g`.
pub fn canonical_search(g: &Vec<u64>, n: usize, m: usize) -> (r: SearchResult)
    requires
        is_matrix(g@, n as nat, m as nat),
        addressable(n as nat),
    ensures
        is_perm(r.lab@, n as nat),
        r.canon@ == permuted(g@, n as nat, m as nat, r.lab@),
        is_canonical_form(g@, n as nat, m as nat, r.canon@),
        lists_automorphisms(g@, n as nat, m as nat, r.autos@),
{
    let mut p = identity(n);
    let mut best_lab = identity(n);
    let mut best = relabel(g, n, m, &best_lab);
    let mut autos: Vec<Vec<usize>> = Vec::new();
    search(g, n, m, &mut p, 0, &mut best, &mut best_lab, &mut autos);
    proof {
        assert forall|q: Seq<usize>| is_perm(q, n as nat) implies lex_le(
            best@,
            #[trigger] permuted(g@, n as nat, m as nat, q),
        ) by {
            assert(agrees(q, p@, 0));
        }
        assert forall|q: Seq<usize>| #[trigger] is_aut(g@, n as nat, m as nat, q) implies exists|k: int|
            0 <= k < autos@.len() && autos@[k]@ == q by {
            assert(agrees(q, p@, 0));
        }
    }
    SearchResult { canon: best, lab: best_lab, autos }
}

} // verus!
