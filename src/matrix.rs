use vstd::prelude::*;
use vstd::arithmetic::div_mod::lemma_fundamental_div_mod_converse;

verus! {

/// The bit at position `k` of a word, counting from the most significant bit.
pub open spec fn bit(w: u64, k: nat) -> bool {
    k < 64 && (w >> ((63 - k) as u64)) & 1u64 == 1u64
}

/// Number of 64-bit words needed to hold one row of `n` bits.
pub open spec fn words_for(n: nat) -> nat {
    (n + 63) / 64
}

/// A packed `n x n` bit matrix: `n` rows of `words_for(n)` words each.
pub open spec fn is_matrix(g: Seq<u64>, n: nat, m: nat) -> bool {
    m == words_for(n) && g.len() == n * m
}

/// Whether the arc `i -> j` is set in the packed matrix `g` with `m` words per row.
pub open spec fn arc(g: Seq<u64>, m: nat, i: nat, j: nat) -> bool {
    bit(g[(i * m + j / 64) as int], j % 64)
}

/// A permutation of `0..n`, given as the image of each position (`n` is a
/// vertex count, so it fits a `usize`).
pub open spec fn is_perm(p: Seq<usize>, n: nat) -> bool {
    &&& p.len() == n
    &&& n <= usize::MAX
    &&& forall|i: int| 0 <= i < n ==> #[trigger] p[i] < n
    &&& forall|i: int, j: int| 0 <= i < n && 0 <= j < n && i != j ==> #[trigger] p[i] != #[trigger] p[j]
    &&& forall|v: usize| v < n ==> #[trigger] p.contains(v)
}

/// `t` relabels `g` into `h`: the arc `i -> j` of `h` is the arc `t[i] -> t[j]` of `g`.
pub open spec fn is_iso(g: Seq<u64>, h: Seq<u64>, n: nat, m: nat, t: Seq<usize>) -> bool {
    &&& is_perm(t, n)
    &&& forall|i: nat, j: nat|
        i < n && j < n ==> #[trigger] arc(h, m, i, j) == arc(g, m, t[i as int] as nat, t[j as int] as nat)
}

/// Two matrices on `n` vertices are isomorphic.
pub open spec fn isomorphic(g: Seq<u64>, h: Seq<u64>, n: nat, m: nat) -> bool {
    exists|t: Seq<usize>| is_iso(g, h, n, m, t)
}

/// `p` maps the graph `g` onto itself.
pub open spec fn is_aut(g: Seq<u64>, n: nat, m: nat, p: Seq<usize>) -> bool {
    is_iso(g, g, n, m, p)
}

/// The word `k` of row `i` of `g` relabelled by `p`, with its first `b` bits filled in.
pub open spec fn pword(g: Seq<u64>, n: nat, m: nat, p: Seq<usize>, i: nat, k: nat, b: nat) -> u64
    decreases b,
{
    if b == 0 {
        0u64
    } else {
        let w = pword(g, n, m, p, i, k, (b - 1) as nat);
        let j = k * 64 + (b - 1);
        if j < n && arc(g, m, p[i as int] as nat, p[j as int] as nat) {
            w | (1u64 << ((64 - b) as u64))
        } else {
            w
        }
    }
}

/// The packed matrix of `g` with its vertices put in the order `p`:
/// its arc `i -> j` is the arc `p[i] -> p[j]` of `g`.
pub open spec fn permuted(g: Seq<u64>, n: nat, m: nat, p: Seq<usize>) -> Seq<u64> {
    Seq::new(n * m, |x: int| pword(g, n, m, p, (x / m as int) as nat, (x % m as int) as nat, 64))
}

/// `a` comes strictly before `b` in word-by-word lexicographic order.
pub open spec fn lex_lt(a: Seq<u64>, b: Seq<u64>) -> bool {
    exists|k: int|
        0 <= k < a.len() && k < b.len() && (forall|t: int| 0 <= t < k ==> a[t] == b[t])
            && #[trigger] a[k] < b[k]
}

/// `a` equals `b` or comes before it.
pub open spec fn lex_le(a: Seq<u64>, b: Seq<u64>) -> bool {
    a == b || lex_lt(a, b)
}

/// `c` is the least relabelling of `g`, in lexicographic order, over all permutations.
pub open spec fn is_canonical_form(g: Seq<u64>, n: nat, m: nat, c: Seq<u64>) -> bool {
    &&& exists|p: Seq<usize>| is_perm(p, n) && c == permuted(g, n, m, p)
    &&& forall|q: Seq<usize>| is_perm(q, n) ==> lex_le(c, #[trigger] permuted(g, n, m, q))
}

/// `q` followed by `t`: position `i` goes to `t[q[i]]`.
pub open spec fn compose(t: Seq<usize>, q: Seq<usize>) -> Seq<usize> {
    Seq::new(q.len(), |i: int| t[q[i] as int])
}

/// Position of the words of `(i, j)` within the matrix.
pub proof fn lemma_index(n: nat, m: nat, i: nat, j: nat)
    requires
        m == words_for(n),
        i < n,
        j < n,
    ensures
        j / 64 < m,
        i * m + j / 64 < n * m,
        ((i * m + j / 64) as int) / (m as int) == i,
        ((i * m + j / 64) as int) % (m as int) == j / 64,
{
    assert(j / 64 < m) by {
        assert((n + 63) / 64 >= (j + 64) / 64) by {
            vstd::arithmetic::div_mod::lemma_div_is_ordered((j + 64) as int, (n + 63) as int, 64);
        }
        assert((j + 64) / 64 == j / 64 + 1) by {
            vstd::arithmetic::div_mod::lemma_fundamental_div_mod(j as int, 64);
            lemma_fundamental_div_mod_converse((j + 64) as int, 64, (j / 64 + 1) as int, (j % 64) as int);
        }
    }
    assert(i * m + j / 64 < n * m) by (nonlinear_arith)
        requires
            i < n,
            j / 64 < m,
    ;
    lemma_fundamental_div_mod_converse((i * m + j / 64) as int, m as int, i as int, (j / 64) as int);
}

/// A word index below `n * m` lies in one of the first `n` rows.
pub proof fn lemma_div_below(x: int, m: int, n: int)
    requires
        0 <= x < n * m,
        m > 0,
    ensures
        0 <= x / m < n,
        0 <= x % m < m,
{
    vstd::arithmetic::div_mod::lemma_fundamental_div_mod(x, m);
    let q = x / m;
    let r = x % m;
    assert(0 <= q < n) by (nonlinear_arith)
        requires
            x == m * q + r,
            0 <= r < m,
            0 <= x < n * m,
            m > 0,
    ;
}

/// Different cells of the matrix live in different bits.
pub proof fn lemma_index_injective(n: nat, m: nat, i: nat, j: nat, u: nat, v: nat)
    requires
        m == words_for(n),
        i < n,
        j < n,
        u < n,
        v < n,
        i * m + j / 64 == u * m + v / 64,
        j % 64 == v % 64,
    ensures
        i == u,
        j == v,
{
    lemma_index(n, m, i, j);
    lemma_index(n, m, u, v);
    vstd::arithmetic::div_mod::lemma_fundamental_div_mod(j as int, 64);
    vstd::arithmetic::div_mod::lemma_fundamental_div_mod(v as int, 64);
}

proof fn lemma_bit_or_u64(w: u64, c: u64, t: u64)
    by (bit_vector)
    requires
        c < 64,
        t < 64,
    ensures
        ((w | (1u64 << ((63 - c) as u64))) >> ((63 - t) as u64)) & 1u64 == 1u64 <==> ((w >> ((63
            - t) as u64)) & 1u64 == 1u64 || t == c),
{
}

proof fn lemma_bit_zero_u64(t: u64)
    by (bit_vector)
    requires
        t < 64,
    ensures
        (0u64 >> ((63 - t) as u64)) & 1u64 != 1u64,
{
}

/// Setting bit `c` of a word changes that bit alone.
pub proof fn lemma_bit_set(w: u64, c: nat, t: nat)
    requires
        c < 64,
        t < 64,
    ensures
        bit(w | (1u64 << ((63 - c) as u64)), t) == (bit(w, t) || t == c),
{
    lemma_bit_or_u64(w, c as u64, t as u64);
}

/// No bit of zero is set.
pub proof fn lemma_bit_zero(t: nat)
    ensures
        !bit(0u64, t),
{
    if t < 64 {
        lemma_bit_zero_u64(t as u64);
    }
}

/// The bits of a word built by `pword`.
pub proof fn lemma_pword_bits(g: Seq<u64>, n: nat, m: nat, p: Seq<usize>, i: nat, k: nat, b: nat, t: nat)
    requires
        b <= 64,
        t < 64,
    ensures
        bit(pword(g, n, m, p, i, k, b), t) == (t < b && k * 64 + t < n && arc(
            g,
            m,
            p[i as int] as nat,
            p[(k * 64 + t) as int] as nat,
        )),
    decreases b,
{
    if b == 0 {
        lemma_bit_zero(t);
    } else {
        lemma_pword_bits(g, n, m, p, i, k, (b - 1) as nat, t);
        lemma_bit_set(pword(g, n, m, p, i, k, (b - 1) as nat), (b - 1) as nat, t);
    }
}

/// The arcs of a relabelled matrix are those of `g`, read through `p`.
pub proof fn lemma_permuted_arc(g: Seq<u64>, n: nat, m: nat, p: Seq<usize>, i: nat, j: nat)
    requires
        m == words_for(n),
        i < n,
        j < n,
    ensures
        permuted(g, n, m, p).len() == n * m,
        arc(permuted(g, n, m, p), m, i, j) == arc(g, m, p[i as int] as nat, p[j as int] as nat),
{
    lemma_index(n, m, i, j);
    vstd::arithmetic::div_mod::lemma_fundamental_div_mod(j as int, 64);
    lemma_pword_bits(g, n, m, p, i, j / 64, 64, j % 64);
}

/// Words built from the same arcs are equal.
pub proof fn lemma_pword_congruent(
    g: Seq<u64>,
    h: Seq<u64>,
    n: nat,
    m: nat,
    p: Seq<usize>,
    q: Seq<usize>,
    i: nat,
    k: nat,
    b: nat,
)
    requires
        forall|j: nat|
            j < n ==> arc(g, m, p[i as int] as nat, p[j as int] as nat) == arc(
                h,
                m,
                q[i as int] as nat,
                q[j as int] as nat,
            ),
    ensures
        pword(g, n, m, p, i, k, b) == pword(h, n, m, q, i, k, b),
    decreases b,
{
    if b > 0 {
        lemma_pword_congruent(g, h, n, m, p, q, i, k, (b - 1) as nat);
    }
}

/// Relabelling `h` by `q` is relabelling `g` by `t` after `q`, where `t` maps `g` to `h`.
pub proof fn lemma_permuted_iso(g: Seq<u64>, h: Seq<u64>, n: nat, m: nat, t: Seq<usize>, q: Seq<usize>)
    requires
        m == words_for(n),
        is_iso(g, h, n, m, t),
        is_perm(q, n),
    ensures
        is_perm(compose(t, q), n),
        permuted(h, n, m, q) == permuted(g, n, m, compose(t, q)),
{
    let c = compose(t, q);
    lemma_compose_perm(t, q, n);
    assert forall|x: int| 0 <= x < n * m implies #[trigger] permuted(h, n, m, q)[x] == permuted(g, n, m, c)[x] by {
        let i = (x / m as int) as nat;
        assert(i < n) by {
            lemma_div_below(x, m as int, n as int);
        }
        assert forall|j: nat| j < n implies arc(h, m, q[i as int] as nat, q[j as int] as nat) == arc(
            g,
            m,
            c[i as int] as nat,
            c[j as int] as nat,
        ) by {
            assert(q[j as int] < n);
            assert(q[i as int] < n);
        }
        lemma_pword_congruent(h, g, n, m, q, c, i, (x % m as int) as nat, 64);
    }
    assert(permuted(h, n, m, q) =~= permuted(g, n, m, c));
}

/// The composition of two permutations is a permutation.
pub proof fn lemma_compose_perm(t: Seq<usize>, q: Seq<usize>, n: nat)
    requires
        is_perm(t, n),
        is_perm(q, n),
    ensures
        is_perm(compose(t, q), n),
{
    let c = compose(t, q);
    assert forall|i: int| 0 <= i < n implies #[trigger] c[i] < n by {
        assert(q[i] < n);
    }
    assert forall|i: int, j: int| 0 <= i < n && 0 <= j < n && i != j implies #[trigger] c[i] != #[trigger] c[j] by {
        assert(q[i] != q[j]);
        assert(q[i] < n && q[j] < n);
    }
    assert forall|v: usize| v < n implies #[trigger] c.contains(v) by {
        assert(t.contains(v));
        let a = choose|a: int| 0 <= a < t.len() && t[a] == v;
        assert(q.contains(a as usize));
        let b = choose|b: int| 0 <= b < q.len() && q[b] == a as usize;
        assert(c[b] == v);
    }
}

/// Every permutation has an inverse.
pub proof fn lemma_inverse(t: Seq<usize>, n: nat) -> (s: Seq<usize>)
    requires
        is_perm(t, n),
    ensures
        is_perm(s, n),
        forall|v: int| 0 <= v < n ==> t[#[trigger] s[v] as int] == v,
{
    let s = Seq::new(n, |v: int| choose|i: usize| i < n && t[i as int] == v);
    assert forall|v: int| 0 <= v < n implies #[trigger] s[v] < n && t[s[v] as int] == v by {
        assert(t.contains(v as usize));
        let a = choose|a: int| 0 <= a < t.len() && t[a] == v as usize;
        assert((a as usize) < n && t[(a as usize) as int] == v);
    }
    assert forall|a: int, b: int| 0 <= a < n && 0 <= b < n && a != b implies #[trigger] s[a] != #[trigger] s[b] by {
        assert(t[s[a] as int] == a);
        assert(t[s[b] as int] == b);
    }
    assert forall|i: usize| i < n implies #[trigger] s.contains(i) by {
        let v = t[i as int];
        assert(v < n);
        assert(t[s[v as int] as int] == v);
        assert(s[v as int] == i);
    }
    s
}

/// Lexicographic order admits no two-way strict comparison.
pub proof fn lemma_lex_antisymmetric(a: Seq<u64>, b: Seq<u64>)
    requires
        lex_le(a, b),
        lex_le(b, a),
    ensures
        a == b,
{
    if a != b {
        let k1 = choose|k: int|
            0 <= k < a.len() && k < b.len() && (forall|t: int| 0 <= t < k ==> a[t] == b[t])
                && #[trigger] a[k] < b[k];
        let k2 = choose|k: int|
            0 <= k < b.len() && k < a.len() && (forall|t: int| 0 <= t < k ==> b[t] == a[t])
                && #[trigger] b[k] < a[k];
        if k1 < k2 {
            assert(b[k1] == a[k1]);
        } else if k2 < k1 {
            assert(a[k2] == b[k2]);
        }
    }
}

/// Lexicographic order is transitive.
pub proof fn lemma_lex_trans(a: Seq<u64>, b: Seq<u64>, c: Seq<u64>)
    requires
        lex_le(a, b),
        lex_le(b, c),
    ensures
        lex_le(a, c),
{
    if a != b && b != c {
        let k1 = choose|k: int|
            0 <= k < a.len() && k < b.len() && (forall|t: int| 0 <= t < k ==> a[t] == b[t])
                && #[trigger] a[k] < b[k];
        let k2 = choose|k: int|
            0 <= k < b.len() && k < c.len() && (forall|t: int| 0 <= t < k ==> b[t] == c[t])
                && #[trigger] b[k] < c[k];
        let k = if k1 < k2 { k1 } else { k2 };
        assert(forall|t: int| 0 <= t < k ==> a[t] == c[t]);
        assert(a[k] < c[k]);
    }
}

} // verus!
