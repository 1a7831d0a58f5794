use vstd::prelude::*;
use crate::dense::{addressable, has_arc};
use crate::matrix::{arc, is_matrix, lex_le, lex_lt, lemma_lex_antisymmetric, lemma_lex_trans};
use crate::search::lex_less;

verus! {

/// How many `t < j` satisfy `f`.
pub open spec fn count(f: spec_fn(int) -> bool, j: nat) -> nat
    decreases j,
{
    if j == 0 {
        0
    } else {
        count(f, (j - 1) as nat) + if f(j - 1) {
            1nat
        } else {
            0nat
        }
    }
}

/// The number of neighbours of `v` among `0..j` that lie in cell `c`.
pub open spec fn deg(g: Seq<u64>, m: nat, cells: Seq<usize>, v: nat, c: nat, j: nat) -> nat {
    count(|t: int| arc(g, m, v, t as nat) && cells[t] == c, j)
}

/// The number of vertices among `0..j` in a cell before cell `x`.
pub open spec fn count_lt(cells: Seq<usize>, x: usize, j: nat) -> nat {
    count(|t: int| cells[t] < x, j)
}

/// The number of keys among the first `j` that come before `s`.
pub open spec fn count_below(keys: Seq<Vec<u64>>, s: Seq<u64>, j: nat) -> nat {
    count(|t: int| lex_lt(keys[t]@, s), j)
}

/// Cells are numbered by position: the id of a vertex's cell is the number
/// of vertices in earlier cells.
pub open spec fn positional(cells: Seq<usize>, n: nat) -> bool {
    &&& cells.len() == n
    &&& forall|v: int| 0 <= v < n ==> #[trigger] cells[v] == count_lt(cells, cells[v], n)
}

/// Every two vertices of a cell have as many neighbours as each other in each cell.
pub open spec fn is_equitable(g: Seq<u64>, n: nat, m: nat, cells: Seq<usize>) -> bool {
    &&& cells.len() == n
    &&& forall|v: int| 0 <= v < n ==> #[trigger] cells[v] < n
    &&& forall|u: nat, v: nat, c: nat|
        u < n && v < n && c < n && cells[u as int] == cells[v as int] ==> #[trigger] deg(g, m, cells, u, c, n)
            == #[trigger] deg(g, m, cells, v, c, n)
}

/// `fine` splits the cells of `coarse` and keeps their order.
pub open spec fn refines(fine: Seq<usize>, coarse: Seq<u64>, n: nat) -> bool {
    &&& forall|u: int, v: int| 0 <= u < n && 0 <= v < n && coarse[u] < coarse[v] ==> #[trigger] fine[u] < #[trigger] fine[v]
    &&& forall|u: int, v: int| 0 <= u < n && 0 <= v < n && #[trigger] fine[u] == #[trigger] fine[v] ==> coarse[u] == coarse[v]
}

/// The sum of the first `j` entries.
pub open spec fn sum(s: Seq<usize>, j: nat) -> nat
    decreases j,
{
    if j == 0 {
        0
    } else {
        sum(s, (j - 1) as nat) + s[j - 1] as nat
    }
}

pub proof fn lemma_count_bound(f: spec_fn(int) -> bool, j: nat)
    ensures
        count(f, j) <= j,
    decreases j,
{
    if j > 0 {
        lemma_count_bound(f, (j - 1) as nat);
    }
}

/// A count that misses `t0` stays below `j`.
pub proof fn lemma_count_misses(f: spec_fn(int) -> bool, j: nat, t0: int)
    requires
        0 <= t0 < j,
        !f(t0),
    ensures
        count(f, j) < j,
    decreases j,
{
    if t0 < j - 1 {
        lemma_count_misses(f, (j - 1) as nat, t0);
    } else {
        lemma_count_bound(f, (j - 1) as nat);
    }
}

pub proof fn lemma_count_mono(f: spec_fn(int) -> bool, h: spec_fn(int) -> bool, j: nat)
    requires
        forall|t: int| 0 <= t < j && #[trigger] f(t) ==> h(t),
    ensures
        count(f, j) <= count(h, j),
    decreases j,
{
    if j > 0 {
        lemma_count_mono(f, h, (j - 1) as nat);
    }
}

pub proof fn lemma_count_strict(f: spec_fn(int) -> bool, h: spec_fn(int) -> bool, j: nat, t0: int)
    requires
        forall|t: int| 0 <= t < j && #[trigger] f(t) ==> h(t),
        0 <= t0 < j,
        !f(t0),
        h(t0),
    ensures
        count(f, j) < count(h, j),
    decreases j,
{
    if t0 < j - 1 {
        lemma_count_strict(f, h, (j - 1) as nat, t0);
    } else {
        lemma_count_mono(f, h, (j - 1) as nat);
    }
}

pub proof fn lemma_count_ext(f: spec_fn(int) -> bool, h: spec_fn(int) -> bool, j: nat)
    requires
        forall|t: int| 0 <= t < j ==> #[trigger] f(t) == h(t),
    ensures
        count(f, j) == count(h, j),
    decreases j,
{
    if j > 0 {
        lemma_count_ext(f, h, (j - 1) as nat);
    }
}

pub proof fn lemma_sum_strict(a: Seq<usize>, b: Seq<usize>, j: nat, t0: int)
    requires
        forall|t: int| 0 <= t < j ==> #[trigger] a[t] <= b[t],
        0 <= t0 < j,
        a[t0] < b[t0],
    ensures
        sum(a, j) < sum(b, j),
    decreases j,
{
    if t0 < j - 1 {
        lemma_sum_strict(a, b, (j - 1) as nat, t0);
    } else {
        lemma_sum_mono(a, b, (j - 1) as nat);
    }
}

pub proof fn lemma_sum_mono(a: Seq<usize>, b: Seq<usize>, j: nat)
    requires
        forall|t: int| 0 <= t < j ==> #[trigger] a[t] <= b[t],
    ensures
        sum(a, j) <= sum(b, j),
    decreases j,
{
    if j > 0 {
        lemma_sum_mono(a, b, (j - 1) as nat);
    }
}

pub proof fn lemma_sum_bound(a: Seq<usize>, j: nat, n: nat)
    requires
        forall|t: int| 0 <= t < j ==> #[trigger] a[t] < n,
    ensures
        sum(a, j) <= j * n,
    decreases j,
{
    if j > 0 {
        lemma_sum_bound(a, (j - 1) as nat, n);
        assert((j - 1) * n + n == j * n) by (nonlinear_arith);
    }
}

/// Neighbours of `u` among `0..j` that lie in cell `c` of `cells` and in cell `d` of `q`.
pub open spec fn deg_both(g: Seq<u64>, m: nat, q: Seq<usize>, cells: Seq<usize>, u: nat, c: nat, d: nat, j: nat) -> nat {
    count(in_both(g, m, q, cells, u, c, d), j)
}

/// Whether `t` is a neighbour of `u` in cell `c` of `cells` and in cell `d` of `q`.
pub open spec fn in_both(g: Seq<u64>, m: nat, q: Seq<usize>, cells: Seq<usize>, u: nat, c: nat, d: nat) -> spec_fn(int) -> bool {
    |t: int| arc(g, m, u, t as nat) && cells[t] == c && q[t] == d
}

/// `deg_both` summed over the cells `d < e` of `q`.
pub open spec fn deg_sum(g: Seq<u64>, m: nat, q: Seq<usize>, cells: Seq<usize>, u: nat, c: nat, e: nat, j: nat) -> nat
    decreases e,
{
    if e == 0 {
        0
    } else {
        deg_sum(g, m, q, cells, u, c, (e - 1) as nat, j) + deg_both(g, m, q, cells, u, c, (e - 1) as nat, j)
    }
}

/// Vertices in one cell of `fine` are in one cell of `coarse`.
pub open spec fn finer(fine: Seq<usize>, coarse: Seq<usize>, n: nat) -> bool {
    forall|u: int, v: int| 0 <= u < n && 0 <= v < n && #[trigger] fine[u] == #[trigger] fine[v] ==> coarse[u] == coarse[v]
}

/// `q` splits the colour classes and is equitable.
pub open spec fn equitable_refinement(g: Seq<u64>, n: nat, m: nat, q: Seq<usize>, colors: Seq<u64>) -> bool {
    &&& is_equitable(g, n, m, q)
    &&& forall|u: int, v: int| 0 <= u < n && 0 <= v < n && #[trigger] q[u] == #[trigger] q[v] ==> colors[u] == colors[v]
}

pub proof fn lemma_count_none(f: spec_fn(int) -> bool, j: nat)
    requires
        forall|t: int| 0 <= t < j ==> !#[trigger] f(t),
    ensures
        count(f, j) == 0,
    decreases j,
{
    if j > 0 {
        lemma_count_none(f, (j - 1) as nat);
    }
}

proof fn lemma_deg_sum_zero(g: Seq<u64>, m: nat, q: Seq<usize>, cells: Seq<usize>, u: nat, c: nat, e: nat)
    ensures
        deg_sum(g, m, q, cells, u, c, e, 0) == 0,
    decreases e,
{
    if e > 0 {
        lemma_deg_sum_zero(g, m, q, cells, u, c, (e - 1) as nat);
    }
}

proof fn lemma_deg_sum_step(g: Seq<u64>, m: nat, q: Seq<usize>, cells: Seq<usize>, u: nat, c: nat, e: nat, j: nat)
    ensures
        deg_sum(g, m, q, cells, u, c, e, j + 1) == deg_sum(g, m, q, cells, u, c, e, j) + if arc(g, m, u, j)
            && cells[j as int] == c && q[j as int] < e {
            1nat
        } else {
            0nat
        },
    decreases e,
{
    if e > 0 {
        lemma_deg_sum_step(g, m, q, cells, u, c, (e - 1) as nat, j);
    }
}

/// Neighbours in a cell of `cells` add up over the cells of `q`.
proof fn lemma_deg_split(g: Seq<u64>, m: nat, q: Seq<usize>, cells: Seq<usize>, u: nat, c: nat, n: nat, j: nat)
    requires
        forall|t: int| 0 <= t < j ==> #[trigger] q[t] < n,
    ensures
        deg(g, m, cells, u, c, j) == deg_sum(g, m, q, cells, u, c, n, j),
    decreases j,
{
    if j == 0 {
        lemma_deg_sum_zero(g, m, q, cells, u, c, n);
    } else {
        lemma_deg_split(g, m, q, cells, u, c, n, (j - 1) as nat);
        lemma_deg_sum_step(g, m, q, cells, u, c, n, (j - 1) as nat);
        assert(q[j - 1] < n);
    }
}

proof fn lemma_deg_sum_eq(g: Seq<u64>, m: nat, q: Seq<usize>, cells: Seq<usize>, u: nat, v: nat, c: nat, e: nat, j: nat)
    requires
        forall|d: nat| d < e ==> #[trigger] deg_both(g, m, q, cells, u, c, d, j) == deg_both(g, m, q, cells, v, c, d, j),
    ensures
        deg_sum(g, m, q, cells, u, c, e, j) == deg_sum(g, m, q, cells, v, c, e, j),
    decreases e,
{
    if e > 0 {
        lemma_deg_sum_eq(g, m, q, cells, u, v, c, (e - 1) as nat, j);
        assert(deg_both(g, m, q, cells, u, c, (e - 1) as nat, j) == deg_both(g, m, q, cells, v, c, (e - 1) as nat, j));
    }
}

/// Two vertices in one cell of an equitable partition `q` finer than `cells`
/// have as many neighbours as each other in each cell of `cells`.
pub proof fn lemma_deg_coarsen(g: Seq<u64>, n: nat, m: nat, q: Seq<usize>, cells: Seq<usize>, u: nat, v: nat, c: nat)
    requires
        is_equitable(g, n, m, q),
        finer(q, cells, n),
        cells.len() == n,
        u < n,
        v < n,
        q[u as int] == q[v as int],
    ensures
        deg(g, m, cells, u, c, n) == deg(g, m, cells, v, c, n),
{
    assert forall|d: nat| d < n implies #[trigger] deg_both(g, m, q, cells, u, c, d, n) == deg_both(g, m, q, cells, v, c, d, n) by {
        let fu = in_both(g, m, q, cells, u, c, d);
        let fv = in_both(g, m, q, cells, v, c, d);
        let gu = |t: int| arc(g, m, u, t as nat) && q[t] == d;
        let gv = |t: int| arc(g, m, v, t as nat) && q[t] == d;
        assert(deg(g, m, q, u, d, n) == count(gu, n));
        assert(deg(g, m, q, v, d, n) == count(gv, n));
        if exists|w: int| 0 <= w < n && q[w] == d && cells[w] == c {
            let w = choose|w: int| 0 <= w < n && q[w] == d && cells[w] == c;
            assert forall|t: int| 0 <= t < n implies #[trigger] fu(t) == gu(t) by {
                if q[t] == d {
                    assert(q[t] == q[w]);
                }
            }
            assert forall|t: int| 0 <= t < n implies #[trigger] fv(t) == gv(t) by {
                if q[t] == d {
                    assert(q[t] == q[w]);
                }
            }
            lemma_count_ext(fu, gu, n);
            lemma_count_ext(fv, gv, n);
            assert(deg(g, m, q, u, d, n) == deg(g, m, q, v, d, n));
        } else {
            assert forall|t: int| 0 <= t < n implies !#[trigger] fu(t) by {}
            assert forall|t: int| 0 <= t < n implies !#[trigger] fv(t) by {}
            lemma_count_none(fu, n);
            lemma_count_none(fv, n);
        }
    }
    lemma_deg_sum_eq(g, m, q, cells, u, v, c, n, n);
    lemma_deg_split(g, m, q, cells, u, c, n, n);
    lemma_deg_split(g, m, q, cells, v, c, n, n);
}

/// A strict step followed by a weak one is strict.
pub proof fn lemma_lex_lt_le(a: Seq<u64>, b: Seq<u64>, c: Seq<u64>)
    requires
        lex_lt(a, b),
        lex_le(b, c),
    ensures
        lex_lt(a, c),
{
    lemma_lex_trans(a, b, c);
    if a == c {
        lemma_lex_antisymmetric(a, b);
        let k = choose|k: int|
            0 <= k < a.len() && k < b.len() && (forall|t: int| 0 <= t < k ==> a[t] == b[t])
                && #[trigger] a[k] < b[k];
    }
}

pub proof fn lemma_lex_irreflexive(a: Seq<u64>)
    ensures
        !lex_lt(a, a),
{
}

/// Numbers each position by how many keys come strictly before its own.
fn rank_by_keys(keys: &Vec<Vec<u64>>, len: Ghost<nat>) -> (r: Vec<usize>)
    requires
        forall|t: int| 0 <= t < keys@.len() ==> (#[trigger] keys@[t])@.len() == len@,
    ensures
        r@.len() == keys@.len(),
        forall|v: int| 0 <= v < keys@.len() ==> #[trigger] r@[v] == count_below(keys@, keys@[v]@, keys@.len() as nat),
{
    let n = keys.len();
    let mut r: Vec<usize> = Vec::new();
    let mut v: usize = 0;
    while v < n
        invariant
            n == keys@.len(),
            forall|t: int| 0 <= t < keys@.len() ==> (#[trigger] keys@[t])@.len() == len@,
            v <= n,
            r@.len() == v,
            forall|u: int| 0 <= u < v ==> #[trigger] r@[u] == count_below(keys@, keys@[u]@, n as nat),
        decreases n - v,
    {
        let mut c: usize = 0;
        let mut t: usize = 0;
        while t < n
            invariant
                n == keys@.len(),
                forall|x: int| 0 <= x < keys@.len() ==> (#[trigger] keys@[x])@.len() == len@,
                v < n,
                t <= n,
                c == count_below(keys@, keys@[v as int]@, t as nat),
            decreases n - t,
        {
            proof {
                lemma_count_bound(|x: int| lex_lt(keys@[x]@, keys@[v as int]@), t as nat);
            }
            if lex_less(&keys[t], &keys[v]) {
                c = c + 1;
            }
            t = t + 1;
        }
        r.push(c);
        v = v + 1;
    }
    r
}

/// Ranking by keys keeps the keys' order and merges only equal keys.
pub proof fn lemma_rank_order(keys: Seq<Vec<u64>>, r: Seq<usize>, len: nat)
    requires
        forall|t: int| 0 <= t < keys.len() ==> (#[trigger] keys[t])@.len() == len,
        r.len() == keys.len(),
        forall|v: int| 0 <= v < keys.len() ==> #[trigger] r[v] == count_below(keys, keys[v]@, keys.len() as nat),
    ensures
        forall|u: int, v: int|
            0 <= u < keys.len() && 0 <= v < keys.len() ==> (lex_lt(keys[u]@, keys[v]@) <==> #[trigger] r[u]
                < #[trigger] r[v]),
        forall|u: int, v: int|
            0 <= u < keys.len() && 0 <= v < keys.len() ==> (keys[u]@ == keys[v]@ <==> #[trigger] r[u]
                == #[trigger] r[v]),
        positional(r, keys.len() as nat),
{
    let n = keys.len() as nat;
    assert forall|u: int, v: int| 0 <= u < n && 0 <= v < n && lex_lt(keys[u]@, keys[v]@) implies #[trigger] r[u]
        < #[trigger] r[v] by {
        let f = |x: int| lex_lt(keys[x]@, keys[u]@);
        let h = |x: int| lex_lt(keys[x]@, keys[v]@);
        assert forall|x: int| 0 <= x < n && #[trigger] f(x) implies h(x) by {
            lemma_lex_trans(keys[x]@, keys[u]@, keys[v]@);
            lemma_lex_lt_le(keys[x]@, keys[u]@, keys[v]@);
        }
        lemma_count_strict(f, h, n, u);
    }
    assert forall|u: int, v: int| 0 <= u < n && 0 <= v < n && keys[u]@ == keys[v]@ implies #[trigger] r[u]
        == #[trigger] r[v] by {}
    assert forall|u: int, v: int|
        0 <= u < n && 0 <= v < n implies (lex_lt(keys[u]@, keys[v]@) <==> #[trigger] r[u] < #[trigger] r[v])
            && (keys[u]@ == keys[v]@ <==> r[u] == r[v]) by {
        if !lex_lt(keys[u]@, keys[v]@) {
            lemma_lex_total(keys[u]@, keys[v]@);
            if keys[u]@ != keys[v]@ {
                assert(lex_lt(keys[v]@, keys[u]@));
                assert(r[v] < r[u]);
            }
        } else {
            lemma_lex_irreflexive(keys[u]@);
        }
    }
    assert forall|v: int| 0 <= v < n implies #[trigger] r[v] == count_lt(r, r[v], n) by {
        let f = |x: int| r[x] < r[v];
        let h = |x: int| lex_lt(keys[x]@, keys[v]@);
        assert forall|x: int| 0 <= x < n implies #[trigger] f(x) == h(x) by {
            assert(lex_lt(keys[x]@, keys[v]@) <==> r[x] < r[v]);
        }
        lemma_count_ext(f, h, n);
    }
}

/// Two keys of the same length are ordered one way or the other, or equal.
pub proof fn lemma_lex_total(a: Seq<u64>, b: Seq<u64>)
    requires
        a.len() == b.len(),
    ensures
        lex_lt(a, b) || lex_lt(b, a) || a == b,
    decreases a.len(),
{
    if a != b {
        if a.len() > 0 && a[0] == b[0] {
            lemma_lex_total(a.drop_first(), b.drop_first());
            if a.drop_first() == b.drop_first() {
                assert(a =~= b) by {
                    assert forall|k: int| 0 <= k < a.len() implies a[k] == b[k] by {
                        if k > 0 {
                            assert(a[k] == a.drop_first()[k - 1]);
                            assert(b[k] == b.drop_first()[k - 1]);
                        }
                    }
                }
            } else if lex_lt(a.drop_first(), b.drop_first()) {
                let k = choose|k: int|
                    0 <= k < a.drop_first().len() && k < b.drop_first().len() && (forall|t: int|
                        0 <= t < k ==> a.drop_first()[t] == b.drop_first()[t]) && #[trigger] a.drop_first()[k]
                        < b.drop_first()[k];
                assert forall|t: int| 0 <= t < k + 1 implies a[t] == b[t] by {
                    if t > 0 {
                        assert(a[t] == a.drop_first()[t - 1]);
                        assert(b[t] == b.drop_first()[t - 1]);
                    }
                }
                assert(a[k + 1] < b[k + 1]);
            } else {
                let k = choose|k: int|
                    0 <= k < b.drop_first().len() && k < a.drop_first().len() && (forall|t: int|
                        0 <= t < k ==> b.drop_first()[t] == a.drop_first()[t]) && #[trigger] b.drop_first()[k]
                        < a.drop_first()[k];
                assert forall|t: int| 0 <= t < k + 1 implies b[t] == a[t] by {
                    if t > 0 {
                        assert(a[t] == a.drop_first()[t - 1]);
                        assert(b[t] == b.drop_first()[t - 1]);
                    }
                }
                assert(b[k + 1] < a[k + 1]);
            }
        } else if a.len() > 0 {
            if a[0] < b[0] {
                assert(lex_lt(a, b));
            } else {
                assert(lex_lt(b, a));
            }
        } else {
            assert(a =~= b);
        }
    }
}

/// The key of each vertex: its cell, then its number of neighbours in each
/// of the cells `0..n`.
fn signatures(g: &Vec<u64>, n: usize, m: usize, cells: &Vec<usize>) -> (r: Vec<Vec<u64>>)
    requires
        is_matrix(g@, n as nat, m as nat),
        addressable(n as nat),
        cells@.len() == n,
        forall|v: int| 0 <= v < n ==> #[trigger] cells@[v] < n,
    ensures
        r@.len() == n,
        forall|v: int| 0 <= v < n ==> (#[trigger] r@[v])@.len() == n + 1,
        forall|v: int| 0 <= v < n ==> (#[trigger] r@[v])@[0] == cells@[v] as u64,
        forall|v: int, c: int|
            0 <= v < n && 0 <= c < n ==> r@[v]@[c + 1] == #[trigger] deg(g@, m as nat, cells@, v as nat, c as nat, n as nat) as u64,
{
    let mut r: Vec<Vec<u64>> = Vec::new();
    let mut v: usize = 0;
    while v < n
        invariant
            is_matrix(g@, n as nat, m as nat),
            addressable(n as nat),
            cells@.len() == n,
            forall|x: int| 0 <= x < n ==> #[trigger] cells@[x] < n,
            v <= n,
            r@.len() == v,
            forall|u: int| 0 <= u < v ==> (#[trigger] r@[u])@.len() == n + 1,
            forall|u: int| 0 <= u < v ==> (#[trigger] r@[u])@[0] == cells@[u] as u64,
            forall|u: int, c: int|
                0 <= u < v && 0 <= c < n ==> r@[u]@[c + 1] == #[trigger] deg(g@, m as nat, cells@, u as nat, c as nat, n as nat) as u64,
        decreases n - v,
    {
        let mut counts: Vec<usize> = Vec::new();
        let mut c: usize = 0;
        while c < n
            invariant
                c <= n,
                counts@.len() == c,
                forall|x: int| 0 <= x < c ==> #[trigger] counts@[x] == 0,
            decreases n - c,
        {
            counts.push(0);
            c = c + 1;
        }
        let mut j: usize = 0;
        while j < n
            invariant
                is_matrix(g@, n as nat, m as nat),
                addressable(n as nat),
                cells@.len() == n,
                forall|x: int| 0 <= x < n ==> #[trigger] cells@[x] < n,
                v < n,
                j <= n,
                counts@.len() == n,
                forall|x: int| 0 <= x < n ==> #[trigger] counts@[x] == deg(g@, m as nat, cells@, v as nat, x as nat, j as nat),
            decreases n - j,
        {
            let ghost before = counts@;
            proof {
                lemma_count_bound(|t: int| arc(g@, m as nat, v as nat, t as nat) && cells@[t] == cells@[j as int] as nat, j as nat);
            }
            if has_arc(g, n, m, v, j) {
                let x = cells[j];
                let k = counts[x];
                counts.set(x, k + 1);
            }
            j = j + 1;
        }
        let mut sig: Vec<u64> = Vec::new();
        sig.push(cells[v] as u64);
        let mut c: usize = 0;
        while c < n
            invariant
                c <= n,
                v < n,
                counts@.len() == n,
                forall|x: int| 0 <= x < n ==> #[trigger] counts@[x] == deg(g@, m as nat, cells@, v as nat, x as nat, n as nat),
                sig@.len() == c + 1,
                sig@[0] == cells@[v as int] as u64,
                forall|x: int| 0 <= x < c ==> #[trigger] sig@[x + 1] == counts@[x] as u64,
            decreases n - c,
        {
            sig.push(counts[c] as u64);
            c = c + 1;
        }
        r.push(sig);
        v = v + 1;
    }
    r
}

/// Looks for two vertices of one cell whose keys differ, the first before the second.
fn find_split(cells: &Vec<usize>, keys: &Vec<Vec<u64>>, len: Ghost<nat>) -> (r: Option<(usize, usize)>)
    requires
        keys@.len() == cells@.len(),
        forall|t: int| 0 <= t < keys@.len() ==> (#[trigger] keys@[t])@.len() == len@,
    ensures
        r matches Some((a, b)) ==> a < cells@.len() && b < cells@.len() && cells@[a as int] == cells@[b as int]
            && lex_lt(keys@[a as int]@, keys@[b as int]@),
        r is None ==> forall|u: int, v: int|
            0 <= u < cells@.len() && 0 <= v < cells@.len() && #[trigger] cells@[u] == #[trigger] cells@[v]
                ==> !lex_lt(keys@[u]@, keys@[v]@),
{
    let n = cells.len();
    let mut u: usize = 0;
    while u < n
        invariant
            n == cells@.len(),
            keys@.len() == n,
            forall|t: int| 0 <= t < keys@.len() ==> (#[trigger] keys@[t])@.len() == len@,
            u <= n,
            forall|x: int, y: int|
                0 <= x < u && 0 <= y < n && #[trigger] cells@[x] == #[trigger] cells@[y] ==> !lex_lt(keys@[x]@, keys@[y]@),
        decreases n - u,
    {
        let mut v: usize = 0;
        while v < n
            invariant
                n == cells@.len(),
                keys@.len() == n,
                forall|t: int| 0 <= t < keys@.len() ==> (#[trigger] keys@[t])@.len() == len@,
                u < n,
                v <= n,
                forall|x: int, y: int|
                    ((0 <= x < u && 0 <= y < n) || (x == u && 0 <= y < v)) && #[trigger] cells@[x] == #[trigger] cells@[y]
                        ==> !lex_lt(keys@[x]@, keys@[y]@),
            decreases n - v,
        {
            if cells[u] == cells[v] && lex_less(&keys[u], &keys[v]) {
                return Some((u, v));
            }
            v = v + 1;
        }
        u = u + 1;
    }
    None
}

/// Refines an ordered colouring of the vertices into an equitable ordered
/// partition. Vertices of one colour stay together only while they agree on
/// their cell and on their number of neighbours in every cell; a cell that
/// splits gives sub-cells ordered by those numbers. The cells keep the
/// colours' order, and each is numbered by how many vertices lie in earlier cells.
pub fn refine(g: &Vec<u64>, n: usize, m: usize, colors: &Vec<u64>) -> (cells: Vec<usize>)
    requires
        is_matrix(g@, n as nat, m as nat),
        addressable(n as nat),
        colors@.len() == n,
    ensures
        is_equitable(g@, n as nat, m as nat, cells@),
        refines(cells@, colors@, n as nat),
        positional(cells@, n as nat),
        forall|q: Seq<usize>| #[trigger] equitable_refinement(g@, n as nat, m as nat, q, colors@) ==> finer(q, cells@, n as nat),
{
    let mut keys: Vec<Vec<u64>> = Vec::new();
    let mut v: usize = 0;
    while v < n
        invariant
            colors@.len() == n,
            v <= n,
            keys@.len() == v,
            forall|t: int| 0 <= t < v ==> (#[trigger] keys@[t])@ == seq![colors@[t]],
        decreases n - v,
    {
        let mut k: Vec<u64> = Vec::new();
        k.push(colors[v]);
        keys.push(k);
        v = v + 1;
    }
    let mut cells = rank_by_keys(&keys, Ghost(1nat));
    proof {
        lemma_rank_order(keys@, cells@, 1);
        assert forall|u: int, w: int| 0 <= u < n && 0 <= w < n && colors@[u] < colors@[w] implies #[trigger] cells@[u]
            < #[trigger] cells@[w] by {
            assert(keys@[u]@[0] < keys@[w]@[0]);
            assert(lex_lt(keys@[u]@, keys@[w]@));
        }
        assert forall|u: int, w: int| 0 <= u < n && 0 <= w < n && #[trigger] cells@[u] == #[trigger] cells@[w] implies colors@[u]
            == colors@[w] by {
            assert(keys@[u]@[0] == keys@[w]@[0]);
        }
        assert forall|x: int| 0 <= x < n implies #[trigger] cells@[x] < n by {
            lemma_count_misses(|t: int| cells@[t] < cells@[x], n as nat, x);
        }
        lemma_sum_bound(cells@, n as nat, n as nat);
        assert forall|q: Seq<usize>| #[trigger] equitable_refinement(g@, n as nat, m as nat, q, colors@) implies finer(
            q,
            cells@,
            n as nat,
        ) by {
            assert forall|u: int, w: int| 0 <= u < n && 0 <= w < n && #[trigger] q[u] == #[trigger] q[w] implies cells@[u]
                == cells@[w] by {
                assert(colors@[u] == colors@[w]);
                assert(keys@[u]@ =~= keys@[w]@);
            }
        }
    }
    loop
        invariant
            is_matrix(g@, n as nat, m as nat),
            addressable(n as nat),
            colors@.len() == n,
            positional(cells@, n as nat),
            refines(cells@, colors@, n as nat),
            forall|x: int| 0 <= x < n ==> #[trigger] cells@[x] < n,
            sum(cells@, n as nat) <= n * n,
            forall|q: Seq<usize>| #[trigger] equitable_refinement(g@, n as nat, m as nat, q, colors@) ==> finer(q, cells@, n as nat),
        decreases n * n - sum(cells@, n as nat),
    {
        let sigs = signatures(g, n, m, &cells);
        match find_split(&cells, &sigs, Ghost((n + 1) as nat)) {
            None => {
                proof {
                    assert forall|u: nat, w: nat, c: nat|
                        u < n && w < n && c < n && cells@[u as int] == cells@[w as int] implies #[trigger] deg(
                        g@,
                        m as nat,
                        cells@,
                        u,
                        c,
                        n as nat,
                    ) == #[trigger] deg(g@, m as nat, cells@, w, c, n as nat) by {
                        let su = sigs@[u as int]@;
                        let sw = sigs@[w as int]@;
                        assert(!lex_lt(su, sw));
                        assert(!lex_lt(sw, su));
                        lemma_lex_total(su, sw);
                        assert(su[c + 1 as int] == sw[c + 1 as int]);
                        let ui = u as int;
                        let wi = w as int;
                        let ci = c as int;
                        assert(sigs@[ui]@[ci + 1] == deg(g@, m as nat, cells@, ui as nat, ci as nat, n as nat) as u64);
                        assert(sigs@[wi]@[ci + 1] == deg(g@, m as nat, cells@, wi as nat, ci as nat, n as nat) as u64);
                        lemma_count_bound(|t: int| arc(g@, m as nat, u, t as nat) && cells@[t] == c, n as nat);
                        lemma_count_bound(|t: int| arc(g@, m as nat, w, t as nat) && cells@[t] == c, n as nat);
                    }
                }
                return cells;
            },
            Some((a, b)) => {
                let next = rank_by_keys(&sigs, Ghost((n + 1) as nat));
                proof {
                    lemma_rank_order(sigs@, next@, (n + 1) as nat);
                    assert forall|u: int, w: int| 0 <= u < n && 0 <= w < n && cells@[u] < cells@[w] implies #[trigger] next@[u]
                        < #[trigger] next@[w] by {
                        assert(sigs@[u]@[0] < sigs@[w]@[0]);
                        assert(lex_lt(sigs@[u]@, sigs@[w]@));
                    }
                    assert forall|u: int, w: int| 0 <= u < n && 0 <= w < n && colors@[u] < colors@[w] implies #[trigger] next@[u]
                        < #[trigger] next@[w] by {
                        assert(cells@[u] < cells@[w]);
                    }
                    assert forall|u: int, w: int| 0 <= u < n && 0 <= w < n && #[trigger] next@[u] == #[trigger] next@[w] implies colors@[u]
                        == colors@[w] by {
                        assert(sigs@[u]@[0] == sigs@[w]@[0]);
                        assert(cells@[u] == cells@[w]);
                    }
                    assert forall|x: int| 0 <= x < n implies #[trigger] next@[x] < n by {
                        lemma_count_misses(|t: int| next@[t] < next@[x], n as nat, x);
                    }
                    assert forall|x: int| 0 <= x < n implies #[trigger] cells@[x] <= next@[x] by {
                        let f = |t: int| cells@[t] < cells@[x];
                        let h = |t: int| lex_lt(sigs@[t]@, sigs@[x]@);
                        assert forall|t: int| 0 <= t < n && #[trigger] f(t) implies h(t) by {
                            assert(sigs@[t]@[0] < sigs@[x]@[0]);
                        }
                        lemma_count_mono(f, h, n as nat);
                    }
                    let f = |t: int| cells@[t] < cells@[b as int];
                    let h = |t: int| lex_lt(sigs@[t]@, sigs@[b as int]@);
                    assert forall|t: int| 0 <= t < n && #[trigger] f(t) implies h(t) by {
                        assert(sigs@[t]@[0] < sigs@[b as int]@[0]);
                    }
                    lemma_count_strict(f, h, n as nat, a as int);
                    lemma_sum_strict(cells@, next@, n as nat, b as int);
                    lemma_sum_bound(next@, n as nat, n as nat);
                    assert forall|q: Seq<usize>| #[trigger] equitable_refinement(g@, n as nat, m as nat, q, colors@) implies finer(
                        q,
                        next@,
                        n as nat,
                    ) by {
                        assert forall|u: int, w: int| 0 <= u < n && 0 <= w < n && #[trigger] q[u] == #[trigger] q[w] implies next@[u]
                            == next@[w] by {
                            assert(finer(q, cells@, n as nat));
                            assert(cells@[u] == cells@[w]);
                            assert forall|k: int| 0 <= k < n + 1 implies sigs@[u]@[k] == sigs@[w]@[k] by {
                                if k > 0 {
                                    let c = k - 1;
                                    lemma_deg_coarsen(g@, n as nat, m as nat, q, cells@, u as nat, w as nat, c as nat);
                                    assert(sigs@[u]@[c + 1] == deg(g@, m as nat, cells@, u as nat, c as nat, n as nat) as u64);
                                    assert(sigs@[w]@[c + 1] == deg(g@, m as nat, cells@, w as nat, c as nat, n as nat) as u64);
                                }
                            }
                            assert(sigs@[u]@ =~= sigs@[w]@);
                        }
                    }
                }
                cells = next;
            },
        }
    }
}

} // verus!
