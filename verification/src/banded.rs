//! The band ordering for the fast eigen-solve: a section's strips couple only neighbouring
//! nodes, so after a reverse Cuthill-McKee reordering the stiffness matrices are narrow bands.
//! This holds the ordering, on the matrices' nonzero pattern, and the band's storage layout.
use vstd::prelude::*;

verus! {

// ---------------------------------------------------------------------------------------------
// Band storage.

/// Where entry `(i, j)` (`j <= i`, `i - j <= b`) of a symmetric band of half-width `b` is
/// stored: row `i` holds columns `i - b ..= i`, left to right.
pub open spec fn band_slot_spec(i: int, j: int, b: int) -> int {
    i * (b + 1) + (b - (i - j))
}

/// The storage place of entry `(i, j)` of the lower half of a band of half-width `b`.
pub fn band_slot(i: usize, j: usize, b: usize, n: usize) -> (s: usize)
    requires
        j <= i < n,
        i - j <= b,
        n * (b + 1) <= usize::MAX,
    ensures
        s == band_slot_spec(i as int, j as int, b as int),
        s < n * (b + 1),
{
    proof {
        assert(i * (b + 1) + (b + 1) <= n * (b + 1)) by (nonlinear_arith)
            requires
                i < n,
        ;
    }
    i * (b + 1) + (b - (i - j))
}

/// Each entry of the band's lower half has a storage place of its own, inside `n (b + 1)`.
pub proof fn lemma_band_slots_are_distinct(n: int, b: int)
    requires
        b >= 0,
    ensures
        forall|i: int, j: int|
            0 <= j <= i < n && i - j <= b ==> 0 <= #[trigger] band_slot_spec(i, j, b) < n * (b
                + 1),
        forall|i1: int, j1: int, i2: int, j2: int|
            0 <= j1 <= i1 < n && i1 - j1 <= b && 0 <= j2 <= i2 < n && i2 - j2 <= b && (i1 != i2
                || j1 != j2) ==> #[trigger] band_slot_spec(i1, j1, b) != #[trigger] band_slot_spec(
                i2,
                j2,
                b,
            ),
{
    assert forall|i: int, j: int| 0 <= j <= i < n && i - j <= b implies 0 <= #[trigger] band_slot_spec(
        i,
        j,
        b,
    ) < n * (b + 1) by {
        assert(i * (b + 1) + (b + 1) <= n * (b + 1)) by (nonlinear_arith)
            requires
                i < n,
                b >= 0,
        ;
        assert(i * (b + 1) >= 0) by (nonlinear_arith)
            requires
                i >= 0,
                b >= 0,
        ;
    }
    assert forall|i1: int, j1: int, i2: int, j2: int|
        0 <= j1 <= i1 < n && i1 - j1 <= b && 0 <= j2 <= i2 < n && i2 - j2 <= b && (i1 != i2 || j1
            != j2) implies #[trigger] band_slot_spec(i1, j1, b) != #[trigger] band_slot_spec(
        i2,
        j2,
        b,
    ) by {
        if i1 < i2 {
            assert(i1 * (b + 1) + (b + 1) <= i2 * (b + 1)) by (nonlinear_arith)
                requires
                    i1 < i2,
                    b >= 0,
            ;
        } else if i2 < i1 {
            assert(i2 * (b + 1) + (b + 1) <= i1 * (b + 1)) by (nonlinear_arith)
                requires
                    i2 < i1,
                    b >= 0,
            ;
        }
    }
}


// ---------------------------------------------------------------------------------------------
// Reverse Cuthill-McKee.

/// Node `i`'s neighbours among the first `k` nodes: every `j != i` with a nonzero at `(i, j)`,
/// ascending.
pub open spec fn adj_prefix(pat: Seq<Vec<bool>>, i: int, k: int) -> Seq<usize>
    decreases k,
{
    if k <= 0 {
        Seq::empty()
    } else {
        let p = adj_prefix(pat, i, k - 1);
        if k - 1 != i && pat[i]@[k - 1] {
            p.push((k - 1) as usize)
        } else {
            p
        }
    }
}

/// Every node's neighbours in the nonzero pattern.
pub open spec fn adjacency(pat: Seq<Vec<bool>>) -> Seq<Seq<usize>> {
    Seq::new(pat.len(), |i: int| adj_prefix(pat, i, pat.len() as int))
}

/// The entries among the first `k` of `s` that `keep` holds of, in order.
pub open spec fn keep_prefix(s: Seq<usize>, keep: spec_fn(usize) -> bool, k: int) -> Seq<usize>
    decreases k,
{
    if k <= 0 {
        Seq::empty()
    } else {
        let p = keep_prefix(s, keep, k - 1);
        if keep(s[k - 1]) {
            p.push(s[k - 1])
        } else {
            p
        }
    }
}

/// The entries among the first `k` of `s` not yet seen.
pub open spec fn unseen_prefix(s: Seq<usize>, seen: Seq<bool>, k: int) -> Seq<usize> {
    keep_prefix(s, |u: usize| !seen[u as int], k)
}

/// The entries among the first `k` of `s` whose degree is `d`, in order.
pub open spec fn degree_bucket(s: Seq<usize>, adj: Seq<Seq<usize>>, d: int, k: int) -> Seq<usize> {
    keep_prefix(s, |u: usize| adj[u as int].len() == d, k)
}

/// `s` sorted by degree, stably, over degrees below `d`: the entries of degree 0 in order, then
/// those of degree 1, and so on.
pub open spec fn by_degree(s: Seq<usize>, adj: Seq<Seq<usize>>, d: int) -> Seq<usize>
    decreases d,
{
    if d <= 0 {
        Seq::empty()
    } else {
        by_degree(s, adj, d - 1) + degree_bucket(s, adj, d - 1, s.len() as int)
    }
}

/// The first node of least degree among the unseen nodes below `k`.
pub open spec fn lowest_unseen(adj: Seq<Seq<usize>>, seen: Seq<bool>, k: int) -> Option<usize>
    decreases k,
{
    if k <= 0 {
        None
    } else {
        let b = lowest_unseen(adj, seen, k - 1);
        if !seen[k - 1] && (b is None || adj[k - 1].len() < adj[b.unwrap() as int].len()) {
            Some((k - 1) as usize)
        } else {
            b
        }
    }
}

/// The search state: the order so far, which nodes are in it, and the next node to expand.
pub type CmState = (Seq<usize>, Seq<bool>, int);

/// One step of the Cuthill-McKee search: expand the next node of the order, appending its
/// unseen neighbours by increasing degree (stably); when every node of the order has been
/// expanded and some node is left, start a new component from the first unseen node of least
/// degree; when every node is in the order, stay.
pub open spec fn cm_step(adj: Seq<Seq<usize>>, st: CmState) -> CmState {
    let (order, seen, head) = st;
    let n = adj.len() as int;
    if head < order.len() {
        let v = order[head] as int;
        let next = by_degree(unseen_prefix(adj[v], seen, adj[v].len() as int), adj, n);
        (order + next, Seq::new(n as nat, |x: int| seen[x] || next.contains(x as usize)), head + 1)
    } else if order.len() < n {
        match lowest_unseen(adj, seen, n) {
            Some(s) => (order.push(s), seen.update(s as int, true), head),
            None => st,
        }
    } else {
        st
    }
}

/// The search after `k` steps from the empty order.
pub open spec fn cm_run(adj: Seq<Seq<usize>>, k: int) -> CmState
    decreases k,
{
    if k <= 0 {
        (Seq::empty(), Seq::new(adj.len(), |x: int| false), 0)
    } else {
        cm_step(adj, cm_run(adj, k - 1))
    }
}

/// The Cuthill-McKee order: the search run to its end (each node is added and expanded once,
/// so `2 n` steps suffice).
pub open spec fn cuthill_mckee(adj: Seq<Seq<usize>>) -> Seq<usize> {
    cm_run(adj, 2 * adj.len() as int).0
}

/// How many of the first `k` flags are false.
pub open spec fn false_count(seen: Seq<bool>, k: int) -> nat
    decreases k,
{
    if k <= 0 {
        0
    } else {
        false_count(seen, k - 1) + if seen[k - 1] {
            0nat
        } else {
            1nat
        }
    }
}

proof fn lemma_false_count_set(seen: Seq<bool>, x: int, k: int)
    requires
        0 <= x < k <= seen.len(),
        !seen[x],
    ensures
        false_count(seen.update(x, true), k) + 1 == false_count(seen, k),
    decreases k,
{
    if k - 1 > x {
        lemma_false_count_set(seen, x, k - 1);
    } else {
        lemma_false_count_same(seen, seen.update(x, true), x);
    }
}

proof fn lemma_false_count_same(a: Seq<bool>, b: Seq<bool>, k: int)
    requires
        0 <= k <= a.len(),
        k <= b.len(),
        forall|x: int| 0 <= x < k ==> a[x] == b[x],
    ensures
        false_count(a, k) == false_count(b, k),
    decreases k,
{
    if k > 0 {
        lemma_false_count_same(a, b, k - 1);
    }
}

proof fn lemma_false_count_bound(seen: Seq<bool>, k: int)
    requires
        0 <= k,
    ensures
        false_count(seen, k) <= k,
    decreases k,
{
    if k > 0 {
        lemma_false_count_bound(seen, k - 1);
    }
}

proof fn lemma_false_count_positive(seen: Seq<bool>, k: int)
    requires
        0 <= k <= seen.len(),
        false_count(seen, k) > 0,
    ensures
        exists|x: int| 0 <= x < k && !seen[x],
    decreases k,
{
    if k > 0 && seen[k - 1] {
        lemma_false_count_positive(seen, k - 1);
    }
}

proof fn lemma_adj_prefix(pat: Seq<Vec<bool>>, i: int, k: int)
    requires
        0 <= k,
        k <= usize::MAX,
    ensures
        adj_prefix(pat, i, k).len() <= k,
        0 <= i < k ==> adj_prefix(pat, i, k).len() <= k - 1,
        forall|t: int|
            0 <= t < adj_prefix(pat, i, k).len() ==> (#[trigger] adj_prefix(pat, i, k)[t]) < k,
        adj_prefix(pat, i, k).no_duplicates(),
    decreases k,
{
    if k > 0 {
        lemma_adj_prefix(pat, i, k - 1);
        let p = adj_prefix(pat, i, k - 1);
        let q = adj_prefix(pat, i, k);
        if k - 1 != i && pat[i]@[k - 1] {
            assert(q == p.push((k - 1) as usize));
            assert forall|t: int| 0 <= t < q.len() implies q[t] < k by {
                if t < p.len() {
                    assert(q[t] == p[t]);
                }
            }
            assert forall|a: int, b: int| 0 <= a < q.len() && 0 <= b < q.len() && a != b implies q[a]
                != q[b] by {
                if a < p.len() && b < p.len() {
                    assert(q[a] == p[a] && q[b] == p[b]);
                } else if a < p.len() {
                    assert(q[a] == p[a]);
                } else {
                    assert(q[b] == p[b]);
                }
            }
        }
    }
}

proof fn lemma_keep_prefix(s: Seq<usize>, keep: spec_fn(usize) -> bool, k: int)
    requires
        0 <= k <= s.len(),
        s.no_duplicates(),
    ensures
        keep_prefix(s, keep, k).no_duplicates(),
        forall|x: usize| keep_prefix(s, keep, k).contains(x) <==> (s.take(k).contains(x) && keep(x)),
    decreases k,
{
    if k > 0 {
        lemma_keep_prefix(s, keep, k - 1);
        let p = keep_prefix(s, keep, k - 1);
        let q = keep_prefix(s, keep, k);
        let y = s[k - 1];
        assert(s.take(k) == s.take(k - 1).push(y));
        assert(!s.take(k - 1).contains(y)) by {
            if s.take(k - 1).contains(y) {
                let w = choose|w: int| 0 <= w < k - 1 && #[trigger] s.take(k - 1)[w] == y;
                assert(s[w] == y);
            }
        }
        assert forall|x: usize| q.contains(x) <==> (s.take(k).contains(x) && keep(x)) by {
            if q.contains(x) {
                let w = choose|w: int| 0 <= w < q.len() && #[trigger] q[w] == x;
                if w < p.len() {
                    assert(p[w] == x);
                    assert(p.contains(x));
                    let w2 = choose|w2: int| 0 <= w2 < k - 1 && #[trigger] s.take(k - 1)[w2] == x;
                    assert(s.take(k)[w2] == x);
                } else {
                    assert(x == y && keep(y));
                    assert(s.take(k)[k - 1] == x);
                }
            }
            if s.take(k).contains(x) && keep(x) {
                let w = choose|w: int| 0 <= w < k && #[trigger] s.take(k)[w] == x;
                if w < k - 1 {
                    assert(s.take(k - 1)[w] == x);
                    assert(p.contains(x));
                    let w2 = choose|w2: int| 0 <= w2 < p.len() && #[trigger] p[w2] == x;
                    assert(q[w2] == x);
                } else {
                    assert(q[p.len() as int] == x);
                }
            }
        }
        if keep(y) {
            assert forall|a: int, b: int| 0 <= a < q.len() && 0 <= b < q.len() && a != b implies q[a]
                != q[b] by {
                if a < p.len() && b < p.len() {
                    assert(q[a] == p[a] && q[b] == p[b]);
                } else if a < p.len() {
                    assert(q[a] == p[a]);
                    assert(p.contains(p[a]));
                } else if b < p.len() {
                    assert(q[b] == p[b]);
                    assert(p.contains(p[b]));
                }
            }
        }
    }
}

proof fn lemma_by_degree(s: Seq<usize>, adj: Seq<Seq<usize>>, d: int)
    requires
        0 <= d,
        s.no_duplicates(),
        forall|t: int| 0 <= t < s.len() ==> (#[trigger] s[t]) < adj.len(),
    ensures
        by_degree(s, adj, d).no_duplicates(),
        forall|x: usize|
            by_degree(s, adj, d).contains(x) <==> (s.contains(x) && adj[x as int].len() < d),
    decreases d,
{
    if d > 0 {
        lemma_by_degree(s, adj, d - 1);
        lemma_keep_prefix(s, |u: usize| adj[u as int].len() == d - 1, s.len() as int);
        assert(s.take(s.len() as int) =~= s);
        let p = by_degree(s, adj, d - 1);
        let b = degree_bucket(s, adj, d - 1, s.len() as int);
        let q = by_degree(s, adj, d);
        assert(q == p + b);
        assert forall|x: usize| q.contains(x) <==> (s.contains(x) && adj[x as int].len() < d) by {
            if q.contains(x) {
                let w = choose|w: int| 0 <= w < q.len() && #[trigger] q[w] == x;
                if w < p.len() {
                    assert(p[w] == x);
                } else {
                    assert(b[w - p.len()] == x);
                }
            }
            if s.contains(x) && adj[x as int].len() < d {
                if adj[x as int].len() < d - 1 {
                    let w = choose|w: int| 0 <= w < p.len() && #[trigger] p[w] == x;
                    assert(q[w] == x);
                } else {
                    let w = choose|w: int| 0 <= w < b.len() && #[trigger] b[w] == x;
                    assert(q[p.len() + w] == x);
                }
            }
        }
        assert forall|a: int, c: int| 0 <= a < q.len() && 0 <= c < q.len() && a != c implies q[a]
            != q[c] by {
            if a < p.len() && c < p.len() {
                assert(q[a] == p[a] && q[c] == p[c]);
            } else if a >= p.len() && c >= p.len() {
                assert(q[a] == b[a - p.len()] && q[c] == b[c - p.len()]);
            } else if a < p.len() {
                assert(q[a] == p[a] && q[c] == b[c - p.len()]);
                assert(p.contains(p[a]));
                assert(b.contains(b[c - p.len()]));
            } else {
                assert(q[c] == p[c] && q[a] == b[a - p.len()]);
                assert(p.contains(p[c]));
                assert(b.contains(b[a - p.len()]));
            }
        }
    }
}


/// The pattern is square, `n` by `n`.
pub open spec fn is_square(pat: Seq<Vec<bool>>) -> bool {
    forall|i: int| 0 <= i < pat.len() ==> (#[trigger] pat[i])@.len() == pat.len()
}

/// Every node's neighbours.
fn adjacency_exec(pat: &Vec<Vec<bool>>) -> (adj: Vec<Vec<usize>>)
    requires
        is_square(pat@),
    ensures
        adj@.len() == pat@.len(),
        forall|i: int| 0 <= i < pat@.len() ==> (#[trigger] adj@[i])@ == adjacency(pat@)[i],
{
    let n = pat.len();
    let mut adj: Vec<Vec<usize>> = Vec::new();
    for i in 0..n
        invariant
            n == pat@.len(),
            is_square(pat@),
            adj@.len() == i,
            forall|k: int| 0 <= k < i ==> (#[trigger] adj@[k])@ == adjacency(pat@)[k],
    {
        let mut row: Vec<usize> = Vec::new();
        for j in 0..n
            invariant
                n == pat@.len(),
                is_square(pat@),
                i < n,
                row@ == adj_prefix(pat@, i as int, j as int),
        {
            if j != i && pat[i][j] {
                row.push(j);
            }
        }
        adj.push(row);
    }
    adj
}

/// The entries of `row` not yet seen.
fn unseen_exec(row: &Vec<usize>, seen: &Vec<bool>) -> (v: Vec<usize>)
    requires
        forall|t: int| 0 <= t < row@.len() ==> (#[trigger] row@[t]) < seen@.len(),
    ensures
        v@ == unseen_prefix(row@, seen@, row@.len() as int),
{
    let mut v: Vec<usize> = Vec::new();
    for t in 0..row.len()
        invariant
            forall|t: int| 0 <= t < row@.len() ==> (#[trigger] row@[t]) < seen@.len(),
            v@ == unseen_prefix(row@, seen@, t as int),
    {
        if !seen[row[t]] {
            v.push(row[t]);
        }
    }
    v
}

/// `s` sorted stably by degree.
fn sort_by_degree(s: &Vec<usize>, deg: &Vec<usize>, Ghost(adj): Ghost<Seq<Seq<usize>>>) -> (v: Vec<
    usize,
>)
    requires
        deg@.len() == adj.len(),
        forall|u: int| 0 <= u < adj.len() ==> #[trigger] deg@[u] == adj[u].len(),
        forall|t: int| 0 <= t < s@.len() ==> (#[trigger] s@[t]) < adj.len(),
    ensures
        v@ == by_degree(s@, adj, adj.len() as int),
{
    let n = deg.len();
    let mut v: Vec<usize> = Vec::new();
    for d in 0..n
        invariant
            n == adj.len(),
            deg@.len() == adj.len(),
            forall|u: int| 0 <= u < adj.len() ==> #[trigger] deg@[u] == adj[u].len(),
            forall|t: int| 0 <= t < s@.len() ==> (#[trigger] s@[t]) < adj.len(),
            v@ == by_degree(s@, adj, d as int),
    {
        let ghost before = v@;
        for t in 0..s.len()
            invariant
                n == adj.len(),
                deg@.len() == adj.len(),
                forall|u: int| 0 <= u < adj.len() ==> #[trigger] deg@[u] == adj[u].len(),
                forall|t: int| 0 <= t < s@.len() ==> (#[trigger] s@[t]) < adj.len(),
                v@ == before + degree_bucket(s@, adj, d as int, t as int),
        {
            if deg[s[t]] == d {
                v.push(s[t]);
                assert(v@ =~= before + degree_bucket(s@, adj, d as int, t + 1));
            }
        }
    }
    v
}

/// The first unseen node of least degree.
fn lowest_exec(deg: &Vec<usize>, seen: &Vec<bool>, Ghost(adj): Ghost<Seq<Seq<usize>>>) -> (r: Option<
    usize,
>)
    requires
        deg@.len() == adj.len(),
        seen@.len() == adj.len(),
        forall|u: int| 0 <= u < adj.len() ==> #[trigger] deg@[u] == adj[u].len(),
    ensures
        r == lowest_unseen(adj, seen@, adj.len() as int),
{
    let mut best: Option<usize> = None;
    for x in 0..deg.len()
        invariant
            deg@.len() == adj.len(),
            seen@.len() == adj.len(),
            forall|u: int| 0 <= u < adj.len() ==> #[trigger] deg@[u] == adj[u].len(),
            best == lowest_unseen(adj, seen@, x as int),
            best matches Some(b) ==> b < x,
    {
        if !seen[x] {
            match best {
                None => best = Some(x),
                Some(b) => if deg[x] < deg[b] {
                    best = Some(x);
                },
            }
        }
    }
    best
}

proof fn lemma_lowest_unseen(adj: Seq<Seq<usize>>, seen: Seq<bool>, k: int)
    requires
        0 <= k <= seen.len(),
        seen.len() <= usize::MAX,
    ensures
        lowest_unseen(adj, seen, k) matches Some(x) ==> x < k && !seen[x as int],
        (exists|x: int| 0 <= x < k && !seen[x]) ==> lowest_unseen(adj, seen, k) is Some,
    decreases k,
{
    if k > 0 {
        lemma_lowest_unseen(adj, seen, k - 1);
        if exists|x: int| 0 <= x < k && !seen[x] {
            if !seen[k - 1] {
            } else {
                let x = choose|x: int| 0 <= x < k && !seen[x];
                assert(x < k - 1);
            }
        }
    }
}

proof fn lemma_cm_done(adj: Seq<Seq<usize>>, k: int, k2: int)
    requires
        0 <= k <= k2,
        cm_run(adj, k).2 == cm_run(adj, k).0.len(),
        cm_run(adj, k).0.len() >= adj.len(),
    ensures
        cm_run(adj, k2) == cm_run(adj, k),
    decreases k2 - k,
{
    if k < k2 {
        lemma_cm_done(adj, k, k2 - 1);
    }
}

/// The order is made of distinct nodes, exactly the ones seen.
pub open spec fn order_inv(order: Seq<usize>, seen: Seq<bool>, n: int) -> bool {
    &&& seen.len() == n
    &&& order.no_duplicates()
    &&& forall|t: int| 0 <= t < order.len() ==> (#[trigger] order[t]) < n
    &&& forall|x: usize| 0 <= x < n ==> (seen[x as int] <==> order.contains(x))
    &&& false_count(seen, n) + order.len() == n
}

/// Appends `u`, not yet seen, to the order and marks it seen.
fn add_node(order: &mut Vec<usize>, seen: &mut Vec<bool>, u: usize)
    requires
        order_inv(old(order)@, old(seen)@, old(seen)@.len() as int),
        u < old(seen)@.len(),
        !old(seen)@[u as int],
    ensures
        final(order)@ == old(order)@.push(u),
        final(seen)@ == old(seen)@.update(u as int, true),
        order_inv(final(order)@, final(seen)@, old(seen)@.len() as int),
{
    let ghost n = seen@.len() as int;
    let ghost o0 = order@;
    let ghost s0 = seen@;
    proof {
        lemma_false_count_set(s0, u as int, n);
    }
    seen.set(u, true);
    order.push(u);
    proof {
        assert(!o0.contains(u));
        assert forall|a: int, b: int| 0 <= a < order@.len() && 0 <= b < order@.len() && a != b implies order@[a]
            != order@[b] by {
            if a < o0.len() && b < o0.len() {
            } else if a < o0.len() {
                assert(o0.contains(o0[a]));
            } else if b < o0.len() {
                assert(o0.contains(o0[b]));
            }
        }
        assert forall|x: usize| 0 <= x < n implies (seen@[x as int] <==> order@.contains(x)) by {
            if x == u {
                assert(order@[o0.len() as int] == u);
            } else {
                if order@.contains(x) {
                    let w = choose|w: int| 0 <= w < order@.len() && #[trigger] order@[w] == x;
                    assert(o0[w] == x);
                }
                if o0.contains(x) {
                    let w = choose|w: int| 0 <= w < o0.len() && #[trigger] o0[w] == x;
                    assert(order@[w] == x);
                }
            }
        }
    }
}


proof fn lemma_false_count_all_false(seen: Seq<bool>, k: int)
    requires
        0 <= k <= seen.len(),
        forall|x: int| 0 <= x < seen.len() ==> !seen[x],
    ensures
        false_count(seen, k) == k,
    decreases k,
{
    if k > 0 {
        lemma_false_count_all_false(seen, k - 1);
    }
}

/// The distance between two places of the order.
pub open spec fn gap(a: int, b: int) -> int {
    if a >= b {
        a - b
    } else {
        b - a
    }
}

/// Expands the next node of the order: appends its unseen neighbours by increasing degree.
fn expand(
    order: &mut Vec<usize>,
    seen: &mut Vec<bool>,
    head: usize,
    adj: &Vec<Vec<usize>>,
    deg: &Vec<usize>,
    Ghost(pat): Ghost<Seq<Vec<bool>>>,
)
    requires
        is_square(pat),
        pat.len() <= usize::MAX / 2,
        adj@.len() == pat.len(),
        forall|i: int| 0 <= i < pat.len() ==> (#[trigger] adj@[i])@ == adjacency(pat)[i],
        deg@.len() == pat.len(),
        forall|u: int| 0 <= u < pat.len() ==> #[trigger] deg@[u] == adjacency(pat)[u].len(),
        order_inv(old(order)@, old(seen)@, pat.len() as int),
        head < old(order)@.len(),
    ensures
        cm_step(adjacency(pat), (old(order)@, old(seen)@, head as int)) == (
            final(order)@,
            final(seen)@,
            head + 1,
        ),
        order_inv(final(order)@, final(seen)@, pat.len() as int),
{
    let ghost adjs = adjacency(pat);
    let ghost n = pat.len() as int;
    let v = order[head];
    let ghost o0 = order@;
    let ghost s0 = seen@;
    proof {
        lemma_adj_prefix(pat, v as int, n);
        assert(adj@[v as int]@ == adj_prefix(pat, v as int, n));
    }
    let nx0 = unseen_exec(&adj[v], seen);
    proof {
        lemma_keep_prefix(adjs[v as int], |u: usize| !s0[u as int], adjs[v as int].len() as int);
        assert(adjs[v as int].take(adjs[v as int].len() as int) =~= adjs[v as int]);
        assert forall|t: int| 0 <= t < nx0@.len() implies (#[trigger] nx0@[t]) < n by {
            assert(nx0@.contains(nx0@[t]));
        }
        assert forall|u: int| 0 <= u < n implies adjs[u].len() < n by {
            lemma_adj_prefix(pat, u, n);
        }
    }
    let nxt = sort_by_degree(&nx0, deg, Ghost(adjs));
    proof {
        lemma_by_degree(nx0@, adjs, n);
        assert forall|t: int| 0 <= t < nxt@.len() implies (#[trigger] nxt@[t]) < n && !s0[nxt@[t] as int] by {
            assert(nxt@.contains(nxt@[t]));
            assert(nx0@.contains(nxt@[t]));
        }
    }
    for t in 0..nxt.len()
        invariant
            n == pat.len(),
            n <= usize::MAX,
            nxt@.no_duplicates(),
            forall|t: int| 0 <= t < nxt@.len() ==> (#[trigger] nxt@[t]) < n && !s0[nxt@[t] as int],
            order@ == o0 + nxt@.take(t as int),
            seen@ == Seq::new(n as nat, |x: int| s0[x] || nxt@.take(t as int).contains(x as usize)),
            order_inv(order@, seen@, n),
            s0.len() == n,
    {
        let u = nxt[t];
        proof {
            assert(!nxt@.take(t as int).contains(u)) by {
                if nxt@.take(t as int).contains(u) {
                    let w = choose|w: int| 0 <= w < t && #[trigger] nxt@.take(t as int)[w] == u;
                    assert(nxt@[w] == nxt@[t as int]);
                }
            }
            assert(!seen@[u as int]);
        }
        let ghost seen_t = seen@;
        let ghost order_t = order@;
        add_node(order, seen, u);
        proof {
            let pre = nxt@.take(t as int);
            let post = nxt@.take(t + 1);
            assert(seen_t == Seq::new(n as nat, |x: int| s0[x] || pre.contains(x as usize)));
            assert(post =~= pre.push(u));
            assert(order@ =~= o0 + post);
            assert forall|x: int| 0 <= x < n implies #[trigger] seen@[x] == (s0[x] || post.contains(
                x as usize,
            )) by {
                let f = |y: int| s0[y] || pre.contains(y as usize);
                assert(seen_t == Seq::new(n as nat, f));
                assert(Seq::new(n as nat, f)[x] == f(x));
                assert(seen_t[x] == (s0[x] || pre.contains(x as usize)));
                if pre.contains(x as usize) {
                    let w = choose|w: int| 0 <= w < pre.len() && #[trigger] pre[w] == x as usize;
                    assert(post[w] == x as usize);
                }
                if post.contains(x as usize) && x as usize != u {
                    let w = choose|w: int| 0 <= w < post.len() && #[trigger] post[w] == x as usize;
                    assert(w < t);
                    assert(pre[w] == x as usize);
                }
                if x as usize == u {
                    assert(post[t as int] == u);
                }
            }
            assert(seen@ =~= Seq::new(n as nat, |x: int| s0[x] || post.contains(x as usize)));
        }
    }
    proof {
        assert(nxt@.take(nxt@.len() as int) =~= nxt@);
    }
}

/// The reverse Cuthill-McKee ordering of a square nonzero pattern (`pattern[i][j]` whether
/// entry `(i, j)` of either matrix is nonzero), new to old: each component is searched breadth
/// first from its first node of least degree, neighbours taken by increasing degree, and the
/// whole order is then reversed. Also the half-bandwidth in that order: the largest distance
/// between neighbours.
pub fn rcm(pattern: &Vec<Vec<bool>>) -> (r: (Vec<usize>, usize))
    requires
        is_square(pattern@),
        pattern@.len() <= usize::MAX / 2,
    ensures
        r.0@ == cuthill_mckee(adjacency(pattern@)).reverse(),
        r.0@.len() == pattern@.len(),
        r.0@.no_duplicates(),
        forall|t: int| 0 <= t < r.0@.len() ==> (#[trigger] r.0@[t]) < pattern@.len(),
        forall|k1: int, k2: int|
            0 <= k1 < r.0@.len() && 0 <= k2 < r.0@.len() && adjacency(pattern@)[r.0@[k1] as int].contains(
                r.0@[k2],
            ) ==> gap(k1, k2) <= r.1,
        r.1 == 0 || exists|k1: int, k2: int|
            0 <= k1 < r.0@.len() && 0 <= k2 < r.0@.len() && adjacency(pattern@)[r.0@[k1] as int].contains(
                r.0@[k2],
            ) && gap(k1, k2) == r.1,
{
    let n = pattern.len();
    let ghost pat = pattern@;
    let ghost adjs = adjacency(pat);
    let adj = adjacency_exec(pattern);
    let mut deg: Vec<usize> = Vec::new();
    for i in 0..n
        invariant
            n == pat.len(),
            adj@.len() == n,
            forall|i: int| 0 <= i < n ==> (#[trigger] adj@[i])@ == adjs[i],
            deg@.len() == i,
            forall|u: int| 0 <= u < i ==> #[trigger] deg@[u] == adjs[u].len(),
    {
        deg.push(adj[i].len());
    }
    let mut seen: Vec<bool> = Vec::new();
    for i in 0..n
        invariant
            seen@ == Seq::new(i as nat, |x: int| false),
    {
        seen.push(false);
        assert(seen@ =~= Seq::new((i + 1) as nat, |x: int| false));
    }
    let mut order: Vec<usize> = Vec::new();
    let mut head: usize = 0;
    let ghost mut k: int = 0;
    proof {
        lemma_false_count_all_false(seen@, n as int);
        assert(cm_run(adjs, 0) == (order@, seen@, 0int));
    }
    loop
        invariant
            n == pat.len(),
            is_square(pat),
            n <= usize::MAX / 2,
            adjs == adjacency(pat),
            adj@.len() == n,
            forall|i: int| 0 <= i < n ==> (#[trigger] adj@[i])@ == adjs[i],
            deg@.len() == n,
            forall|u: int| 0 <= u < n ==> #[trigger] deg@[u] == adjs[u].len(),
            order_inv(order@, seen@, n as int),
            head <= order@.len(),
            0 <= k <= order@.len() + head,
            cm_run(adjs, k) == (order@, seen@, head as int),
        ensures
            order_inv(order@, seen@, n as int),
            head == order@.len(),
            order@.len() >= n,
            0 <= k <= order@.len() + head,
            cm_run(adjs, k) == (order@, seen@, head as int),
        decreases 2 * n - order@.len() - head,
    {
        proof {
            lemma_false_count_bound(seen@, n as int);
        }
        if head < order.len() {
            expand(&mut order, &mut seen, head, &adj, &deg, Ghost(pat));
            head = head + 1;
            proof {
                k = k + 1;
            }
        } else if order.len() < n {
            proof {
                lemma_false_count_positive(seen@, n as int);
                lemma_lowest_unseen(adjs, seen@, n as int);
            }
            let s = lowest_exec(&deg, &seen, Ghost(adjs));
            match s {
                Some(x) => {
                    add_node(&mut order, &mut seen, x);
                },
                None => {
                    assert(false);
                    break;
                },
            }
            proof {
                k = k + 1;
            }
        } else {
            break;
        }
    }
    proof {
        lemma_false_count_bound(seen@, n as int);
        lemma_cm_done(adjs, k, 2 * n);
    }
    let mut ord: Vec<usize> = Vec::new();
    for t in 0..n
        invariant
            n == order@.len(),
            ord@.len() == t,
            forall|u: int| 0 <= u < t ==> #[trigger] ord@[u] == order@[n - 1 - u],
    {
        ord.push(order[n - 1 - t]);
    }
    proof {
        if n > 0 {
            assert(ord@ =~= order@.reverse());
        } else {
            assert(ord@ =~= order@.reverse());
        }
        assert(ord@.no_duplicates()) by {
            assert forall|a: int, b: int| 0 <= a < n && 0 <= b < n && a != b implies ord@[a] != ord@[b] by {
                assert(ord@[a] == order@[n - 1 - a] && ord@[b] == order@[n - 1 - b]);
            }
        }
        assert forall|x: usize| 0 <= x < n implies ord@.contains(x) by {
            assert(seen@[x as int]) by {
                if !seen@[x as int] {
                    lemma_false_count_positive_of(seen@, x as int, n as int);
                }
            }
            let w = choose|w: int| 0 <= w < order@.len() && #[trigger] order@[w] == x;
            assert(ord@[n - 1 - w] == x);
        }
    }
    let mut pos: Vec<usize> = Vec::new();
    for t in 0..n
        invariant
            pos@.len() == t,
    {
        pos.push(0);
    }
    for t in 0..n
        invariant
            n == ord@.len(),
            pos@.len() == n,
            ord@.no_duplicates(),
            forall|u: int| 0 <= u < n ==> (#[trigger] ord@[u]) < n,
            forall|u: int| 0 <= u < t ==> #[trigger] pos@[ord@[u] as int] == u,
    {
        pos.set(ord[t], t);
        proof {
            assert forall|u: int| 0 <= u < t + 1 implies #[trigger] pos@[ord@[u] as int] == u by {
                if u < t {
                    assert(ord@[u] != ord@[t as int]);
                }
            }
        }
    }
    proof {
        assert forall|x: int| 0 <= x < n implies #[trigger] pos@[x] < n && ord@[pos@[x] as int] == x by {
            assert(ord@.contains(x as usize));
            let w = choose|w: int| 0 <= w < n && #[trigger] ord@[w] == x as usize;
            assert(pos@[ord@[w] as int] == w);
        }
    }
    let bw = bandwidth(&adj, &pos, &ord, Ghost(pat));
    (ord, bw)
}

proof fn lemma_false_count_positive_of(seen: Seq<bool>, x: int, k: int)
    requires
        0 <= x < k <= seen.len(),
        !seen[x],
    ensures
        false_count(seen, k) > 0,
    decreases k,
{
    if k - 1 > x {
        lemma_false_count_positive_of(seen, x, k - 1);
    }
}

/// The largest distance, in the order, between neighbours.
fn bandwidth(adj: &Vec<Vec<usize>>, pos: &Vec<usize>, ord: &Vec<usize>, Ghost(pat): Ghost<
    Seq<Vec<bool>>,
>) -> (bw: usize)
    requires
        is_square(pat),
        adj@.len() == pat.len(),
        forall|i: int| 0 <= i < pat.len() ==> (#[trigger] adj@[i])@ == adjacency(pat)[i],
        pos@.len() == pat.len(),
        ord@.len() == pat.len(),
        forall|u: int| 0 <= u < pat.len() ==> #[trigger] pos@[ord@[u] as int] == u,
        forall|u: int| 0 <= u < pat.len() ==> (#[trigger] ord@[u]) < pat.len(),
        forall|x: int| 0 <= x < pat.len() ==> #[trigger] pos@[x] < pat.len() && ord@[pos@[x] as int] == x,
    ensures
        forall|k1: int, k2: int|
            0 <= k1 < ord@.len() && 0 <= k2 < ord@.len() && adjacency(pat)[ord@[k1] as int].contains(
                ord@[k2],
            ) ==> gap(k1, k2) <= bw,
        bw == 0 || exists|k1: int, k2: int|
            0 <= k1 < ord@.len() && 0 <= k2 < ord@.len() && adjacency(pat)[ord@[k1] as int].contains(
                ord@[k2],
            ) && gap(k1, k2) == bw,
{
    let n = adj.len();
    let ghost adjs = adjacency(pat);
    let mut bw: usize = 0;
    for i in 0..n
        invariant
            n == pat.len(),
            is_square(pat),
            adjs == adjacency(pat),
            adj@.len() == n,
            forall|i: int| 0 <= i < n ==> (#[trigger] adj@[i])@ == adjs[i],
            pos@.len() == n,
            ord@.len() == n,
            forall|x: int| 0 <= x < n ==> #[trigger] pos@[x] < n && ord@[pos@[x] as int] == x,
            forall|i2: int, t: int|
                0 <= i2 < i && 0 <= t < adjs[i2].len() ==> gap(
                    pos@[i2] as int,
                    pos@[#[trigger] adjs[i2][t] as int] as int,
                ) <= bw,
            bw == 0 || exists|i2: int, t: int|
                0 <= i2 < n && 0 <= t < adjs[i2].len() && gap(
                    pos@[i2] as int,
                    pos@[#[trigger] adjs[i2][t] as int] as int,
                ) == bw,
    {
        proof {
            lemma_adj_prefix(pat, i as int, n as int);
        }
        let row = &adj[i];
        for t in 0..row.len()
            invariant
                n == pat.len(),
                adjs == adjacency(pat),
                i < n,
                row@ == adjs[i as int],
                forall|t: int| 0 <= t < row@.len() ==> (#[trigger] row@[t]) < n,
                pos@.len() == n,
                forall|x: int| 0 <= x < n ==> #[trigger] pos@[x] < n && ord@[pos@[x] as int] == x,
                forall|i2: int, t2: int|
                    0 <= i2 < i && 0 <= t2 < adjs[i2].len() ==> gap(
                        pos@[i2] as int,
                        pos@[#[trigger] adjs[i2][t2] as int] as int,
                    ) <= bw,
                forall|t2: int|
                    0 <= t2 < t ==> gap(pos@[i as int] as int, pos@[#[trigger] adjs[i as int][t2] as int] as int)
                        <= bw,
                bw == 0 || exists|i2: int, t2: int|
                    0 <= i2 < n && 0 <= t2 < adjs[i2].len() && gap(
                        pos@[i2] as int,
                        pos@[#[trigger] adjs[i2][t2] as int] as int,
                    ) == bw,
        {
            let j = row[t];
            let a = pos[i];
            let b = pos[j];
            let d = if a >= b {
                a - b
            } else {
                b - a
            };
            if d > bw {
                bw = d;
                assert(gap(pos@[i as int] as int, pos@[adjs[i as int][t as int] as int] as int) == bw);
            }
        }
    }
    proof {
        assert forall|k1: int, k2: int|
            0 <= k1 < n && 0 <= k2 < n && adjs[ord@[k1] as int].contains(ord@[k2]) implies gap(k1, k2)
            <= bw by {
            let i2 = ord@[k1] as int;
            let t = choose|t: int| 0 <= t < adjs[i2].len() && #[trigger] adjs[i2][t] == ord@[k2];
            assert(pos@[ord@[k1] as int] == k1);
            assert(pos@[ord@[k2] as int] == k2);
            assert(gap(pos@[i2] as int, pos@[adjs[i2][t] as int] as int) <= bw);
        }
        if bw != 0 {
            let (i2, t) = choose|i2: int, t: int|
                0 <= i2 < n && 0 <= t < adjs[i2].len() && gap(
                    pos@[i2] as int,
                    pos@[#[trigger] adjs[i2][t] as int] as int,
                ) == bw;
            lemma_adj_prefix(pat, i2, n as int);
            let j = adjs[i2][t] as int;
            let k1 = pos@[i2] as int;
            let k2 = pos@[j] as int;
            assert(ord@[k1] as int == i2);
            assert(ord@[k2] as int == j);
            assert(adjs[ord@[k1] as int].contains(ord@[k2]));
        }
    }
    bw
}

} // verus!
