//! The discrete steps of the thin-walled section properties with torsion and warping: whether
//! the section is a closed single cell, the order that strings a closed cell's strips into a
//! loop, and the walk over an open section's strips along which the unit warping is
//! accumulated, one newly reached node per strip.
use vstd::prelude::*;
use crate::model::{Strip, strips_in_range};

verus! {

// ---------------------------------------------------------------------------------------------
// Closed or open.

/// How many times node `i` is an end among the first `k` strips.
pub open spec fn end_count(es: Seq<Strip>, i: int, k: int) -> nat
    decreases k,
{
    if k <= 0 {
        0
    } else {
        end_count(es, i, k - 1) + (if es[k - 1].ni == i {
            1nat
        } else {
            0nat
        }) + (if es[k - 1].nj == i {
            1nat
        } else {
            0nat
        })
    }
}

/// How many of the first `k` nodes are an end exactly twice.
pub open spec fn twos_before(es: Seq<Strip>, k: int) -> nat
    decreases k,
{
    if k <= 0 {
        0
    } else {
        twos_before(es, k - 1) + if end_count(es, k - 1, es.len() as int) == 2 {
            1nat
        } else {
            0nat
        }
    }
}

/// A section is a closed cell when as many nodes are an end exactly twice as there are strips.
pub open spec fn is_closed_spec(es: Seq<Strip>, n: nat) -> bool {
    twos_before(es, n as int) == es.len()
}

/// Whether the section is a closed single cell: as many nodes meet exactly two strip ends as
/// there are strips.
pub fn section_is_closed(es: &Vec<Strip>, nnodes: usize) -> (b: bool)
    requires
        strips_in_range(es@, nnodes as nat),
        es@.len() <= usize::MAX / 4,
    ensures
        b == is_closed_spec(es@, nnodes as nat),
{
    let mut count: Vec<usize> = Vec::new();
    for i in 0..nnodes
        invariant
            count@.len() == i,
            forall|k: int| 0 <= k < i ==> #[trigger] count@[k] == 0,
    {
        count.push(0);
    }
    for j in 0..es.len()
        invariant
            nnodes == count@.len(),
            strips_in_range(es@, nnodes as nat),
            es@.len() <= usize::MAX / 4,
            forall|k: int| 0 <= k < nnodes ==> #[trigger] count@[k] == end_count(es@, k, j as int),
            forall|k: int| 0 <= k < nnodes ==> #[trigger] count@[k] <= 2 * j,
    {
        let e = es[j];
        proof {
            assert(e.ni < nnodes && e.nj < nnodes);
        }
        count.set(e.ni, count[e.ni] + 1);
        count.set(e.nj, count[e.nj] + 1);
    }
    let mut twos: usize = 0;
    for i in 0..nnodes
        invariant
            nnodes == count@.len(),
            forall|k: int| 0 <= k < nnodes ==> #[trigger] count@[k] == end_count(
                es@,
                k,
                es@.len() as int,
            ),
            twos == twos_before(es@, i as int),
            twos <= i,
    {
        if count[i] == 2 {
            twos = twos + 1;
        }
    }
    twos == es.len()
}

// ---------------------------------------------------------------------------------------------
// Stringing a closed cell's strips into a loop.

/// A strip as `(start node, finish node, the strip's own index)`.
pub type Oriented = (usize, usize, usize);

/// Entry `m`, column `col` (0 the start, 1 the finish), with strip `i`'s finish left out, is
/// `target`.
pub open spec fn end_matches(st: Seq<Oriented>, i: int, target: usize, col: int, m: int) -> bool {
    if col == 0 {
        st[m].0 == target
    } else {
        m != i && st[m].1 == target
    }
}

/// The first of the first `k` strips whose column `col` is `target` (strip `i`'s finish left
/// out).
pub open spec fn first_match(st: Seq<Oriented>, i: int, target: usize, col: int, k: int) -> Option<
    int,
>
    decreases k,
{
    if k <= 0 {
        None
    } else {
        match first_match(st, i, target, col, k - 1) {
            Some(m) => Some(m),
            None => if end_matches(st, i, target, col, k - 1) {
                Some(k - 1)
            } else {
                None
            },
        }
    }
}

/// A strip turned end for end.
pub open spec fn flip(p: Oriented) -> Oriented {
    (p.1, p.0, p.2)
}

/// One step: the first other strip that touches strip `i`'s finish, scanning starts first and
/// then finishes, is brought to place `i + 1` (turned so its start is that node if it was found
/// by its finish), and the strip that stood there takes its place (turned likewise).
pub open spec fn loop_step(st: Seq<Oriented>, i: int) -> Seq<Oriented> {
    let target = st[i].1;
    let len = st.len() as int;
    let found = match first_match(st, i, target, 0, len) {
        Some(m) => Some((m, 0int)),
        None => match first_match(st, i, target, 1, len) {
            Some(m) => Some((m, 1int)),
            None => None,
        },
    };
    match found {
        None => st,
        Some((m, col)) => {
            let en_m = st[m];
            let en_next = st[i + 1];
            if col == 0 {
                st.update(i + 1, en_m).update(m, en_next)
            } else {
                st.update(i + 1, flip(en_m)).update(m, flip(en_next))
            }
        },
    }
}

/// The strips as oriented entries, in their own order.
pub open spec fn oriented_strips(es: Seq<Strip>) -> Seq<Oriented> {
    Seq::new(es.len(), |j: int| (es[j].ni, es[j].nj, j as usize))
}

/// The order after the first `k` steps.
pub open spec fn loop_order_upto(es: Seq<Strip>, k: int) -> Seq<Oriented>
    decreases k,
{
    if k <= 0 {
        oriented_strips(es)
    } else {
        loop_step(loop_order_upto(es, k - 1), k - 1)
    }
}

/// The closed cell's strips strung into a loop: one step for every strip but the last.
pub open spec fn loop_order_spec(es: Seq<Strip>) -> Seq<Oriented> {
    if es.len() == 0 {
        oriented_strips(es)
    } else {
        loop_order_upto(es, es.len() - 1)
    }
}

/// The first strip whose column `col` is `target`, strip `i`'s finish left out.
fn find_end(st: &Vec<Oriented>, i: usize, target: usize, col: usize) -> (r: Option<usize>)
    requires
        col < 2,
    ensures
        r matches Some(m) ==> first_match(st@, i as int, target, col as int, st@.len() as int)
            == Some(m as int),
        r is None ==> first_match(st@, i as int, target, col as int, st@.len() as int) is None,
        r matches Some(m) ==> m < st@.len(),
{
    for m in 0..st.len()
        invariant
            col < 2,
            first_match(st@, i as int, target, col as int, m as int) is None,
    {
        let hit = if col == 0 {
            st[m].0 == target
        } else {
            m != i && st[m].1 == target
        };
        if hit {
            proof {
                lemma_first_match_found(st@, i as int, target, col as int, m as int, st@.len() as int);
            }
            return Some(m);
        }
    }
    None
}

proof fn lemma_first_match_found(st: Seq<Oriented>, i: int, target: usize, col: int, m: int, k: int)
    requires
        0 <= m < k,
        first_match(st, i, target, col, m) is None,
        end_matches(st, i, target, col, m),
    ensures
        first_match(st, i, target, col, k) == Some(m),
    decreases k,
{
    if k > m + 1 {
        lemma_first_match_found(st, i, target, col, m, k - 1);
    }
}

/// The closed cell's strips strung into a loop, as `(start, finish, the strip's own index)`: for each
/// strip but the last in turn, the first other strip touching its finish (starts scanned before
/// finishes) is swapped into the next place, turned end for end where it was found by its
/// finish.
pub fn loop_order(es: &Vec<Strip>) -> (r: Vec<Oriented>)
    ensures
        r@ == loop_order_spec(es@),
{
    let mut st: Vec<Oriented> = Vec::new();
    for j in 0..es.len()
        invariant
            st@.len() == j,
            forall|k: int| 0 <= k < j ==> #[trigger] st@[k] == oriented_strips(es@)[k],
    {
        st.push((es[j].ni, es[j].nj, j));
    }
    assert(st@ =~= oriented_strips(es@));
    if es.len() == 0 {
        return st;
    }
    let steps = es.len() - 1;
    for i in 0..steps
        invariant
            steps + 1 == es@.len(),
            st@.len() == es@.len(),
            st@ == loop_order_upto(es@, i as int),
    {
        let target = st[i].1;
        let found = match find_end(&st, i, target, 0) {
            Some(m) => Some((m, 0usize)),
            None => match find_end(&st, i, target, 1) {
                Some(m) => Some((m, 1usize)),
                None => None,
            },
        };
        match found {
            None => {},
            Some((m, col)) => {
                let en_m = st[m];
                let en_next = st[i + 1];
                if col == 0 {
                    st.set(i + 1, en_m);
                    st.set(m, en_next);
                } else {
                    st.set(i + 1, (en_m.1, en_m.0, en_m.2));
                    st.set(m, (en_next.1, en_next.0, en_next.2));
                }
            },
        }
        assert(st@ =~= loop_step(loop_order_upto(es@, i as int), i as int));
    }
    st
}

// ---------------------------------------------------------------------------------------------
// The walk over an open section.

/// How a walk step reaches a node: `Start` when the strip's start is newly reached (from its
/// finish), `Finish` when its finish is (from its start), `Neither` when both were reached.
#[derive(Clone, Copy, Debug, PartialEq, Eq, Structural)]
pub enum Reach {
    Start,
    Finish,
    Neither,
}

/// The first of the strips from `i` on with exactly one end reached; the last strip if none.
pub open spec fn next_strip(es: Seq<Strip>, reached: Seq<bool>, i: int) -> int
    decreases es.len() - i,
{
    if i >= es.len() - 1 || reached[es[i].ni as int] != reached[es[i].nj as int] {
        if i < es.len() && reached[es[i].ni as int] != reached[es[i].nj as int] {
            i
        } else {
            es.len() - 1
        }
    } else {
        next_strip(es, reached, i + 1)
    }
}

/// The walk after `k` steps: the reached nodes and the steps taken, each a strip and how it
/// reached a node. It starts with the first strip's start reached.
pub open spec fn walk_upto(es: Seq<Strip>, n: nat, k: int) -> (Seq<bool>, Seq<(usize, Reach)>)
    decreases k,
{
    if k <= 0 {
        (Seq::new(n, |x: int| x == es[0].ni), Seq::empty())
    } else {
        let prev = walk_upto(es, n, k - 1);
        let reached = prev.0;
        let i = next_strip(es, reached, 0);
        let e = es[i];
        if !reached[e.ni as int] {
            (reached.update(e.ni as int, true), prev.1.push((i as usize, Reach::Start)))
        } else if !reached[e.nj as int] {
            (reached.update(e.nj as int, true), prev.1.push((i as usize, Reach::Finish)))
        } else {
            (reached, prev.1.push((i as usize, Reach::Neither)))
        }
    }
}

/// The first strip from `i` on with exactly one end reached, or the last strip.
fn next_strip_exec(es: &Vec<Strip>, reached: &Vec<bool>) -> (r: usize)
    requires
        es@.len() > 0,
        strips_in_range(es@, reached@.len()),
    ensures
        r == next_strip(es@, reached@, 0),
        r < es@.len(),
{
    let mut i: usize = 0;
    loop
        invariant
            es@.len() > 0,
            strips_in_range(es@, reached@.len()),
            i < es@.len(),
            next_strip(es@, reached@, i as int) == next_strip(es@, reached@, 0),
        decreases es@.len() - i,
    {
        let e = es[i];
        if reached[e.ni] != reached[e.nj] {
            return i;
        }
        if i >= es.len() - 1 {
            return es.len() - 1;
        }
        i = i + 1;
    }
}

proof fn lemma_next_strip_bound(es: Seq<Strip>, reached: Seq<bool>, i: int)
    requires
        es.len() > 0,
        0 <= i,
    ensures
        0 <= next_strip(es, reached, i) < es.len(),
    decreases es.len() - i,
{
    if !(i >= es.len() - 1 || reached[es[i].ni as int] != reached[es[i].nj as int]) {
        lemma_next_strip_bound(es, reached, i + 1);
    }
}

/// The walk over an open section's strips, one step per strip: each step takes the first strip
/// with exactly one end already reached (the last strip if there is none) and reaches its other
/// end. It starts with the first strip's start reached. The unit warping is carried along it.
pub fn warping_walk(es: &Vec<Strip>, nnodes: usize) -> (r: Vec<(usize, Reach)>)
    requires
        es@.len() > 0,
        strips_in_range(es@, nnodes as nat),
    ensures
        r@ == walk_upto(es@, nnodes as nat, es@.len() as int).1,
{
    let first = es[0].ni;
    let mut reached: Vec<bool> = Vec::new();
    for x in 0..nnodes
        invariant
            reached@ == Seq::new(x as nat, |y: int| y == first),
    {
        reached.push(x == first);
        assert(reached@ =~= Seq::new((x + 1) as nat, |y: int| y == first));
    }
    let mut steps: Vec<(usize, Reach)> = Vec::new();
    for k in 0..es.len()
        invariant
            es@.len() > 0,
            first == es@[0].ni,
            strips_in_range(es@, nnodes as nat),
            reached@.len() == nnodes,
            (reached@, steps@) == walk_upto(es@, nnodes as nat, k as int),
    {
        let i = next_strip_exec(es, &reached);
        let e = es[i];
        proof {
            assert(e.ni < nnodes && e.nj < nnodes);
        }
        if !reached[e.ni] {
            reached.set(e.ni, true);
            steps.push((i, Reach::Start));
        } else if !reached[e.nj] {
            reached.set(e.nj, true);
            steps.push((i, Reach::Finish));
        } else {
            steps.push((i, Reach::Neither));
        }
    }
    steps
}


// ---------------------------------------------------------------------------------------------
// The walk over a branched or unbranched open section.

/// Strip `e` joins nodes `a` and `b`, either way round.
pub open spec fn joins(e: Strip, a: int, b: int) -> bool {
    (e.ni == a && e.nj == b) || (e.ni == b && e.nj == a)
}

/// Some strip joins nodes `a` and `b`.
pub open spec fn linked(es: Seq<Strip>, a: int, b: int) -> bool {
    exists|j: int| 0 <= j < es.len() && #[trigger] joins(es[j], a, b)
}

/// `p` runs from node to node along strips.
pub open spec fn is_path(es: Seq<Strip>, p: Seq<int>) -> bool {
    forall|t: int| #![trigger p[t]] 0 <= t < p.len() - 1 ==> linked(es, p[t], p[t + 1])
}

/// Node `x` can be reached from the first strip's start along the strips.
pub open spec fn reachable(es: Seq<Strip>, x: int) -> bool {
    exists|p: Seq<int>| #[trigger] is_path(es, p) && p.len() > 0 && p[0] == es[0].ni && p.last() == x
}

/// Every node can be reached from the first strip's start along the strips.
pub open spec fn connected(es: Seq<Strip>, n: nat) -> bool {
    forall|x: int| 0 <= x < n ==> #[trigger] reachable(es, x)
}

/// How many of the first `k` entries of `s` are true.
pub open spec fn count_true(s: Seq<bool>, k: int) -> nat
    decreases k,
{
    if k <= 0 {
        0
    } else {
        count_true(s, k - 1) + if s[k - 1] {
            1nat
        } else {
            0nat
        }
    }
}

proof fn lemma_count_single(n: nat, c: int, k: int)
    requires
        0 <= c < n,
        0 <= k <= n,
    ensures
        count_true(Seq::new(n, |y: int| y == c), k) == (if c < k {
            1nat
        } else {
            0nat
        }),
    decreases k,
{
    if k > 0 {
        lemma_count_single(n, c, k - 1);
    }
}

proof fn lemma_count_update(s: Seq<bool>, i: int, k: int)
    requires
        0 <= i < s.len(),
        !s[i],
        0 <= k <= s.len(),
    ensures
        count_true(s.update(i, true), k) == count_true(s, k) + (if i < k {
            1nat
        } else {
            0nat
        }),
    decreases k,
{
    if k > 0 {
        lemma_count_update(s, i, k - 1);
    }
}

/// Where as many of the first `k` entries are true as there are entries, all of them are.
proof fn lemma_count_full(s: Seq<bool>, k: int)
    requires
        0 <= k <= s.len(),
    ensures
        count_true(s, k) <= k,
        count_true(s, k) == k ==> forall|x: int| 0 <= x < k ==> s[x],
    decreases k,
{
    if k > 0 {
        lemma_count_full(s, k - 1);
    }
}

/// Along a path from a reached node to one that is not, some strip has exactly one end
/// reached.
proof fn lemma_path_crosses(es: Seq<Strip>, reached: Seq<bool>, p: Seq<int>, t: int)
    requires
        strips_in_range(es, reached.len()),
        is_path(es, p),
        0 <= t < p.len(),
        0 <= p[0] < reached.len(),
        reached[p[0]],
        0 <= p[t] < reached.len(),
        !reached[p[t]],
    ensures
        exists|j: int|
            0 <= j < es.len() && reached[(#[trigger] es[j]).ni as int] != reached[es[j].nj as int],
    decreases t,
{
    if t > 0 {
        assert(linked(es, p[t - 1], p[t]));
        let j = choose|j: int| 0 <= j < es.len() && #[trigger] joins(es[j], p[t - 1], p[t]);
        assert(es[j].ni < reached.len() && es[j].nj < reached.len());
        if reached[p[t - 1]] {
            assert(reached[es[j].ni as int] != reached[es[j].nj as int]);
        } else {
            lemma_path_crosses(es, reached, p, t - 1);
        }
    }
}

/// Where some strip from `i` on has exactly one end reached, the walk's next strip is such a
/// strip.
proof fn lemma_next_strip_crosses(es: Seq<Strip>, reached: Seq<bool>, i: int)
    requires
        0 <= i < es.len(),
        exists|j: int|
            i <= j < es.len() && reached[(#[trigger] es[j]).ni as int] != reached[es[j].nj as int],
    ensures
        reached[es[next_strip(es, reached, i)].ni as int] != reached[es[next_strip(
            es,
            reached,
            i,
        )].nj as int],
    decreases es.len() - i,
{
    if reached[es[i].ni as int] == reached[es[i].nj as int] {
        let j = choose|j: int|
            i <= j < es.len() && reached[(#[trigger] es[j]).ni as int] != reached[es[j].nj as int];
        assert(j != i);
        lemma_next_strip_crosses(es, reached, i + 1);
    }
}

/// Where every entry is true, all are counted.
proof fn lemma_count_all_true(s: Seq<bool>, k: int)
    requires
        0 <= k <= s.len(),
        forall|x: int| 0 <= x < k ==> s[x],
    ensures
        count_true(s, k) == k,
    decreases k,
{
    if k > 0 {
        lemma_count_all_true(s, k - 1);
    }
}

/// The walk's first `k` steps on a connected section of `es.len() + 1` nodes: each reaches a
/// new node, so `k + 1` nodes are reached, the first strip's start among them.
proof fn lemma_walk_progress(es: Seq<Strip>, n: nat, k: int)
    requires
        es.len() > 0,
        n == es.len() + 1,
        strips_in_range(es, n),
        connected(es, n),
        0 <= k <= es.len(),
    ensures
        walk_upto(es, n, k).0.len() == n,
        walk_upto(es, n, k).1.len() == k,
        walk_upto(es, n, k).0[es[0].ni as int],
        count_true(walk_upto(es, n, k).0, n as int) == k + 1,
        forall|t: int| 0 <= t < k ==> (#[trigger] walk_upto(es, n, k).1[t]).1 != Reach::Neither,
    decreases k,
{
    let c = es[0].ni as int;
    assert(es[0].ni < n);
    if k == 0 {
        lemma_count_single(n, c, n as int);
    } else {
        lemma_walk_progress(es, n, k - 1);
        let prev = walk_upto(es, n, k - 1);
        let reached = prev.0;
        lemma_count_full(reached, n as int);
        // Fewer than all nodes are reached: some node is not.
        assert(exists|x: int| 0 <= x < n && !reached[x]) by {
            if forall|x: int| 0 <= x < n ==> reached[x] {
                lemma_count_all_true(reached, n as int);
            }
        }
        let x = choose|x: int| 0 <= x < n && !reached[x];
        assert(reachable(es, x));
        let p = choose|p: Seq<int>|
            #[trigger] is_path(es, p) && p.len() > 0 && p[0] == c && p.last() == x;
        lemma_path_crosses(es, reached, p, p.len() - 1);
        lemma_next_strip_crosses(es, reached, 0);
        let i = next_strip(es, reached, 0);
        lemma_next_strip_bound(es, reached, 0);
        let e = es[i];
        assert(e.ni < n && e.nj < n);
        let cur = walk_upto(es, n, k);
        if !reached[e.ni as int] {
            lemma_count_update(reached, e.ni as int, n as int);
        } else {
            lemma_count_update(reached, e.nj as int, n as int);
        }
        assert forall|t: int| 0 <= t < k implies (#[trigger] cur.1[t]).1 != Reach::Neither by {
            if t < k - 1 {
                assert(cur.1[t] == prev.1[t]);
            }
        }
    }
}

/// On a connected open section with one node more than it has strips (a section without a
/// closed cell, branched or not), the walk reaches a new node at every step, and at its end
/// every node is reached.
pub proof fn lemma_walk_reaches_every_node(es: Seq<Strip>, n: nat)
    requires
        es.len() > 0,
        n == es.len() + 1,
        strips_in_range(es, n),
        connected(es, n),
    ensures
        forall|t: int|
            0 <= t < es.len() ==> (#[trigger] walk_upto(es, n, es.len() as int).1[t]).1
                != Reach::Neither,
        forall|x: int| 0 <= x < n ==> #[trigger] walk_upto(es, n, es.len() as int).0[x],
{
    lemma_walk_progress(es, n, es.len() as int);
    lemma_count_full(walk_upto(es, n, es.len() as int).0, n as int);
}


// ---------------------------------------------------------------------------------------------
// A single cell is strung into one loop.

/// Node `x` is an end of strip `e`.
pub open spec fn touches_node(e: Strip, x: int) -> bool {
    e.ni == x || e.nj == x
}

/// Node `x` is an end of oriented entry `p`.
pub open spec fn entry_touches(p: Oriented, x: int) -> bool {
    p.0 == x || p.1 == x
}

/// No node is an end of three strips.
#[verifier::opaque]
pub open spec fn no_branch(es: Seq<Strip>) -> bool {
    forall|x: int, a: int, b: int, c: int|
        0 <= a < b < c < es.len() && #[trigger] touches_node(es[a], x) && #[trigger] touches_node(
            es[b],
            x,
        ) ==> !#[trigger] touches_node(es[c], x)
}

/// Every end of a strip is an end of another strip too.
#[verifier::opaque]
pub open spec fn no_free_end(es: Seq<Strip>) -> bool {
    forall|j: int, x: int|
        0 <= j < es.len() && #[trigger] touches_node(es[j], x) ==> exists|j2: int|
            0 <= j2 < es.len() && j2 != j && touches_node(es[j2], x)
}

/// The strips form a single cell: no strip starts and ends at one node, no node is an end of
/// three strips, every end of a strip is an end of another strip too, and every end can be
/// reached from the first strip's start.
pub open spec fn single_cell(es: Seq<Strip>) -> bool {
    &&& es.len() > 0
    &&& forall|j: int| 0 <= j < es.len() ==> (#[trigger] es[j]).ni != es[j].nj
    &&& no_branch(es)
    &&& no_free_end(es)
    &&& forall|j: int|
        0 <= j < es.len() ==> reachable(es, (#[trigger] es[j]).ni as int) && reachable(
            es,
            es[j].nj as int,
        )
}

/// Entry `p` is strip `e`, one way round or the other.
pub open spec fn same_strip(p: Oriented, e: Strip) -> bool {
    (p.0 == e.ni && p.1 == e.nj) || (p.0 == e.nj && p.1 == e.ni)
}

/// Strip `j` stands somewhere among the entries.
pub open spec fn placed(st: Seq<Oriented>, j: int) -> bool {
    exists|p: int| 0 <= p < st.len() && (#[trigger] st[p]).2 == j
}

/// The entries are the strips rearranged: each entry is the strip it names, one way round or the
/// other, and each strip is named by exactly one entry.
pub open spec fn arranged(es: Seq<Strip>, st: Seq<Oriented>) -> bool {
    &&& st.len() == es.len()
    &&& forall|p: int|
        0 <= p < st.len() ==> (#[trigger] st[p]).2 < es.len() && same_strip(st[p], es[st[p].2 as int])
    &&& forall|p: int, q: int|
        0 <= p < st.len() && 0 <= q < st.len() && p != q ==> (#[trigger] st[p]).2 != (
        #[trigger] st[q]).2
    &&& forall|j: int| 0 <= j < es.len() ==> #[trigger] placed(st, j)
}

/// No node is an end of three entries.
proof fn lemma_no_three_entries(es: Seq<Strip>, st: Seq<Oriented>, x: int, p: int, q: int, r: int)
    requires
        single_cell(es),
        arranged(es, st),
        0 <= p < st.len(),
        0 <= q < st.len(),
        0 <= r < st.len(),
        p != q && q != r && p != r,
    ensures
        !(entry_touches(st[p], x) && entry_touches(st[q], x) && entry_touches(st[r], x)),
{
    reveal(no_branch);
    let (a, b, c) = (st[p].2 as int, st[q].2 as int, st[r].2 as int);
    assert(a != b && b != c && a != c);
    assert(entry_touches(st[p], x) == touches_node(es[a], x));
    assert(entry_touches(st[q], x) == touches_node(es[b], x));
    assert(entry_touches(st[r], x) == touches_node(es[c], x));
    if touches_node(es[a], x) && touches_node(es[b], x) && touches_node(es[c], x) {
        if a < b && b < c {
            assert(!touches_node(es[c], x));
        } else if a < c && c < b {
            assert(!touches_node(es[b], x));
        } else if b < a && a < c {
            assert(!touches_node(es[c], x));
        } else if b < c && c < a {
            assert(!touches_node(es[a], x));
        } else if c < a && a < b {
            assert(!touches_node(es[b], x));
        } else {
            assert(!touches_node(es[a], x));
        }
    }
}

/// An end of an entry is an end of another entry too.
proof fn lemma_other_entry(es: Seq<Strip>, st: Seq<Oriented>, p: int, x: int)
    requires
        single_cell(es),
        arranged(es, st),
        0 <= p < st.len(),
        entry_touches(st[p], x),
    ensures
        exists|q: int| 0 <= q < st.len() && q != p && #[trigger] entry_touches(st[q], x),
{
    reveal(no_free_end);
    let j = st[p].2 as int;
    assert(touches_node(es[j], x));
    let j2 = choose|j2: int| 0 <= j2 < es.len() && j2 != j && touches_node(es[j2], x);
    assert(placed(st, j2));
    let q = choose|q: int| 0 <= q < st.len() && (#[trigger] st[q]).2 == j2;
    assert(entry_touches(st[q], x));
}

/// What the first match is: the first entry that matches, or none where none does.
proof fn lemma_first_match(st: Seq<Oriented>, i: int, target: usize, col: int, k: int)
    requires
        0 <= k <= st.len(),
    ensures
        match first_match(st, i, target, col, k) {
            Some(m) => 0 <= m < k && end_matches(st, i, target, col, m) && forall|m2: int|
                0 <= m2 < m ==> !#[trigger] end_matches(st, i, target, col, m2),
            None => forall|m2: int| 0 <= m2 < k ==> !#[trigger] end_matches(st, i, target, col, m2),
        },
    decreases k,
{
    if k > 0 {
        lemma_first_match(st, i, target, col, k - 1);
    }
}

/// A path that starts inside a set of nodes and ends outside it leaves it along some step.
proof fn lemma_path_leaves(es: Seq<Strip>, p: Seq<int>, inside: spec_fn(int) -> bool, t: int)
    requires
        is_path(es, p),
        0 <= t < p.len(),
        inside(p[0]),
        !inside(p[t]),
    ensures
        exists|s: int| 0 <= s < t && inside(p[s]) && !inside(#[trigger] p[s + 1]),
    decreases t,
{
    if inside(p[t - 1]) {
        assert(!inside(p[(t - 1) + 1]));
    } else {
        lemma_path_leaves(es, p, inside, t - 1);
        let s = choose|s: int| 0 <= s < t - 1 && inside(p[s]) && !inside(#[trigger] p[s + 1]);
        assert(!inside(p[s + 1]));
    }
}

/// The state after `k` steps of stringing a single cell: the entries are the strips rearranged,
/// the first is the first strip as given, the first `k + 1` are chained finish to start, and
/// their starts are distinct nodes.
pub open spec fn strung(es: Seq<Strip>, st: Seq<Oriented>, k: int) -> bool {
    &&& arranged(es, st)
    &&& st[0] == (es[0].ni, es[0].nj, 0usize)
    &&& forall|i: int| 0 <= i < k ==> (#[trigger] st[i]).1 == st[i + 1].0
    &&& forall|a: int, b: int| 0 <= a < b <= k ==> (#[trigger] st[a]).0 != (#[trigger] st[b]).0
}

/// One step keeps the cell strung, one entry further.
proof fn lemma_loop_step(es: Seq<Strip>, st: Seq<Oriented>, k: int)
    requires
        single_cell(es),
        0 <= k < es.len() - 1,
        strung(es, st, k),
    ensures
        strung(es, loop_step(st, k), k + 1),
{
    let len = st.len() as int;
    let target = st[k].1;
    let x = target as int;
    // Every entry's ends differ.
    assert forall|p: int| 0 <= p < len implies (#[trigger] st[p]).0 != st[p].1 by {
        assert(es[st[p].2 as int].ni != es[st[p].2 as int].nj);
    }
    // The finish of entry `k` is none of the starts so far but, perhaps, the first.
    assert forall|a: int| 1 <= a <= k implies (#[trigger] st[a]).0 != target by {
        if st[a].0 == target {
            assert(st[a - 1].1 == st[a].0);
            if a != k {
                lemma_no_three_entries(es, st, x, a - 1, a, k);
            } else {
                assert(st[k].0 != st[k].1);
            }
        }
    }
    // Nor the first: else the entries so far would close a loop that the rest cannot reach.
    if st[0].0 == target {
        let inside = |y: int| exists|a: int| 0 <= a <= k && (#[trigger] st[a]).0 == y;
        assert(k >= 1) by {
            if k == 0 {
                assert(st[0].0 != st[0].1);
            }
        }
        // Each entry so far has both its ends inside.
        assert forall|p: int| 0 <= p <= k implies inside((#[trigger] st[p]).0 as int) && inside(
            st[p].1 as int,
        ) by {
            assert(inside(st[p].0 as int));
            if p < k {
                assert(st[p].1 == st[p + 1].0);
                assert(inside(st[p + 1].0 as int));
            } else {
                assert(inside(st[0].0 as int));
            }
        }
        // No later entry touches a node inside.
        assert forall|q: int, y: int| k < q < len && inside(y) implies !#[trigger] entry_touches(
            st[q],
            y,
        ) by {
            let a = choose|a: int| 0 <= a <= k && (#[trigger] st[a]).0 == y;
            if entry_touches(st[q], y) {
                if a >= 1 {
                    assert(st[a - 1].1 == st[a].0);
                    lemma_no_three_entries(es, st, y, a - 1, a, q);
                } else {
                    lemma_no_three_entries(es, st, y, 0, k, q);
                }
            }
        }
        let q = k + 1;
        let xq = st[q].0 as int;
        assert(!inside(xq)) by {
            assert(entry_touches(st[q], xq));
        }
        let jq = st[q].2 as int;
        assert(touches_node(es[jq], xq));
        assert(reachable(es, xq)) by {
            assert(reachable(es, es[jq].ni as int) && reachable(es, es[jq].nj as int));
        }
        let path = choose|path: Seq<int>|
            #[trigger] is_path(es, path) && path.len() > 0 && path[0] == es[0].ni && path.last()
                == xq;
        assert(inside(path[0])) by {
            assert(st[0].0 == es[0].ni);
        }
        lemma_path_leaves(es, path, inside, path.len() - 1);
        let s = choose|s: int|
            0 <= s < path.len() - 1 && inside(path[s]) && !inside(#[trigger] path[s + 1]);
        assert(linked(es, path[s], path[s + 1]));
        let j = choose|j: int| 0 <= j < es.len() && #[trigger] joins(es[j], path[s], path[s + 1]);
        assert(placed(st, j));
        let r = choose|r: int| 0 <= r < len && (#[trigger] st[r]).2 == j;
        assert(entry_touches(st[r], path[s]));
        assert(entry_touches(st[r], path[s + 1]));
        if r > k {
            assert(!entry_touches(st[r], path[s]));
        } else {
            assert(inside(st[r].0 as int) && inside(st[r].1 as int));
        }
        assert(false);
    }
    // So no entry up to `k` touches the target but entry `k` by its finish, and a later one does.
    assert forall|a: int| 0 <= a < k implies (#[trigger] st[a]).1 != target by {
        assert(st[a].1 == st[a + 1].0);
    }
    lemma_other_entry(es, st, k, x);
    let q = choose|q: int| 0 <= q < len && q != k && #[trigger] entry_touches(st[q], x);
    assert(q > k) by {
        if q < k {
            assert(st[q].0 != target && st[q].1 != target);
        }
    }
    lemma_first_match(st, k, target, 0, len);
    lemma_first_match(st, k, target, 1, len);
    let next = loop_step(st, k);
    let (m, col) = match first_match(st, k, target, 0, len) {
        Some(m) => (m, 0int),
        None => (first_match(st, k, target, 1, len)->Some_0, 1int),
    };
    if col == 1 {
        assert(first_match(st, k, target, 0, len) is None);
        assert(!end_matches(st, k, target, 0, q));
        assert(end_matches(st, k, target, 1, q));
        assert(first_match(st, k, target, 1, len) is Some);
    }
    assert(m > k) by {
        if m <= k {
            if col == 0 {
                assert(end_matches(st, k, target, 0, m));
                if m == 0 {
                    assert(st[0].0 == target);
                }
            } else {
                assert(end_matches(st, k, target, 1, m));
            }
        }
    }
    let a = k + 1;
    assert(next == if col == 0 {
        st.update(a, st[m]).update(m, st[a])
    } else {
        st.update(a, flip(st[m])).update(m, flip(st[a]))
    });
    assert(next[a].0 == target) by {
        if col == 0 {
            assert(end_matches(st, k, target, 0, m));
        } else {
            assert(end_matches(st, k, target, 1, m));
        }
    }
    assert forall|p: int| 0 <= p <= k implies #[trigger] next[p] == st[p] by {}
    assert forall|p: int| 0 <= p < len implies #[trigger] next[p] == (if p == a || p == m {
        if col == 0 {
            if p == m {
                st[a]
            } else {
                st[m]
            }
        } else {
            if p == m {
                flip(st[a])
            } else {
                flip(st[m])
            }
        }
    } else {
        st[p]
    }) by {}
    // The entries are still the strips rearranged.
    assert forall|p: int| 0 <= p < len implies (#[trigger] next[p]).2 < es.len() && same_strip(
        next[p],
        es[next[p].2 as int],
    ) by {}
    assert forall|p: int, r: int| 0 <= p < len && 0 <= r < len && p != r implies (
    #[trigger] next[p]).2 != (#[trigger] next[r]).2 by {}
    assert forall|j: int| 0 <= j < es.len() implies #[trigger] placed(next, j) by {
        assert(placed(st, j));
        let p = choose|p: int| 0 <= p < len && (#[trigger] st[p]).2 == j;
        if p == a {
            assert(next[m].2 == j);
        } else if p == m {
            assert(next[a].2 == j);
        } else {
            assert(next[p].2 == j);
        }
    }
    assert forall|i: int| 0 <= i < k + 1 implies (#[trigger] next[i]).1 == next[i + 1].0 by {
        if i < k {
            assert(next[i + 1] == st[i + 1]);
        }
    }
    assert forall|b1: int, b2: int| 0 <= b1 < b2 <= k + 1 implies (#[trigger] next[b1]).0 != (
    #[trigger] next[b2]).0 by {
        if b2 <= k {
            assert(next[b1] == st[b1] && next[b2] == st[b2]);
        } else {
            assert(next[b1] == st[b1]);
            if b1 >= 1 {
                assert(st[b1].0 != target);
            }
        }
    }
}

/// The state after each of the first `k` steps.
proof fn lemma_loop_progress(es: Seq<Strip>, k: int)
    requires
        single_cell(es),
        es.len() <= usize::MAX,
        0 <= k <= es.len() - 1,
    ensures
        strung(es, loop_order_upto(es, k), k),
    decreases k,
{
    if k == 0 {
        let st = oriented_strips(es);
        assert forall|j: int| 0 <= j < es.len() implies #[trigger] placed(st, j) by {
            assert(st[j].2 == j);
        }
    } else {
        lemma_loop_progress(es, k - 1);
        lemma_loop_step(es, loop_order_upto(es, k - 1), k - 1);
    }
}

/// A single cell's strips are strung into one loop: each entry's finish is the next entry's
/// start, the last entry's finish is the first entry's start, and the entries are the strips,
/// each once, one way round or the other.
pub proof fn lemma_a_cell_is_strung_into_a_loop(es: Seq<Strip>)
    requires
        single_cell(es),
        es.len() <= usize::MAX,
    ensures
        ({
            let st = loop_order_spec(es);
            &&& st.len() == es.len()
            &&& forall|i: int| 0 <= i < st.len() - 1 ==> (#[trigger] st[i]).1 == st[i + 1].0
            &&& st[st.len() - 1].1 == st[0].0
            &&& forall|p: int|
                0 <= p < st.len() ==> (#[trigger] st[p]).2 < es.len() && same_strip(
                    st[p],
                    es[st[p].2 as int],
                )
            &&& forall|p: int, q: int|
                0 <= p < q < st.len() ==> (#[trigger] st[p]).2 != (#[trigger] st[q]).2
        }),
{
    let len = es.len() as int;
    lemma_loop_progress(es, len - 1);
    let st = loop_order_spec(es);
    assert(st == loop_order_upto(es, len - 1));
    // The first start is an end of one other entry, which can only be the last, by its finish.
    let x = st[0].0 as int;
    assert(entry_touches(st[0], x));
    lemma_other_entry(es, st, 0, x);
    let q = choose|q: int| 0 <= q < len && q != 0 && #[trigger] entry_touches(st[q], x);
    assert(st[q].0 != st[0].0);
    if q < len - 1 {
        assert(st[q].1 == st[q + 1].0);
        assert(st[0].0 != st[q + 1].0);
    }
    assert forall|p: int, r: int| 0 <= p < r < st.len() implies (#[trigger] st[p]).2 != (
    #[trigger] st[r]).2 by {}
}


// ---------------------------------------------------------------------------------------------
// What the closed test says of the nodes.

/// The strip ends of the first `m` strips at each of the first `k` nodes, summed.
pub open spec fn ends_total(es: Seq<Strip>, m: int, k: int) -> nat
    decreases k,
{
    if k <= 0 {
        0
    } else {
        ends_total(es, m, k - 1) + end_count(es, k - 1, m)
    }
}

/// The end counts of the first `k` nodes other than those that are ends exactly twice, summed.
pub open spec fn rest_before(es: Seq<Strip>, k: int) -> nat
    decreases k,
{
    if k <= 0 {
        0
    } else {
        rest_before(es, k - 1) + if end_count(es, k - 1, es.len() as int) == 2 {
            0nat
        } else {
            end_count(es, k - 1, es.len() as int)
        }
    }
}

proof fn lemma_ends_total_step(es: Seq<Strip>, m: int, k: int)
    requires
        1 <= m <= es.len(),
        k >= 0,
    ensures
        ends_total(es, m, k) == ends_total(es, m - 1, k) + (if es[m - 1].ni < k {
            1nat
        } else {
            0nat
        }) + (if es[m - 1].nj < k {
            1nat
        } else {
            0nat
        }),
    decreases k,
{
    if k > 0 {
        lemma_ends_total_step(es, m, k - 1);
    }
}

/// Every strip has two ends, each at a node: the first `m` strips' ends over all nodes are `2 m`.
proof fn lemma_ends_total(es: Seq<Strip>, n: nat, m: int)
    requires
        strips_in_range(es, n),
        0 <= m <= es.len(),
    ensures
        ends_total(es, m, n as int) == 2 * m,
    decreases m,
{
    if m > 0 {
        lemma_ends_total(es, n, m - 1);
        lemma_ends_total_step(es, m, n as int);
        assert(es[m - 1].ni < n && es[m - 1].nj < n);
    } else {
        lemma_ends_total_none(es, n as int);
    }
}

proof fn lemma_ends_total_none(es: Seq<Strip>, k: int)
    requires
        k >= 0,
    ensures
        ends_total(es, 0, k) == 0,
    decreases k,
{
    if k > 0 {
        lemma_ends_total_none(es, k - 1);
    }
}

proof fn lemma_ends_split(es: Seq<Strip>, k: int)
    requires
        k >= 0,
    ensures
        ends_total(es, es.len() as int, k) == 2 * twos_before(es, k) + rest_before(es, k),
    decreases k,
{
    if k > 0 {
        lemma_ends_split(es, k - 1);
    }
}

proof fn lemma_rest_zero(es: Seq<Strip>, k: int)
    requires
        k >= 0,
        rest_before(es, k) == 0,
    ensures
        forall|x: int|
            0 <= x < k ==> #[trigger] end_count(es, x, es.len() as int) == 0 || end_count(
                es,
                x,
                es.len() as int,
            ) == 2,
    decreases k,
{
    if k > 0 {
        lemma_rest_zero(es, k - 1);
    }
}

proof fn lemma_end_count_grows(es: Seq<Strip>, x: int, j: int, k: int)
    requires
        0 <= j <= k,
    ensures
        end_count(es, x, j) <= end_count(es, x, k),
    decreases k,
{
    if j < k {
        lemma_end_count_grows(es, x, j, k - 1);
    }
}

/// Where only strip `j` among the first `k` touches `x`, the ends at `x` are `j`'s own.
proof fn lemma_end_count_single(es: Seq<Strip>, x: int, j: int, k: int)
    requires
        0 <= j < es.len(),
        0 <= k <= es.len(),
        forall|j2: int| 0 <= j2 < k && j2 != j ==> !touches_node(#[trigger] es[j2], x),
    ensures
        end_count(es, x, k) == (if j < k {
            (if es[j].ni == x {
                1nat
            } else {
                0nat
            }) + (if es[j].nj == x {
                1nat
            } else {
                0nat
            })
        } else {
            0nat
        }),
    decreases k,
{
    if k > 0 {
        lemma_end_count_single(es, x, j, k - 1);
        if k - 1 != j {
            assert(!touches_node(es[k - 1], x));
        }
    }
}

/// In a section the closed test accepts, whose strips each join two nodes, every node is an end
/// of no strip or of exactly two: no node is an end of three strips, and every end of a strip is
/// an end of another strip too.
pub proof fn lemma_a_closed_section_has_two_strips_at_each_node(es: Seq<Strip>, n: nat)
    requires
        strips_in_range(es, n),
        is_closed_spec(es, n),
        forall|j: int| 0 <= j < es.len() ==> (#[trigger] es[j]).ni != es[j].nj,
    ensures
        forall|x: int|
            0 <= x < n ==> #[trigger] end_count(es, x, es.len() as int) == 0 || end_count(
                es,
                x,
                es.len() as int,
            ) == 2,
        no_branch(es),
        no_free_end(es),
{
    let len = es.len() as int;
    lemma_ends_total(es, n, len);
    lemma_ends_split(es, n as int);
    lemma_rest_zero(es, n as int);
    reveal(no_branch);
    reveal(no_free_end);
    assert forall|x: int, a: int, b: int, c: int|
        0 <= a < b < c < es.len() && #[trigger] touches_node(es[a], x) && #[trigger] touches_node(
            es[b],
            x,
        ) implies !#[trigger] touches_node(es[c], x) by {
        if touches_node(es[c], x) {
            assert(0 <= x < n);
            assert(end_count(es, x, a + 1) >= 1);
            lemma_end_count_grows(es, x, a + 1, b);
            assert(end_count(es, x, b + 1) >= 2);
            lemma_end_count_grows(es, x, b + 1, c);
            assert(end_count(es, x, c + 1) >= 3);
            lemma_end_count_grows(es, x, c + 1, len);
        }
    }
    assert forall|j: int, x: int| 0 <= j < es.len() && #[trigger] touches_node(es[j], x) implies exists|
        j2: int,
    | 0 <= j2 < es.len() && j2 != j && touches_node(es[j2], x) by {
        assert(0 <= x < n);
        if !exists|j2: int| 0 <= j2 < es.len() && j2 != j && touches_node(es[j2], x) {
            lemma_end_count_single(es, x, j, len);
            assert(end_count(es, x, len) == 1);
        }
    }
}


// ---------------------------------------------------------------------------------------------
// The closed test depends on the strips' ends only.

/// A strip turned end for end.
pub open spec fn turned(e: Strip) -> Strip {
    Strip { ni: e.nj, nj: e.ni }
}

/// How many of a strip's two ends are node `x`.
pub open spec fn ends_at(e: Strip, x: int) -> nat {
    (if e.ni == x {
        1nat
    } else {
        0nat
    }) + (if e.nj == x {
        1nat
    } else {
        0nat
    })
}

proof fn lemma_end_count_turned(es: Seq<Strip>, j: int, x: int, k: int)
    requires
        0 <= j < es.len(),
        0 <= k <= es.len(),
    ensures
        end_count(es.update(j, turned(es[j])), x, k) == end_count(es, x, k),
    decreases k,
{
    if k > 0 {
        lemma_end_count_turned(es, j, x, k - 1);
    }
}

proof fn lemma_end_count_swapped(es: Seq<Strip>, i: int, j: int, x: int, k: int)
    requires
        0 <= i < j < es.len(),
        0 <= k <= es.len(),
    ensures
        ({
            let es2 = es.update(i, es[j]).update(j, es[i]);
            if k <= i || k > j {
                end_count(es2, x, k) == end_count(es, x, k)
            } else {
                end_count(es2, x, k) + ends_at(es[i], x) == end_count(es, x, k) + ends_at(es[j], x)
            }
        }),
    decreases k,
{
    if k > 0 {
        lemma_end_count_swapped(es, i, j, x, k - 1);
    }
}

proof fn lemma_twos_agree(es: Seq<Strip>, es2: Seq<Strip>, k: int)
    requires
        es.len() == es2.len(),
        forall|x: int| #[trigger] end_count(es, x, es.len() as int) == end_count(es2, x, es2.len() as int),
    ensures
        twos_before(es, k) == twos_before(es2, k),
    decreases k,
{
    if k > 0 {
        lemma_twos_agree(es, es2, k - 1);
        assert(end_count(es, k - 1, es.len() as int) == end_count(es2, k - 1, es2.len() as int));
    }
}

/// The closed test reads the strips' ends only: listing two strips in each other's place, or
/// turning a strip end for end, leaves its answer unchanged.
pub proof fn lemma_closed_ignores_order_and_direction(es: Seq<Strip>, n: nat, i: int, j: int)
    requires
        0 <= i < j < es.len(),
    ensures
        is_closed_spec(es.update(i, es[j]).update(j, es[i]), n) == is_closed_spec(es, n),
        is_closed_spec(es.update(i, turned(es[i])), n) == is_closed_spec(es, n),
        is_closed_spec(es.update(j, turned(es[j])), n) == is_closed_spec(es, n),
{
    let len = es.len() as int;
    let sw = es.update(i, es[j]).update(j, es[i]);
    assert forall|x: int| #[trigger] end_count(es, x, len) == end_count(sw, x, sw.len() as int) by {
        lemma_end_count_swapped(es, i, j, x, len);
    }
    lemma_twos_agree(es, sw, n as int);
    let ti = es.update(i, turned(es[i]));
    assert forall|x: int| #[trigger] end_count(es, x, len) == end_count(ti, x, ti.len() as int) by {
        lemma_end_count_turned(es, i, x, len);
    }
    lemma_twos_agree(es, ti, n as int);
    let tj = es.update(j, turned(es[j]));
    assert forall|x: int| #[trigger] end_count(es, x, len) == end_count(tj, x, tj.len() as int) by {
        lemma_end_count_turned(es, j, x, len);
    }
    lemma_twos_agree(es, tj, n as int);
}

proof fn lemma_rest_of_pairs(es: Seq<Strip>, k: int)
    requires
        k >= 0,
        forall|x: int|
            0 <= x < k ==> #[trigger] end_count(es, x, es.len() as int) == 0 || end_count(
                es,
                x,
                es.len() as int,
            ) == 2,
    ensures
        rest_before(es, k) == 0,
    decreases k,
{
    if k > 0 {
        lemma_rest_of_pairs(es, k - 1);
        assert(end_count(es, k - 1, es.len() as int) == 0 || end_count(es, k - 1, es.len() as int)
            == 2);
    }
}

/// Where every node is an end of no strip or of exactly two, the closed test holds.
pub proof fn lemma_two_strips_at_each_node_is_closed(es: Seq<Strip>, n: nat)
    requires
        strips_in_range(es, n),
        forall|x: int|
            0 <= x < n ==> #[trigger] end_count(es, x, es.len() as int) == 0 || end_count(
                es,
                x,
                es.len() as int,
            ) == 2,
    ensures
        is_closed_spec(es, n),
{
    lemma_ends_total(es, n, es.len() as int);
    lemma_ends_split(es, n as int);
    lemma_rest_of_pairs(es, n as int);
}

} // verus!
