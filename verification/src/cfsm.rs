//! The section's topology for the constrained finite strip method: which nodes are corners,
//! free edges or sub-nodes between collinear strips, the meta-elements (runs of collinear
//! strips between main nodes), the mode counts, and the DOF ordering that puts each modal
//! space's DOFs together. Also the choice of base-vector columns by modal space.
use vstd::prelude::*;
use crate::model::{Strip, strips_in_range};

verus! {

/// Which kind of node a node is.
#[derive(Clone, Copy, Debug, PartialEq, Eq, Structural)]
pub enum NodeType {
    /// A main node where two or more non-parallel strips meet.
    Corner,
    /// A main node at a free edge (one strip).
    Edge,
    /// A node between two collinear strips.
    Sub,
}

/// A main node of the meta-element model.
#[derive(Clone, Debug)]
pub struct MNode {
    /// The model node it stands for.
    pub orig: usize,
    /// Meta-elements meeting here.
    pub nel: usize,
    /// Those meta-elements, 1-based and signed: `+j` where this node is the meta-element's
    /// first node, `-j` where it is its second.
    pub elems: Vec<i64>,
}

/// A meta-element: a run of collinear strips between two main nodes.
#[derive(Clone, Debug)]
pub struct MElem {
    /// Its end main nodes (0-based main-node indices).
    pub n1: usize,
    pub n2: usize,
    /// The sub-nodes merged into it (model node indices), in the order they were merged.
    pub subs: Vec<usize>,
}

/// The section's topology for the constrained method.
#[derive(Clone, Debug)]
pub struct BaseProperties {
    pub node_type: Vec<NodeType>,
    /// Each model node's index in the main-then-sub numbering.
    pub new_index: Vec<usize>,
    pub m_node: Vec<MNode>,
    pub m_elem: Vec<MElem>,
    /// Main, corner and sub node counts.
    pub nmno: usize,
    pub ncno: usize,
    pub nsno: usize,
    /// Distortional and local mode counts.
    pub ndm: usize,
    pub nlm: usize,
    /// The DOF ordering as a permutation: old DOF `i` is new DOF `perm[i]`.
    pub perm: Vec<usize>,
}

// ---------------------------------------------------------------------------------------------
// Which strips touch a node.

/// A strip, as its two 1-based end nodes (0 for a strip merged away), touches 1-based node `me`.
pub open spec fn touches(p: (usize, usize), me: usize) -> bool {
    p.0 == me || p.1 == me
}

/// The strips among the first `k` of `st` that touch 1-based node `me`, ascending.
pub open spec fn touch_prefix(st: Seq<(usize, usize)>, me: usize, k: int) -> Seq<usize>
    decreases k,
{
    if k <= 0 {
        Seq::empty()
    } else {
        let p = touch_prefix(st, me, k - 1);
        if touches(st[k - 1], me) {
            p.push((k - 1) as usize)
        } else {
            p
        }
    }
}

/// Every strip of `st` that touches 1-based node `me`, ascending.
pub open spec fn live_touch(st: Seq<(usize, usize)>, me: usize) -> Seq<usize> {
    touch_prefix(st, me, st.len() as int)
}

/// The strips as 1-based end-node pairs.
pub open spec fn initial_ends(es: Seq<Strip>) -> Seq<(usize, usize)> {
    es.map_values(|e: Strip| ((e.ni + 1) as usize, (e.nj + 1) as usize))
}

/// The strips that touch (0-based) node `i`, ascending.
pub open spec fn touching(es: Seq<Strip>, i: int) -> Seq<usize> {
    live_touch(initial_ends(es), (i + 1) as usize)
}

/// How many strips meet at node `i`.
pub open spec fn mel(es: Seq<Strip>, i: int) -> nat {
    touching(es, i).len()
}

/// The node's type: two strips and collinear make a sub-node, two or more a corner, else an
/// edge. `col[i]` says whether node `i`'s two strips, where it has exactly two, are collinear.
pub open spec fn node_type_spec(es: Seq<Strip>, col: Seq<bool>, i: int) -> NodeType {
    if mel(es, i) == 2 && col[i] {
        NodeType::Sub
    } else if mel(es, i) >= 2 {
        NodeType::Corner
    } else {
        NodeType::Edge
    }
}

/// The meta-elements meeting at node `i`: its strip count, or 0 for a sub-node.
pub open spec fn count_spec(es: Seq<Strip>, col: Seq<bool>, i: int) -> nat {
    if node_type_spec(es, col, i) == NodeType::Sub {
        0
    } else {
        mel(es, i)
    }
}

/// A node with meta-elements is a main node; the others are merged away.
pub open spec fn is_main(es: Seq<Strip>, col: Seq<bool>, i: int) -> bool {
    count_spec(es, col, i) != 0
}

// ---------------------------------------------------------------------------------------------
// Merging collinear strips into meta-elements.

/// The end of strip `p` that is not `me`.
pub open spec fn other_end(p: (usize, usize), me: usize) -> usize {
    if p.0 == me {
        p.1
    } else {
        p.0
    }
}

/// The state after the first `k` nodes: each strip's 1-based ends (`(0, 0)` once merged away)
/// and, for each node merged so far, the strip it was merged into. Each non-main node in turn
/// joins the first two strips that touch it into the first, and drops the second. `None` when a
/// node to merge is touched by fewer than two strips.
pub open spec fn merge_upto(es: Seq<Strip>, col: Seq<bool>, k: int) -> Option<
    (Seq<(usize, usize)>, Seq<Option<usize>>),
>
    decreases k,
{
    if k <= 0 {
        Some((initial_ends(es), Seq::new(col.len(), |i: int| None::<usize>)))
    } else {
        match merge_upto(es, col, k - 1) {
            None => None,
            Some(s) => {
                if is_main(es, col, k - 1) {
                    Some(s)
                } else {
                    let me = k as usize;
                    let els = live_touch(s.0, me);
                    if els.len() < 2 {
                        None
                    } else {
                        let e0 = els[0];
                        let e1 = els[1];
                        let no1 = other_end(s.0[e0 as int], me);
                        let no2 = other_end(s.0[e1 as int], me);
                        Some(
                            (
                                s.0.update(e0 as int, (no1, no2)).update(e1 as int, (0usize, 0usize)),
                                s.1.update(k - 1, Some(e0)),
                            ),
                        )
                    }
                }
            }
        }
    }
}

/// The whole merge over every node.
pub open spec fn merged(es: Seq<Strip>, col: Seq<bool>) -> Option<
    (Seq<(usize, usize)>, Seq<Option<usize>>),
> {
    merge_upto(es, col, col.len() as int)
}

proof fn lemma_touch_prefix(st: Seq<(usize, usize)>, me: usize, k: int)
    requires
        0 <= k <= st.len(),
        st.len() <= usize::MAX,
    ensures
        touch_prefix(st, me, k).len() <= k,
        forall|t: int|
            0 <= t < touch_prefix(st, me, k).len() ==> {
                &&& (#[trigger] touch_prefix(st, me, k)[t]) < k
                &&& touches(st[touch_prefix(st, me, k)[t] as int], me)
            },
        forall|a: int, b: int|
            0 <= a < b < touch_prefix(st, me, k).len() ==> touch_prefix(st, me, k)[a]
                < touch_prefix(st, me, k)[b],
    decreases k,
{
    if k > 0 {
        lemma_touch_prefix(st, me, k - 1);
        let p = touch_prefix(st, me, k - 1);
        let q = touch_prefix(st, me, k);
        if touches(st[k - 1], me) {
            assert(q == p.push((k - 1) as usize));
            assert forall|t: int| 0 <= t < p.len() implies q[t] == p[t] by {}
            assert forall|a: int, b: int| 0 <= a < b < q.len() implies q[a] < q[b] by {
                if b < p.len() {
                    assert(q[a] == p[a] && q[b] == p[b]);
                } else {
                    assert(q[a] == p[a]);
                }
            }
        }
    }
}

/// The strips touching each node, ascending.
pub fn node_elements(es: &Vec<Strip>, nnode: usize) -> (r: Vec<Vec<usize>>)
    requires
        strips_in_range(es@, nnode as nat),
    ensures
        r@.len() == nnode,
        forall|i: int| 0 <= i < nnode ==> (#[trigger] r@[i])@ == touching(es@, i),
{
    let mut r: Vec<Vec<usize>> = Vec::new();
    for i in 0..nnode
        invariant
            strips_in_range(es@, nnode as nat),
            r@.len() == i,
            forall|k: int| 0 <= k < i ==> (#[trigger] r@[k])@ == touching(es@, k),
    {
        let v = touching_exec(es, i);
        r.push(v);
    }
    r
}

/// The strips touching node `i`, ascending.
fn touching_exec(es: &Vec<Strip>, i: usize) -> (v: Vec<usize>)
    requires
        i < usize::MAX,
        forall|j: int| 0 <= j < es@.len() ==> (#[trigger] es@[j]).ni < usize::MAX && es@[j].nj
            < usize::MAX,
    ensures
        v@ == touching(es@, i as int),
{
    let ghost st = initial_ends(es@);
    let mut v: Vec<usize> = Vec::new();
    for j in 0..es.len()
        invariant
            i < usize::MAX,
            st == initial_ends(es@),
            forall|j: int| 0 <= j < es@.len() ==> (#[trigger] es@[j]).ni < usize::MAX && es@[j].nj
                < usize::MAX,
            v@ == touch_prefix(st, (i + 1) as usize, j as int),
    {
        if es[j].ni == i || es[j].nj == i {
            v.push(j);
        }
    }
    v
}


// ---------------------------------------------------------------------------------------------
// Counting and numbering the nodes.

/// How many of the first `k` nodes are main nodes.
pub open spec fn main_before(es: Seq<Strip>, col: Seq<bool>, k: int) -> nat
    decreases k,
{
    if k <= 0 {
        0
    } else {
        main_before(es, col, k - 1) + if is_main(es, col, k - 1) {
            1nat
        } else {
            0nat
        }
    }
}

/// How many of the first `k` nodes are of type `t`.
pub open spec fn type_before(es: Seq<Strip>, col: Seq<bool>, t: NodeType, k: int) -> nat
    decreases k,
{
    if k <= 0 {
        0
    } else {
        type_before(es, col, t, k - 1) + if node_type_spec(es, col, k - 1) == t {
            1nat
        } else {
            0nat
        }
    }
}

/// The main nodes among the first `k`, ascending.
pub open spec fn mains_prefix(es: Seq<Strip>, col: Seq<bool>, k: int) -> Seq<usize>
    decreases k,
{
    if k <= 0 {
        Seq::empty()
    } else {
        let p = mains_prefix(es, col, k - 1);
        if is_main(es, col, k - 1) {
            p.push((k - 1) as usize)
        } else {
            p
        }
    }
}

/// A node's place in the main-then-sub numbering: main nodes first, in order, then the rest.
pub open spec fn new_index_spec(es: Seq<Strip>, col: Seq<bool>, i: int) -> nat {
    if is_main(es, col, i) {
        main_before(es, col, i)
    } else {
        (main_before(es, col, col.len() as int) + (i - main_before(es, col, i))) as nat
    }
}

/// A meta-element end's main-node index (0 should a merged run end at a node that is not main).
pub open spec fn remap(es: Seq<Strip>, col: Seq<bool>, x: int) -> usize {
    if is_main(es, col, x) {
        main_before(es, col, x) as usize
    } else {
        0usize
    }
}

/// The strips among the first `k` of `st` that were not merged away, ascending.
pub open spec fn survivors(st: Seq<(usize, usize)>, k: int) -> Seq<usize>
    decreases k,
{
    if k <= 0 {
        Seq::empty()
    } else {
        let p = survivors(st, k - 1);
        if st[k - 1].0 != 0 && st[k - 1].1 != 0 {
            p.push((k - 1) as usize)
        } else {
            p
        }
    }
}

/// The nodes among the first `k` that were merged into strip `j`, ascending.
pub open spec fn merged_into(ch: Seq<Option<usize>>, j: usize, k: int) -> Seq<usize>
    decreases k,
{
    if k <= 0 {
        Seq::empty()
    } else {
        let p = merged_into(ch, j, k - 1);
        if ch[k - 1] == Some(j) {
            p.push((k - 1) as usize)
        } else {
            p
        }
    }
}

/// The meta-elements' end main nodes, given the merged strips' 1-based ends.
pub open spec fn meta_ends(es: Seq<Strip>, col: Seq<bool>, st: Seq<(usize, usize)>) -> Seq<
    (usize, usize),
> {
    let surv = survivors(st, st.len() as int);
    Seq::new(
        surv.len(),
        |t: int|
            (
                remap(es, col, st[surv[t] as int].0 - 1),
                remap(es, col, st[surv[t] as int].1 - 1),
            ),
    )
}

/// The signed 1-based meta-elements among the first `k` that meet main node `mi`: `+(t+1)`
/// where it is the first node, then `-(t+1)` where it is the second.
pub open spec fn signed_prefix(me: Seq<(usize, usize)>, mi: usize, k: int) -> Seq<i64>
    decreases k,
{
    if k <= 0 {
        Seq::empty()
    } else {
        let p = signed_prefix(me, mi, k - 1);
        let a = if me[k - 1].0 == mi {
            p.push(k as i64)
        } else {
            p
        };
        if me[k - 1].1 == mi {
            a.push((-k) as i64)
        } else {
            a
        }
    }
}

/// The strip counts in excess of two, summed over the main nodes among the first `k`.
pub open spec fn excess_before(es: Seq<Strip>, col: Seq<bool>, k: int) -> nat
    decreases k,
{
    if k <= 0 {
        0
    } else {
        excess_before(es, col, k - 1) + if is_main(es, col, k - 1) && mel(es, k - 1) > 2 {
            (mel(es, k - 1) - 2) as nat
        } else {
            0nat
        }
    }
}

/// The number of distortional modes: main nodes less four, less the excess strips at branches,
/// and never below zero.
pub open spec fn ndm_spec(es: Seq<Strip>, col: Seq<bool>) -> nat {
    let n = col.len() as int;
    let d = main_before(es, col, n) - 4 - excess_before(es, col, n);
    if d < 0 {
        0
    } else {
        d as nat
    }
}

/// The number of local modes: one per main node, two per sub-node, one more per edge node.
pub open spec fn nlm_spec(es: Seq<Strip>, col: Seq<bool>) -> nat {
    let n = col.len() as int;
    let nm = main_before(es, col, n);
    (nm + 2 * (n - nm) + type_before(es, col, NodeType::Edge, n)) as nat
}

/// The node that old DOF `q` belongs to, among `n` nodes: `u` and `v` of node `i` are DOFs
/// `2i`, `2i+1`; `w` and `theta` are `2n+2i`, `2n+2i+1`.
pub open spec fn dof_node(n: int, q: int) -> int {
    if q < 2 * n {
        q / 2
    } else {
        (q - 2 * n) / 2
    }
}

/// Total main nodes.
pub open spec fn nm_total(es: Seq<Strip>, col: Seq<bool>) -> int {
    main_before(es, col, col.len() as int) as int
}

/// Total nodes of type `t`.
pub open spec fn type_total(es: Seq<Strip>, col: Seq<bool>, t: NodeType) -> int {
    type_before(es, col, t, col.len() as int) as int
}

/// New place of node `i`'s `u`: corners after the main-node `v` block, edges after the corner
/// `w` block, sub-nodes after every main-node DOF.
pub open spec fn perm_u(es: Seq<Strip>, col: Seq<bool>, i: int) -> int {
    let nm = nm_total(es, col);
    let nc = type_total(es, col, NodeType::Corner);
    match node_type_spec(es, col, i) {
        NodeType::Corner => nm + type_before(es, col, NodeType::Corner, i),
        NodeType::Edge => nm + 2 * nc + type_before(es, col, NodeType::Edge, i),
        NodeType::Sub => 4 * nm + type_before(es, col, NodeType::Sub, i),
    }
}

/// New place of node `i`'s `v`: main nodes first of all, sub-nodes last of all.
pub open spec fn perm_v(es: Seq<Strip>, col: Seq<bool>, i: int) -> int {
    let nm = nm_total(es, col);
    let ns = col.len() - nm;
    match node_type_spec(es, col, i) {
        NodeType::Sub => 4 * nm + 3 * ns + type_before(es, col, NodeType::Sub, i),
        _ => i - type_before(es, col, NodeType::Sub, i),
    }
}

/// New place of node `i`'s `w`.
pub open spec fn perm_w(es: Seq<Strip>, col: Seq<bool>, i: int) -> int {
    let nm = nm_total(es, col);
    let nc = type_total(es, col, NodeType::Corner);
    let ne = type_total(es, col, NodeType::Edge);
    let ns = col.len() - nm;
    match node_type_spec(es, col, i) {
        NodeType::Corner => nm + nc + type_before(es, col, NodeType::Corner, i),
        NodeType::Edge => nm + 2 * nc + ne + type_before(es, col, NodeType::Edge, i),
        NodeType::Sub => 4 * nm + ns + type_before(es, col, NodeType::Sub, i),
    }
}

/// New place of node `i`'s `theta`.
pub open spec fn perm_th(es: Seq<Strip>, col: Seq<bool>, i: int) -> int {
    let nm = nm_total(es, col);
    let ns = col.len() - nm;
    match node_type_spec(es, col, i) {
        NodeType::Sub => 4 * nm + 2 * ns + type_before(es, col, NodeType::Sub, i),
        _ => 3 * nm + i - type_before(es, col, NodeType::Sub, i),
    }
}

/// The new place of old DOF `q`. New order: main-node `v`, corner `u`, corner `w`, edge `u`,
/// edge `w`, main-node `theta`, then sub-node `u`, `w`, `theta`, `v`.
pub open spec fn perm_spec(es: Seq<Strip>, col: Seq<bool>, q: int) -> int {
    let n = col.len() as int;
    let i = dof_node(n, q);
    if q < 2 * n {
        if q % 2 == 0 {
            perm_u(es, col, i)
        } else {
            perm_v(es, col, i)
        }
    } else {
        if q % 2 == 0 {
            perm_w(es, col, i)
        } else {
            perm_th(es, col, i)
        }
    }
}

/// What the topology is, given a merge that went through.
pub open spec fn base_properties_spec(bp: BaseProperties, es: Seq<Strip>, col: Seq<bool>) -> bool {
    let n = col.len() as int;
    let st = merged(es, col).unwrap().0;
    let ch = merged(es, col).unwrap().1;
    let surv = survivors(st, st.len() as int);
    let me = meta_ends(es, col, st);
    let nm = main_before(es, col, n);
    &&& bp.node_type@ == Seq::new(n as nat, |i: int| node_type_spec(es, col, i))
    &&& bp.new_index@ == Seq::new(n as nat, |i: int| new_index_spec(es, col, i) as usize)
    &&& bp.nmno == nm
    &&& bp.ncno == type_before(es, col, NodeType::Corner, n)
    &&& bp.nsno == n - nm
    &&& bp.ndm == ndm_spec(es, col)
    &&& bp.nlm == nlm_spec(es, col)
    &&& bp.perm@ == Seq::new((4 * n) as nat, |q: int| perm_spec(es, col, q) as usize)
    &&& bp.m_elem@.len() == surv.len()
    &&& forall|t: int|
        0 <= t < surv.len() ==> {
            &&& (#[trigger] bp.m_elem@[t]).n1 == me[t].0
            &&& bp.m_elem@[t].n2 == me[t].1
            &&& bp.m_elem@[t].subs@ == merged_into(ch, surv[t], n)
        }
    &&& bp.m_node@.len() == nm
    &&& forall|t: int|
        0 <= t < nm ==> {
            &&& (#[trigger] bp.m_node@[t]).orig == mains_prefix(es, col, n)[t]
            &&& bp.m_node@[t].nel == count_spec(es, col, mains_prefix(es, col, n)[t] as int)
            &&& bp.m_node@[t].elems@ == signed_prefix(me, t as usize, me.len() as int)
        }
}


// ---------------------------------------------------------------------------------------------
// Building the topology.

proof fn lemma_merge_none_persists(es: Seq<Strip>, col: Seq<bool>, k: int, k2: int)
    requires
        k <= k2,
        merge_upto(es, col, k) is None,
    ensures
        merge_upto(es, col, k2) is None,
    decreases k2 - k,
{
    if k < k2 {
        lemma_merge_none_persists(es, col, k, k2 - 1);
    }
}

proof fn lemma_counts_bounded(es: Seq<Strip>, col: Seq<bool>, i: int, k: int)
    requires
        0 <= i <= k,
    ensures
        main_before(es, col, i) <= main_before(es, col, k),
        main_before(es, col, k) <= k,
        type_before(es, col, NodeType::Corner, i) <= type_before(es, col, NodeType::Corner, k),
        type_before(es, col, NodeType::Edge, i) <= type_before(es, col, NodeType::Edge, k),
        type_before(es, col, NodeType::Sub, i) <= type_before(es, col, NodeType::Sub, k),
        type_before(es, col, NodeType::Corner, k) <= k,
        type_before(es, col, NodeType::Edge, k) <= k,
        type_before(es, col, NodeType::Sub, k) <= k,
        type_before(es, col, NodeType::Sub, i) <= i,
        main_before(es, col, i) <= i,
    decreases k,
{
    if k > 0 {
        if i < k {
            lemma_counts_bounded(es, col, i, k - 1);
        } else {
            lemma_counts_bounded(es, col, i - 1, k - 1);
        }
    }
}

/// Every node's type and meta-element count.
fn classify_nodes(es: &Vec<Strip>, col: &Vec<bool>) -> (r: (Vec<NodeType>, Vec<usize>))
    requires
        strips_in_range(es@, col@.len()),
        col@.len() <= usize::MAX / 8,
    ensures
        r.0@ == Seq::new(col@.len(), |i: int| node_type_spec(es@, col@, i)),
        r.1@.len() == col@.len(),
        forall|i: int| 0 <= i < col@.len() ==> r.1@[i] == count_spec(es@, col@, i),
{
    let n = col.len();
    let mut ntype: Vec<NodeType> = Vec::new();
    let mut count: Vec<usize> = Vec::new();
    for i in 0..n
        invariant
            n == col@.len(),
            strips_in_range(es@, col@.len()),
            col@.len() <= usize::MAX / 8,
            ntype@.len() == i,
            count@.len() == i,
            forall|k: int| 0 <= k < i ==> ntype@[k] == node_type_spec(es@, col@, k),
            forall|k: int| 0 <= k < i ==> count@[k] == count_spec(es@, col@, k),
    {
        let els = touching_exec(es, i);
        let m = els.len();
        let t = if m == 2 && col[i] {
            NodeType::Sub
        } else if m >= 2 {
            NodeType::Corner
        } else {
            NodeType::Edge
        };
        let c = if m == 2 && col[i] {
            0
        } else {
            m
        };
        ntype.push(t);
        count.push(c);
    }
    assert(ntype@ =~= Seq::new(col@.len(), |i: int| node_type_spec(es@, col@, i)));
    (ntype, count)
}

/// Every strip of `st` that touches 1-based node `me`, ascending.
fn live_touch_exec(st: &Vec<(usize, usize)>, me: usize) -> (v: Vec<usize>)
    ensures
        v@ == live_touch(st@, me),
{
    let mut v: Vec<usize> = Vec::new();
    for j in 0..st.len()
        invariant
            v@ == touch_prefix(st@, me, j as int),
    {
        if st[j].0 == me || st[j].1 == me {
            v.push(j);
        }
    }
    v
}

/// Merges collinear strips: each non-main node in turn joins the first two strips that touch it.
fn merge_strips(es: &Vec<Strip>, col: &Vec<bool>, count: &Vec<usize>) -> (r: Option<
    (Vec<(usize, usize)>, Vec<Option<usize>>),
>)
    requires
        strips_in_range(es@, col@.len()),
        col@.len() <= usize::MAX / 8,
        count@.len() == col@.len(),
        forall|i: int| 0 <= i < col@.len() ==> count@[i] == count_spec(es@, col@, i),
    ensures
        r is Some <==> merged(es@, col@) is Some,
        r matches Some(p) ==> {
            &&& merged(es@, col@) == Some((p.0@, p.1@))
            &&& p.0@.len() == es@.len()
            &&& p.1@.len() == col@.len()
            &&& forall|j: int|
                0 <= j < p.0@.len() ==> (#[trigger] p.0@[j]).0 <= col@.len() && p.0@[j].1
                    <= col@.len()
        },
{
    let n = col.len();
    let mut st: Vec<(usize, usize)> = Vec::new();
    for j in 0..es.len()
        invariant
            strips_in_range(es@, col@.len()),
            col@.len() <= usize::MAX / 8,
            st@.len() == j,
            forall|k: int| 0 <= k < j ==> st@[k] == initial_ends(es@)[k],
    {
        st.push((es[j].ni + 1, es[j].nj + 1));
    }
    assert(st@ =~= initial_ends(es@));
    let mut ch: Vec<Option<usize>> = Vec::new();
    for i in 0..n
        invariant
            ch@ == Seq::new(i as nat, |k: int| None::<usize>),
    {
        ch.push(None);
        assert(ch@ =~= Seq::new((i + 1) as nat, |k: int| None::<usize>));
    }
    assert(merge_upto(es@, col@, 0) == Some((st@, ch@)));
    for i in 0..n
        invariant
            n == col@.len(),
            strips_in_range(es@, col@.len()),
            col@.len() <= usize::MAX / 8,
            count@.len() == col@.len(),
            forall|i: int| 0 <= i < col@.len() ==> count@[i] == count_spec(es@, col@, i),
            merge_upto(es@, col@, i as int) == Some((st@, ch@)),
            st@.len() == es@.len(),
            ch@.len() == n,
            forall|j: int|
                0 <= j < st@.len() ==> (#[trigger] st@[j]).0 <= n && st@[j].1 <= n,
    {
        if count[i] == 0 {
            let me = i + 1;
            let els = live_touch_exec(&st, me);
            let l = st.len();
            proof {
                lemma_touch_prefix(st@, me, st@.len() as int);
            }
            if els.len() < 2 {
                proof {
                    lemma_merge_none_persists(es@, col@, i + 1, n as int);
                }
                return None;
            }
            let e0 = els[0];
            let e1 = els[1];
            let p0 = st[e0];
            let p1 = st[e1];
            let no1 = if p0.0 == me {
                p0.1
            } else {
                p0.0
            };
            let no2 = if p1.0 == me {
                p1.1
            } else {
                p1.0
            };
            st.set(e0, (no1, no2));
            st.set(e1, (0, 0));
            ch.set(i, Some(e0));
        }
    }
    Some((st, ch))
}

/// The nodes merged into strip `j`, ascending.
fn merged_into_exec(ch: &Vec<Option<usize>>, j: usize) -> (v: Vec<usize>)
    ensures
        v@ == merged_into(ch@, j, ch@.len() as int),
{
    let mut v: Vec<usize> = Vec::new();
    for i in 0..ch.len()
        invariant
            v@ == merged_into(ch@, j, i as int),
    {
        if ch[i] == Some(j) {
            v.push(i);
        }
    }
    v
}

/// The signed meta-elements meeting main node `mi`.
fn signed_exec(me: &Vec<(usize, usize)>, mi: usize) -> (v: Vec<i64>)
    requires
        me@.len() <= usize::MAX / 8,
    ensures
        v@ == signed_prefix(me@, mi, me@.len() as int),
{
    let mut v: Vec<i64> = Vec::new();
    for t in 0..me.len()
        invariant
            me@.len() <= usize::MAX / 8,
            v@ == signed_prefix(me@, mi, t as int),
    {
        let k = (t + 1) as i64;
        if me[t].0 == mi {
            v.push(k);
        }
        if me[t].1 == mi {
            v.push(-k);
        }
    }
    v
}


/// The main nodes in order, and each node's main-node index (0 for the rest).
fn number_mains(es: &Vec<Strip>, col: &Vec<bool>, count: &Vec<usize>) -> (r: (
    Vec<usize>,
    Vec<usize>,
))
    requires
        col@.len() <= usize::MAX / 8,
        count@.len() == col@.len(),
        forall|i: int| 0 <= i < col@.len() ==> count@[i] == count_spec(es@, col@, i),
    ensures
        r.0@ == mains_prefix(es@, col@, col@.len() as int),
        r.1@.len() == col@.len(),
        forall|i: int| 0 <= i < col@.len() ==> r.1@[i] == remap(es@, col@, i),
{
    let n = col.len();
    let mut mains: Vec<usize> = Vec::new();
    let mut idx: Vec<usize> = Vec::new();
    let mut nm: usize = 0;
    for i in 0..n
        invariant
            n == col@.len(),
            col@.len() <= usize::MAX / 8,
            count@.len() == col@.len(),
            forall|i: int| 0 <= i < col@.len() ==> count@[i] == count_spec(es@, col@, i),
            nm == main_before(es@, col@, i as int),
            mains@ == mains_prefix(es@, col@, i as int),
            idx@.len() == i,
            forall|k: int| 0 <= k < i ==> idx@[k] == remap(es@, col@, k),
    {
        proof {
            lemma_counts_bounded(es@, col@, i as int, i as int);
        }
        if count[i] != 0 {
            idx.push(nm);
            mains.push(i);
            nm = nm + 1;
        } else {
            idx.push(0);
        }
    }
    (mains, idx)
}

/// The meta-elements: the strips not merged away, with their ends as main-node indices.
fn meta_elements(st: &Vec<(usize, usize)>, ch: &Vec<Option<usize>>, idx: &Vec<usize>) -> (r: (
    Vec<(usize, usize)>,
    Vec<MElem>,
))
    requires
        forall|j: int|
            0 <= j < st@.len() ==> (#[trigger] st@[j]).0 <= idx@.len() && st@[j].1 <= idx@.len(),
    ensures
        r.0@ == Seq::new(
            survivors(st@, st@.len() as int).len(),
            |t: int|
                (
                    idx@[st@[survivors(st@, st@.len() as int)[t] as int].0 - 1],
                    idx@[st@[survivors(st@, st@.len() as int)[t] as int].1 - 1],
                ),
        ),
        r.1@.len() == r.0@.len(),
        forall|t: int|
            0 <= t < r.1@.len() ==> {
                &&& (#[trigger] r.1@[t]).n1 == r.0@[t].0
                &&& r.1@[t].n2 == r.0@[t].1
                &&& r.1@[t].subs@ == merged_into(
                    ch@,
                    survivors(st@, st@.len() as int)[t],
                    ch@.len() as int,
                )
            },
{
    let mut ends: Vec<(usize, usize)> = Vec::new();
    let mut elems: Vec<MElem> = Vec::new();
    for k in 0..st.len()
        invariant
            forall|j: int|
                0 <= j < st@.len() ==> (#[trigger] st@[j]).0 <= idx@.len() && st@[j].1
                    <= idx@.len(),
            ends@ == Seq::new(
                survivors(st@, k as int).len(),
                |t: int|
                    (
                        idx@[st@[survivors(st@, k as int)[t] as int].0 - 1],
                        idx@[st@[survivors(st@, k as int)[t] as int].1 - 1],
                    ),
            ),
            elems@.len() == ends@.len(),
            forall|t: int|
                0 <= t < elems@.len() ==> {
                    &&& (#[trigger] elems@[t]).n1 == ends@[t].0
                    &&& elems@[t].n2 == ends@[t].1
                    &&& elems@[t].subs@ == merged_into(
                        ch@,
                        survivors(st@, k as int)[t],
                        ch@.len() as int,
                    )
                },
    {
        let ghost sv = survivors(st@, k as int);
        let p = st[k];
        if p.0 != 0 && p.1 != 0 {
            let a = idx[p.0 - 1];
            let b = idx[p.1 - 1];
            let subs = merged_into_exec(ch, k);
            ends.push((a, b));
            elems.push(MElem { n1: a, n2: b, subs });
            proof {
                let sv2 = survivors(st@, k + 1);
                assert(sv2 == sv.push(k));
                assert forall|t: int| 0 <= t < sv.len() implies sv2[t] == sv[t] by {}
                assert(ends@ =~= Seq::new(
                    sv2.len(),
                    |t: int|
                        (idx@[st@[sv2[t] as int].0 - 1], idx@[st@[sv2[t] as int].1 - 1]),
                ));
            }
        } else {
            assert(survivors(st@, k + 1) == sv);
        }
    }
    (ends, elems)
}


proof fn lemma_mains_len(es: Seq<Strip>, col: Seq<bool>, k: int)
    requires
        0 <= k,
    ensures
        mains_prefix(es, col, k).len() == main_before(es, col, k),
    decreases k,
{
    if k > 0 {
        lemma_mains_len(es, col, k - 1);
    }
}

/// How many nodes are corners, edges and sub-nodes.
fn type_counts(es: &Vec<Strip>, col: &Vec<bool>, ntype: &Vec<NodeType>) -> (r: (usize, usize, usize))
    requires
        col@.len() <= usize::MAX / 8,
        ntype@ == Seq::new(col@.len(), |i: int| node_type_spec(es@, col@, i)),
    ensures
        r.0 == type_before(es@, col@, NodeType::Corner, col@.len() as int),
        r.1 == type_before(es@, col@, NodeType::Edge, col@.len() as int),
        r.2 == type_before(es@, col@, NodeType::Sub, col@.len() as int),
{
    let n = ntype.len();
    let (mut c, mut e, mut s) = (0usize, 0usize, 0usize);
    for i in 0..n
        invariant
            n == col@.len(),
            col@.len() <= usize::MAX / 8,
            ntype@ == Seq::new(col@.len(), |i: int| node_type_spec(es@, col@, i)),
            c == type_before(es@, col@, NodeType::Corner, i as int),
            e == type_before(es@, col@, NodeType::Edge, i as int),
            s == type_before(es@, col@, NodeType::Sub, i as int),
    {
        proof {
            lemma_counts_bounded(es@, col@, i as int, i as int);
        }
        match ntype[i] {
            NodeType::Corner => c = c + 1,
            NodeType::Edge => e = e + 1,
            NodeType::Sub => s = s + 1,
        }
    }
    (c, e, s)
}

/// The distortional mode count.
fn ndm_exec(es: &Vec<Strip>, col: &Vec<bool>, count: &Vec<usize>, nm: usize) -> (d: usize)
    requires
        col@.len() <= usize::MAX / 8,
        count@.len() == col@.len(),
        forall|i: int| 0 <= i < col@.len() ==> count@[i] == count_spec(es@, col@, i),
        nm == main_before(es@, col@, col@.len() as int),
    ensures
        d == ndm_spec(es@, col@),
{
    let n = count.len();
    let mut rem: usize = if nm >= 4 {
        nm - 4
    } else {
        0
    };
    for i in 0..n
        invariant
            n == col@.len(),
            count@.len() == col@.len(),
            forall|i: int| 0 <= i < col@.len() ==> count@[i] == count_spec(es@, col@, i),
            nm == main_before(es@, col@, col@.len() as int),
            rem == (if nm - 4 - excess_before(es@, col@, i as int) < 0 {
                0
            } else {
                nm - 4 - excess_before(es@, col@, i as int)
            }),
    {
        let c = count[i];
        if c > 2 {
            let x = c - 2;
            rem = if rem >= x {
                rem - x
            } else {
                0
            };
        }
    }
    rem
}

proof fn lemma_dof_node_of(n: int, i: int)
    requires
        0 <= i < n,
    ensures
        dof_node(n, 2 * i) == i,
        dof_node(n, 2 * i + 1) == i,
        dof_node(n, 2 * n + 2 * i) == i,
        dof_node(n, 2 * n + 2 * i + 1) == i,
        (2 * i) % 2 == 0,
        (2 * i + 1) % 2 == 1,
        (2 * n + 2 * i) % 2 == 0,
        (2 * n + 2 * i + 1) % 2 == 1,
{
}

proof fn lemma_dof_node_cases(n: int, i: int, q: int)
    requires
        0 <= i < n,
        0 <= q < 4 * n,
        dof_node(n, q) == i,
    ensures
        q == 2 * i || q == 2 * i + 1 || q == 2 * n + 2 * i || q == 2 * n + 2 * i + 1,
{
}

/// The DOF ordering, old DOF to new.
fn build_perm(
    es: &Vec<Strip>,
    col: &Vec<bool>,
    ntype: &Vec<NodeType>,
    nm: usize,
    nc: usize,
    ne: usize,
) -> (perm: Vec<usize>)
    requires
        col@.len() <= usize::MAX / 8,
        ntype@ == Seq::new(col@.len(), |i: int| node_type_spec(es@, col@, i)),
        nm == main_before(es@, col@, col@.len() as int),
        nc == type_before(es@, col@, NodeType::Corner, col@.len() as int),
        ne == type_before(es@, col@, NodeType::Edge, col@.len() as int),
    ensures
        perm@ == Seq::new((4 * col@.len()) as nat, |q: int| perm_spec(es@, col@, q) as usize),
{
    let n = ntype.len();
    let ghost nn = n as int;
    proof {
        lemma_counts_bounded(es@, col@, nn, nn);
    }
    let ns = n - nm;
    let mut perm: Vec<usize> = Vec::new();
    for q in 0..4 * n
        invariant
            perm@.len() == q,
    {
        perm.push(0);
    }
    let (mut ic, mut ie, mut is) = (0usize, 0usize, 0usize);
    for i in 0..n
        invariant
            n == col@.len(),
            nn == n,
            col@.len() <= usize::MAX / 8,
            ntype@ == Seq::new(col@.len(), |i: int| node_type_spec(es@, col@, i)),
            nm == main_before(es@, col@, nn),
            nc == type_before(es@, col@, NodeType::Corner, nn),
            ne == type_before(es@, col@, NodeType::Edge, nn),
            ns == n - nm,
            nm <= n,
            nc <= n,
            ne <= n,
            ic == type_before(es@, col@, NodeType::Corner, i as int),
            ie == type_before(es@, col@, NodeType::Edge, i as int),
            is == type_before(es@, col@, NodeType::Sub, i as int),
            perm@.len() == 4 * n,
            forall|q: int|
                0 <= q < 4 * nn && dof_node(nn, q) < i ==> #[trigger] perm@[q] == perm_spec(
                    es@,
                    col@,
                    q,
                ) as usize,
    {
        proof {
            lemma_counts_bounded(es@, col@, i as int, nn);
            lemma_counts_bounded(es@, col@, i as int, i as int);
        }
        let t = ntype[i];
        let (u, w) = match t {
            NodeType::Corner => (nm + ic, nm + nc + ic),
            NodeType::Edge => (nm + 2 * nc + ie, nm + 2 * nc + ne + ie),
            NodeType::Sub => (4 * nm + is, 4 * nm + ns + is),
        };
        let (v, th) = match t {
            NodeType::Sub => (4 * nm + 3 * ns + is, 4 * nm + 2 * ns + is),
            _ => (i - is, 3 * nm + i - is),
        };
        proof {
            let ii = i as int;
            assert(u as int == perm_u(es@, col@, ii));
            assert(v as int == perm_v(es@, col@, ii));
            assert(w as int == perm_w(es@, col@, ii));
            assert(th as int == perm_th(es@, col@, ii));
            lemma_dof_node_of(nn, ii);
        }
        perm.set(2 * i, u);
        perm.set(2 * i + 1, v);
        perm.set(2 * n + 2 * i, w);
        perm.set(2 * n + 2 * i + 1, th);
        proof {
            let ii = i as int;
            assert forall|q: int|
                0 <= q < 4 * nn && dof_node(nn, q) < ii + 1 implies #[trigger] perm@[q]
                == perm_spec(es@, col@, q) as usize by {
                if dof_node(nn, q) == ii {
                    lemma_dof_node_cases(nn, ii, q);
                }
            }
        }
        match t {
            NodeType::Corner => ic = ic + 1,
            NodeType::Edge => ie = ie + 1,
            NodeType::Sub => is = is + 1,
        }
    }
    assert(perm@ =~= Seq::new((4 * col@.len()) as nat, |q: int| perm_spec(es@, col@, q) as usize));
    perm
}


/// Each node's place in the main-then-sub numbering: fills in the non-main nodes after the main
/// ones.
fn number_rest(es: &Vec<Strip>, col: &Vec<bool>, count: &Vec<usize>, idx: &mut Vec<usize>, nm: usize)
    requires
        col@.len() <= usize::MAX / 8,
        count@.len() == col@.len(),
        forall|i: int| 0 <= i < col@.len() ==> count@[i] == count_spec(es@, col@, i),
        old(idx)@.len() == col@.len(),
        forall|i: int| 0 <= i < col@.len() ==> old(idx)@[i] == remap(es@, col@, i),
        nm == main_before(es@, col@, col@.len() as int),
    ensures
        final(idx)@ == Seq::new(col@.len(), |i: int| new_index_spec(es@, col@, i) as usize),
{
    let n = count.len();
    let ghost nn = n as int;
    let mut ns: usize = 0;
    for i in 0..n
        invariant
            n == col@.len(),
            nn == n,
            col@.len() <= usize::MAX / 8,
            count@.len() == col@.len(),
            forall|i: int| 0 <= i < col@.len() ==> count@[i] == count_spec(es@, col@, i),
            nm == main_before(es@, col@, nn),
            ns == i - main_before(es@, col@, i as int),
            idx@.len() == n,
            forall|k: int| 0 <= k < i ==> idx@[k] == new_index_spec(es@, col@, k) as usize,
            forall|k: int| i <= k < n ==> idx@[k] == remap(es@, col@, k),
    {
        proof {
            lemma_counts_bounded(es@, col@, i as int, nn);
            lemma_counts_bounded(es@, col@, i as int + 1, nn);
        }
        if count[i] == 0 {
            idx.set(i, nm + ns);
            ns = ns + 1;
        }
    }
    assert(idx@ =~= Seq::new(col@.len(), |i: int| new_index_spec(es@, col@, i) as usize));
}

/// The section's topology: node types, meta-elements, main nodes, the main-then-sub numbering,
/// the distortional and local mode counts and the DOF ordering. `collinear[i]` says whether
/// node `i`'s strips, where it has exactly two, are collinear (see [`node_elements`]). `None`
/// when a node to merge is touched by fewer than two strips.
pub fn base_properties(es: &Vec<Strip>, collinear: &Vec<bool>) -> (r: Option<BaseProperties>)
    requires
        strips_in_range(es@, collinear@.len()),
        collinear@.len() <= usize::MAX / 8,
        es@.len() <= usize::MAX / 8,
    ensures
        r is Some <==> merged(es@, collinear@) is Some,
        r matches Some(bp) ==> base_properties_spec(bp, es@, collinear@),
{
    let n = collinear.len();
    let (node_type, count) = classify_nodes(es, collinear);
    let merged_strips = merge_strips(es, collinear, &count);
    let (st, ch) = match merged_strips {
        None => return None,
        Some(p) => p,
    };
    let (mains, mut new_index) = number_mains(es, collinear, &count);
    let (ends, m_elem) = meta_elements(&st, &ch, &new_index);
    let nm = mains.len();
    proof {
        lemma_mains_len(es@, collinear@, n as int);
        let sv = survivors(st@, st@.len() as int);
        lemma_survivors(st@, st@.len() as int);
        assert(ends@ =~= meta_ends(es@, collinear@, st@)) by {
            assert forall|t: int| 0 <= t < sv.len() implies ends@[t] == meta_ends(
                es@,
                collinear@,
                st@,
            )[t] by {
                lemma_survivors(st@, st@.len() as int);
                let j = sv[t] as int;
                assert(0 <= j < st@.len());
            }
        }
    }
    let mut m_node: Vec<MNode> = Vec::new();
    for t in 0..nm
        invariant
            nm == mains@.len(),
            mains@ == mains_prefix(es@, collinear@, n as int),
            n == collinear@.len(),
            count@.len() == n,
            forall|i: int| 0 <= i < n ==> count@[i] == count_spec(es@, collinear@, i),
            ends@.len() <= es@.len(),
            es@.len() <= usize::MAX / 8,
            m_node@.len() == t,
            forall|k: int|
                0 <= k < t ==> {
                    &&& (#[trigger] m_node@[k]).orig == mains@[k]
                    &&& m_node@[k].nel == count_spec(es@, collinear@, mains@[k] as int)
                    &&& m_node@[k].elems@ == signed_prefix(ends@, k as usize, ends@.len() as int)
                },
    {
        let orig = mains[t];
        proof {
            lemma_mains_bound(es@, collinear@, n as int);
        }
        let elems = signed_exec(&ends, t);
        m_node.push(MNode { orig, nel: count[orig], elems });
    }
    number_rest(es, collinear, &count, &mut new_index, nm);
    let (nc, ne, _nsub) = type_counts(es, collinear, &node_type);
    let ndm = ndm_exec(es, collinear, &count, nm);
    proof {
        lemma_counts_bounded(es@, collinear@, n as int, n as int);
    }
    let nlm = nm + 2 * (n - nm) + ne;
    let perm = build_perm(es, collinear, &node_type, nm, nc, ne);
    Some(
        BaseProperties {
            node_type,
            new_index,
            m_node,
            m_elem,
            nmno: nm,
            ncno: nc,
            nsno: n - nm,
            ndm,
            nlm,
            perm,
        },
    )
}

proof fn lemma_survivors(st: Seq<(usize, usize)>, k: int)
    requires
        0 <= k <= st.len(),
        st.len() <= usize::MAX,
    ensures
        survivors(st, k).len() <= k,
        forall|t: int|
            0 <= t < survivors(st, k).len() ==> {
                &&& (#[trigger] survivors(st, k)[t]) < k
                &&& st[survivors(st, k)[t] as int].0 != 0
                &&& st[survivors(st, k)[t] as int].1 != 0
            },
    decreases k,
{
    if k > 0 {
        lemma_survivors(st, k - 1);
        let p = survivors(st, k - 1);
        let q = survivors(st, k);
        if st[k - 1].0 != 0 && st[k - 1].1 != 0 {
            assert(q == p.push((k - 1) as usize));
            assert forall|t: int| 0 <= t < q.len() implies q[t] < k && st[q[t] as int].0 != 0
                && st[q[t] as int].1 != 0 by {
                if t < p.len() {
                    assert(q[t] == p[t]);
                }
            }
        }
    }
}

proof fn lemma_mains_bound(es: Seq<Strip>, col: Seq<bool>, k: int)
    requires
        0 <= k,
        k <= usize::MAX,
    ensures
        forall|t: int|
            0 <= t < mains_prefix(es, col, k).len() ==> (#[trigger] mains_prefix(es, col, k)[t])
                < k,
    decreases k,
{
    if k > 0 {
        lemma_mains_bound(es, col, k - 1);
        let p = mains_prefix(es, col, k - 1);
        let q = mains_prefix(es, col, k);
        if is_main(es, col, k - 1) {
            assert(q == p.push((k - 1) as usize));
            assert forall|t: int| 0 <= t < q.len() implies q[t] < k by {
                if t < p.len() {
                    assert(q[t] == p[t]);
                }
            }
        }
    }
}


// ---------------------------------------------------------------------------------------------
// Laws of the numbering.

proof fn lemma_touch_nonempty(st: Seq<(usize, usize)>, me: usize, j: int, k: int)
    requires
        0 <= j < k <= st.len(),
        touches(st[j], me),
    ensures
        touch_prefix(st, me, k).len() > 0,
    decreases k,
{
    if k - 1 > j {
        lemma_touch_nonempty(st, me, j, k - 1);
    }
}

/// Every 1-based end left in the merge state is 0 or a node that some strip touches.
pub open spec fn ends_touched(es: Seq<Strip>, st: Seq<(usize, usize)>) -> bool {
    forall|j: int|
        0 <= j < st.len() ==> {
            &&& ((#[trigger] st[j]).0 == 0 || mel(es, st[j].0 - 1) >= 1)
            &&& (st[j].1 == 0 || mel(es, st[j].1 - 1) >= 1)
        }
}

proof fn lemma_merge_ends_touched(es: Seq<Strip>, col: Seq<bool>, k: int)
    requires
        0 <= k <= col.len(),
        strips_in_range(es, col.len()),
        col.len() <= usize::MAX / 8,
        es.len() <= usize::MAX / 8,
        merge_upto(es, col, k) is Some,
    ensures
        merge_upto(es, col, k).unwrap().0.len() == es.len(),
        ends_touched(es, merge_upto(es, col, k).unwrap().0),
        forall|i: int| 0 <= i < k ==> mel(es, i) >= 1,
    decreases k,
{
    if k == 0 {
        let st = initial_ends(es);
        assert forall|j: int| 0 <= j < st.len() implies {
            &&& ((#[trigger] st[j]).0 == 0 || mel(es, st[j].0 - 1) >= 1)
            &&& (st[j].1 == 0 || mel(es, st[j].1 - 1) >= 1)
        } by {
            assert(es[j].ni < col.len() && es[j].nj < col.len());
            lemma_touch_nonempty(st, st[j].0, j, st.len() as int);
            lemma_touch_nonempty(st, st[j].1, j, st.len() as int);
            assert(touching(es, es[j].ni as int) == touch_prefix(st, st[j].0, st.len() as int));
            assert(touching(es, es[j].nj as int) == touch_prefix(st, st[j].1, st.len() as int));
        }
    } else {
        lemma_merge_ends_touched(es, col, k - 1);
        let s = merge_upto(es, col, k - 1).unwrap();
        let me = k as usize;
        if !is_main(es, col, k - 1) {
            let els = live_touch(s.0, me);
            lemma_touch_prefix(s.0, me, s.0.len() as int);
            assert(els.len() >= 2);
            let e0 = els[0] as int;
            assert(touches(s.0[e0], me));
            assert(mel(es, k - 1) >= 1);
            let e1 = els[1] as int;
            let no1 = other_end(s.0[e0], me);
            let no2 = other_end(s.0[e1], me);
            let st2 = s.0.update(e0, (no1, no2)).update(e1, (0usize, 0usize));
            assert forall|j: int| 0 <= j < st2.len() implies {
                &&& ((#[trigger] st2[j]).0 == 0 || mel(es, st2[j].0 - 1) >= 1)
                &&& (st2[j].1 == 0 || mel(es, st2[j].1 - 1) >= 1)
            } by {
                assert(s.0[e0].0 == 0 || mel(es, s.0[e0].0 - 1) >= 1);
                assert(s.0[e0].1 == 0 || mel(es, s.0[e0].1 - 1) >= 1);
                assert(s.0[e1].0 == 0 || mel(es, s.0[e1].0 - 1) >= 1);
                assert(s.0[e1].1 == 0 || mel(es, s.0[e1].1 - 1) >= 1);
                assert(s.0[j].0 == 0 || mel(es, s.0[j].0 - 1) >= 1);
            }
        } else {
            assert(count_spec(es, col, k - 1) != 0);
        }
    }
}


proof fn lemma_type_rank_strict(es: Seq<Strip>, col: Seq<bool>, t: NodeType, i: int, j: int)
    requires
        0 <= i < j,
        node_type_spec(es, col, i) == t,
    ensures
        type_before(es, col, t, i) < type_before(es, col, t, j),
    decreases j,
{
    if j > i + 1 {
        lemma_type_rank_strict(es, col, t, i, j - 1);
    }
}

proof fn lemma_nonsub_rank_strict(es: Seq<Strip>, col: Seq<bool>, i: int, j: int)
    requires
        0 <= i < j,
        node_type_spec(es, col, i) != NodeType::Sub,
    ensures
        i - type_before(es, col, NodeType::Sub, i) < j - type_before(es, col, NodeType::Sub, j),
    decreases j,
{
    if j > i + 1 {
        lemma_nonsub_rank_strict(es, col, i, j - 1);
    }
}

proof fn lemma_main_rank_strict(es: Seq<Strip>, col: Seq<bool>, i: int, j: int)
    requires
        0 <= i < j,
        is_main(es, col, i),
    ensures
        main_before(es, col, i) < main_before(es, col, j),
    decreases j,
{
    if j > i + 1 {
        lemma_main_rank_strict(es, col, i, j - 1);
    }
}

proof fn lemma_rest_rank_strict(es: Seq<Strip>, col: Seq<bool>, i: int, j: int)
    requires
        0 <= i < j,
        !is_main(es, col, i),
    ensures
        i - main_before(es, col, i) < j - main_before(es, col, j),
    decreases j,
{
    if j > i + 1 {
        lemma_rest_rank_strict(es, col, i, j - 1);
    }
}

proof fn lemma_types_sum(es: Seq<Strip>, col: Seq<bool>, k: int)
    requires
        0 <= k,
    ensures
        type_before(es, col, NodeType::Corner, k) + type_before(es, col, NodeType::Edge, k)
            + type_before(es, col, NodeType::Sub, k) == k,
    decreases k,
{
    if k > 0 {
        lemma_types_sum(es, col, k - 1);
    }
}

proof fn lemma_mains_are_nonsub(es: Seq<Strip>, col: Seq<bool>, k: int)
    requires
        0 <= k <= col.len(),
        forall|i: int| 0 <= i < k ==> mel(es, i) >= 1,
    ensures
        main_before(es, col, k) + type_before(es, col, NodeType::Sub, k) == k,
        forall|i: int|
            0 <= i < k ==> (is_main(es, col, i) <==> node_type_spec(es, col, i)
                != NodeType::Sub),
    decreases k,
{
    if k > 0 {
        lemma_mains_are_nonsub(es, col, k - 1);
    }
}

/// Which of the four DOFs of its node old DOF `q` is: 0 `u`, 1 `v`, 2 `w`, 3 `theta`.
spec fn dof_kind(n: int, q: int) -> int {
    if q < 2 * n {
        if q % 2 == 0 {
            0
        } else {
            1
        }
    } else {
        if q % 2 == 0 {
            2
        } else {
            3
        }
    }
}

/// Which block of the new order DOF `q` goes to (see [`perm_spec`]).
spec fn dof_block(es: Seq<Strip>, col: Seq<bool>, q: int) -> int {
    let t = node_type_spec(es, col, dof_node(col.len() as int, q));
    let k = dof_kind(col.len() as int, q);
    if k == 0 {
        match t {
            NodeType::Corner => 1,
            NodeType::Edge => 3,
            NodeType::Sub => 6,
        }
    } else if k == 1 {
        if t == NodeType::Sub {
            9
        } else {
            0
        }
    } else if k == 2 {
        match t {
            NodeType::Corner => 2,
            NodeType::Edge => 4,
            NodeType::Sub => 7,
        }
    } else {
        if t == NodeType::Sub {
            8
        } else {
            5
        }
    }
}

/// Where block `b` of the new order starts; block 10 is the end.
spec fn block_start(es: Seq<Strip>, col: Seq<bool>, b: int) -> int {
    let n = col.len() as int;
    let nm = nm_total(es, col);
    let nc = type_total(es, col, NodeType::Corner);
    let ne = type_total(es, col, NodeType::Edge);
    let ns = n - nm;
    if b <= 0 {
        0
    } else if b == 1 {
        nm
    } else if b == 2 {
        nm + nc
    } else if b == 3 {
        nm + 2 * nc
    } else if b == 4 {
        nm + 2 * nc + ne
    } else if b == 5 {
        3 * nm
    } else if b == 6 {
        4 * nm
    } else if b == 7 {
        4 * nm + ns
    } else if b == 8 {
        4 * nm + 2 * ns
    } else if b == 9 {
        4 * nm + 3 * ns
    } else {
        4 * n
    }
}

/// DOF `q`'s place within its block.
spec fn dof_rank(es: Seq<Strip>, col: Seq<bool>, q: int) -> int {
    let i = dof_node(col.len() as int, q);
    match node_type_spec(es, col, i) {
        NodeType::Corner => if dof_kind(col.len() as int, q) == 0 || dof_kind(col.len() as int, q)
            == 2 {
            type_before(es, col, NodeType::Corner, i) as int
        } else {
            i - type_before(es, col, NodeType::Sub, i)
        },
        NodeType::Edge => if dof_kind(col.len() as int, q) == 0 || dof_kind(col.len() as int, q)
            == 2 {
            type_before(es, col, NodeType::Edge, i) as int
        } else {
            i - type_before(es, col, NodeType::Sub, i)
        },
        NodeType::Sub => type_before(es, col, NodeType::Sub, i) as int,
    }
}

proof fn lemma_block_starts(es: Seq<Strip>, col: Seq<bool>, a: int, b: int)
    requires
        a <= b,
        type_total(es, col, NodeType::Corner) + type_total(es, col, NodeType::Edge) == nm_total(
            es,
            col,
        ),
        nm_total(es, col) <= col.len(),
        type_total(es, col, NodeType::Corner) >= 0,
        type_total(es, col, NodeType::Edge) >= 0,
    ensures
        block_start(es, col, a) <= block_start(es, col, b),
    decreases b - a,
{
    if a < b {
        lemma_block_starts(es, col, a, b - 1);
    }
}

proof fn lemma_perm_decompose(es: Seq<Strip>, col: Seq<bool>, q: int)
    requires
        0 <= q < 4 * col.len(),
        forall|i: int| 0 <= i < col.len() ==> mel(es, i) >= 1,
    ensures
        perm_spec(es, col, q) == block_start(es, col, dof_block(es, col, q)) + dof_rank(es, col, q),
        0 <= dof_rank(es, col, q),
        block_start(es, col, dof_block(es, col, q)) + dof_rank(es, col, q) < block_start(
            es,
            col,
            dof_block(es, col, q) + 1,
        ),
{
    let n = col.len() as int;
    let i = dof_node(n, q);
    lemma_counts_bounded(es, col, i, n);
    lemma_counts_bounded(es, col, i, i);
    lemma_mains_are_nonsub(es, col, n);
    lemma_types_sum(es, col, n);
    match node_type_spec(es, col, i) {
        NodeType::Corner => {
            lemma_type_rank_strict(es, col, NodeType::Corner, i, n);
            lemma_nonsub_rank_strict(es, col, i, n);
        },
        NodeType::Edge => {
            lemma_type_rank_strict(es, col, NodeType::Edge, i, n);
            lemma_nonsub_rank_strict(es, col, i, n);
        },
        NodeType::Sub => {
            lemma_type_rank_strict(es, col, NodeType::Sub, i, n);
        },
    }
}

proof fn lemma_same_block_rank(es: Seq<Strip>, col: Seq<bool>, q1: int, q2: int)
    requires
        0 <= q1 < 4 * col.len(),
        0 <= q2 < 4 * col.len(),
        q1 != q2,
        dof_block(es, col, q1) == dof_block(es, col, q2),
        dof_node(col.len() as int, q1) < dof_node(col.len() as int, q2),
    ensures
        dof_rank(es, col, q1) < dof_rank(es, col, q2),
{
    let n = col.len() as int;
    let i = dof_node(n, q1);
    let j = dof_node(n, q2);
    match node_type_spec(es, col, i) {
        NodeType::Corner => {
            lemma_type_rank_strict(es, col, NodeType::Corner, i, j);
            lemma_nonsub_rank_strict(es, col, i, j);
        },
        NodeType::Edge => {
            lemma_type_rank_strict(es, col, NodeType::Edge, i, j);
            lemma_nonsub_rank_strict(es, col, i, j);
        },
        NodeType::Sub => {
            lemma_type_rank_strict(es, col, NodeType::Sub, i, j);
        },
    }
}

/// The DOF ordering is a permutation: each of the `4n` old DOFs gets its own new place among
/// the `4n`.
pub proof fn lemma_dof_ordering_is_permutation(es: Seq<Strip>, col: Seq<bool>)
    requires
        strips_in_range(es, col.len()),
        col.len() <= usize::MAX / 8,
        es.len() <= usize::MAX / 8,
        merged(es, col) is Some,
    ensures
        forall|q: int|
            0 <= q < 4 * col.len() ==> 0 <= #[trigger] perm_spec(es, col, q) < 4 * col.len(),
        forall|q1: int, q2: int|
            0 <= q1 < 4 * col.len() && 0 <= q2 < 4 * col.len() && q1 != q2 ==> perm_spec(
                es,
                col,
                q1,
            ) != perm_spec(es, col, q2),
{
    let n = col.len() as int;
    lemma_merge_ends_touched(es, col, n);
    lemma_mains_are_nonsub(es, col, n);
    lemma_types_sum(es, col, n);
    lemma_counts_bounded(es, col, n, n);
    assert forall|q: int| 0 <= q < 4 * n implies 0 <= #[trigger] perm_spec(es, col, q) < 4 * n by {
        lemma_perm_decompose(es, col, q);
        lemma_block_starts(es, col, 0, dof_block(es, col, q));
        lemma_block_starts(es, col, dof_block(es, col, q) + 1, 10);
    }
    assert forall|q1: int, q2: int|
        0 <= q1 < 4 * n && 0 <= q2 < 4 * n && q1 != q2 implies perm_spec(es, col, q1)
        != perm_spec(es, col, q2) by {
        lemma_perm_decompose(es, col, q1);
        lemma_perm_decompose(es, col, q2);
        let b1 = dof_block(es, col, q1);
        let b2 = dof_block(es, col, q2);
        if b1 < b2 {
            lemma_block_starts(es, col, b1 + 1, b2);
        } else if b2 < b1 {
            lemma_block_starts(es, col, b2 + 1, b1);
        } else {
            let i1 = dof_node(n, q1);
            let i2 = dof_node(n, q2);
            if i1 < i2 {
                lemma_same_block_rank(es, col, q1, q2);
            } else if i2 < i1 {
                lemma_same_block_rank(es, col, q2, q1);
            } else {
                assert(dof_kind(n, q1) == dof_kind(n, q2));
                assert(q1 == q2);
            }
        }
    }
}

/// The main-then-sub numbering is a permutation of the `n` nodes.
pub proof fn lemma_new_index_is_permutation(es: Seq<Strip>, col: Seq<bool>)
    ensures
        forall|i: int|
            0 <= i < col.len() ==> #[trigger] new_index_spec(es, col, i) < col.len(),
        forall|i: int, j: int|
            0 <= i < col.len() && 0 <= j < col.len() && i != j ==> new_index_spec(es, col, i)
                != new_index_spec(es, col, j),
{
    let n = col.len() as int;
    assert forall|i: int| 0 <= i < n implies #[trigger] new_index_spec(es, col, i) < n by {
        lemma_counts_bounded(es, col, i, n);
        if is_main(es, col, i) {
            lemma_main_rank_strict(es, col, i, n);
        } else {
            lemma_rest_rank_strict(es, col, i, n);
        }
    }
    assert forall|i: int, j: int|
        0 <= i < n && 0 <= j < n && i != j implies new_index_spec(es, col, i) != new_index_spec(
        es,
        col,
        j,
    ) by {
        let (a, b) = if i < j {
            (i, j)
        } else {
            (j, i)
        };
        lemma_counts_bounded(es, col, a, n);
        lemma_counts_bounded(es, col, b, n);
        lemma_counts_bounded(es, col, a, b);
        if is_main(es, col, a) {
            lemma_main_rank_strict(es, col, a, b);
            lemma_main_rank_strict(es, col, a, n);
            if !is_main(es, col, b) {
                lemma_rest_rank_strict(es, col, b, n);
            }
        } else {
            lemma_rest_rank_strict(es, col, a, b);
            lemma_rest_rank_strict(es, col, a, n);
            if is_main(es, col, b) {
                lemma_main_rank_strict(es, col, b, n);
            }
        }
    }
}


// ---------------------------------------------------------------------------------------------
// Meta-element ends, and the modal spaces.

/// The main node at the far end of signed meta-element `e` (`+j`: its second node, `-j`: its
/// first).
pub fn far_end(bp: &BaseProperties, e: i64) -> (r: usize)
    requires
        e != 0,
        bp.m_elem@.len() <= i64::MAX,
        -(bp.m_elem@.len() as int) <= e <= bp.m_elem@.len(),
    ensures
        r == (if e > 0 {
            bp.m_elem@[e - 1].n2
        } else {
            bp.m_elem@[-e - 1].n1
        }),
{
    let _len = bp.m_elem.len();
    if e > 0 {
        let k = (e - 1) as usize;
        bp.m_elem[k].n2
    } else {
        let k = (-e - 1) as usize;
        bp.m_elem[k].n1
    }
}

/// How the base vectors are orthogonalised within each space.
#[derive(Clone, Copy, Debug, PartialEq, Eq, Structural)]
pub enum Orth {
    /// The natural basis, as built (code 1).
    Natural,
    /// Modal basis, axial orthogonality (code 2; the default).
    Axial,
    /// Modal basis, load-dependent orthogonality, the section's own stresses (code 3).
    Load,
}

impl Orth {
    /// The numeric option code: natural 1, axial 2, load 3.
    pub fn code(self) -> (c: u8)
        ensures
            c == (match self {
                Orth::Natural => 1u8,
                Orth::Axial => 2u8,
                Orth::Load => 3u8,
            }),
    {
        match self {
            Orth::Natural => 1,
            Orth::Axial => 2,
            Orth::Load => 3,
        }
    }
}

/// How each base vector is normalised.
#[derive(Clone, Copy, Debug, PartialEq, Eq, Structural)]
pub enum Norm {
    /// Not normalised (code 0).
    Unscaled,
    /// Unit length (code 1; the default for classification).
    Vector,
    /// Unit strain energy, `vT K v = 1` (code 2).
    StrainEnergy,
    /// Unit work, `vT Kg v = 1` (code 3).
    Work,
}

impl Norm {
    /// The numeric option code: none 0, vector 1, strain energy 2, work 3.
    pub fn code(self) -> (c: u8)
        ensures
            c == (match self {
                Norm::Unscaled => 0u8,
                Norm::Vector => 1u8,
                Norm::StrainEnergy => 2u8,
                Norm::Work => 3u8,
            }),
    {
        match self {
            Norm::Unscaled => 0,
            Norm::Vector => 1,
            Norm::StrainEnergy => 2,
            Norm::Work => 3,
        }
    }
}

/// Which modal spaces to keep, each whole.
#[derive(Clone, Copy, Debug, Default, PartialEq, Eq, Structural)]
pub struct Spaces {
    pub global: bool,
    pub distortional: bool,
    pub local: bool,
    pub other: bool,
}

/// The integers `a, a+1, .., b-1`.
pub open spec fn range_seq(a: int, b: int) -> Seq<usize> {
    Seq::new((b - a) as nat, |k: int| (a + k) as usize)
}

/// The chosen spaces' columns within one longitudinal term's block starting at `base`: global
/// `0..ngm`, distortional `ngm..ngm+ndm`, local the next `nlm`, other the rest up to `ndof_m`.
pub open spec fn term_columns(
    base: int,
    ngm: int,
    ndm: int,
    nlm: int,
    spaces: Spaces,
    ndof_m: int,
) -> Seq<usize> {
    let g = if spaces.global {
        range_seq(base, base + ngm)
    } else {
        Seq::empty()
    };
    let d = if spaces.distortional {
        range_seq(base + ngm, base + ngm + ndm)
    } else {
        Seq::empty()
    };
    let l = if spaces.local {
        range_seq(base + ngm + ndm, base + ngm + ndm + nlm)
    } else {
        Seq::empty()
    };
    let o = if spaces.other {
        range_seq(base + ngm + ndm + nlm, base + ndof_m)
    } else {
        Seq::empty()
    };
    g + d + l + o
}

/// The chosen columns over the first `k` terms.
pub open spec fn selected_columns(
    ngm: int,
    ndm: int,
    nlm: int,
    spaces: Spaces,
    ndof_m: int,
    k: int,
) -> Seq<usize>
    decreases k,
{
    if k <= 0 {
        Seq::empty()
    } else {
        selected_columns(ngm, ndm, nlm, spaces, ndof_m, k - 1) + term_columns(
            ndof_m * (k - 1),
            ngm,
            ndm,
            nlm,
            spaces,
            ndof_m,
        )
    }
}

/// Appends `a..b` to `v`.
fn push_range(v: &mut Vec<usize>, a: usize, b: usize)
    requires
        a <= b,
    ensures
        final(v)@ == old(v)@ + range_seq(a as int, b as int),
{
    let ghost v0 = v@;
    for k in a..b
        invariant
            a <= b,
            v@ == v0 + range_seq(a as int, k as int),
    {
        v.push(k);
        assert(v@ =~= v0 + range_seq(a as int, k + 1));
    }
}

/// Appends one term's chosen columns.
fn push_term_columns(
    idx: &mut Vec<usize>,
    base: usize,
    ngm: usize,
    ndm: usize,
    nlm: usize,
    spaces: Spaces,
    ndof_m: usize,
)
    requires
        ngm + ndm + nlm <= ndof_m,
        base + ndof_m <= usize::MAX,
    ensures
        final(idx)@ == old(idx)@ + term_columns(
            base as int,
            ngm as int,
            ndm as int,
            nlm as int,
            spaces,
            ndof_m as int,
        ),
{
    let ghost before = idx@;
    let ghost bb = base as int;
    let ghost g: Seq<usize> = if spaces.global {
        range_seq(bb, bb + ngm)
    } else {
        Seq::empty()
    };
    let ghost d: Seq<usize> = if spaces.distortional {
        range_seq(bb + ngm, bb + ngm + ndm)
    } else {
        Seq::empty()
    };
    let ghost l: Seq<usize> = if spaces.local {
        range_seq(bb + ngm + ndm, bb + ngm + ndm + nlm)
    } else {
        Seq::empty()
    };
    let ghost o: Seq<usize> = if spaces.other {
        range_seq(bb + ngm + ndm + nlm, bb + ndof_m)
    } else {
        Seq::empty()
    };
    if spaces.global {
        push_range(idx, base, base + ngm);
    }
    assert(idx@ =~= before + g);
    if spaces.distortional {
        push_range(idx, base + ngm, base + ngm + ndm);
    }
    assert(idx@ =~= before + g + d);
    if spaces.local {
        push_range(idx, base + ngm + ndm, base + ngm + ndm + nlm);
    }
    assert(idx@ =~= before + g + d + l);
    if spaces.other {
        push_range(idx, base + ngm + ndm + nlm, base + ndof_m);
    }
    assert(idx@ =~= before + g + d + l + o);
    assert(g + d + l + o =~= term_columns(bb, ngm as int, ndm as int, nlm as int, spaces, ndof_m as int));
    assert(before + g + d + l + o =~= before + (g + d + l + o));
}

/// The columns of the base vectors that span the chosen modal spaces, for every longitudinal
/// term (`tm` blocks of `ndof_m` columns, each global | distortional | local | other).
pub fn mode_select(
    ngm: usize,
    ndm: usize,
    nlm: usize,
    spaces: Spaces,
    ndof_m: usize,
    tm: usize,
) -> (r: Vec<usize>)
    requires
        ngm + ndm + nlm <= ndof_m,
        ndof_m * tm <= usize::MAX,
    ensures
        r@ == selected_columns(ngm as int, ndm as int, nlm as int, spaces, ndof_m as int, tm as int),
{
    let mut idx: Vec<usize> = Vec::new();
    for ml in 0..tm
        invariant
            ngm + ndm + nlm <= ndof_m,
            ndof_m * tm <= usize::MAX,
            idx@ == selected_columns(
                ngm as int,
                ndm as int,
                nlm as int,
                spaces,
                ndof_m as int,
                ml as int,
            ),
    {
        proof {
            assert(ndof_m * ml + ndof_m <= ndof_m * tm) by (nonlinear_arith)
                requires
                    ml < tm,
            ;
        }
        let base = ndof_m * ml;
        push_term_columns(&mut idx, base, ngm, ndm, nlm, spaces, ndof_m);
    }
    idx
}


/// Strictly increasing.
pub open spec fn increasing(s: Seq<usize>) -> bool {
    forall|a: int, b: int| 0 <= a < b < s.len() ==> s[a] < s[b]
}

/// Every entry lies in `lo..hi`.
pub open spec fn within(s: Seq<usize>, lo: int, hi: int) -> bool {
    forall|t: int| 0 <= t < s.len() ==> lo <= #[trigger] s[t] < hi
}

proof fn lemma_concat_increasing(s1: Seq<usize>, s2: Seq<usize>, lo: int, mid: int, hi: int)
    requires
        increasing(s1),
        increasing(s2),
        within(s1, lo, mid),
        within(s2, mid, hi),
        lo <= mid <= hi,
    ensures
        increasing(s1 + s2),
        within(s1 + s2, lo, hi),
{
    let c = s1 + s2;
    assert forall|a: int, b: int| 0 <= a < b < c.len() implies c[a] < c[b] by {
        if b < s1.len() {
        } else if a >= s1.len() {
            assert(c[a] == s2[a - s1.len()] && c[b] == s2[b - s1.len()]);
        } else {
            assert(c[a] == s1[a] && c[b] == s2[b - s1.len()]);
        }
    }
    assert forall|t: int| 0 <= t < c.len() implies lo <= #[trigger] c[t] < hi by {
        if t < s1.len() {
            assert(c[t] == s1[t]);
        } else {
            assert(c[t] == s2[t - s1.len()]);
        }
    }
}

proof fn lemma_range_seq(a: int, b: int, keep: bool, hi: int)
    requires
        0 <= a <= b <= hi,
        hi <= usize::MAX + 1,
    ensures
        increasing(if keep {
            range_seq(a, b)
        } else {
            Seq::empty()
        }),
        within(
            if keep {
                range_seq(a, b)
            } else {
                Seq::empty()
            },
            a,
            b,
        ),
{
}

/// How many columns one term contributes.
pub open spec fn per_term(ngm: int, ndm: int, nlm: int, spaces: Spaces, ndof_m: int) -> int {
    (if spaces.global {
        ngm
    } else {
        0
    }) + (if spaces.distortional {
        ndm
    } else {
        0
    }) + (if spaces.local {
        nlm
    } else {
        0
    }) + (if spaces.other {
        ndof_m - ngm - ndm - nlm
    } else {
        0
    })
}

proof fn lemma_term_columns(
    base: int,
    ngm: int,
    ndm: int,
    nlm: int,
    spaces: Spaces,
    ndof_m: int,
)
    requires
        0 <= base,
        0 <= ngm,
        0 <= ndm,
        0 <= nlm,
        ngm + ndm + nlm <= ndof_m,
        base + ndof_m <= usize::MAX,
    ensures
        increasing(term_columns(base, ngm, ndm, nlm, spaces, ndof_m)),
        within(term_columns(base, ngm, ndm, nlm, spaces, ndof_m), base, base + ndof_m),
        term_columns(base, ngm, ndm, nlm, spaces, ndof_m).len() == per_term(
            ngm,
            ndm,
            nlm,
            spaces,
            ndof_m,
        ),
{
    let hi = base + ndof_m;
    let b1 = base + ngm;
    let b2 = b1 + ndm;
    let b3 = b2 + nlm;
    let g = if spaces.global {
        range_seq(base, b1)
    } else {
        Seq::empty()
    };
    let d = if spaces.distortional {
        range_seq(b1, b2)
    } else {
        Seq::empty()
    };
    let l = if spaces.local {
        range_seq(b2, b3)
    } else {
        Seq::empty()
    };
    let o = if spaces.other {
        range_seq(b3, hi)
    } else {
        Seq::empty()
    };
    lemma_range_seq(base, b1, spaces.global, hi);
    lemma_range_seq(b1, b2, spaces.distortional, hi);
    lemma_range_seq(b2, b3, spaces.local, hi);
    lemma_range_seq(b3, hi, spaces.other, hi);
    lemma_concat_increasing(g, d, base, b1, b2);
    lemma_concat_increasing(g + d, l, base, b2, b3);
    lemma_concat_increasing(g + d + l, o, base, b3, hi);
}

/// The chosen columns are distinct, in increasing order, inside the `tm` blocks of `ndof_m`
/// columns, and each term contributes the full size of each chosen space.
pub proof fn lemma_mode_select_columns(
    ngm: int,
    ndm: int,
    nlm: int,
    spaces: Spaces,
    ndof_m: int,
    tm: int,
)
    requires
        0 <= ngm,
        0 <= ndm,
        0 <= nlm,
        ngm + ndm + nlm <= ndof_m,
        0 <= tm,
        ndof_m * tm <= usize::MAX,
    ensures
        increasing(selected_columns(ngm, ndm, nlm, spaces, ndof_m, tm)),
        within(selected_columns(ngm, ndm, nlm, spaces, ndof_m, tm), 0, ndof_m * tm),
        selected_columns(ngm, ndm, nlm, spaces, ndof_m, tm).len() == tm * per_term(
            ngm,
            ndm,
            nlm,
            spaces,
            ndof_m,
        ),
    decreases tm,
{
    if tm > 0 {
        assert(ndof_m * (tm - 1) + ndof_m == ndof_m * tm) by (nonlinear_arith);
        assert(ndof_m * (tm - 1) <= ndof_m * tm) by (nonlinear_arith)
            requires
                ndof_m >= 0,
                tm >= 1,
        ;
        assert(0 <= ndof_m * (tm - 1)) by (nonlinear_arith)
            requires
                ndof_m >= 0,
                tm >= 1,
        ;
        lemma_mode_select_columns(ngm, ndm, nlm, spaces, ndof_m, tm - 1);
        lemma_term_columns(ndof_m * (tm - 1), ngm, ndm, nlm, spaces, ndof_m);
        lemma_concat_increasing(
            selected_columns(ngm, ndm, nlm, spaces, ndof_m, tm - 1),
            term_columns(ndof_m * (tm - 1), ngm, ndm, nlm, spaces, ndof_m),
            0,
            ndof_m * (tm - 1),
            ndof_m * tm,
        );
        assert(tm * per_term(ngm, ndm, nlm, spaces, ndof_m) == (tm - 1) * per_term(
            ngm,
            ndm,
            nlm,
            spaces,
            ndof_m,
        ) + per_term(ngm, ndm, nlm, spaces, ndof_m)) by (nonlinear_arith);
    }
}


// ---------------------------------------------------------------------------------------------
// Warping constraints at branches.

/// The magnitude of a signed meta-element reference.
pub open spec fn abs_ref(v: i64) -> int {
    if v < 0 {
        -v
    } else {
        v as int
    }
}

/// The end of meta-element `e` that is not main node `i` (its first end unless that is `i`).
pub open spec fn away_from(e: MElem, i: int) -> int {
    if e.n1 != i {
        e.n1 as int
    } else {
        e.n2 as int
    }
}

/// At branch node `i`, its `j`-th meta-element is not the pair's second and leads to `x`.
pub open spec fn leads_to(bp: BaseProperties, pair2: Seq<i64>, i: int, j: int, x: int) -> bool {
    &&& abs_ref(bp.m_node@[i].elems@[j]) != abs_ref(pair2[i])
    &&& away_from(bp.m_elem@[abs_ref(bp.m_node@[i].elems@[j]) - 1], i) == x
}

/// Main node `x`'s warping depends on its neighbours': at some branch node `i` (more than two
/// meta-elements), a meta-element other than the first and other than the second of the pair
/// that fixes the branch's in-plane position (`pair2[i]`) leads from `i` to `x`.
pub open spec fn dependent(bp: BaseProperties, pair2: Seq<i64>, x: int) -> bool {
    exists|i: int, j: int|
        0 <= i < bp.m_node@.len() && bp.m_node@[i].nel > 2 && 1 <= j < bp.m_node@[i].nel
            && #[trigger] leads_to(bp, pair2, i, j, x)
}

/// What the branch constraints read is in range: every branch node lists at least its
/// meta-elements, each a nonzero reference to an existing meta-element, whose ends are main
/// nodes.
pub open spec fn branches_in_range(bp: BaseProperties, pair2: Seq<i64>) -> bool {
    &&& bp.m_node@.len() == bp.nmno
    &&& pair2.len() == bp.nmno
    &&& bp.m_elem@.len() <= i64::MAX
    &&& forall|e: int|
        0 <= e < bp.m_elem@.len() ==> (#[trigger] bp.m_elem@[e]).n1 < bp.nmno && bp.m_elem@[e].n2
            < bp.nmno
    &&& forall|i: int|
        0 <= i < bp.nmno && (#[trigger] bp.m_node@[i]).nel > 2 ==> {
            &&& bp.m_node@[i].elems@.len() >= bp.m_node@[i].nel
            &&& forall|j: int|
                1 <= j < bp.m_node@[i].nel ==> 1 <= abs_ref(#[trigger] bp.m_node@[i].elems@[j])
                    <= bp.m_elem@.len()
        }
}

/// Which main nodes keep a warping DOF of their own: all but those that some branch node's
/// extra meta-elements lead to (see [`dependent`]). `pair2[i]` is, at each branch node, the
/// second meta-element of the non-parallel pair that fixes its in-plane position.
pub fn regular_nodes(bp: &BaseProperties, pair2: &Vec<i64>) -> (r: Vec<bool>)
    requires
        branches_in_range(*bp, pair2@),
    ensures
        r@.len() == bp.nmno,
        forall|x: int| 0 <= x < bp.nmno ==> #[trigger] r@[x] == !dependent(*bp, pair2@, x),
{
    let nm = bp.nmno;
    let ghost p2 = pair2@;
    let ghost b = *bp;
    let mut reg: Vec<bool> = Vec::new();
    for x in 0..nm
        invariant
            reg@.len() == x,
            forall|y: int| 0 <= y < x ==> #[trigger] reg@[y],
    {
        reg.push(true);
    }
    for i in 0..nm
        invariant
            nm == bp.nmno,
            b == *bp,
            p2 == pair2@,
            branches_in_range(b, p2),
            reg@.len() == nm,
            forall|x: int|
                0 <= x < nm ==> #[trigger] reg@[x] == !(exists|i2: int, j: int|
                    0 <= i2 < i && b.m_node@[i2].nel > 2 && 1 <= j < b.m_node@[i2].nel
                        && #[trigger] leads_to(b, p2, i2, j, x)),
    {
        let mn = &bp.m_node[i];
        let ghost reg0 = reg@;
        if mn.nel > 2 {
            let p = pair2[i] as i128;
            let pa = if p < 0 {
                -p
            } else {
                p
            };
            for j in 1..mn.nel
                invariant
                    nm == bp.nmno,
                    b == *bp,
                    p2 == pair2@,
                    i < nm,
                    branches_in_range(b, p2),
                    mn == b.m_node@[i as int],
                    mn.nel > 2,
                    pa == abs_ref(p2[i as int]),
                    reg@.len() == nm,
                    reg0.len() == nm,
                    forall|x: int|
                        0 <= x < nm ==> #[trigger] reg@[x] == (reg0[x] && !(exists|j2: int|
                            1 <= j2 < j && #[trigger] leads_to(b, p2, i as int, j2, x))),
            {
                let ghost regj = reg@;
                proof {
                    assert(b.m_node@[i as int].nel > 2);
                    assert(1 <= abs_ref(b.m_node@[i as int].elems@[j as int]) <= b.m_elem@.len());
                }
                let _ml = bp.m_elem.len();
                let v = mn.elems[j] as i128;
                let va = if v < 0 {
                    -v
                } else {
                    v
                };
                assert(va == abs_ref(mn.elems@[j as int]));
                let ghost xnew: int = -1;
                if va != pa {
                    let e = &bp.m_elem[(va - 1) as usize];
                    let x = if e.n1 != i {
                        e.n1
                    } else {
                        e.n2
                    };
                    reg.set(x, false);
                    proof {
                        xnew = x as int;
                        assert(leads_to(b, p2, i as int, j as int, x as int));
                    }
                }
                proof {
                    assert forall|y: int| 0 <= y < nm implies #[trigger] reg@[y] == (reg0[y] && !(exists|j2: int|
                        1 <= j2 < j + 1 && #[trigger] leads_to(b, p2, i as int, j2, y))) by {
                        if leads_to(b, p2, i as int, j as int, y) {
                            assert(va != pa);
                            assert(y == xnew);
                        } else {
                            assert(y != xnew || va == pa);
                            if exists|j2: int| 1 <= j2 < j + 1 && #[trigger] leads_to(b, p2, i as int, j2, y) {
                                let j2 = choose|j2: int| 1 <= j2 < j + 1 && #[trigger] leads_to(b, p2, i as int, j2, y);
                                assert(j2 < j);
                            }
                        }
                    }
                }
            }
        }
        proof {
            assert forall|x: int| 0 <= x < nm implies #[trigger] reg@[x] == !(exists|i2: int, j: int|
                0 <= i2 < i + 1 && b.m_node@[i2].nel > 2 && 1 <= j < b.m_node@[i2].nel
                    && #[trigger] leads_to(b, p2, i2, j, x)) by {
                if exists|i2: int, j: int|
                    0 <= i2 < i + 1 && b.m_node@[i2].nel > 2 && 1 <= j < b.m_node@[i2].nel
                        && #[trigger] leads_to(b, p2, i2, j, x) {
                    let (i2, j) = choose|i2: int, j: int|
                        0 <= i2 < i + 1 && b.m_node@[i2].nel > 2 && 1 <= j < b.m_node@[i2].nel
                            && #[trigger] leads_to(b, p2, i2, j, x);
                    if i2 == i {
                        assert(leads_to(b, p2, i as int, j, x));
                    }
                }
            }
        }
    }
    reg
}


// ---------------------------------------------------------------------------------------------
// The spaces fit a term's DOFs.

/// Where every node is an end of some strip, each edge node among the first `k` is a main node.
proof fn lemma_edges_are_main(es: Seq<Strip>, col: Seq<bool>, k: int)
    requires
        0 <= k <= col.len(),
        forall|i: int| 0 <= i < col.len() ==> #[trigger] mel(es, i) >= 1,
    ensures
        type_before(es, col, NodeType::Edge, k) <= main_before(es, col, k),
    decreases k,
{
    if k > 0 {
        lemma_edges_are_main(es, col, k - 1);
        assert(mel(es, k - 1) >= 1);
    }
}

/// The global space (at most four modes), the distortional and the local spaces together fit
/// within a term's `4 n` DOFs, where every node is an end of some strip and there are at least
/// two nodes.
pub proof fn lemma_modal_spaces_fit(es: Seq<Strip>, col: Seq<bool>)
    requires
        col.len() >= 2,
        forall|i: int| 0 <= i < col.len() ==> #[trigger] mel(es, i) >= 1,
    ensures
        4 + ndm_spec(es, col) + nlm_spec(es, col) <= 4 * col.len(),
{
    let n = col.len() as int;
    lemma_edges_are_main(es, col, n);
    lemma_counts_bounded(es, col, n, n);
}

// ---------------------------------------------------------------------------------------------
// The mode counts from the topology.

/// How many of the first `k` entries of `ts` are `t`.
pub open spec fn count_type(ts: Seq<NodeType>, t: NodeType, k: int) -> nat
    decreases k,
{
    if k <= 0 {
        0
    } else {
        count_type(ts, t, k - 1) + if ts[k - 1] == t {
            1nat
        } else {
            0nat
        }
    }
}

/// The meta-elements beyond two at each of the first `k` main nodes, summed.
pub open spec fn branch_excess(nodes: Seq<MNode>, k: int) -> nat
    decreases k,
{
    if k <= 0 {
        0
    } else {
        branch_excess(nodes, k - 1) + if nodes[k - 1].nel > 2 {
            (nodes[k - 1].nel - 2) as nat
        } else {
            0nat
        }
    }
}

/// The meta-elements beyond two at the nodes `s[0..k]`, summed.
pub open spec fn listed_excess(es: Seq<Strip>, col: Seq<bool>, s: Seq<usize>, k: int) -> nat
    decreases k,
{
    if k <= 0 {
        0
    } else {
        listed_excess(es, col, s, k - 1) + if count_spec(es, col, s[k - 1] as int) > 2 {
            (count_spec(es, col, s[k - 1] as int) - 2) as nat
        } else {
            0nat
        }
    }
}

proof fn lemma_listed_excess_push(es: Seq<Strip>, col: Seq<bool>, s: Seq<usize>, x: usize, k: int)
    requires
        0 <= k <= s.len(),
    ensures
        listed_excess(es, col, s.push(x), k) == listed_excess(es, col, s, k),
    decreases k,
{
    if k > 0 {
        lemma_listed_excess_push(es, col, s, x, k - 1);
        assert(s.push(x)[k - 1] == s[k - 1]);
    }
}

proof fn lemma_excess_over_mains(es: Seq<Strip>, col: Seq<bool>, k: int)
    requires
        0 <= k <= usize::MAX + 1,
    ensures
        excess_before(es, col, k) == listed_excess(
            es,
            col,
            mains_prefix(es, col, k),
            mains_prefix(es, col, k).len() as int,
        ),
    decreases k,
{
    if k > 0 {
        lemma_excess_over_mains(es, col, k - 1);
        let p = mains_prefix(es, col, k - 1);
        if is_main(es, col, k - 1) {
            lemma_listed_excess_push(es, col, p, (k - 1) as usize, p.len() as int);
            assert(p.push((k - 1) as usize)[p.len() as int] == (k - 1) as usize);
        }
    }
}

proof fn lemma_count_type(es: Seq<Strip>, col: Seq<bool>, t: NodeType, k: int)
    requires
        0 <= k <= col.len(),
    ensures
        count_type(
            Seq::new(col.len(), |i: int| node_type_spec(es, col, i)),
            t,
            k,
        ) == type_before(es, col, t, k),
    decreases k,
{
    if k > 0 {
        lemma_count_type(es, col, t, k - 1);
    }
}

/// The mode counts follow from the topology: the local modes are one per main node, two per
/// sub-node and one more per edge node, however many edges there are; the distortional modes
/// are the main nodes less four, less the meta-elements beyond two at every branch node, summed
/// over all of them, and never below zero.
pub proof fn lemma_mode_counts(bp: BaseProperties, es: Seq<Strip>, col: Seq<bool>)
    requires
        merged(es, col) is Some,
        base_properties_spec(bp, es, col),
        col.len() <= usize::MAX,
    ensures
        bp.nlm == bp.nmno + 2 * bp.nsno + count_type(
            bp.node_type@,
            NodeType::Edge,
            bp.node_type@.len() as int,
        ),
        bp.ndm == (if bp.nmno - 4 - branch_excess(bp.m_node@, bp.m_node@.len() as int) < 0 {
            0
        } else {
            bp.nmno - 4 - branch_excess(bp.m_node@, bp.m_node@.len() as int)
        }),
{
    let n = col.len() as int;
    lemma_count_type(es, col, NodeType::Edge, n);
    lemma_counts_bounded(es, col, n, n);
    lemma_mains_len(es, col, n);
    lemma_excess_over_mains(es, col, n);
    let mp = mains_prefix(es, col, n);
    let nodes = bp.m_node@;
    assert forall|k: int| 0 <= k <= mp.len() implies #[trigger] branch_excess(nodes, k)
        == listed_excess(es, col, mp, k) by {
        lemma_branch_matches_listed(bp, es, col, k);
    }
    assert(branch_excess(nodes, nodes.len() as int) == listed_excess(es, col, mp, mp.len() as int));
}

proof fn lemma_branch_matches_listed(bp: BaseProperties, es: Seq<Strip>, col: Seq<bool>, k: int)
    requires
        base_properties_spec(bp, es, col),
        0 <= k <= mains_prefix(es, col, col.len() as int).len(),
    ensures
        branch_excess(bp.m_node@, k) == listed_excess(
            es,
            col,
            mains_prefix(es, col, col.len() as int),
            k,
        ),
    decreases k,
{
    if k > 0 {
        lemma_branch_matches_listed(bp, es, col, k - 1);
        lemma_mains_len(es, col, col.len() as int);
        assert(bp.m_node@[k - 1].nel == count_spec(
            es,
            col,
            mains_prefix(es, col, col.len() as int)[k - 1] as int,
        ));
    }
}
} // verus!
