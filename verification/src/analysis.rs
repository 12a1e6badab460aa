//! Degree-of-freedom numbering for assembly and constraints.
//!
//! Each longitudinal term `m` owns a block of `4 n` global DOFs (`n` nodes), starting at
//! `4 n m`. Within a block `u` and `v` of node `i` are interleaved first (`2i`, `2i + 1`), then
//! `w` and `theta` (`2n + 2i`, `2n + 2i + 1`). Also the check that an analysis has one set of
//! longitudinal terms per length.
use vstd::prelude::*;
use crate::model::{ConstraintDofs, Dof, decimal, dof_code_spec, push_decimal};

verus! {

/// The place of `dof` at `node` within one term's block of `4 n` DOFs.
pub open spec fn dof_index_spec(node: int, dof: Dof, n: int) -> int {
    match dof {
        Dof::X => 2 * node,
        Dof::Y => 2 * node + 1,
        Dof::Z => 2 * n + 2 * node,
        Dof::Theta => 2 * n + 2 * node + 1,
    }
}

/// The global DOF of a strip's local DOF `l` (`[u1 v1 u2 v2 w1 th1 w2 th2]`, and any `l` past 7
/// as 7) for longitudinal term `m`, the strip running from node `ni` to node `nj` of `n`.
pub open spec fn gdof_spec(l: int, m: int, ni: int, nj: int, n: int) -> int {
    let base = 4 * n * m;
    let skip = 2 * n;
    if l == 0 {
        base + 2 * ni
    } else if l == 1 {
        base + 2 * ni + 1
    } else if l == 2 {
        base + 2 * nj
    } else if l == 3 {
        base + 2 * nj + 1
    } else if l == 4 {
        base + skip + 2 * ni
    } else if l == 5 {
        base + skip + 2 * ni + 1
    } else if l == 6 {
        base + skip + 2 * nj
    } else {
        base + skip + 2 * nj + 1
    }
}

/// The global DOF index of local strip DOF `l` (0..8, `[u1 v1 u2 v2 w1 th1 w2 th2]`) for
/// longitudinal term `m`.
pub fn gdof(l: usize, m: usize, ni: usize, nj: usize, nnodes: usize) -> (g: usize)
    requires
        ni < nnodes,
        nj < nnodes,
        4 * nnodes * (m + 1) <= usize::MAX,
    ensures
        g == gdof_spec(l as int, m as int, ni as int, nj as int, nnodes as int),
        4 * nnodes * m <= g < 4 * nnodes * (m + 1),
{
    proof {
        assert(4 * nnodes * (m + 1) == 4 * nnodes * m + 4 * nnodes) by (nonlinear_arith);
        assert(0 <= 4 * nnodes * m) by (nonlinear_arith);
    }
    let base = 4 * nnodes * m;
    let skip = 2 * nnodes;
    match l {
        0 => base + 2 * ni,
        1 => base + 2 * ni + 1,
        2 => base + 2 * nj,
        3 => base + 2 * nj + 1,
        4 => base + skip + 2 * ni,
        5 => base + skip + 2 * ni + 1,
        6 => base + skip + 2 * nj,
        _ => base + skip + 2 * nj + 1,
    }
}

/// The place of `dof` at `node` within one longitudinal term's `4 x nnodes` block: `u` and `v`
/// interleaved first, then `w` and `theta`.
pub fn dof_index(node: usize, dof: Dof, nnodes: usize) -> (d: usize)
    requires
        node < nnodes,
        4 * nnodes <= usize::MAX,
    ensures
        d == dof_index_spec(node as int, dof, nnodes as int),
        d < 4 * nnodes,
{
    match dof {
        Dof::X => 2 * node,
        Dof::Y => 2 * node + 1,
        Dof::Z => 2 * nnodes + 2 * node,
        Dof::Theta => 2 * nnodes + 2 * node + 1,
    }
}

/// A strip's local DOFs land on its end nodes' DOFs as the constraint numbering places them:
/// `u1 v1 u2 v2 w1 th1 w2 th2` are `x`, `y` at `ni`, `x`, `y` at `nj`, `z`, `theta` at `ni`,
/// `z`, `theta` at `nj`, offset by the term's block.
pub proof fn lemma_strip_dofs_are_node_dofs(m: int, ni: int, nj: int, n: int)
    ensures
        gdof_spec(0, m, ni, nj, n) == 4 * n * m + dof_index_spec(ni, Dof::X, n),
        gdof_spec(1, m, ni, nj, n) == 4 * n * m + dof_index_spec(ni, Dof::Y, n),
        gdof_spec(2, m, ni, nj, n) == 4 * n * m + dof_index_spec(nj, Dof::X, n),
        gdof_spec(3, m, ni, nj, n) == 4 * n * m + dof_index_spec(nj, Dof::Y, n),
        gdof_spec(4, m, ni, nj, n) == 4 * n * m + dof_index_spec(ni, Dof::Z, n),
        gdof_spec(5, m, ni, nj, n) == 4 * n * m + dof_index_spec(ni, Dof::Theta, n),
        gdof_spec(6, m, ni, nj, n) == 4 * n * m + dof_index_spec(nj, Dof::Z, n),
        gdof_spec(7, m, ni, nj, n) == 4 * n * m + dof_index_spec(nj, Dof::Theta, n),
{
}

/// Each node's four DOFs have distinct places in the block, and no two nodes share one.
pub proof fn lemma_dof_index_is_injective(n: int)
    requires
        n >= 0,
    ensures
        forall|a: int, da: Dof|
            0 <= a < n ==> 0 <= #[trigger] dof_index_spec(a, da, n) < 4 * n,
        forall|a: int, da: Dof, b: int, db: Dof|
            0 <= a < n && 0 <= b < n && (a != b || da != db) ==> #[trigger] dof_index_spec(
                a,
                da,
                n,
            ) != #[trigger] dof_index_spec(b, db, n),
{
}

/// For a strip between two distinct nodes, its eight local DOFs go to eight distinct global
/// DOFs, all in term `m`'s block.
pub proof fn lemma_gdof_is_injective(m: int, ni: int, nj: int, n: int)
    requires
        0 <= ni < n,
        0 <= nj < n,
        ni != nj,
        m >= 0,
    ensures
        forall|l: int|
            0 <= l < 8 ==> 4 * n * m <= #[trigger] gdof_spec(l, m, ni, nj, n) < 4 * n * (m + 1),
        forall|l1: int, l2: int|
            0 <= l1 < 8 && 0 <= l2 < 8 && l1 != l2 ==> #[trigger] gdof_spec(l1, m, ni, nj, n)
                != #[trigger] gdof_spec(l2, m, ni, nj, n),
{
    assert(4 * n * (m + 1) == 4 * n * m + 4 * n) by (nonlinear_arith);
}


// ---------------------------------------------------------------------------------------------
// The constraint basis.

/// Where a DOF kind sits among a node's four free flags (x, z, y, rotation).
pub open spec fn flag_of(dof: Dof) -> int {
    match dof {
        Dof::X => 0,
        Dof::Z => 1,
        Dof::Y => 2,
        Dof::Theta => 3,
    }
}

/// The node of place `d` in a block of `4 n`.
pub open spec fn place_node(n: int, d: int) -> int {
    if d < 2 * n {
        d / 2
    } else {
        (d - 2 * n) / 2
    }
}

/// The DOF kind of place `d` in a block of `4 n`.
pub open spec fn place_dof(n: int, d: int) -> Dof {
    if d < 2 * n {
        if d % 2 == 0 {
            Dof::X
        } else {
            Dof::Y
        }
    } else {
        if d % 2 == 0 {
            Dof::Z
        } else {
            Dof::Theta
        }
    }
}

/// Place `d` is the eliminated DOF of one of the first `k` constraints.
pub open spec fn eliminated_by(cons: Seq<ConstraintDofs>, n: int, d: int, k: int) -> bool {
    exists|j: int|
        0 <= j < k && dof_index_spec((#[trigger] cons[j]).node_e as int, cons[j].dof_e, n) == d
}

/// Place `d` keeps its own column: its node leaves it free and no constraint eliminates it.
pub open spec fn kept(free: Seq<[bool; 4]>, cons: Seq<ConstraintDofs>, d: int) -> bool {
    let n = free.len() as int;
    &&& free[place_node(n, d)]@[flag_of(place_dof(n, d))]
    &&& !eliminated_by(cons, n, d, cons.len() as int)
}

/// The kept places among the first `k`, ascending.
pub open spec fn kept_prefix(free: Seq<[bool; 4]>, cons: Seq<ConstraintDofs>, k: int) -> Seq<usize>
    decreases k,
{
    if k <= 0 {
        Seq::empty()
    } else {
        let p = kept_prefix(free, cons, k - 1);
        if kept(free, cons, k - 1) {
            p.push((k - 1) as usize)
        } else {
            p
        }
    }
}

/// The columns of the constraint basis over the first `t` terms: term `m`'s kept places, each
/// offset by the term's block `4 n m`.
pub open spec fn basis_columns(free: Seq<[bool; 4]>, cons: Seq<ConstraintDofs>, t: int) -> Seq<
    usize,
>
    decreases t,
{
    if t <= 0 {
        Seq::empty()
    } else {
        let ndof = 4 * free.len() as int;
        basis_columns(free, cons, t - 1) + kept_prefix(free, cons, ndof).map_values(
            |d: usize| (d + ndof * (t - 1)) as usize,
        )
    }
}

/// Some node fixes one of its DOFs.
pub open spec fn any_fixed(free: Seq<[bool; 4]>) -> bool {
    exists|i: int, f: int| 0 <= i < free.len() && 0 <= f < 4 && !(#[trigger] free[i]@[f])
}

/// Decodes place `d` of a block of `4 n` into its node and flag position.
fn place_of(d: usize, n: usize) -> (r: (usize, usize))
    requires
        d < 4 * n,
        4 * n <= usize::MAX,
    ensures
        r.0 == place_node(n as int, d as int),
        r.1 == flag_of(place_dof(n as int, d as int)),
        r.0 < n,
        r.1 < 4,
{
    if d < 2 * n {
        (d / 2, if d % 2 == 0 {
            0
        } else {
            2
        })
    } else {
        ((d - 2 * n) / 2, if d % 2 == 0 {
            1
        } else {
            3
        })
    }
}

/// Whether any node fixes a DOF.
fn any_fixed_exec(free: &Vec<[bool; 4]>) -> (b: bool)
    ensures
        b == any_fixed(free@),
{
    for i in 0..free.len()
        invariant
            forall|i2: int, f: int| 0 <= i2 < i && 0 <= f < 4 ==> (#[trigger] free@[i2]@[f]),
    {
        let fl = free[i];
        for f in 0..4usize
            invariant
                i < free@.len(),
                fl == free@[i as int],
                forall|i2: int, f2: int|
                    0 <= i2 < i && 0 <= f2 < 4 ==> (#[trigger] free@[i2]@[f2]),
                forall|f2: int| 0 <= f2 < f ==> fl@[f2],
        {
            if !fl[f] {
                assert(!free@[i as int]@[f as int]);
                return true;
            }
        }
    }
    false
}

/// The constraint basis's columns (every DOF is a combination of the free ones): the DOFs that
/// keep their own column, in order, for each of the `tm` longitudinal terms. A DOF keeps its
/// column unless its node fixes it or a constraint eliminates it; each constraint folds its
/// eliminated column into the kept one, with the coefficient the caller carries. `None` when
/// nothing is fixed or constrained, and the full set of DOFs stands.
pub fn constraint_basis(free: &Vec<[bool; 4]>, constraints: &Vec<ConstraintDofs>, tm: usize) -> (r:
    Option<Vec<usize>>)
    requires
        forall|j: int|
            0 <= j < constraints@.len() ==> (#[trigger] constraints@[j]).node_e < free@.len()
                && constraints@[j].node_k < free@.len(),
        4 * free@.len() * tm <= usize::MAX,
        4 * free@.len() <= usize::MAX,
    ensures
        r is None <==> (!any_fixed(free@) && constraints@.len() == 0),
        r matches Some(v) ==> v@ == basis_columns(free@, constraints@, tm as int),
{
    let n = free.len();
    let ndof = 4 * n;
    let fixed = any_fixed_exec(free);
    if !fixed && constraints.len() == 0 {
        return None;
    }
    let mut keep: Vec<bool> = Vec::new();
    for d in 0..ndof
        invariant
            ndof == 4 * n,
            n == free@.len(),
            keep@.len() == d,
            forall|d2: int|
                0 <= d2 < d ==> #[trigger] keep@[d2] == free@[place_node(n as int, d2)]@[flag_of(
                    place_dof(n as int, d2),
                )],
    {
        let (node, f) = place_of(d, n);
        keep.push(free[node][f]);
    }
    for j in 0..constraints.len()
        invariant
            ndof == 4 * n,
            n == free@.len(),
            4 * free@.len() <= usize::MAX,
            keep@.len() == ndof,
            forall|j2: int|
                0 <= j2 < constraints@.len() ==> (#[trigger] constraints@[j2]).node_e
                    < free@.len() && constraints@[j2].node_k < free@.len(),
            forall|d2: int|
                0 <= d2 < ndof ==> #[trigger] keep@[d2] == (free@[place_node(
                    n as int,
                    d2,
                )]@[flag_of(place_dof(n as int, d2))] && !eliminated_by(
                    constraints@,
                    n as int,
                    d2,
                    j as int,
                )),
    {
        let c = constraints[j];
        let e = dof_index(c.node_e, c.dof_e, n);
        keep.set(e, false);
        proof {
            assert forall|d2: int| 0 <= d2 < ndof implies #[trigger] keep@[d2] == (free@[place_node(
                n as int,
                d2,
            )]@[flag_of(place_dof(n as int, d2))] && !eliminated_by(
                constraints@,
                n as int,
                d2,
                j + 1,
            )) by {
                if d2 == e {
                    assert(constraints@[j as int] == c);
                } else {
                    if eliminated_by(constraints@, n as int, d2, j + 1) {
                        let w = choose|w: int|
                            0 <= w < j + 1 && dof_index_spec(
                                (#[trigger] constraints@[w]).node_e as int,
                                constraints@[w].dof_e,
                                n as int,
                            ) == d2;
                        assert(w < j);
                    }
                }
            }
        }
    }
    let mut block: Vec<usize> = Vec::new();
    for d in 0..ndof
        invariant
            ndof == 4 * n,
            n == free@.len(),
            keep@.len() == ndof,
            forall|d2: int| 0 <= d2 < ndof ==> #[trigger] keep@[d2] == kept(free@, constraints@, d2),
            block@ == kept_prefix(free@, constraints@, d as int),
    {
        if keep[d] {
            block.push(d);
        }
    }
    let mut all: Vec<usize> = Vec::new();
    for m in 0..tm
        invariant
            ndof == 4 * n,
            n == free@.len(),
            4 * free@.len() * tm <= usize::MAX,
            block@ == kept_prefix(free@, constraints@, ndof as int),
            all@ == basis_columns(free@, constraints@, m as int),
    {
        proof {
            lemma_kept_prefix_bound(free@, constraints@, ndof as int);
            assert(ndof * m + ndof <= ndof * tm) by (nonlinear_arith)
                requires
                    m < tm,
            ;
        }
        let ghost before = all@;
        for t in 0..block.len()
            invariant
                ndof == 4 * n,
                n == free@.len(),
                ndof * m + ndof <= usize::MAX,
                forall|t2: int| 0 <= t2 < block@.len() ==> #[trigger] block@[t2] < ndof,
                all@ == before + block@.take(t as int).map_values(
                    |d: usize| (d + ndof * m) as usize,
                ),
        {
            all.push(block[t] + ndof * m);
            assert(block@.take(t + 1) == block@.take(t as int).push(block@[t as int]));
            assert(all@ =~= before + block@.take(t + 1).map_values(
                |d: usize| (d + ndof * m) as usize,
            ));
        }
        assert(block@.take(block@.len() as int) =~= block@);
    }
    Some(all)
}

proof fn lemma_kept_prefix_bound(free: Seq<[bool; 4]>, cons: Seq<ConstraintDofs>, k: int)
    requires
        k >= 0,
        k <= usize::MAX,
    ensures
        forall|t: int|
            0 <= t < kept_prefix(free, cons, k).len() ==> #[trigger] kept_prefix(free, cons, k)[t]
                < k,
    decreases k,
{
    if k > 0 {
        lemma_kept_prefix_bound(free, cons, k - 1);
        let p = kept_prefix(free, cons, k - 1);
        let q = kept_prefix(free, cons, k);
        if kept(free, cons, k - 1) {
            assert forall|t: int| 0 <= t < q.len() implies q[t] < k by {
                if t < p.len() {
                    assert(q[t] == p[t]);
                }
            }
        }
    }
}


/// The kept places among the first `k` ascend, each is kept and below `k`, and every kept place
/// below `k` is among them.
proof fn lemma_kept_prefix(free: Seq<[bool; 4]>, cons: Seq<ConstraintDofs>, k: int)
    requires
        0 <= k <= usize::MAX,
    ensures
        forall|a: int, b: int|
            0 <= a < b < kept_prefix(free, cons, k).len() ==> kept_prefix(free, cons, k)[a]
                < kept_prefix(free, cons, k)[b],
        forall|t: int|
            0 <= t < kept_prefix(free, cons, k).len() ==> #[trigger] kept_prefix(free, cons, k)[t]
                < k && kept(free, cons, kept_prefix(free, cons, k)[t] as int),
        forall|d: int|
            0 <= d < k && kept(free, cons, d) ==> exists|t: int|
                0 <= t < kept_prefix(free, cons, k).len() && #[trigger] kept_prefix(
                    free,
                    cons,
                    k,
                )[t] == d,
    decreases k,
{
    if k > 0 {
        lemma_kept_prefix(free, cons, k - 1);
        let p = kept_prefix(free, cons, k - 1);
        let q = kept_prefix(free, cons, k);
        if kept(free, cons, k - 1) {
            assert(q == p.push((k - 1) as usize));
            assert forall|a: int, b: int| 0 <= a < b < q.len() implies q[a] < q[b] by {
                assert(q[a] == p[a]);
                if b < p.len() {
                    assert(q[b] == p[b]);
                }
            }
            assert forall|t: int| 0 <= t < q.len() implies #[trigger] q[t] < k && kept(
                free,
                cons,
                q[t] as int,
            ) by {
                if t < p.len() {
                    assert(q[t] == p[t]);
                }
            }
            assert forall|d: int| 0 <= d < k && kept(free, cons, d) implies exists|t: int|
                0 <= t < q.len() && #[trigger] q[t] == d by {
                if d < k - 1 {
                    let t = choose|t: int| 0 <= t < p.len() && #[trigger] p[t] == d;
                    assert(q[t] == p[t]);
                } else {
                    assert(q[p.len() as int] == d);
                }
            }
        }
    }
}

/// Place `d` of term `m`'s block of `ndof`.
pub open spec fn block_place(ndof: int, m: int, d: int) -> int {
    ndof * m + d
}

/// Column `c` is among `cols`.
pub open spec fn has_column(cols: Seq<usize>, c: int) -> bool {
    exists|k: int| 0 <= k < cols.len() && cols[k] == c
}

/// A DOF has a column of the constraint basis in a term exactly when it keeps its own: its node
/// leaves it free and no constraint eliminates it, so a fixed or an eliminated DOF never comes
/// back. The columns ascend, so none appears twice, and each lies within the `t` terms' blocks.
pub proof fn lemma_basis_columns_are_the_kept_dofs(
    free: Seq<[bool; 4]>,
    cons: Seq<ConstraintDofs>,
    t: int,
)
    requires
        t >= 0,
        free.len() > 0,
        4 * free.len() * t <= usize::MAX,
    ensures
        ({
            let cols = basis_columns(free, cons, t);
            let ndof = 4 * free.len() as int;
            &&& forall|a: int, b: int| 0 <= a < b < cols.len() ==> cols[a] < cols[b]
            &&& forall|k: int|
                0 <= k < cols.len() ==> #[trigger] cols[k] < ndof * t && kept(
                    free,
                    cons,
                    (cols[k] as int) % ndof,
                )
            &&& forall|m: int, d: int|
                0 <= m < t && 0 <= d < ndof && kept(free, cons, d) ==> has_column(
                    cols,
                    #[trigger] block_place(ndof, m, d),
                )
        }),
    decreases t,
{
    let ndof = 4 * free.len() as int;
    let cols = basis_columns(free, cons, t);
    if t > 0 {
        assert(4 * free.len() * (t - 1) <= 4 * free.len() * t && ndof <= 4 * free.len() * t)
            by (nonlinear_arith)
            requires
                t >= 1,
                ndof == 4 * free.len(),
        ;
        lemma_basis_columns_are_the_kept_dofs(free, cons, t - 1);
        lemma_kept_prefix(free, cons, ndof);
        let prev = basis_columns(free, cons, t - 1);
        let kp = kept_prefix(free, cons, ndof);
        let base = ndof * (t - 1);
        assert(ndof * t == base + ndof) by (nonlinear_arith)
            requires
                base == ndof * (t - 1),
        ;
        assert(0 <= base) by (nonlinear_arith)
            requires
                base == ndof * (t - 1),
                t >= 1,
                ndof >= 0,
        ;
        let tail = kp.map_values(|d: usize| (d + base) as usize);
        assert(cols == prev + tail);
        assert forall|k: int| 0 <= k < tail.len() implies #[trigger] tail[k] == kp[k] + base by {
            assert(kp[k] < ndof);
        }
        assert forall|a: int, b: int| 0 <= a < b < cols.len() implies cols[a] < cols[b] by {
            if b < prev.len() {
                assert(cols[a] == prev[a] && cols[b] == prev[b]);
            } else if a < prev.len() {
                assert(cols[a] == prev[a]);
                assert(cols[b] == tail[b - prev.len()]);
            } else {
                assert(cols[a] == tail[a - prev.len()]);
                assert(cols[b] == tail[b - prev.len()]);
            }
        }
        assert forall|k: int| 0 <= k < cols.len() implies #[trigger] cols[k] < ndof * t && kept(
            free,
            cons,
            (cols[k] as int) % ndof,
        ) by {
            if k < prev.len() {
                assert(cols[k] == prev[k]);
                assert(ndof * (t - 1) <= ndof * t) by (nonlinear_arith)
                    requires
                        ndof >= 0,
                ;
            } else {
                let w = k - prev.len();
                assert(cols[k] == tail[w]);
                assert(tail[w] == kp[w] + base);
                vstd::arithmetic::div_mod::lemma_fundamental_div_mod_converse(
                    cols[k] as int,
                    ndof,
                    t - 1,
                    kp[w] as int,
                );
                assert((t - 1) * ndof == base) by (nonlinear_arith)
                    requires
                        base == ndof * (t - 1),
                ;
            }
        }
        assert forall|m: int, d: int|
            0 <= m < t && 0 <= d < ndof && kept(free, cons, d) implies has_column(
            cols,
            #[trigger] block_place(ndof, m, d),
        ) by {
            if m < t - 1 {
                assert(has_column(prev, block_place(ndof, m, d)));
                let k = choose|k: int| 0 <= k < prev.len() && prev[k] == block_place(ndof, m, d);
                assert(cols[k] == prev[k]);
            } else {
                let w = choose|w: int| 0 <= w < kp.len() && #[trigger] kp[w] == d;
                assert(cols[prev.len() + w] == tail[w]);
                assert(tail[w] == kp[w] + base);
                assert(block_place(ndof, m, d) == base + d);
            }
        }
    }
}

/// Some constraint eliminates the DOF of kind `dof` at `node`.
pub open spec fn constrained_away(cons: Seq<ConstraintDofs>, node: int, dof: Dof) -> bool {
    exists|j: int| 0 <= j < cons.len() && (#[trigger] cons[j]).node_e == node && cons[j].dof_e == dof
}

/// A node's DOF keeps a column of the constraint basis exactly when the node's free flag at the
/// DOF's constraint-table code less one (flags in the order x, z, y, rotation) says free and no
/// constraint eliminates it: in every term, the DOF of kind `dof` at `node` has a column just
/// then.
pub proof fn lemma_free_flags_decide_the_columns(
    free: Seq<[bool; 4]>,
    cons: Seq<ConstraintDofs>,
    t: int,
    node: int,
    dof: Dof,
    m: int,
)
    requires
        0 <= node < free.len(),
        0 <= m < t,
        4 * free.len() * t <= usize::MAX,
        forall|j: int| 0 <= j < cons.len() ==> (#[trigger] cons[j]).node_e < free.len(),
    ensures
        has_column(
            basis_columns(free, cons, t),
            block_place(4 * free.len() as int, m, dof_index_spec(node, dof, free.len() as int)),
        ) == (free[node]@[dof_code_spec(dof) - 1] && !constrained_away(cons, node, dof)),
{
    let n = free.len() as int;
    let ndof = 4 * n;
    let d = dof_index_spec(node, dof, n);
    lemma_dof_index_is_injective(n);
    assert(place_node(n, d) == node && place_dof(n, d) == dof);
    assert(flag_of(dof) == dof_code_spec(dof) - 1);
    if eliminated_by(cons, n, d, cons.len() as int) {
        let j = choose|j: int|
            0 <= j < cons.len() && dof_index_spec((#[trigger] cons[j]).node_e as int, cons[j].dof_e, n)
                == d;
        assert(cons[j].node_e == node && cons[j].dof_e == dof);
    }
    if constrained_away(cons, node, dof) {
        let j = choose|j: int|
            0 <= j < cons.len() && (#[trigger] cons[j]).node_e == node && cons[j].dof_e == dof;
        assert(dof_index_spec(cons[j].node_e as int, cons[j].dof_e, n) == d);
    }
    assert(kept(free, cons, d) == (free[node]@[dof_code_spec(dof) - 1] && !constrained_away(
        cons,
        node,
        dof,
    )));
    lemma_basis_columns_are_the_kept_dofs(free, cons, t);
    let cols = basis_columns(free, cons, t);
    if has_column(cols, block_place(ndof, m, d)) {
        let k = choose|k: int| 0 <= k < cols.len() && cols[k] == block_place(ndof, m, d);
        assert(kept(free, cons, (cols[k] as int) % ndof));
        vstd::arithmetic::div_mod::lemma_fundamental_div_mod_converse(
            cols[k] as int,
            ndof,
            m,
            d,
        );
        assert(m * ndof == ndof * m) by (nonlinear_arith);
    }
}

// ---------------------------------------------------------------------------------------------
// Lengths and their longitudinal terms.

/// The message for `nlengths` lengths with `nsets` sets of longitudinal terms.
pub open spec fn term_sets_message(nlengths: nat, nsets: nat) -> Seq<char> {
    decimal(nlengths) + " lengths but "@ + decimal(nsets) + " sets of longitudinal terms"@
}

/// An analysis takes one set of longitudinal terms per length: an error naming both counts
/// where they differ.
pub fn check_term_sets(nlengths: usize, nsets: usize) -> (r: Result<(), crate::Error>)
    ensures
        r is Ok <==> nlengths == nsets,
        r is Err ==> (r matches Err(crate::Error::InvalidModel(s)) && s@ == term_sets_message(
            nlengths as nat,
            nsets as nat,
        )),
{
    if nlengths == nsets {
        return Ok(());
    }
    let mut s = String::new();
    push_decimal(&mut s, nlengths);
    s.append(" lengths but ");
    push_decimal(&mut s, nsets);
    s.append(" sets of longitudinal terms");
    Err(crate::Error::InvalidModel(s))
}

} // verus!
