//! The mesh plan of the C and Z section template: how many strips go in each segment (web,
//! flanges, lips, corners), which segment and which step along it each node is placed at, and
//! the strips joining consecutive nodes. The coordinates themselves are the caller's.
use vstd::prelude::*;
use crate::model::Strip;

verus! {

/// C (both flanges on one side of the web) or Z (flange 2 on the other side).
#[derive(Clone, Copy, Debug, PartialEq, Eq, Structural)]
pub enum Shape {
    C,
    Z,
}

/// Strips in the web, each flange, each lip and each corner: flange 1 and lip 1 at the bottom,
/// corner 1 bottom flange-web, 2 bottom lip-flange, 3 top flange-web, 4 top lip-flange.
#[derive(Clone, Copy, Debug, PartialEq, Eq, Structural)]
pub struct MeshCounts {
    pub nh: usize,
    pub nb1: usize,
    pub nb2: usize,
    pub nd1: usize,
    pub nd2: usize,
    pub nr1: usize,
    pub nr2: usize,
    pub nr3: usize,
    pub nr4: usize,
}

/// The larger of two counts.
pub open spec fn max_spec(a: usize, b: usize) -> usize {
    if a >= b {
        a
    } else {
        b
    }
}

/// The mesh of a symmetric template from outside dimensions: `mesh` strips across the web (at
/// least two), half that across each flange (at least two), and two in each lip and each corner
/// where the section has lips and rounded corners, none where it has not.
pub fn outside_mesh(mesh: usize, lipped: bool, rounded: bool) -> (c: MeshCounts)
    ensures
        c.nh == max_spec(mesh, 2),
        c.nb1 == max_spec(mesh / 2, 2),
        c.nb2 == max_spec(mesh / 2, 2),
        c.nd1 == (if lipped {
            2usize
        } else {
            0
        }),
        c.nd2 == c.nd1,
        c.nr1 == (if rounded {
            2usize
        } else {
            0
        }),
        c.nr2 == c.nr1,
        c.nr3 == c.nr1,
        c.nr4 == c.nr1,
{
    let nh = if mesh >= 2 {
        mesh
    } else {
        2
    };
    let nb = if mesh / 2 >= 2 {
        mesh / 2
    } else {
        2
    };
    let nd = if lipped {
        2
    } else {
        0
    };
    let nr = if rounded {
        2
    } else {
        0
    };
    MeshCounts { nh, nb1: nb, nb2: nb, nd1: nd, nd2: nd, nr1: nr, nr2: nr, nr3: nr, nr4: nr }
}

/// The segments in order from the bottom lip's end to the top lip's end, as strip counts:
/// sharp and plain `flange, web, flange`; sharp and lipped adds a lip at each end; rounded and
/// plain puts a corner between each flange and the web; rounded and lipped puts corners at all
/// four bends.
pub open spec fn segments_spec(c: MeshCounts, sharp: bool, plain: bool) -> Seq<usize> {
    if sharp && plain {
        seq![c.nb1, c.nh, c.nb2]
    } else if sharp {
        seq![c.nd1, c.nb1, c.nh, c.nb2, c.nd2]
    } else if plain {
        seq![c.nb1, c.nr1, c.nh, c.nr3, c.nb2]
    } else {
        seq![c.nd1, c.nr2, c.nb1, c.nr1, c.nh, c.nr3, c.nb2, c.nr4, c.nd2]
    }
}

/// The template's segments as strip counts (see [`segments_spec`]).
pub fn segments(c: &MeshCounts, sharp: bool, plain: bool) -> (s: Vec<usize>)
    ensures
        s@ == segments_spec(*c, sharp, plain),
{
    let s = if sharp && plain {
        vec![c.nb1, c.nh, c.nb2]
    } else if sharp {
        vec![c.nd1, c.nb1, c.nh, c.nb2, c.nd2]
    } else if plain {
        vec![c.nb1, c.nr1, c.nh, c.nr3, c.nb2]
    } else {
        vec![c.nd1, c.nr2, c.nb1, c.nr1, c.nh, c.nr3, c.nb2, c.nr4, c.nd2]
    };
    assert(s@ =~= segments_spec(*c, sharp, plain));
    s
}

/// The node where segment `i` starts: the strips of the segments before it.
pub open spec fn seg_start(n: Seq<usize>, i: int) -> int
    decreases i,
{
    if i <= 0 {
        0
    } else {
        seg_start(n, i - 1) + n[i - 1]
    }
}

/// Among the first `i` segments, the last that starts at or before node `k` (0 if none).
pub open spec fn seg_of(n: Seq<usize>, k: int, i: int) -> int
    decreases i,
{
    if i <= 0 {
        0
    } else if seg_start(n, i - 1) <= k {
        i - 1
    } else {
        seg_of(n, k, i - 1)
    }
}

/// Where node `k` of the mesh is placed, as `(segment, step)`: the last node at the end of the
/// last segment, `(segments, 0)`; every other node on the last segment that starts at or before
/// it, that many steps along it (step 0 being the segment's start point).
pub open spec fn place_spec(n: Seq<usize>, k: int) -> (usize, usize) {
    let total = seg_start(n, n.len() as int) + 1;
    if k == total - 1 {
        (n.len() as usize, 0usize)
    } else {
        let i = seg_of(n, k, n.len() as int);
        (i as usize, (k - seg_start(n, i)) as usize)
    }
}

proof fn lemma_seg_start_mono(n: Seq<usize>, i: int, j: int)
    requires
        0 <= i <= j <= n.len(),
    ensures
        seg_start(n, i) <= seg_start(n, j),
        seg_start(n, i) >= 0,
    decreases i + j,
{
    if i < j {
        lemma_seg_start_mono(n, i, j - 1);
    } else if i > 0 {
        lemma_seg_start_mono(n, i - 1, i - 1);
    }
}

proof fn lemma_seg_of_above(n: Seq<usize>, k: int, i: int, j: int)
    requires
        0 <= i <= j <= n.len(),
        seg_start(n, i) > k,
    ensures
        seg_of(n, k, j) == seg_of(n, k, i),
    decreases j,
{
    if i < j {
        lemma_seg_start_mono(n, i, j - 1);
        lemma_seg_of_above(n, k, i, j - 1);
    }
}

/// Where each node of the mesh goes, as `(segment, step)` (see [`place_spec`]); the nodes run
/// from the bottom lip's end to the top lip's end. Each segment places its start and its
/// interior points in turn, a later segment's start replacing the place of an empty segment
/// before it, and the last node is the end of the last segment.
pub fn node_places(n: &Vec<usize>) -> (r: Vec<(usize, usize)>)
    requires
        seg_start(n@, n@.len() as int) + 1 <= usize::MAX,
    ensures
        r@.len() == seg_start(n@, n@.len() as int) + 1,
        forall|k: int| 0 <= k < r@.len() ==> #[trigger] r@[k] == place_spec(n@, k),
{
    let ghost segs = n@.len() as int;
    let mut total: usize = 0;
    for i in 0..n.len()
        invariant
            segs == n@.len(),
            seg_start(n@, segs) + 1 <= usize::MAX,
            total == seg_start(n@, i as int),
    {
        proof {
            lemma_seg_start_mono(n@, i + 1, segs);
        }
        total = total + n[i];
    }
    total = total + 1;
    let mut pts: Vec<(usize, usize)> = Vec::new();
    for k in 0..total
        invariant
            pts@.len() == k,
    {
        pts.push((0, 0));
    }
    let mut nstart: usize = 0;
    for i in 0..n.len()
        invariant
            segs == n@.len(),
            total == seg_start(n@, segs) + 1,
            total <= usize::MAX,
            pts@.len() == total,
            nstart == seg_start(n@, i as int),
            forall|k: int|
                0 <= k < nstart ==> #[trigger] pts@[k] == (
                    seg_of(n@, k, i as int) as usize,
                    (k - seg_start(n@, seg_of(n@, k, i as int))) as usize,
                ),
    {
        proof {
            lemma_seg_start_mono(n@, i as int, segs);
            lemma_seg_start_mono(n@, i + 1, segs);
        }
        let len = n[i];
        let ghost ii = i as int;
        pts.set(nstart, (i, 0));
        let mut j: usize = 1;
        while j < len
            invariant
                segs == n@.len(),
                ii == i,
                0 <= ii < segs,
                len == n@[ii],
                total == seg_start(n@, segs) + 1,
                nstart == seg_start(n@, ii),
                nstart + len <= seg_start(n@, segs),
                pts@.len() == total,
                1 <= j,
                j <= len || (len == 0 && j == 1),
                pts@[nstart as int] == (i, 0usize),
                forall|t: int| 1 <= t < j ==> #[trigger] pts@[nstart + t] == (i, t as usize),
                forall|k: int|
                    0 <= k < nstart ==> #[trigger] pts@[k] == (
                        seg_of(n@, k, ii) as usize,
                        (k - seg_start(n@, seg_of(n@, k, ii))) as usize,
                    ),
            decreases len - j,
        {
            pts.set(nstart + j, (i, j));
            j = j + 1;
        }
        proof {
            assert forall|k: int| 0 <= k < nstart + len implies #[trigger] pts@[k] == (
                seg_of(n@, k, ii + 1) as usize,
                (k - seg_start(n@, seg_of(n@, k, ii + 1))) as usize,
            ) by {
                if k < nstart {
                    lemma_seg_of_above(n@, k, ii, ii + 1);
                } else if k > nstart {
                    assert(pts@[nstart + (k - nstart)] == (i, (k - nstart) as usize));
                }
            }
        }
        nstart = nstart + len;
    }
    pts.set(total - 1, (n.len(), 0));
    proof {
        assert forall|k: int| 0 <= k < pts@.len() implies #[trigger] pts@[k] == place_spec(n@, k) by {
            if k < total - 1 {
                assert(pts@[k] == (
                    seg_of(n@, k, segs) as usize,
                    (k - seg_start(n@, seg_of(n@, k, segs))) as usize,
                ));
            }
        }
    }
    pts
}

/// Every node but the last lies on a segment that has strips, fewer steps along it than it has
/// strips: no node is left unplaced, and every interpolation fraction is in `[0, 1)`.
pub proof fn lemma_every_node_is_placed(n: Seq<usize>, k: int)
    requires
        0 <= k < seg_start(n, n.len() as int),
    ensures
        0 <= place_spec(n, k).0 < n.len(),
        0 <= k - seg_start(n, seg_of(n, k, n.len() as int)) < n[seg_of(n, k, n.len() as int)],
        place_spec(n, k).1 == k - seg_start(n, seg_of(n, k, n.len() as int)),
{
    lemma_seg_of_largest(n, k, n.len() as int);
    let i = seg_of(n, k, n.len() as int);
    lemma_seg_start_mono(n, i + 1, n.len() as int);
    if i + 1 < n.len() {
        lemma_seg_of_largest(n, k, n.len() as int);
    }
}

proof fn lemma_seg_of_largest(n: Seq<usize>, k: int, i: int)
    requires
        0 <= k,
        0 < i <= n.len(),
    ensures
        0 <= seg_of(n, k, i) < i,
        seg_start(n, seg_of(n, k, i)) <= k,
        forall|t: int| seg_of(n, k, i) < t < i ==> seg_start(n, t) > k,
    decreases i,
{
    if seg_start(n, i - 1) > k {
        if i - 1 > 0 {
            lemma_seg_of_largest(n, k, i - 1);
        } else {
            assert(seg_start(n, 0) == 0);
        }
    }
}

/// The strips of the mesh: one between each pair of consecutive nodes.
pub fn chain_strips(nnodes: usize) -> (r: Vec<Strip>)
    ensures
        r@.len() == (if nnodes == 0 {
            0
        } else {
            nnodes - 1
        }),
        forall|i: int|
            0 <= i < r@.len() ==> #[trigger] r@[i] == (Strip { ni: i as usize, nj: (i + 1) as usize }),
{
    let mut r: Vec<Strip> = Vec::new();
    if nnodes == 0 {
        return r;
    }
    for i in 0..nnodes - 1
        invariant
            r@.len() == i,
            i < nnodes,
            forall|k: int|
                0 <= k < i ==> #[trigger] r@[k] == (Strip { ni: k as usize, nj: (k + 1) as usize }),
    {
        r.push(Strip { ni: i, nj: i + 1 });
    }
    r
}

} // verus!
