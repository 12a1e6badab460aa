use lib::banded::rcm;
use lib::cutwp::{loop_order, section_is_closed, warping_walk, Reach};
use lib::model::Strip;
use lib::template::{chain_strips, node_places, outside_mesh, segments, MeshCounts};

fn s(ni: usize, nj: usize) -> Strip {
    Strip { ni, nj }
}

#[test]
fn a_cell_is_closed_and_a_channel_open() {
    assert!(section_is_closed(&vec![s(0, 1), s(1, 2), s(2, 0)], 3));
    assert!(!section_is_closed(&vec![s(0, 1), s(1, 2), s(2, 3)], 4));
    // A square with a cross strip has nodes meeting three strips: not a single cell.
    assert!(!section_is_closed(&vec![s(0, 1), s(1, 2), s(2, 3), s(3, 0), s(0, 2)], 4));
}

#[test]
fn a_closed_section_has_two_strips_at_each_node() {
    // A square cell with a node no strip uses.
    let es = vec![s(0, 1), s(1, 2), s(2, 3), s(3, 0)];
    assert!(section_is_closed(&es, 5));
    let mut ends = vec![0; 5];
    for e in &es {
        ends[e.ni] += 1;
        ends[e.nj] += 1;
    }
    assert_eq!(ends, vec![2, 2, 2, 2, 0]);
    // A node with three strips and one with one: the test refuses it.
    let es = vec![s(0, 1), s(1, 2), s(2, 0), s(0, 3)];
    assert!(!section_is_closed(&es, 4));
}

#[test]
fn a_cells_strips_are_strung_into_a_loop() {
    let got = loop_order(&vec![s(0, 1), s(2, 3), s(1, 2), s(3, 0)]);
    assert_eq!(got, vec![(0, 1, 0), (1, 2, 2), (2, 3, 1), (3, 0, 3)]);
    // Strips found by their finish are turned end for end.
    let got = loop_order(&vec![s(0, 1), s(2, 1), s(3, 2), s(0, 3)]);
    assert_eq!(got, vec![(0, 1, 0), (1, 2, 1), (2, 3, 2), (3, 0, 3)]);
}

#[test]
fn a_scrambled_cell_closes_into_one_loop() {
    let es = vec![s(0, 1), s(3, 4), s(2, 1), s(5, 0), s(3, 2), s(4, 5)];
    let st = loop_order(&es);
    assert_eq!(st.len(), 6);
    for i in 0..6 {
        assert_eq!(st[i].1, st[(i + 1) % 6].0);
    }
    let mut idx: Vec<usize> = st.iter().map(|e| e.2).collect();
    idx.sort();
    assert_eq!(idx, (0..6).collect::<Vec<usize>>());
    for e in &st {
        let o = es[e.2];
        assert!((e.0, e.1) == (o.ni, o.nj) || (e.0, e.1) == (o.nj, o.ni));
    }
    assert_eq!(st[0], (0, 1, 0));
}

#[test]
fn the_warping_walk_reaches_one_node_per_strip() {
    assert_eq!(
        warping_walk(&vec![s(0, 1), s(1, 2), s(2, 3)], 4),
        vec![(0, Reach::Finish), (1, Reach::Finish), (2, Reach::Finish)]
    );
    // Starting from the first strip's start, a later strip is reached at its start.
    assert_eq!(
        warping_walk(&vec![s(1, 2), s(0, 1)], 3),
        vec![(0, Reach::Finish), (1, Reach::Start)]
    );
    // With no strip left half reached, the last strip is taken and reaches nothing.
    assert_eq!(
        warping_walk(&vec![s(0, 1), s(0, 1)], 2),
        vec![(0, Reach::Finish), (1, Reach::Neither)]
    );
}

#[test]
fn a_branched_section_is_walked_one_new_node_at_a_time() {
    // A T with a tail, its strips listed out of order: node 0 joins 1, 2 and 3; 3 runs on to 4.
    let es = vec![s(0, 1), s(3, 4), s(0, 2), s(3, 0)];
    let steps = warping_walk(&es, 5);
    assert_eq!(
        steps,
        vec![(0, Reach::Finish), (2, Reach::Finish), (3, Reach::Start), (1, Reach::Finish)]
    );
    let mut reached = vec![false; 5];
    reached[es[0].ni] = true;
    for &(i, reach) in &steps {
        let node = if reach == Reach::Start { es[i].ni } else { es[i].nj };
        assert!(reach != Reach::Neither && !reached[node]);
        reached[node] = true;
    }
    assert!(reached.iter().all(|&r| r));
}

#[test]
fn outside_dimensions_mesh() {
    let c = outside_mesh(12, true, true);
    assert_eq!(
        c,
        MeshCounts { nh: 12, nb1: 6, nb2: 6, nd1: 2, nd2: 2, nr1: 2, nr2: 2, nr3: 2, nr4: 2 }
    );
    let c = outside_mesh(3, false, false);
    assert_eq!(
        c,
        MeshCounts { nh: 3, nb1: 2, nb2: 2, nd1: 0, nd2: 0, nr1: 0, nr2: 0, nr3: 0, nr4: 0 }
    );
}

#[test]
fn segments_by_shape() {
    let c = MeshCounts { nh: 10, nb1: 4, nb2: 5, nd1: 2, nd2: 3, nr1: 6, nr2: 7, nr3: 8, nr4: 9 };
    assert_eq!(segments(&c, true, true), vec![4, 10, 5]);
    assert_eq!(segments(&c, true, false), vec![2, 4, 10, 5, 3]);
    assert_eq!(segments(&c, false, true), vec![4, 6, 10, 8, 5]);
    assert_eq!(segments(&c, false, false), vec![2, 7, 4, 6, 10, 8, 5, 9, 3]);
}

#[test]
fn nodes_are_placed_along_their_segments() {
    assert_eq!(node_places(&vec![2, 3]), vec![(0, 0), (0, 1), (1, 0), (1, 1), (1, 2), (2, 0)]);
    // An empty segment's start is taken over by the next segment.
    assert_eq!(
        node_places(&vec![2, 0, 3]),
        vec![(0, 0), (0, 1), (2, 0), (2, 1), (2, 2), (3, 0)]
    );
    // Trailing empty segments leave the last node at the very end.
    assert_eq!(node_places(&vec![2, 0]), vec![(0, 0), (0, 1), (2, 0)]);
    assert_eq!(node_places(&vec![0, 0]), vec![(2, 0)]);
}

#[test]
fn strips_join_consecutive_nodes() {
    assert_eq!(chain_strips(4), vec![s(0, 1), s(1, 2), s(2, 3)]);
    assert_eq!(chain_strips(1), vec![]);
    assert_eq!(chain_strips(0), vec![]);
}

fn pattern(n: usize, edges: &[(usize, usize)]) -> Vec<Vec<bool>> {
    let mut p = vec![vec![false; n]; n];
    for i in 0..n {
        p[i][i] = true;
    }
    for &(a, b) in edges {
        p[a][b] = true;
        p[b][a] = true;
    }
    p
}

#[test]
fn a_path_is_ordered_end_to_end() {
    let (order, bw) = rcm(&pattern(4, &[(0, 1), (1, 2), (2, 3)]));
    assert_eq!(order, vec![3, 2, 1, 0]);
    assert_eq!(bw, 1);
}

#[test]
fn a_star_starts_from_a_leaf() {
    let (order, bw) = rcm(&pattern(4, &[(0, 1), (0, 2), (0, 3)]));
    assert_eq!(order, vec![3, 2, 0, 1]);
    assert_eq!(bw, 2);
}

#[test]
fn each_component_is_searched_in_turn() {
    let (order, bw) = rcm(&pattern(3, &[(0, 2)]));
    assert_eq!(order, vec![2, 0, 1]);
    assert_eq!(bw, 1);
    let (order, bw) = rcm(&pattern(3, &[]));
    assert_eq!(order, vec![2, 1, 0]);
    assert_eq!(bw, 0);
}

#[test]
fn a_scrambled_band_is_narrowed() {
    // A path 0-3-1-4-2: its natural numbering has half-bandwidth 3.
    let (order, bw) = rcm(&pattern(5, &[(0, 3), (3, 1), (1, 4), (4, 2)]));
    assert_eq!(bw, 1);
    let mut sorted = order.clone();
    sorted.sort();
    assert_eq!(sorted, vec![0, 1, 2, 3, 4]);
}
