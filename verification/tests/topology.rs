use lib::cfsm::{
    base_properties, far_end, mode_select, node_elements, regular_nodes, NodeType, Norm, Orth,
    Spaces,
};
use lib::model::Strip;

fn chain(n: usize) -> Vec<Strip> {
    (0..n - 1).map(|i| Strip { ni: i, nj: i + 1 }).collect()
}

/// A plain channel meshed with one sub-node in each flange and in the web.
fn channel() -> (Vec<Strip>, Vec<bool>) {
    (chain(7), vec![false, true, false, true, false, true, false])
}

#[test]
fn strips_at_each_node() {
    let (es, _) = channel();
    let ne = node_elements(&es, 7);
    assert_eq!(ne[0], vec![0]);
    assert_eq!(ne[3], vec![2, 3]);
    assert_eq!(ne[6], vec![5]);
}

#[test]
fn channel_topology() {
    let (es, col) = channel();
    let bp = base_properties(&es, &col).expect("every sub-node has two strips");
    assert_eq!(bp.node_type, vec![
            NodeType::Edge,
            NodeType::Sub,
            NodeType::Corner,
            NodeType::Sub,
            NodeType::Corner,
            NodeType::Sub,
            NodeType::Edge
        ]);
    assert_eq!(bp.new_index, vec![0, 4, 1, 5, 2, 6, 3]);
    assert_eq!((bp.nmno, bp.ncno, bp.nsno), (4, 2, 3));
    assert_eq!(bp.ndm, 0);
    assert_eq!(bp.nlm, 12);
    let ends: Vec<(usize, usize, Vec<usize>)> =
        bp.m_elem.iter().map(|e| (e.n1, e.n2, e.subs.clone())).collect();
    assert_eq!(ends, vec![(0, 1, vec![1]), (1, 2, vec![3]), (2, 3, vec![5])]);
    let nodes: Vec<(usize, usize, Vec<i64>)> =
        bp.m_node.iter().map(|m| (m.orig, m.nel, m.elems.clone())).collect();
    assert_eq!(
        nodes,
        vec![(0, 1, vec![1]), (2, 2, vec![-1, 2]), (4, 2, vec![-2, 3]), (6, 1, vec![-3])]
    );
    assert_eq!(
        bp.perm,
        vec![
            8, 0, 16, 25, 4, 1, 17, 26, 5, 2, 18, 27, 9, 3, 10, 12, 19, 22, 6, 13, 20, 23, 7, 14,
            21, 24, 11, 15
        ]
    );
}

#[test]
fn the_dof_ordering_is_a_permutation() {
    let (es, col) = channel();
    let bp = base_properties(&es, &col).unwrap();
    let mut sorted = bp.perm.clone();
    sorted.sort();
    assert_eq!(sorted, (0..28).collect::<Vec<usize>>());
    let mut idx = bp.new_index.clone();
    idx.sort();
    assert_eq!(idx, (0..7).collect::<Vec<usize>>());
}

#[test]
fn a_lipped_channel_has_a_distortional_mode_per_extra_main_node() {
    // Lip, flange, web, flange, lip: six main nodes, no sub-nodes.
    let es = chain(6);
    let col = vec![false; 6];
    let bp = base_properties(&es, &col).unwrap();
    assert_eq!((bp.nmno, bp.ncno, bp.nsno), (6, 4, 0));
    assert_eq!(bp.ndm, 2);
    assert_eq!(bp.nlm, 6 + 2);
}

#[test]
fn a_branch_lowers_the_distortional_count() {
    // A T: node 0 joins three strips to nodes 1, 2, 3, and node 3 carries on to 4 and 5.
    let es = vec![
        Strip { ni: 0, nj: 1 },
        Strip { ni: 0, nj: 2 },
        Strip { ni: 0, nj: 3 },
        Strip { ni: 3, nj: 4 },
        Strip { ni: 4, nj: 5 },
    ];
    let col = vec![false; 6];
    let bp = base_properties(&es, &col).unwrap();
    // Six main nodes, less four, less one extra strip at the three-way node.
    assert_eq!(bp.ndm, 1);
    assert_eq!(bp.m_node[0].elems, vec![1, 2, 3]);
}

#[test]
fn a_branch_makes_its_extra_strip_end_dependent() {
    let es = vec![
        Strip { ni: 0, nj: 1 },
        Strip { ni: 0, nj: 2 },
        Strip { ni: 0, nj: 3 },
        Strip { ni: 3, nj: 4 },
        Strip { ni: 4, nj: 5 },
    ];
    let bp = base_properties(&es, &vec![false; 6]).unwrap();
    // The pair (1, 2) fixes the branch: meta-element 3 leads on to node 3.
    assert_eq!(
        regular_nodes(&bp, &vec![2, 0, 0, 0, 0, 0]),
        vec![true, true, true, false, true, true]
    );
    // The pair (1, 3) fixes it: meta-element 2 leads on to node 2.
    assert_eq!(
        regular_nodes(&bp, &vec![3, 0, 0, 0, 0, 0]),
        vec![true, true, false, true, true, true]
    );
    // A channel has no branch: every main node is regular.
    let (es, col) = channel();
    let bp = base_properties(&es, &col).unwrap();
    assert_eq!(regular_nodes(&bp, &vec![0; 4]), vec![true; 4]);
}

#[test]
fn a_merge_that_runs_out_of_strips_is_refused() {
    // A triangle whose every node claims to be between collinear strips.
    let es = vec![Strip { ni: 0, nj: 1 }, Strip { ni: 1, nj: 2 }, Strip { ni: 2, nj: 0 }];
    assert!(base_properties(&es, &vec![true, true, true]).is_none());
    // An isolated node cannot be merged either.
    assert!(base_properties(&chain(2), &vec![false, false, false]).is_none());
}

#[test]
fn far_ends_of_signed_meta_elements() {
    let (es, col) = channel();
    let bp = base_properties(&es, &col).unwrap();
    assert_eq!(far_end(&bp, 1), 1);
    assert_eq!(far_end(&bp, -1), 0);
    assert_eq!(far_end(&bp, 3), 3);
    assert_eq!(far_end(&bp, -2), 1);
}

#[test]
fn chosen_spaces_select_their_columns() {
    let spaces = Spaces { global: true, distortional: false, local: true, other: false };
    assert_eq!(
        mode_select(4, 1, 3, spaces, 10, 2),
        vec![0, 1, 2, 3, 5, 6, 7, 10, 11, 12, 13, 15, 16, 17]
    );
    let other = Spaces { global: false, distortional: true, local: false, other: true };
    assert_eq!(mode_select(4, 1, 3, other, 10, 1), vec![4, 8, 9]);
    assert_eq!(mode_select(4, 1, 3, Spaces::default(), 10, 3), Vec::<usize>::new());
    let all = Spaces { global: true, distortional: true, local: true, other: true };
    assert_eq!(mode_select(4, 1, 3, all, 10, 2), (0..20).collect::<Vec<usize>>());
}

#[test]
fn option_codes() {
    assert_eq!(Orth::Natural.code(), 1);
    assert_eq!(Orth::Axial.code(), 2);
    assert_eq!(Orth::Load.code(), 3);
    assert_eq!(Norm::Unscaled.code(), 0);
    assert_eq!(Norm::Vector.code(), 1);
    assert_eq!(Norm::StrainEnergy.code(), 2);
    assert_eq!(Norm::Work.code(), 3);
}

#[test]
fn the_spaces_fit_a_terms_dofs() {
    let (es, col) = channel();
    let bp = base_properties(&es, &col).unwrap();
    assert!(4 + bp.ndm + bp.nlm <= 4 * 7);
    let bp = base_properties(&chain(6), &vec![false; 6]).unwrap();
    assert_eq!(4 + bp.ndm + bp.nlm, 14);
    assert!(14 <= 4 * 6);
    // A single strip: two edge nodes.
    let bp = base_properties(&chain(2), &vec![false; 2]).unwrap();
    assert_eq!((bp.ndm, bp.nlm), (0, 4));
    assert_eq!(4 + bp.ndm + bp.nlm, 4 * 2);
}
