use lib::analysis::{check_term_sets, constraint_basis, dof_index, gdof};
use lib::banded::band_slot;
use lib::model::{ConstraintDofs, Dof};
use lib::Error;

#[test]
fn strip_dofs_land_in_their_terms_block() {
    // 5 nodes, strip from node 1 to node 3, term 2: block starts at 40.
    let got: Vec<usize> = (0..8).map(|l| gdof(l, 2, 1, 3, 5)).collect();
    assert_eq!(got, vec![42, 43, 46, 47, 52, 53, 56, 57]);
    // Any local DOF past 7 is read as 7.
    assert_eq!(gdof(9, 2, 1, 3, 5), 57);
}

#[test]
fn strip_dofs_are_the_node_dofs() {
    let n = 6;
    let (ni, nj, m) = (4, 1, 1);
    let base = 4 * n * m;
    let kinds = [
        (ni, Dof::X),
        (ni, Dof::Y),
        (nj, Dof::X),
        (nj, Dof::Y),
        (ni, Dof::Z),
        (ni, Dof::Theta),
        (nj, Dof::Z),
        (nj, Dof::Theta),
    ];
    for (l, &(node, dof)) in kinds.iter().enumerate() {
        assert_eq!(gdof(l, m, ni, nj, n), base + dof_index(node, dof, n));
    }
}

#[test]
fn node_dofs_fill_the_block_once_each() {
    let n = 5;
    let mut seen = vec![false; 4 * n];
    for node in 0..n {
        for dof in [Dof::X, Dof::Z, Dof::Y, Dof::Theta] {
            let d = dof_index(node, dof, n);
            assert!(!seen[d]);
            seen[d] = true;
        }
    }
    assert!(seen.iter().all(|&s| s));
    assert_eq!(dof_index(2, Dof::X, 5), 4);
    assert_eq!(dof_index(2, Dof::Y, 5), 5);
    assert_eq!(dof_index(2, Dof::Z, 5), 14);
    assert_eq!(dof_index(2, Dof::Theta, 5), 15);
}

#[test]
fn nothing_fixed_or_constrained_needs_no_basis() {
    assert_eq!(constraint_basis(&vec![[true; 4]; 3], &vec![], 2), None);
}

#[test]
fn fixed_dofs_lose_their_columns() {
    // Two nodes; node 0 fixes w (flag 1), node 1 fixes v (flag 2).
    let free = vec![[true, false, true, true], [true, true, false, true]];
    // Block of 8: u0 v0 u1 v1 w0 th0 w1 th1; w0 (4) and v1 (3) go.
    assert_eq!(constraint_basis(&free, &vec![], 1), Some(vec![0, 1, 2, 5, 6, 7]));
    // Two terms: the same places, the second offset by 8.
    assert_eq!(
        constraint_basis(&free, &vec![], 2),
        Some(vec![0, 1, 2, 5, 6, 7, 8, 9, 10, 13, 14, 15])
    );
}

#[test]
fn constraints_eliminate_their_dof() {
    let free = vec![[true; 4]; 2];
    let cs = vec![
        ConstraintDofs { node_e: 1, dof_e: Dof::Theta, node_k: 0, dof_k: Dof::Theta },
        ConstraintDofs { node_e: 0, dof_e: Dof::X, node_k: 1, dof_k: Dof::X },
    ];
    assert_eq!(constraint_basis(&free, &cs, 1), Some(vec![1, 2, 3, 4, 5, 6]));
}

#[test]
fn band_slots_are_row_after_row() {
    // Half-width 1: row i holds (i, i-1), (i, i).
    assert_eq!(band_slot(0, 0, 1, 3), 1);
    assert_eq!(band_slot(1, 0, 1, 3), 2);
    assert_eq!(band_slot(1, 1, 1, 3), 3);
    assert_eq!(band_slot(2, 1, 1, 3), 4);
    assert_eq!(band_slot(2, 2, 1, 3), 5);
    let mut used = vec![false; 3 * 3];
    for i in 0..3usize {
        for j in i.saturating_sub(2)..=i {
            let s = band_slot(i, j, 2, 3);
            assert!(!used[s]);
            used[s] = true;
        }
    }
}

#[test]
fn one_set_of_terms_per_length() {
    assert!(check_term_sets(3, 3).is_ok());
    assert!(check_term_sets(0, 0).is_ok());
    assert_eq!(
        check_term_sets(3, 12),
        Err(Error::InvalidModel("3 lengths but 12 sets of longitudinal terms".to_string()))
    );
    assert_eq!(
        check_term_sets(100, 0),
        Err(Error::InvalidModel("100 lengths but 0 sets of longitudinal terms".to_string()))
    );
}
