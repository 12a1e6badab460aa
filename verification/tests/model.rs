use lib::model::{
    validate, BoundaryCondition, ConstraintDofs, Dof, ElementCheck,
};
use lib::Error;

fn element(ni: usize, nj: usize, mat: usize) -> ElementCheck {
    ElementCheck { ni, nj, mat, thickness_positive: true, width_positive: true }
}

fn message(r: Result<(), Error>) -> String {
    match r {
        Err(Error::InvalidModel(s)) => s,
        other => panic!("expected an invalid model, got {:?}", other),
    }
}

#[test]
fn parse_reads_every_end_condition() {
    assert_eq!(BoundaryCondition::parse("S-S"), Some(BoundaryCondition::SS));
    assert_eq!(BoundaryCondition::parse("C-C"), Some(BoundaryCondition::CC));
    assert_eq!(BoundaryCondition::parse("S-C"), Some(BoundaryCondition::SC));
    assert_eq!(BoundaryCondition::parse("C-F"), Some(BoundaryCondition::CF));
    assert_eq!(BoundaryCondition::parse("C-G"), Some(BoundaryCondition::CG));
}

#[test]
fn parse_takes_mixed_conditions_in_either_order() {
    assert_eq!(BoundaryCondition::parse("C-S"), Some(BoundaryCondition::SC));
    assert_eq!(BoundaryCondition::parse("F-C"), Some(BoundaryCondition::CF));
    assert_eq!(BoundaryCondition::parse("G-C"), Some(BoundaryCondition::CG));
}

#[test]
fn parse_refuses_anything_else() {
    for s in ["", "S", "SS", "S-", "s-s", "S-S ", " S-S", "S_S", "F-F", "G-G", "S-F", "C-C-C"] {
        assert_eq!(BoundaryCondition::parse(s), None, "{s:?}");
    }
}

#[test]
fn dof_codes_follow_the_constraint_table() {
    assert_eq!(Dof::X.code(), 1);
    assert_eq!(Dof::Z.code(), 2);
    assert_eq!(Dof::Y.code(), 3);
    assert_eq!(Dof::Theta.code(), 4);
}

#[test]
fn a_sound_model_passes() {
    let es = vec![element(0, 1, 0), element(1, 2, 1)];
    let cs = vec![ConstraintDofs { node_e: 2, dof_e: Dof::X, node_k: 0, dof_k: Dof::Z }];
    assert_eq!(validate(3, 2, &es, &cs), Ok(()));
}

#[test]
fn a_model_without_nodes_or_elements_is_refused() {
    assert_eq!(message(validate(0, 1, &vec![element(0, 1, 0)], &vec![])), "the model has no nodes");
    assert_eq!(message(validate(2, 1, &vec![], &vec![])), "the model has no elements");
}

#[test]
fn each_element_fault_is_named() {
    assert_eq!(
        message(validate(2, 1, &vec![element(0, 2, 0)], &vec![])),
        "element 0 refers to a node that does not exist"
    );
    assert_eq!(
        message(validate(2, 1, &vec![element(1, 1, 0)], &vec![])),
        "element 0 starts and ends at the same node"
    );
    assert_eq!(
        message(validate(2, 1, &vec![element(0, 1, 1)], &vec![])),
        "element 0 refers to a material that does not exist"
    );
    let mut thin = element(0, 1, 0);
    thin.thickness_positive = false;
    assert_eq!(
        message(validate(2, 1, &vec![thin], &vec![])),
        "element 0 has a thickness that is not positive"
    );
    let mut flat = element(0, 1, 0);
    flat.width_positive = false;
    assert_eq!(message(validate(2, 1, &vec![flat], &vec![])), "element 0 has zero width");
}

#[test]
fn the_first_fault_is_the_one_reported() {
    let mut es: Vec<ElementCheck> = (0..12).map(|i| element(i, i + 1, 0)).collect();
    es.push(element(5, 5, 0));
    es.push(element(0, 99, 0));
    assert_eq!(
        message(validate(13, 1, &es, &vec![])),
        "element 12 starts and ends at the same node"
    );
}

#[test]
fn a_constraint_on_a_missing_node_is_refused() {
    let es = vec![element(0, 1, 0)];
    let cs = vec![
        ConstraintDofs { node_e: 0, dof_e: Dof::Y, node_k: 1, dof_k: Dof::Y },
        ConstraintDofs { node_e: 1, dof_e: Dof::Theta, node_k: 2, dof_k: Dof::Theta },
    ];
    assert_eq!(
        message(validate(2, 1, &es, &cs)),
        "constraint 1 refers to a node that does not exist"
    );
}

#[test]
fn element_faults_come_before_constraint_faults() {
    let es = vec![element(0, 1, 3)];
    let cs = vec![ConstraintDofs { node_e: 7, dof_e: Dof::Y, node_k: 1, dof_k: Dof::Y }];
    assert_eq!(
        message(validate(2, 1, &es, &cs)),
        "element 0 refers to a material that does not exist"
    );
}
