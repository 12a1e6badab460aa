//! The integer side of a finite strip buckling analysis for thin-walled sections: degree-of-freedom
//! numbering, model checks, the section's topology for the constrained method, the bandwidth
//! ordering, the element walk for warping properties and the template mesh plan.
use vstd::prelude::*;

pub mod analysis;
pub mod banded;
pub mod cfsm;
pub mod cutwp;
pub mod model;
pub mod template;

verus! {

/// Why an analysis could not run.
#[derive(Clone, Debug, PartialEq)]
pub enum Error {
    /// The model is not one the analysis can be run on; the text says what is wrong.
    InvalidModel(String),
    /// The reduced elastic stiffness is not positive definite: the section has a mechanism (a
    /// DOF with no stiffness) at this length. `dof` is the reduced DOF where it showed.
    NotPositiveDefinite { dof: usize },
}

} // verus!
