//! The cross-section model's discrete parts: degrees of freedom, end conditions and the checks
//! that every index in a model is in range.
use vstd::prelude::*;
use vstd::string::*;

verus! {

/// A nodal degree of freedom, numbered as the constraint table numbers them.
#[derive(Clone, Copy, Debug, PartialEq, Eq, Structural)]
pub enum Dof {
    /// `u`, in the plane of the section along global x (code 1).
    X,
    /// `w`, in the plane of the section along global z (code 2).
    Z,
    /// `v`, along the member (code 3).
    Y,
    /// `theta`, the rotation about the member axis (code 4).
    Theta,
}

pub open spec fn dof_code_spec(d: Dof) -> int {
    match d {
        Dof::X => 1,
        Dof::Z => 2,
        Dof::Y => 3,
        Dof::Theta => 4,
    }
}

impl Dof {
    /// The constraint table's numeric code of this DOF: x 1, z 2, y 3, rotation 4.
    pub fn code(self) -> (c: u8)
        ensures
            c == dof_code_spec(self),
    {
        match self {
            Dof::X => 1,
            Dof::Z => 2,
            Dof::Y => 3,
            Dof::Theta => 4,
        }
    }
}

/// The boundary condition at the loaded ends of the member.
#[derive(Clone, Copy, Debug, PartialEq, Eq, Structural)]
pub enum BoundaryCondition {
    /// Simply supported at both ends (`'S-S'`). The signature-curve condition.
    SS,
    /// Clamped at both ends (`'C-C'`).
    CC,
    /// Simply supported at one end, clamped at the other (`'S-C'`).
    SC,
    /// Clamped at one end, free at the other (`'C-F'`).
    CF,
    /// Clamped at one end, guided at the other (`'C-G'`).
    CG,
}

/// The three-character form `x-y` of two end letters.
pub open spec fn ends_text(x: char, y: char) -> Seq<char> {
    seq![x, '-', y]
}

/// The end condition a string names: `S-S`, `C-C`, and the mixed ones in either order.
pub open spec fn parse_spec(s: Seq<char>) -> Option<BoundaryCondition> {
    if s == ends_text('S', 'S') {
        Some(BoundaryCondition::SS)
    } else if s == ends_text('C', 'C') {
        Some(BoundaryCondition::CC)
    } else if s == ends_text('S', 'C') || s == ends_text('C', 'S') {
        Some(BoundaryCondition::SC)
    } else if s == ends_text('C', 'F') || s == ends_text('F', 'C') {
        Some(BoundaryCondition::CF)
    } else if s == ends_text('C', 'G') || s == ends_text('G', 'C') {
        Some(BoundaryCondition::CG)
    } else {
        None
    }
}

/// Whether `s` is exactly the three characters `x`, `-`, `y`.
fn is_ends(s: &str, x: char, y: char) -> (b: bool)
    ensures
        b == (s@ == ends_text(x, y)),
{
    let n = s.unicode_len();
    if n != 3 {
        proof {
            assert(s@.len() != ends_text(x, y).len());
        }
        return false;
    }
    let (c0, c1, c2) = (s.get_char(0), s.get_char(1), s.get_char(2));
    let b = c0 == x && c1 == '-' && c2 == y;
    proof {
        if b {
            assert(s@ =~= ends_text(x, y));
        } else {
            assert(s@ != ends_text(x, y)) by {
                if s@ == ends_text(x, y) {
                    assert(s@[0] == x && s@[1] == '-' && s@[2] == y);
                }
            }
        }
    }
    b
}

/// The mixed end conditions read the same in either order, and each reads as the one it names.
pub proof fn lemma_parse_either_order()
    ensures
        parse_spec(ends_text('S', 'C')) == parse_spec(ends_text('C', 'S')),
        parse_spec(ends_text('C', 'F')) == parse_spec(ends_text('F', 'C')),
        parse_spec(ends_text('C', 'G')) == parse_spec(ends_text('G', 'C')),
        parse_spec(ends_text('S', 'S')) == Some(BoundaryCondition::SS),
        parse_spec(ends_text('C', 'C')) == Some(BoundaryCondition::CC),
        parse_spec(ends_text('S', 'C')) == Some(BoundaryCondition::SC),
        parse_spec(ends_text('C', 'F')) == Some(BoundaryCondition::CF),
        parse_spec(ends_text('C', 'G')) == Some(BoundaryCondition::CG),
{
    assert(ends_text('S', 'C') != ends_text('S', 'S')) by {
        assert(ends_text('S', 'C')[2] != ends_text('S', 'S')[2]);
    }
    assert(ends_text('C', 'S') != ends_text('S', 'S')) by {
        assert(ends_text('C', 'S')[0] != ends_text('S', 'S')[0]);
    }
    assert(ends_text('C', 'S') != ends_text('C', 'C')) by {
        assert(ends_text('C', 'S')[2] != ends_text('C', 'C')[2]);
    }
    assert(ends_text('S', 'C') != ends_text('C', 'C')) by {
        assert(ends_text('S', 'C')[0] != ends_text('C', 'C')[0]);
    }
    assert(ends_text('C', 'F') != ends_text('S', 'S')) by {
        assert(ends_text('C', 'F')[0] != ends_text('S', 'S')[0]);
    }
    assert(ends_text('F', 'C') != ends_text('S', 'S')) by {
        assert(ends_text('F', 'C')[0] != ends_text('S', 'S')[0]);
    }
    assert(ends_text('C', 'F') != ends_text('C', 'C')) by {
        assert(ends_text('C', 'F')[2] != ends_text('C', 'C')[2]);
    }
    assert(ends_text('F', 'C') != ends_text('C', 'C')) by {
        assert(ends_text('F', 'C')[0] != ends_text('C', 'C')[0]);
    }
    assert(ends_text('C', 'F') != ends_text('S', 'C')) by {
        assert(ends_text('C', 'F')[0] != ends_text('S', 'C')[0]);
    }
    assert(ends_text('C', 'F') != ends_text('C', 'S')) by {
        assert(ends_text('C', 'F')[2] != ends_text('C', 'S')[2]);
    }
    assert(ends_text('F', 'C') != ends_text('S', 'C')) by {
        assert(ends_text('F', 'C')[0] != ends_text('S', 'C')[0]);
    }
    assert(ends_text('F', 'C') != ends_text('C', 'S')) by {
        assert(ends_text('F', 'C')[0] != ends_text('C', 'S')[0]);
    }
    assert(ends_text('C', 'G') != ends_text('S', 'S')) by {
        assert(ends_text('C', 'G')[0] != ends_text('S', 'S')[0]);
    }
    assert(ends_text('G', 'C') != ends_text('S', 'S')) by {
        assert(ends_text('G', 'C')[0] != ends_text('S', 'S')[0]);
    }
    assert(ends_text('C', 'G') != ends_text('C', 'C')) by {
        assert(ends_text('C', 'G')[2] != ends_text('C', 'C')[2]);
    }
    assert(ends_text('G', 'C') != ends_text('C', 'C')) by {
        assert(ends_text('G', 'C')[0] != ends_text('C', 'C')[0]);
    }
    assert(ends_text('C', 'G') != ends_text('S', 'C')) by {
        assert(ends_text('C', 'G')[0] != ends_text('S', 'C')[0]);
    }
    assert(ends_text('C', 'G') != ends_text('C', 'S')) by {
        assert(ends_text('C', 'G')[2] != ends_text('C', 'S')[2]);
    }
    assert(ends_text('G', 'C') != ends_text('S', 'C')) by {
        assert(ends_text('G', 'C')[0] != ends_text('S', 'C')[0]);
    }
    assert(ends_text('G', 'C') != ends_text('C', 'S')) by {
        assert(ends_text('G', 'C')[0] != ends_text('C', 'S')[0]);
    }
    assert(ends_text('C', 'G') != ends_text('C', 'F')) by {
        assert(ends_text('C', 'G')[2] != ends_text('C', 'F')[2]);
    }
    assert(ends_text('C', 'G') != ends_text('F', 'C')) by {
        assert(ends_text('C', 'G')[0] != ends_text('F', 'C')[0]);
    }
    assert(ends_text('G', 'C') != ends_text('C', 'F')) by {
        assert(ends_text('G', 'C')[0] != ends_text('C', 'F')[0]);
    }
    assert(ends_text('G', 'C') != ends_text('F', 'C')) by {
        assert(ends_text('G', 'C')[0] != ends_text('F', 'C')[0]);
    }
}

impl BoundaryCondition {
    /// Reads the string form, `'S-S'` and the rest (either order for the mixed ones).
    pub fn parse(s: &str) -> (r: Option<Self>)
        ensures
            r == parse_spec(s@),
    {
        if is_ends(s, 'S', 'S') {
            Some(Self::SS)
        } else if is_ends(s, 'C', 'C') {
            Some(Self::CC)
        } else if is_ends(s, 'S', 'C') || is_ends(s, 'C', 'S') {
            Some(Self::SC)
        } else if is_ends(s, 'C', 'F') || is_ends(s, 'F', 'C') {
            Some(Self::CF)
        } else if is_ends(s, 'C', 'G') || is_ends(s, 'G', 'C') {
            Some(Self::CG)
        } else {
            None
        }
    }
}

} // verus!

verus! {

/// A strip's two end nodes, the element table's `nodei nodej` (0-based).
#[derive(Clone, Copy, Debug, PartialEq, Eq, Structural)]
pub struct Strip {
    pub ni: usize,
    pub nj: usize,
}

/// Every strip's end nodes lie among the first `n` nodes.
pub open spec fn strips_in_range(es: Seq<Strip>, n: nat) -> bool {
    forall|j: int| 0 <= j < es.len() ==> (#[trigger] es[j]).ni < n && es[j].nj < n
}

} // verus!

verus! {

/// A master-slave constraint's DOFs: `dof_e` at `node_e` is eliminated in favour of `dof_k` at
/// `node_k` (the coefficient between them is carried by the caller).
#[derive(Clone, Copy, Debug, PartialEq, Eq, Structural)]
pub struct ConstraintDofs {
    pub node_e: usize,
    pub dof_e: Dof,
    pub node_k: usize,
    pub dof_k: Dof,
}

} // verus!

verus! {

// ---------------------------------------------------------------------------------------------
// Decimal numbers in messages.

/// The character of decimal digit `d`.
pub open spec fn digit_char(d: nat) -> char {
    if d == 0 {
        '0'
    } else if d == 1 {
        '1'
    } else if d == 2 {
        '2'
    } else if d == 3 {
        '3'
    } else if d == 4 {
        '4'
    } else if d == 5 {
        '5'
    } else if d == 6 {
        '6'
    } else if d == 7 {
        '7'
    } else if d == 8 {
        '8'
    } else {
        '9'
    }
}

/// The decimal digits of `n`, most significant first, without leading zeros.
pub open spec fn decimal(n: nat) -> Seq<char>
    decreases n,
{
    if n < 10 {
        seq![digit_char(n)]
    } else {
        decimal(n / 10) + seq![digit_char(n % 10)]
    }
}

/// The one-character string of decimal digit `d`.
fn digit_str(d: usize) -> (s: &'static str)
    requires
        d < 10,
    ensures
        s@ == seq![digit_char(d as nat)],
{
    proof {
        reveal_strlit("0");
        reveal_strlit("1");
        reveal_strlit("2");
        reveal_strlit("3");
        reveal_strlit("4");
        reveal_strlit("5");
        reveal_strlit("6");
        reveal_strlit("7");
        reveal_strlit("8");
        reveal_strlit("9");
    }
    let s = match d {
        0 => "0",
        1 => "1",
        2 => "2",
        3 => "3",
        4 => "4",
        5 => "5",
        6 => "6",
        7 => "7",
        8 => "8",
        _ => "9",
    };
    assert(s@ =~= seq![digit_char(d as nat)]);
    s
}

/// Appends the decimal digits of `n`.
pub(crate) fn push_decimal(s: &mut String, n: usize)
    ensures
        final(s)@ == old(s)@ + decimal(n as nat),
    decreases n,
{
    if n >= 10 {
        push_decimal(s, n / 10);
    }
    s.append(digit_str(n % 10));
    assert(final(s)@ =~= old(s)@ + decimal(n as nat));
}

// ---------------------------------------------------------------------------------------------
// Checking a model.

/// What the checks read of an element: its end nodes and material, and whether its thickness
/// and its width (where its end nodes exist) are positive.
#[derive(Clone, Copy, Debug, PartialEq, Eq, Structural)]
pub struct ElementCheck {
    pub ni: usize,
    pub nj: usize,
    pub mat: usize,
    pub thickness_positive: bool,
    pub width_positive: bool,
}

/// What is wrong with an element, as the end of the message that names it; `None` if nothing.
pub open spec fn element_fault(n: nat, nmat: nat, e: ElementCheck) -> Option<Seq<char>> {
    if e.ni >= n || e.nj >= n {
        Some(" refers to a node that does not exist"@)
    } else if e.ni == e.nj {
        Some(" starts and ends at the same node"@)
    } else if e.mat >= nmat {
        Some(" refers to a material that does not exist"@)
    } else if !e.thickness_positive {
        Some(" has a thickness that is not positive"@)
    } else if !e.width_positive {
        Some(" has zero width"@)
    } else {
        None
    }
}

/// The first of the first `k` elements with a fault, and the fault.
pub open spec fn first_element_fault(n: nat, nmat: nat, es: Seq<ElementCheck>, k: int) -> Option<
    (nat, Seq<char>),
>
    decreases k,
{
    if k <= 0 {
        None
    } else {
        match first_element_fault(n, nmat, es, k - 1) {
            Some(f) => Some(f),
            None => match element_fault(n, nmat, es[k - 1]) {
                Some(t) => Some(((k - 1) as nat, t)),
                None => None,
            },
        }
    }
}

/// The first of the first `k` constraints that names a node that does not exist.
pub open spec fn first_constraint_fault(n: nat, cs: Seq<ConstraintDofs>, k: int) -> Option<nat>
    decreases k,
{
    if k <= 0 {
        None
    } else {
        match first_constraint_fault(n, cs, k - 1) {
            Some(f) => Some(f),
            None => if cs[k - 1].node_e >= n || cs[k - 1].node_k >= n {
                Some((k - 1) as nat)
            } else {
                None
            },
        }
    }
}

/// The outcome of the checks: the first fault found, nodes, then elements in order (end nodes,
/// distinct ends, material, thickness, width), then constraints in order, as its message.
pub open spec fn validate_spec(
    n: nat,
    nmat: nat,
    es: Seq<ElementCheck>,
    cs: Seq<ConstraintDofs>,
) -> Result<(), Seq<char>> {
    if n == 0 {
        Err("the model has no nodes"@)
    } else if es.len() == 0 {
        Err("the model has no elements"@)
    } else {
        match first_element_fault(n, nmat, es, es.len() as int) {
            Some(f) => Err("element "@ + decimal(f.0) + f.1),
            None => match first_constraint_fault(n, cs, cs.len() as int) {
                Some(i) => Err(
                    "constraint "@ + decimal(i) + " refers to a node that does not exist"@,
                ),
                None => Ok(()),
            },
        }
    }
}

proof fn lemma_no_element_fault(n: nat, nmat: nat, es: Seq<ElementCheck>, k: int)
    requires
        0 <= k <= es.len(),
        first_element_fault(n, nmat, es, k) is None,
    ensures
        forall|j: int| 0 <= j < k ==> element_fault(n, nmat, #[trigger] es[j]) is None,
    decreases k,
{
    if k > 0 {
        lemma_no_element_fault(n, nmat, es, k - 1);
    }
}

proof fn lemma_no_constraint_fault(n: nat, cs: Seq<ConstraintDofs>, k: int)
    requires
        0 <= k <= cs.len(),
        first_constraint_fault(n, cs, k) is None,
    ensures
        forall|j: int|
            0 <= j < k ==> (#[trigger] cs[j]).node_e < n && cs[j].node_k < n,
    decreases k,
{
    if k > 0 {
        lemma_no_constraint_fault(n, cs, k - 1);
    }
}

/// A model the checks should pass: it has nodes and elements, every element joins two distinct
/// existing nodes (in either order) with an existing material and a positive thickness and
/// width, and every constraint names existing nodes.
pub open spec fn sound_model(n: nat, nmat: nat, es: Seq<ElementCheck>, cs: Seq<ConstraintDofs>) -> bool {
    &&& n > 0
    &&& es.len() > 0
    &&& forall|j: int|
        0 <= j < es.len() ==> {
            &&& (#[trigger] es[j]).ni < n
            &&& es[j].nj < n
            &&& es[j].ni != es[j].nj
            &&& es[j].mat < nmat
            &&& es[j].thickness_positive
            &&& es[j].width_positive
        }
    &&& forall|j: int| 0 <= j < cs.len() ==> (#[trigger] cs[j]).node_e < n && cs[j].node_k < n
}

proof fn lemma_first_fault_none(n: nat, nmat: nat, es: Seq<ElementCheck>, k: int)
    requires
        0 <= k <= es.len(),
        forall|j: int| 0 <= j < k ==> element_fault(n, nmat, #[trigger] es[j]) is None,
    ensures
        first_element_fault(n, nmat, es, k) is None,
    decreases k,
{
    if k > 0 {
        lemma_first_fault_none(n, nmat, es, k - 1);
    }
}

proof fn lemma_first_constraint_fault_none(n: nat, cs: Seq<ConstraintDofs>, k: int)
    requires
        0 <= k <= cs.len(),
        forall|j: int| 0 <= j < k ==> (#[trigger] cs[j]).node_e < n && cs[j].node_k < n,
    ensures
        first_constraint_fault(n, cs, k) is None,
    decreases k,
{
    if k > 0 {
        lemma_first_constraint_fault_none(n, cs, k - 1);
    }
}

/// The checks pass exactly the sound models: a model passes if and only if it has nodes and
/// elements, every element joins two distinct existing nodes, whichever way round, with an
/// existing material and a positive thickness and width, and every constraint names existing
/// nodes.
pub proof fn lemma_the_checks_pass_exactly_the_sound_models(
    n: nat,
    nmat: nat,
    es: Seq<ElementCheck>,
    cs: Seq<ConstraintDofs>,
)
    ensures
        validate_spec(n, nmat, es, cs) is Ok <==> sound_model(n, nmat, es, cs),
{
    if sound_model(n, nmat, es, cs) {
        assert forall|j: int| 0 <= j < es.len() implies element_fault(n, nmat, #[trigger] es[j])
            is None by {
            assert(es[j].ni < n && es[j].nj < n && es[j].ni != es[j].nj);
        }
        lemma_first_fault_none(n, nmat, es, es.len() as int);
        lemma_first_constraint_fault_none(n, cs, cs.len() as int);
    }
    if validate_spec(n, nmat, es, cs) is Ok {
        lemma_no_element_fault(n, nmat, es, es.len() as int);
        lemma_no_constraint_fault(n, cs, cs.len() as int);
        assert forall|j: int| 0 <= j < es.len() implies {
            &&& (#[trigger] es[j]).ni < n
            &&& es[j].nj < n
            &&& es[j].ni != es[j].nj
            &&& es[j].mat < nmat
            &&& es[j].thickness_positive
            &&& es[j].width_positive
        } by {
            assert(element_fault(n, nmat, es[j]) is None);
        }
    }
}

/// An element with its end nodes swapped.
pub open spec fn swapped_ends(e: ElementCheck) -> ElementCheck {
    ElementCheck { ni: e.nj, nj: e.ni, ..e }
}

proof fn lemma_first_fault_swapped(n: nat, nmat: nat, es: Seq<ElementCheck>, i: int, k: int)
    requires
        0 <= i < es.len(),
        0 <= k <= es.len(),
    ensures
        first_element_fault(n, nmat, es.update(i, swapped_ends(es[i])), k) == first_element_fault(
            n,
            nmat,
            es,
            k,
        ),
    decreases k,
{
    if k > 0 {
        lemma_first_fault_swapped(n, nmat, es, i, k - 1);
        assert(element_fault(n, nmat, swapped_ends(es[i])) == element_fault(n, nmat, es[i]));
    }
}

/// Which way round an element is numbered does not matter to the checks: swapping an element's
/// end nodes leaves the outcome, message and all, unchanged.
pub proof fn lemma_the_checks_ignore_element_direction(
    n: nat,
    nmat: nat,
    es: Seq<ElementCheck>,
    cs: Seq<ConstraintDofs>,
    i: int,
)
    requires
        0 <= i < es.len(),
    ensures
        validate_spec(n, nmat, es.update(i, swapped_ends(es[i])), cs) == validate_spec(
            n,
            nmat,
            es,
            cs,
        ),
{
    lemma_first_fault_swapped(n, nmat, es, i, es.len() as int);
}

/// The message `"element {i}{tail}"`.
fn element_message(i: usize, tail: &str) -> (s: String)
    ensures
        s@ == "element "@ + decimal(i as nat) + tail@,
{
    let mut s = String::from_str("element ");
    push_decimal(&mut s, i);
    s.append(tail);
    s
}

/// Checks every index and every size, so the analysis never has to: the model has nodes and
/// elements, every element joins two distinct existing nodes with an existing material and a
/// positive thickness and width, and every constraint names existing nodes. The error names the
/// first fault.
pub fn validate(
    nnodes: usize,
    nmaterials: usize,
    elements: &Vec<ElementCheck>,
    constraints: &Vec<ConstraintDofs>,
) -> (r: Result<(), crate::Error>)
    ensures
        match validate_spec(nnodes as nat, nmaterials as nat, elements@, constraints@) {
            Ok(()) => r is Ok,
            Err(m) => r matches Err(crate::Error::InvalidModel(s)) && s@ == m,
        },
        r is Ok ==> {
            &&& nnodes > 0
            &&& elements@.len() > 0
            &&& forall|j: int|
                0 <= j < elements@.len() ==> {
                    &&& (#[trigger] elements@[j]).ni < nnodes
                    &&& elements@[j].nj < nnodes
                    &&& elements@[j].ni != elements@[j].nj
                    &&& elements@[j].mat < nmaterials
                    &&& elements@[j].thickness_positive
                    &&& elements@[j].width_positive
                }
            &&& forall|j: int|
                0 <= j < constraints@.len() ==> (#[trigger] constraints@[j]).node_e < nnodes
                    && constraints@[j].node_k < nnodes
        },
        r is Ok <==> sound_model(nnodes as nat, nmaterials as nat, elements@, constraints@),
{
    proof {
        lemma_the_checks_pass_exactly_the_sound_models(
            nnodes as nat,
            nmaterials as nat,
            elements@,
            constraints@,
        );
    }
    if nnodes == 0 {
        return Err(crate::Error::InvalidModel(String::from_str("the model has no nodes")));
    }
    if elements.len() == 0 {
        return Err(crate::Error::InvalidModel(String::from_str("the model has no elements")));
    }
    let ghost n = nnodes as nat;
    let ghost nmat = nmaterials as nat;
    for i in 0..elements.len()
        invariant
            nnodes > 0,
            elements@.len() > 0,
            n == nnodes,
            nmat == nmaterials,
            first_element_fault(n, nmat, elements@, i as int) is None,
    {
        let e = elements[i];
        let tail: Option<&str> = if e.ni >= nnodes || e.nj >= nnodes {
            Some(" refers to a node that does not exist")
        } else if e.ni == e.nj {
            Some(" starts and ends at the same node")
        } else if e.mat >= nmaterials {
            Some(" refers to a material that does not exist")
        } else if !e.thickness_positive {
            Some(" has a thickness that is not positive")
        } else if !e.width_positive {
            Some(" has zero width")
        } else {
            None
        };
        match tail {
            Some(t) => {
                proof {
                    let k = elements@.len() as int;
                    lemma_fault_found(n, nmat, elements@, i as int, k);
                }
                return Err(crate::Error::InvalidModel(element_message(i, t)));
            },
            None => {},
        }
    }
    proof {
        lemma_no_element_fault(n, nmat, elements@, elements@.len() as int);
    }
    for i in 0..constraints.len()
        invariant
            n == nnodes,
            nmat == nmaterials,
            nnodes > 0,
            elements@.len() > 0,
            first_element_fault(n, nmat, elements@, elements@.len() as int) is None,
            first_constraint_fault(n, constraints@, i as int) is None,
    {
        let c = constraints[i];
        if c.node_e >= nnodes || c.node_k >= nnodes {
            proof {
                lemma_constraint_fault_found(n, constraints@, i as int, constraints@.len() as int);
            }
            let mut s = String::from_str("constraint ");
            push_decimal(&mut s, i);
            s.append(" refers to a node that does not exist");
            return Err(crate::Error::InvalidModel(s));
        }
    }
    proof {
        lemma_no_constraint_fault(n, constraints@, constraints@.len() as int);
    }
    Ok(())
}

proof fn lemma_fault_found(n: nat, nmat: nat, es: Seq<ElementCheck>, i: int, k: int)
    requires
        0 <= i < k <= es.len(),
        first_element_fault(n, nmat, es, i) is None,
        element_fault(n, nmat, es[i]) is Some,
    ensures
        first_element_fault(n, nmat, es, k) == Some(
            (i as nat, element_fault(n, nmat, es[i]).unwrap()),
        ),
    decreases k,
{
    if k > i + 1 {
        lemma_fault_found(n, nmat, es, i, k - 1);
    }
}

proof fn lemma_constraint_fault_found(n: nat, cs: Seq<ConstraintDofs>, i: int, k: int)
    requires
        0 <= i < k <= cs.len(),
        first_constraint_fault(n, cs, i) is None,
        cs[i].node_e >= n || cs[i].node_k >= n,
    ensures
        first_constraint_fault(n, cs, k) == Some(i as nat),
    decreases k,
{
    if k > i + 1 {
        lemma_constraint_fault_found(n, cs, i, k - 1);
    }
}

} // verus!
