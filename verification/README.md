# Finite strip buckling analysis of thin-walled sections

A finite strip elastic buckling analysis for cold-formed and other thin-walled sections, split in
two:

- `src/` is the verified library (Verus): the integer side of the analysis, each function with a
  contract and the laws that tie them together proved.
  - `model`: the end conditions, the DOF kinds, and the model checks with their exact messages.
  - `analysis`: the global DOF numbering of strips and nodes, the columns of the constraint basis,
    and the check of one set of longitudinal terms per length.
  - `cfsm`: the section's topology for the constrained method (node types, meta-elements, the
    main-then-sub numbering, the mode counts, the DOF ordering), the nodes whose warping is
    regular at a branch, and the columns of each modal space.
  - `cutwp`: whether a section is a closed cell, the loop order of a cell's strips, and the walk
    over an open section that carries the unit warping.
  - `banded`: the band storage layout and the reverse Cuthill-McKee ordering with its
    half-bandwidth.
  - `template`: the C and Z template's mesh plan.
- `app/` is ordinary Rust around it: everything that computes in floating point (strip
  stiffness, assembly, the eigen-solves, section properties, the constrained method's bases, the
  template's coordinates), calling the library for every index, ordering and check.
- `tests/` runs the library on concrete sections.
