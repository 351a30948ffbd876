//! Finite-element assembly kernel: block-sparse symbolic assembly for linear
//! and nonlinear stiffness operators, combinatorial ranking of node tuples,
//! mesh connectivity lookup, truncated polynomial arithmetic, and exact
//! Gauss quadrature rules, all with machine-checked contracts.

pub mod assembly;
pub mod combinatorics;
pub mod ranking;
pub mod locate_nodes_o_log_n;
pub mod locate_nodes_o_n;
pub mod parametric_expansion_with_recursion;
pub mod polynomial;
pub mod quadrature_rules;
