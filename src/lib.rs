//! Canonicalisation of small arithmetic expression trees.
//!
//! [`syntax`] holds the expression type and its mathematical model;
//! [`semantics`] holds the rewrite rules, the bottom-up pass that applies
//! them without recursion, and the driver that repeats the pass until the
//! tree stops changing; [`laws`] states and proves what normalisation
//! guarantees.
pub mod laws;
pub mod parser;
pub mod semantics;
pub mod syntax;
