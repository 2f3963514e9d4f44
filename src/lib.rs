//! A digital logic circuit simulator: a hierarchical description of units, wires and
//! primitive elements is parsed, flattened into a single mesh over a dense node space, and
//! run by a synchronous, OR-merging tick engine.
pub mod cct_mesh;
pub mod elements;
pub mod lex;
pub mod parse;
pub mod simulator;
