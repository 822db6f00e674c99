//! A deterministic discrete-time simulator for digital circuits described as
//! hierarchical units with testbenches: elaboration into a flat signal tree,
//! linking into a netlist, and a stepwise engine that settles combinational
//! logic and checks assertions.

pub mod span;
pub mod time;
pub mod ast;
pub mod value;
pub mod instantiate;
pub mod netlist;
pub mod simulation;
pub mod link;
pub mod sim;
pub mod convergence;
pub mod determinism;
