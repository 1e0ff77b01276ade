//! Solvers for button-and-light machines: the minimum number of presses that
//! toggles the lights into a target pattern, and the minimum number of presses
//! that drives every counter to its target.

pub mod toggle;
pub mod counters;
pub mod machine;
pub mod parse;
