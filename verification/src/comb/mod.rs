//! Combinational dialect (`comb`): checks that the operands and results of
//! combinational operations agree in width.

pub mod laws;
pub mod rules;
pub mod types;
pub mod utils;
