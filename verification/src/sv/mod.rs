//! SystemVerilog front end: parses synthesizable SystemVerilog modules and
//! lowers them to ports, values and operations.

pub mod chain;
pub mod cst;
pub mod declaring;
pub mod grouping;
pub mod laws;
pub mod literal;
pub mod lower;
pub mod model;
pub mod module;
pub mod parse;
pub mod parser;
pub mod query;
pub mod reading;
pub mod refusals;
pub mod rules;
pub mod scope;
pub mod span;
