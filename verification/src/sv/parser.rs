//! The SystemVerilog parser: from a source text to a lowered module.

pub use crate::sv::literal::parse_number_literal;
pub use crate::sv::lower::{int_attr, lower_events, parse_sv_module, SvModuleLowerer};
pub use crate::sv::module::ParsedPort;
