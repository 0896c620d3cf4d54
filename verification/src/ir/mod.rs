//! The intermediate representation that the dialects read: operations with
//! attributes, operands, results and nested regions of blocks.

pub mod attributes;
pub mod edit;
pub mod error;
pub mod laws;
pub mod context;
pub mod types;
