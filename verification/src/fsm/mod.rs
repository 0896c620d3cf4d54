//! Finite state machine dialect (`fsm`).
//!
//! Provides target-agnostic finite state machine representations with states,
//! transitions, variables, guards, actions, and hardware/software
//! instantiations.

pub mod canonicalization;
pub mod faults;
pub mod laws;
pub mod lowering;
pub mod model;
pub mod ops;
pub mod rules;
pub mod search;
pub mod types;
pub mod verify;
