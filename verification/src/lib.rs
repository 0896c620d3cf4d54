//! Hardware dialects: finite state machines, combinational checks and a
//! SystemVerilog front end, with their behaviour stated and proved.

pub mod comb;
pub mod fsm;
pub mod ir;
pub mod sv;
pub mod text;
