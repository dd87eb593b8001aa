//! A simulator core for digital circuits built from NAND gates.
//!
//! The crate holds the identifier allocator, the model of gates and circuits
//! with the synchronous step, the standard circuits and what they compute,
//! the reader of circuit definition documents and the screen geometry of a
//! circuit. Every function is verified against the mathematical model that
//! its module defines.

pub mod behaviour;
pub mod id;
pub mod logic_gate;
pub mod logic_gate_map;
pub mod parse;
pub mod render;
pub mod table;
pub mod text;
