//! Fuel probes for stack-bytecode modules.
//!
//! For each function of a module the library records where every operand
//! value comes from, slices the body backward from its control-flow
//! decisions, completes each slice into a well-bracketed program, and emits
//! probe functions that add up the fuel the function spends along a path.
//! Decoding and encoding modules is left to the caller.

pub mod analyze;
pub mod codegen;
pub mod error;
pub mod names;
pub mod ops;
pub mod reduce;
pub mod run;
pub mod slice;
pub mod structure;
