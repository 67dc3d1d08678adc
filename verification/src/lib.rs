//! A Brainfuck optimizer and stepwise interpreter.
//!
//! The crate lowers raw Brainfuck into a typed intermediate representation,
//! rewrites that representation to a local fixed point, and executes either
//! form with a resumable, I/O-suspending engine.

pub mod affine_ir;
pub mod engine;
pub mod ir;
pub mod linear;
pub mod linearmath;
pub mod raw;
pub mod save;
