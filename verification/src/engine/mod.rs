//! Brainfuck executors: the shared status types and the two engines.

use vstd::prelude::*;

pub mod ir;
pub mod mem;
pub mod raw;

verus! {

/// Why a stopped engine stopped.
#[derive(Debug, Clone, Copy, PartialEq, Eq, Structural)]
pub enum StopState {
    /// The program ran to its end.
    Halted,
    /// The program wants one input byte before it can continue.
    NeedInput,
    /// The program produced one output byte.
    HasOutput(u8),
}

/// What one step (or one run) of an engine reports.
#[derive(Debug, Clone, Copy, PartialEq, Eq, Structural)]
pub enum State {
    /// The engine can step again at once.
    Running,
    /// The engine suspended; the host decides what happens next.
    Stopped(StopState),
}

/// A runtime Brainfuck error.
#[derive(Debug, Clone, Copy, PartialEq, Eq, Structural)]
pub enum RTError {
    /// The memory pointer was used while left of cell zero.
    MemNegativeOut,
}

} // verus!
