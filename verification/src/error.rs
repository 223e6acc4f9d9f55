//! The ways in which assembling or running a program can fail.

use vstd::prelude::*;

verus! {

/// A failure that ends the current run.
#[derive(Debug, Clone, Copy, PartialEq, Eq, Structural)]
pub enum BfError {
    /// A bracket without a partner; `index` is the position of that bracket
    /// among the instructions.
    NoneMatchingBracket { index: usize },
    /// A byte was read that the cell type cannot hold.
    UnexpectedInput { byte: u8 },
    /// The instruction at `index` touched the tape while the pointer was
    /// outside of it.
    MemoryOutOfBounds { index: usize },
}

} // verus!
