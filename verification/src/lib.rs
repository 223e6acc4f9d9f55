//! A tape machine for the eight-symbol language `> < + - . , [ ]`.
//!
//! A source text is assembled into a flat sequence of instructions whose loop
//! brackets hold the positions of their partners, and an interpreter walks
//! that sequence over a fixed tape of integer cells. The interpreter does no
//! reading or writing of its own: a step that meets `.` or `,` hands the
//! character out, or asks for one, and the caller does the rest.
//!
//! - [`program`]: the instructions, and which brackets belong together.
//! - [`compiler`]: from a source text to a program.
//! - [`cell`]: what a cell type has to offer, for the eight integer types.
//! - [`machine`]: the state of an interpreter as a value, and its steps.
//! - [`interpreter`]: the interpreter itself.
//! - [`error`]: what can go wrong.

pub mod cell;
pub mod compiler;
pub mod error;
pub mod interpreter;
pub mod machine;
pub mod program;
