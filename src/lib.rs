//! A virtual machine for counter programs (increment; decrement, or jump if zero) on
//! registers of unbounded size, with a debugger's breakpoints, steps and undo.

pub mod instruction;
pub mod machine;
pub mod memory;
pub mod parser;
pub mod program;
pub mod session;
pub mod text;
pub mod vecmap;
pub mod words;

pub use instruction::Instruction;
pub use machine::{Identifier, Line};
pub use program::Program;
