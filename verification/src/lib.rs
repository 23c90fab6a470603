//! Notebook assembly and execution engine: keeps the cells of a code
//! notebook, rebuilds one buildable program from them on every request and
//! isolates the output of the cell that was run.

pub mod assemble;
pub mod handlers;
pub mod output;
pub mod program;
pub mod store;
pub mod text;

pub use crate::program::{Cell, Program};
