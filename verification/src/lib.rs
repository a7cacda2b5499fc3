//! A parser and tree-walking interpreter for an eight-command tape language.
//!
//! [`parse`] turns source bytes into a tree of [`Op`]s; an [`Interpreter`]
//! runs such a tree against a tape of 30000 signed 8-bit cells.

pub mod brackets;
pub mod console;
pub mod interpreter;
pub mod machine;
pub mod ops;
pub mod parser;
pub mod streams;

pub use interpreter::Interpreter;
pub use machine::RuntimeError;
pub use ops::Op;
pub use parser::{parse, ParseError};
pub use streams::{ByteSink, ByteSource};
