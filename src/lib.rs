//! Parsing and step-wise execution of programs in a minimal tape language.
//!
//! [`parse`] turns source text into a program tree, or reports unbalanced
//! loop markers. A [`Machine`] runs a program against a [`Context`] one step
//! at a time, handing input and output to its caller.
pub mod ast;
pub mod context;
pub mod input;
pub mod machine;
pub mod parser;

pub use ast::{Ast, Command, Program};
pub use context::Context;
pub use input::byte_of_line;
pub use machine::{Event, Machine};
pub use parser::{parse, parse_char, ParseError, ParseErrorKind, Token};
