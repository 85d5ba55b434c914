//! Parses flat text holding nested round, curly and square brackets into a
//! tree of text runs and bracket groups.
pub mod ast;
pub mod matcher;
pub mod parser;

pub use ast::AST;
pub use matcher::{search_end_bracket, Bracket};
pub use parser::{parse, ParseError};
