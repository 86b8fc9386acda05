//! A reader and writer for a relaxed, HJSON-like notation: unquoted keys,
//! optional root braces, comments, and numbers that may carry a unit.
//!
//! Text goes through the lexer into tokens, through the parser into a
//! `Shaun` value, and back to text through a `Visitor` such as
//! `PrettyPrinter`.

pub mod lexer;
pub mod parser;
pub mod value;
pub mod visitor;
pub mod round_trip;

pub use lexer::ParseError;
pub use parser::parse_str;
pub use parser::parse_string;
pub use value::Shaun;
pub use value::ShaunError;
pub use value::ShaunMap;
pub use visitor::PrettyPrinter;
pub use visitor::Visitor;
