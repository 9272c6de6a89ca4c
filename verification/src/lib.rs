//! A TOML-subset scanner and parser.
//!
//! The scanner turns a UTF-8 document into a stream of position-annotated
//! tokens; the parser builds an insertion-ordered tree of [`value::Value`]
//! nodes from that stream.  The accepted language is a pragmatic subset of
//! TOML extended with trailing commas everywhere and multi-line inline
//! tables.  A small schema layer projects a parsed tree onto the project
//! description the surrounding build tool understands.

pub mod chars;
pub mod config;
pub mod date;
pub mod error;
pub mod num;
pub mod parse;
pub mod project;
pub mod scan;
pub mod token;
pub mod unicode;
pub mod value;

pub use error::Error;
pub use parse::parse;
pub use scan::scan;
pub use scan::Scanner;
pub use token::{Pos, QuoteType, ScanError, Token, TokenType};
pub use value::Value;
