//! Front end of a small, whitespace-sensitive, expression-oriented language:
//! a scanner, an indentation normalizer and a recursive-descent parser, each
//! stated against a mathematical model of its input and output.
//!
//! Source text becomes raw tokens (`scanner`), raw tokens become structural
//! tokens (`normalizer`), structural tokens become the tree (`parser`, after
//! the productions in `grammar`; `shape` holds what is true of every tree).
//! `parse` runs the three in a row and returns the tree, or the first error
//! in the order of the text. A caller who wants tokens one at a time has
//! `scanner::next_lexeme` and `Normalizer::resolve`, the steps of the first
//! two stages.

pub mod ast;
pub mod error;
pub mod grammar;
pub mod integer;
pub mod normalizer;
pub mod parser;
pub mod scanner;
pub mod shape;
pub mod token;

pub use crate::ast::{Expression, OpSymbol, Pattern, Statement, Tag, Type};
pub use crate::error::{ErrorKind, Expected, Found, ParseError};
pub use crate::integer::Integer;
pub use crate::normalizer::{normalize, normalize_prefix, Layout, Normalizer};
pub use crate::parser::{parse, parse_tokens};
pub use crate::scanner::scan;
pub use crate::token::{Lexeme, Token};
