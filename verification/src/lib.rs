//! Parser combinators for text.
//!
//! A parser takes an [`Input`], the rest of a text with the byte offset at
//! which it begins, and returns an output with the input that it leaves, or
//! an [`Error`]: a stack of contexts, the innermost cause first.  Parsers
//! are values of types that implement [`Parse`]; functions from an input to
//! a result are parsers too.  The module [`string`] holds the parsers of
//! text, [`number`] those of numbers, and [`combinator`] what builds
//! parsers of parsers.
//!
//! Every parser comes with a relation between inputs and outcomes, which
//! its `parse` is proved to respect, and of which what it leaves is proved
//! to be a tail of what it was given.

pub mod adaptor;
pub mod combinator;
pub mod context;
pub mod error;
pub mod input;
pub mod number;
pub mod parse;
pub mod parser;
pub mod predicate;
pub mod render;
pub mod span;
pub mod str;
pub mod string;

pub use context::Context;
pub use error::Error;
pub use input::Input;
pub use parse::{PResult, Parse};
pub use parser::Parser;
pub use span::Span;
