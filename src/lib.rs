//! Incremental detection of URLs in text that is read backwards, one character at a time.
//!
//! Feed the characters of a text to [`Parser::advance`] from the last one to
//! the first. When a URL is complete, the parser reports its length.
use vstd::prelude::*;

pub mod chars;
pub mod laws;
pub mod parser;
pub mod scheme;

pub use chars::{is_illegal, SurroundCharacter};
pub use parser::{Parser, ParserState, ParserView, State};
pub use scheme::{scheme, SCHEME_COUNT};
