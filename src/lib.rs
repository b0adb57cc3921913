//! Lexical analysis for a small parenthesised-expression language.
//!
//! The scanner turns a character sequence into parentheses, numbers, quoted
//! strings and names, and reports the first character it cannot classify or
//! a string literal that is never closed.
use vstd::prelude::*;

pub mod chars;
pub mod laws;
pub mod scanner;
pub mod token;

pub use scanner::{chars_of, scan, tokenizer};
pub use token::{ScanError, Token};

verus! {

} // verus!
