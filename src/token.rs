//! Tokens, scan errors, and their mathematical views.
use vstd::prelude::*;

verus! {

/// One classified lexical unit.
#[derive(Debug, Clone, PartialEq, Eq)]
pub enum Token {
    /// `(` or `)`.
    Paren(char),
    /// A non-empty run of ASCII digits.
    Number(String),
    /// The characters between two double quotes.
    String(String),
    /// A non-empty run of alphabetic characters.
    Name(String),
}

/// A token with its text as a sequence of characters.
pub enum TokenView {
    Paren(char),
    Number(Seq<char>),
    String(Seq<char>),
    Name(Seq<char>),
}

impl View for Token {
    type V = TokenView;

    open spec fn view(&self) -> TokenView {
        match self {
            Token::Paren(c) => TokenView::Paren(*c),
            Token::Number(s) => TokenView::Number(s@),
            Token::String(s) => TokenView::String(s@),
            Token::Name(s) => TokenView::Name(s@),
        }
    }
}

/// The views of a sequence of tokens.
pub open spec fn tokens_view(ts: Seq<Token>) -> Seq<TokenView> {
    ts.map_values(|t: Token| t@)
}

/// Why a scan failed.
#[derive(Debug, Clone, Copy, PartialEq, Eq, Structural)]
pub enum ScanError {
    /// `ch`, at index `pos`, starts no token.
    UnrecognizedCharacter { ch: char, pos: usize },
    /// The string literal opened by the quote at index `pos` is never closed.
    UnterminatedString { pos: usize },
}

} // verus!
