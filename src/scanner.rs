//! The scanner: a spec of what a scan yields, and the executable scan.
use vstd::prelude::*;
use vstd::std_specs::iter::IteratorSpec;

use crate::chars::{
    is_alphabetic, is_alphabetic_char, is_digit, is_digit_char, is_paren, is_white_space,
    is_white_space_char, push_char,
};
use crate::token::{tokens_view, ScanError, Token, TokenView};

verus! {

/// The kinds of character run that the scanner accumulates.
#[derive(Clone, Copy)]
pub enum Run {
    /// ASCII digits.
    Digits,
    /// Alphabetic characters.
    Letters,
    /// Anything but a double quote: the body of a string literal.
    Quoted,
}

/// Whether `c` extends a run of kind `run`.
pub open spec fn in_run(run: Run, c: char) -> bool {
    match run {
        Run::Digits => is_digit(c),
        Run::Letters => is_alphabetic(c),
        Run::Quoted => c != '"',
    }
}

/// The end of the longest run of kind `run` that starts at `i`: the first index
/// at or after `i` whose character does not extend it, or the length of `s`.
pub open spec fn run_end(s: Seq<char>, i: int, run: Run) -> int
    decreases s.len() - i,
{
    if 0 <= i < s.len() && in_run(run, s[i]) {
        run_end(s, i + 1, run)
    } else {
        i
    }
}

/// A character that starts no token.
pub open spec fn is_unrecognized(c: char) -> bool {
    !is_paren(c) && !is_white_space(c) && !is_digit(c) && c != '"' && !is_alphabetic(c)
}

/// `t` in front of the tokens of `rest`, or the error of `rest`.
pub open spec fn prepend(t: TokenView, rest: Result<Seq<TokenView>, ScanError>) -> Result<
    Seq<TokenView>,
    ScanError,
> {
    match rest {
        Ok(ts) => Ok(seq![t] + ts),
        Err(e) => Err(e),
    }
}

/// The tokens that scanning `s` from index `i` yields, or the first error met.
pub open spec fn lex_from(s: Seq<char>, i: int) -> Result<Seq<TokenView>, ScanError>
    decreases s.len() - i,
    via lex_from_decreases
{
    if i < 0 || i >= s.len() {
        Ok(seq![])
    } else {
        let c = s[i];
        if is_paren(c) {
            prepend(TokenView::Paren(c), lex_from(s, i + 1))
        } else if is_white_space(c) {
            lex_from(s, i + 1)
        } else if is_digit(c) {
            let e = run_end(s, i, Run::Digits);
            prepend(TokenView::Number(s.subrange(i, e)), lex_from(s, e))
        } else if c == '"' {
            let e = run_end(s, i + 1, Run::Quoted);
            if e < s.len() {
                prepend(TokenView::String(s.subrange(i + 1, e)), lex_from(s, e + 1))
            } else {
                Err(ScanError::UnterminatedString { pos: i as usize })
            }
        } else if is_alphabetic(c) {
            let e = run_end(s, i, Run::Letters);
            prepend(TokenView::Name(s.subrange(i, e)), lex_from(s, e))
        } else {
            Err(ScanError::UnrecognizedCharacter { ch: c, pos: i as usize })
        }
    }
}

#[via_fn]
proof fn lex_from_decreases(s: Seq<char>, i: int) {
    if 0 <= i < s.len() {
        lemma_run_end_bounds(s, i, Run::Digits);
        lemma_run_end_bounds(s, i + 1, Run::Quoted);
        lemma_run_end_bounds(s, i, Run::Letters);
    }
}

/// The tokens of `s`, or the first error met while scanning it.
pub open spec fn lex(s: Seq<char>) -> Result<Seq<TokenView>, ScanError> {
    lex_from(s, 0)
}

/// A run ends within the sequence, and past its first character when that
/// character extends it.
pub proof fn lemma_run_end_bounds(s: Seq<char>, i: int, run: Run)
    requires
        0 <= i <= s.len(),
    ensures
        i <= run_end(s, i, run) <= s.len(),
        i < s.len() && in_run(run, s[i]) ==> i < run_end(s, i, run),
        forall|k: int| i <= k < run_end(s, i, run) ==> in_run(run, #[trigger] s[k]),
        run_end(s, i, run) < s.len() ==> !in_run(run, s[run_end(s, i, run)]),
    decreases s.len() - i,
{
    if i < s.len() && in_run(run, s[i]) {
        lemma_run_end_bounds(s, i + 1, run);
    }
}


/// Whether `c` extends a run of kind `run`.
fn extends_run(run: Run, c: char) -> (r: bool)
    ensures
        r == in_run(run, c),
{
    match run {
        Run::Digits => is_digit_char(c),
        Run::Letters => is_alphabetic_char(c),
        Run::Quoted => c != '"',
    }
}

/// Accumulates the longest run of kind `run` that starts at `start`; returns
/// its characters and the index just past it.
fn take_run(chars: &Vec<char>, start: usize, run: Run) -> (res: (String, usize))
    requires
        start <= chars.len(),
    ensures
        res.1 == run_end(chars@, start as int, run),
        res.0@ == chars@.subrange(start as int, res.1 as int),
{
    let mut buf = String::new();
    let mut pos: usize = start;
    while pos < chars.len() && extends_run(run, chars[pos])
        invariant
            start <= pos <= chars.len(),
            buf@ == chars@.subrange(start as int, pos as int),
            run_end(chars@, start as int, run) == run_end(chars@, pos as int, run),
        decreases chars.len() - pos,
    {
        push_char(&mut buf, chars[pos]);
        pos = pos + 1;
        assert(buf@ =~= chars@.subrange(start as int, pos as int));
    }
    (buf, pos)
}

/// Scans `chars` from left to right into tokens.
///
/// Parentheses become `Paren`, whitespace separates, a run of digits becomes a
/// `Number`, the characters between two quotes a `String`, and a run of
/// alphabetic characters a `Name`. The scan stops at the first character that
/// starts none of these, and at a quote that is never closed.
pub fn scan(chars: &Vec<char>) -> (r: Result<Vec<Token>, ScanError>)
    ensures
        match r {
            Ok(ts) => lex(chars@) == Ok::<Seq<TokenView>, ScanError>(tokens_view(ts@)),
            Err(e) => lex(chars@) == Err::<Seq<TokenView>, ScanError>(e),
        },
{
    let mut tokens: Vec<Token> = Vec::new();
    let mut pos: usize = 0;
    while pos < chars.len()
        invariant
            pos <= chars.len(),
            lex(chars@) == prepend_all(tokens_view(tokens@), lex_from(chars@, pos as int)),
        decreases chars.len() - pos,
    {
        let c = chars[pos];
        let ghost before = tokens_view(tokens@);
        if c == '(' || c == ')' {
            tokens.push(Token::Paren(c));
            assert(tokens_view(tokens@) =~= before.push(TokenView::Paren(c)));
            proof {
                lemma_prepend_all_push(before, TokenView::Paren(c), lex_from(chars@, pos + 1));
            }
            pos = pos + 1;
        } else if is_white_space_char(c) {
            pos = pos + 1;
        } else if is_digit_char(c) {
            let (text, end) = take_run(chars, pos, Run::Digits);
            proof {
                lemma_run_end_bounds(chars@, pos as int, Run::Digits);
                lemma_prepend_all_push(before, TokenView::Number(text@), lex_from(chars@, end as int));
            }
            let ghost t = TokenView::Number(text@);
            tokens.push(Token::Number(text));
            assert(tokens_view(tokens@) =~= before.push(t));
            pos = end;
        } else if c == '"' {
            let (text, end) = take_run(chars, pos + 1, Run::Quoted);
            if end >= chars.len() {
                return Err(ScanError::UnterminatedString { pos });
            }
            proof {
                lemma_run_end_bounds(chars@, pos + 1, Run::Quoted);
                lemma_prepend_all_push(before, TokenView::String(text@), lex_from(chars@, end + 1));
            }
            let ghost t = TokenView::String(text@);
            tokens.push(Token::String(text));
            assert(tokens_view(tokens@) =~= before.push(t));
            pos = end + 1;
        } else if is_alphabetic_char(c) {
            let (text, end) = take_run(chars, pos, Run::Letters);
            proof {
                lemma_run_end_bounds(chars@, pos as int, Run::Letters);
                lemma_prepend_all_push(before, TokenView::Name(text@), lex_from(chars@, end as int));
            }
            let ghost t = TokenView::Name(text@);
            tokens.push(Token::Name(text));
            assert(tokens_view(tokens@) =~= before.push(t));
            pos = end;
        } else {
            return Err(ScanError::UnrecognizedCharacter { ch: c, pos });
        }
    }
    assert(lex_from(chars@, pos as int) == Ok::<Seq<TokenView>, ScanError>(seq![]));
    assert(tokens_view(tokens@) + seq![] =~= tokens_view(tokens@));
    Ok(tokens)
}

/// `ts` in front of the tokens of `rest`, or the error of `rest`.
pub open spec fn prepend_all(ts: Seq<TokenView>, rest: Result<Seq<TokenView>, ScanError>) -> Result<
    Seq<TokenView>,
    ScanError,
> {
    match rest {
        Ok(more) => Ok(ts + more),
        Err(e) => Err(e),
    }
}

proof fn lemma_prepend_all_push(
    ts: Seq<TokenView>,
    t: TokenView,
    rest: Result<Seq<TokenView>, ScanError>,
)
    ensures
        prepend_all(ts, prepend(t, rest)) == prepend_all(ts.push(t), rest),
{
    if let Ok(more) = rest {
        assert(ts + (seq![t] + more) =~= ts.push(t) + more);
    }
}

/// The characters of `input`, in order.
pub fn chars_of(input: &str) -> (r: Vec<char>)
    ensures
        r@ == input@,
{
    broadcast use vstd::string::group_string_axioms;

    let mut it = input.chars();
    let mut out: Vec<char> = Vec::new();
    loop
        invariant
            it.obeys_prophetic_iter_laws(),
            it.decrease() is Some,
            out@ + it.remaining() == input@,
        ensures
            out@ == input@,
        decreases it.decrease()->0,
    {
        match it.next() {
            Some(c) => {
                let ghost rest = it.remaining();
                out.push(c);
                assert(out@ + rest =~= input@);
            },
            None => {
                assert(out@ + it.remaining() =~= out@);
                break;
            },
        }
    }
    out
}

/// Scans the text of `input` into tokens; see [`scan`].
pub fn tokenizer(input: &String) -> (r: Result<Vec<Token>, ScanError>)
    ensures
        match r {
            Ok(ts) => lex(input@) == Ok::<Seq<TokenView>, ScanError>(tokens_view(ts@)),
            Err(e) => lex(input@) == Err::<Seq<TokenView>, ScanError>(e),
        },
{
    let chars = chars_of(input.as_str());
    scan(&chars)
}

} // verus!
