//! What holds of every scan.
use vstd::prelude::*;

use crate::chars::{is_alphabetic, is_digit, is_paren, is_white_space};
use crate::scanner::{
    in_run, is_unrecognized, lemma_run_end_bounds, lex, lex_from, run_end, Run,
};
use crate::token::{ScanError, TokenView};

verus! {

/// The run of kind `run` from `i` ends at `e` when everything in between
/// extends it and the character at `e`, if any, does not.
pub proof fn lemma_run_end_exact(s: Seq<char>, i: int, e: int, run: Run)
    requires
        0 <= i <= e <= s.len(),
        forall|k: int| i <= k < e ==> in_run(run, #[trigger] s[k]),
        e < s.len() ==> !in_run(run, s[e]),
    ensures
        run_end(s, i, run) == e,
    decreases e - i,
{
    if i < e {
        lemma_run_end_exact(s, i + 1, e, run);
    }
}

proof fn lemma_whitespace_from(s: Seq<char>, i: int)
    requires
        0 <= i <= s.len(),
        forall|j: int| 0 <= j < s.len() ==> is_white_space(#[trigger] s[j]),
    ensures
        lex_from(s, i) == Ok::<Seq<TokenView>, ScanError>(seq![]),
    decreases s.len() - i,
{
    if i < s.len() {
        assert(is_white_space(s[i]));
        lemma_whitespace_from(s, i + 1);
    }
}

/// Input made of whitespace alone scans to no tokens.
pub proof fn lemma_whitespace_only(s: Seq<char>)
    requires
        forall|j: int| 0 <= j < s.len() ==> is_white_space(#[trigger] s[j]),
    ensures
        lex(s) == Ok::<Seq<TokenView>, ScanError>(seq![]),
{
    lemma_whitespace_from(s, 0);
}

/// Input made of one or more digits scans to a single number with that text.
pub proof fn lemma_digits_only(s: Seq<char>)
    requires
        s.len() > 0,
        forall|j: int| 0 <= j < s.len() ==> is_digit(#[trigger] s[j]),
    ensures
        lex(s) == Ok::<Seq<TokenView>, ScanError>(seq![TokenView::Number(s)]),
{
    assert(is_digit(s[0]));
    assert(!is_paren(s[0]));
    assert(!is_white_space(s[0]));
    assert(lex_from(s, s.len() as int) == Ok::<Seq<TokenView>, ScanError>(seq![]));
    lemma_run_end_exact(s, 0, s.len() as int, Run::Digits);
    assert(s.subrange(0, s.len() as int) =~= s);
    assert(seq![TokenView::Number(s)] + seq![] =~= seq![TokenView::Number(s)]);
}

/// How many double quotes stand in `s` from index `lo` up to, not including, `hi`.
pub open spec fn quote_count(s: Seq<char>, lo: int, hi: int) -> nat
    decreases hi - lo,
{
    if lo >= hi {
        0
    } else {
        (if s[lo] == '"' {
            1nat
        } else {
            0nat
        }) + quote_count(s, lo + 1, hi)
    }
}

proof fn lemma_quote_count_skip(s: Seq<char>, i: int, e: int, k: int)
    requires
        i <= e <= k,
        forall|j: int| i <= j < e ==> #[trigger] s[j] != '"',
    ensures
        quote_count(s, i, k) == quote_count(s, e, k),
    decreases e - i,
{
    if i < e {
        lemma_quote_count_skip(s, i + 1, e, k);
    }
}

proof fn lemma_unrecognized_from(s: Seq<char>, i: int, k: int)
    requires
        0 <= i <= k < s.len(),
        is_unrecognized(s[k]),
        quote_count(s, i, k) % 2 == 0,
    ensures
        lex_from(s, i) matches Err(ScanError::UnrecognizedCharacter { .. }),
    decreases k - i,
{
    if i < k {
        let c = s[i];
        if is_paren(c) || is_white_space(c) {
            lemma_unrecognized_from(s, i + 1, k);
        } else if is_digit(c) || (c != '"' && is_alphabetic(c)) {
            let run = if is_digit(c) {
                Run::Digits
            } else {
                Run::Letters
            };
            lemma_run_end_bounds(s, i, run);
            let e = run_end(s, i, run);
            if e > k {
                assert(in_run(run, s[k]));
            }
            lemma_quote_count_skip(s, i, e, k);
            lemma_unrecognized_from(s, e, k);
        } else if c == '"' {
            lemma_run_end_bounds(s, i + 1, Run::Quoted);
            let q = run_end(s, i + 1, Run::Quoted);
            if q >= k {
                lemma_quote_count_skip(s, i + 1, k, k);
            } else {
                lemma_quote_count_skip(s, i + 1, q, k);
                lemma_unrecognized_from(s, q + 1, k);
            }
        }
    }
}

/// A character that starts no token makes the scan fail as unrecognized,
/// wherever it stands outside a string literal: that is, wherever an even
/// number of double quotes comes before it.
pub proof fn lemma_unrecognized_fails(s: Seq<char>, k: int)
    requires
        0 <= k < s.len(),
        is_unrecognized(s[k]),
        quote_count(s, 0, k) % 2 == 0,
    ensures
        lex(s) matches Err(ScanError::UnrecognizedCharacter { .. }),
{
    lemma_unrecognized_from(s, 0, k);
}

/// The text that a token is scanned from: the character of a parenthesis, the
/// digits of a number, the letters of a name, a string's body between quotes.
pub open spec fn literal(t: TokenView) -> Seq<char> {
    match t {
        TokenView::Paren(c) => seq![c],
        TokenView::Number(d) => d,
        TokenView::String(x) => seq!['"'] + x + seq!['"'],
        TokenView::Name(n) => n,
    }
}

/// The literals of `ts`, in order, with one space between each two.
pub open spec fn source_text(ts: Seq<TokenView>) -> Seq<char>
    decreases ts.len(),
{
    if ts.len() == 0 {
        seq![]
    } else if ts.len() == 1 {
        literal(ts[0])
    } else {
        literal(ts[0]) + seq![' '] + source_text(ts.drop_first())
    }
}

/// A character that the scanner reads as the start of a name.
pub open spec fn starts_name(c: char) -> bool {
    !is_paren(c) && !is_white_space(c) && !is_digit(c) && c != '"' && is_alphabetic(c)
}

/// What every token that a scan yields satisfies.
pub open spec fn well_formed(t: TokenView) -> bool {
    match t {
        TokenView::Paren(c) => is_paren(c),
        TokenView::Number(d) => d.len() > 0 && forall|j: int|
            0 <= j < d.len() ==> is_digit(#[trigger] d[j]),
        TokenView::String(x) => forall|j: int| 0 <= j < x.len() ==> #[trigger] x[j] != '"',
        TokenView::Name(n) => n.len() > 0 && starts_name(n[0]) && forall|j: int|
            0 <= j < n.len() ==> is_alphabetic(#[trigger] n[j]),
    }
}

proof fn lemma_prepend_well_formed(t: TokenView, rest: Seq<TokenView>)
    requires
        well_formed(t),
        forall|j: int| 0 <= j < rest.len() ==> well_formed(#[trigger] rest[j]),
    ensures
        forall|j: int| 0 <= j < (seq![t] + rest).len() ==> well_formed(#[trigger] (seq![t] + rest)[j]),
{
    assert forall|j: int| 0 <= j < (seq![t] + rest).len() implies well_formed(
        #[trigger] (seq![t] + rest)[j],
    ) by {
        if j > 0 {
            assert((seq![t] + rest)[j] == rest[j - 1]);
        }
    }
}

/// Every token of a successful scan is well formed.
pub proof fn lemma_scanned_well_formed(s: Seq<char>, i: int)
    requires
        0 <= i,
        lex_from(s, i) is Ok,
    ensures
        forall|j: int|
            0 <= j < lex_from(s, i)->Ok_0.len() ==> well_formed(#[trigger] lex_from(s, i)->Ok_0[j]),
    decreases s.len() - i,
{
    if i < s.len() {
        let c = s[i];
        if is_paren(c) {
            lemma_scanned_well_formed(s, i + 1);
            lemma_prepend_well_formed(TokenView::Paren(c), lex_from(s, i + 1)->Ok_0);
        } else if is_white_space(c) {
            lemma_scanned_well_formed(s, i + 1);
        } else if is_digit(c) {
            lemma_run_end_bounds(s, i, Run::Digits);
            let e = run_end(s, i, Run::Digits);
            let t = TokenView::Number(s.subrange(i, e));
            assert(well_formed(t));
            lemma_scanned_well_formed(s, e);
            lemma_prepend_well_formed(t, lex_from(s, e)->Ok_0);
        } else if c == '"' {
            lemma_run_end_bounds(s, i + 1, Run::Quoted);
            let e = run_end(s, i + 1, Run::Quoted);
            let t = TokenView::String(s.subrange(i + 1, e));
            assert(well_formed(t));
            lemma_scanned_well_formed(s, e + 1);
            lemma_prepend_well_formed(t, lex_from(s, e + 1)->Ok_0);
        } else {
            lemma_run_end_bounds(s, i, Run::Letters);
            let e = run_end(s, i, Run::Letters);
            let t = TokenView::Name(s.subrange(i, e));
            assert(well_formed(t));
            lemma_scanned_well_formed(s, e);
            lemma_prepend_well_formed(t, lex_from(s, e)->Ok_0);
        }
    }
}

proof fn lemma_rescan_from(t: Seq<char>, i: int, ts: Seq<TokenView>)
    requires
        0 <= i <= t.len(),
        t.subrange(i, t.len() as int) == source_text(ts),
        forall|j: int| 0 <= j < ts.len() ==> well_formed(#[trigger] ts[j]),
    ensures
        lex_from(t, i) == Ok::<Seq<TokenView>, ScanError>(ts),
    decreases ts.len(),
{
    let len = t.len() as int;
    if ts.len() == 0 {
        assert(t.subrange(i, len).len() == 0);
        assert(ts =~= seq![]);
        return;
    }
    let tok = ts[0];
    let lit = literal(tok);
    let n = lit.len() as int;
    let rest = ts.drop_first();
    let tail = if ts.len() == 1 {
        seq![]
    } else {
        seq![' '] + source_text(rest)
    };
    assert(source_text(ts) =~= lit + tail);
    assert forall|j: int| 0 <= j < n implies t[i + j] == #[trigger] lit[j] by {
        assert(t.subrange(i, len)[j] == (lit + tail)[j]);
    }
    let after = i + n;
    assert(after <= len) by {
        assert(t.subrange(i, len).len() == (lit + tail).len());
    }
    if ts.len() == 1 {
        assert(after == len) by {
            assert(t.subrange(i, len).len() == (lit + tail).len());
        }
        assert(rest =~= seq![]);
    } else {
        assert(t[after] == ' ') by {
            assert(t.subrange(i, len)[n] == (lit + tail)[n]);
        }
        assert(t.subrange(after + 1, len) =~= source_text(rest)) by {
            assert forall|j: int| 0 <= j < len - (after + 1) implies t.subrange(after + 1, len)[j]
                == source_text(rest)[j] by {
                assert(t.subrange(i, len)[n + 1 + j] == (lit + tail)[n + 1 + j]);
            }
            assert(t.subrange(i, len).len() == (lit + tail).len());
        }
        assert forall|j: int| 0 <= j < rest.len() implies well_formed(#[trigger] rest[j]) by {
            assert(rest[j] == ts[j + 1]);
        }
        lemma_rescan_from(t, after + 1, rest);
        assert(is_white_space(' '));
        assert(lex_from(t, after) == lex_from(t, after + 1));
    }
    assert(after < len ==> t[after] == ' ');
    assert(well_formed(tok));
    match tok {
        TokenView::Paren(c) => {
            assert(t[i] == c) by {
                assert(lit[0] == c);
            }
        },
        TokenView::Number(d) => {
            assert forall|k: int| i <= k < after implies t[k] == d[k - i] by {
                assert(t[i + (k - i)] == lit[k - i]);
            }
            assert(t[i] == d[0]);
            assert forall|k: int| i <= k < after implies in_run(
                Run::Digits,
                #[trigger] t[k],
            ) by {
                assert(is_digit(d[k - i]));
            }
            lemma_run_end_exact(t, i, after, Run::Digits);
            assert(t.subrange(i, after) =~= d);
        },
        TokenView::String(x) => {
            assert(t[i] == '"') by {
                assert(lit[0] == '"');
            }
            assert(t[after - 1] == '"') by {
                assert(lit[n - 1] == '"');
            }
            assert forall|k: int| i + 1 <= k < after - 1 implies in_run(
                Run::Quoted,
                #[trigger] t[k],
            ) by {
                assert(t[i + (k - i)] == lit[k - i]);
                assert(lit[k - i] == x[k - i - 1]);
            }
            lemma_run_end_exact(t, i + 1, after - 1, Run::Quoted);
            assert forall|k: int| 0 <= k < x.len() implies t.subrange(i + 1, after - 1)[k] == x[k] by {
                assert(t[i + (k + 1)] == lit[k + 1]);
            }
            assert(t.subrange(i + 1, after - 1) =~= x);
        },
        TokenView::Name(nm) => {
            assert forall|k: int| i <= k < after implies t[k] == nm[k - i] by {
                assert(t[i + (k - i)] == lit[k - i]);
            }
            assert(t[i] == nm[0]);
            assert forall|k: int| i <= k < after implies in_run(
                Run::Letters,
                #[trigger] t[k],
            ) by {
                assert(is_alphabetic(nm[k - i]));
            }
            lemma_run_end_exact(t, i, after, Run::Letters);
            assert(t.subrange(i, after) =~= nm);
        },
    }
    assert(seq![tok] + rest =~= ts);
}

/// Rescanning the literals of a successful scan's tokens, joined by single
/// spaces, yields the same tokens.
pub proof fn lemma_rescan_round_trip(s: Seq<char>)
    requires
        lex(s) is Ok,
    ensures
        lex(source_text(lex(s)->Ok_0)) == lex(s),
{
    let ts = lex(s)->Ok_0;
    let t = source_text(ts);
    lemma_scanned_well_formed(s, 0);
    assert(t.subrange(0, t.len() as int) =~= t);
    lemma_rescan_from(t, 0, ts);
}

} // verus!
