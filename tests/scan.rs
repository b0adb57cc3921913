use tiny_lexer::{chars_of, scan, tokenizer, ScanError, Token};

fn lex(s: &str) -> Result<Vec<Token>, ScanError> {
    tokenizer(&String::from(s))
}

fn paren(c: char) -> Token {
    Token::Paren(c)
}

fn number(s: &str) -> Token {
    Token::Number(String::from(s))
}

fn string(s: &str) -> Token {
    Token::String(String::from(s))
}

fn name(s: &str) -> Token {
    Token::Name(String::from(s))
}

/// The literals of `ts` joined by single spaces.
fn source_text(ts: &[Token]) -> String {
    let parts: Vec<String> = ts
        .iter()
        .map(|t| match t {
            Token::Paren(c) => c.to_string(),
            Token::Number(d) => d.clone(),
            Token::String(x) => format!("\"{}\"", x),
            Token::Name(n) => n.clone(),
        })
        .collect();
    parts.join(" ")
}

#[test]
fn whitespace_only_is_empty() {
    assert_eq!(lex(" \t\n\r  "), Ok(vec![]));
    assert_eq!(lex("\u{3000}\u{a0}"), Ok(vec![]));
}

#[test]
fn single_digit_run_is_one_number() {
    assert_eq!(lex("42"), Ok(vec![number("42")]));
    assert_eq!(lex("7"), Ok(vec![number("7")]));
    assert_eq!(lex("0123456789"), Ok(vec![number("0123456789")]));
}

#[test]
fn two_parens() {
    assert_eq!(lex("()"), Ok(vec![paren('('), paren(')')]));
}

#[test]
fn nested_call() {
    assert_eq!(
        lex("(add 2 (subtract 4 2))"),
        Ok(vec![
            paren('('),
            name("add"),
            number("2"),
            paren('('),
            name("subtract"),
            number("4"),
            number("2"),
            paren(')'),
            paren(')'),
        ])
    );
}

#[test]
fn string_literals() {
    assert_eq!(
        lex("(concat \"foo\" \"bar\")"),
        Ok(vec![paren('('), name("concat"), string("foo"), string("bar"), paren(')')])
    );
}

#[test]
fn empty_input_is_empty() {
    assert_eq!(lex(""), Ok(vec![]));
    assert_eq!(scan(&vec![]), Ok(vec![]));
}

#[test]
fn number_then_paren() {
    assert_eq!(lex("12)"), Ok(vec![number("12"), paren(')')]));
}

#[test]
fn number_then_name() {
    assert_eq!(lex("1a"), Ok(vec![number("1"), name("a")]));
}

#[test]
fn whitespace_separates_numbers() {
    assert_eq!(lex("12 34"), Ok(vec![number("12"), number("34")]));
}

#[test]
fn unrecognized_character() {
    assert_eq!(lex("$"), Err(ScanError::UnrecognizedCharacter { ch: '$', pos: 0 }));
    assert_eq!(
        lex("(add 1 + 2)"),
        Err(ScanError::UnrecognizedCharacter { ch: '+', pos: 7 })
    );
    assert_eq!(lex("-5"), Err(ScanError::UnrecognizedCharacter { ch: '-', pos: 0 }));
    assert_eq!(lex("1.5"), Err(ScanError::UnrecognizedCharacter { ch: '.', pos: 1 }));
}

#[test]
fn first_unrecognized_character_wins() {
    assert_eq!(lex("a # $"), Err(ScanError::UnrecognizedCharacter { ch: '#', pos: 2 }));
}

#[test]
fn unrecognized_character_after_closed_string() {
    assert_eq!(
        lex("\"a\" $"),
        Err(ScanError::UnrecognizedCharacter { ch: '$', pos: 4 })
    );
}

#[test]
fn symbol_inside_string_is_kept() {
    assert_eq!(lex("\"$ +\""), Ok(vec![string("$ +")]));
}

#[test]
fn unterminated_string() {
    assert_eq!(lex("\"open"), Err(ScanError::UnterminatedString { pos: 0 }));
    assert_eq!(lex("(a \""), Err(ScanError::UnterminatedString { pos: 3 }));
}

#[test]
fn empty_string_literal() {
    assert_eq!(lex("\"\""), Ok(vec![string("")]));
}

#[test]
fn string_followed_directly_by_name() {
    assert_eq!(lex("\"ab\"cd"), Ok(vec![string("ab"), name("cd")]));
    assert_eq!(lex("\"ab\")"), Ok(vec![string("ab"), paren(')')]));
}

#[test]
fn runs_end_at_end_of_input() {
    assert_eq!(lex("(f abc"), Ok(vec![paren('('), name("f"), name("abc")]));
    assert_eq!(lex("(f 99"), Ok(vec![paren('('), name("f"), number("99")]));
}

#[test]
fn name_then_number() {
    assert_eq!(lex("ab12"), Ok(vec![name("ab"), number("12")]));
}

#[test]
fn non_ascii_letters_make_names() {
    assert_eq!(lex("(café ß)"), Ok(vec![paren('('), name("café"), name("ß"), paren(')')]));
    assert_eq!(lex("京"), Ok(vec![name("京")]));
}

#[test]
fn non_ascii_symbol_is_unrecognized() {
    assert_eq!(lex("a💝"), Err(ScanError::UnrecognizedCharacter { ch: '💝', pos: 1 }));
}

#[test]
fn positions_count_characters() {
    assert_eq!(lex("éé $"), Err(ScanError::UnrecognizedCharacter { ch: '$', pos: 3 }));
}

#[test]
fn tab_and_newline_separate() {
    assert_eq!(lex("a\tb\nc"), Ok(vec![name("a"), name("b"), name("c")]));
}

#[test]
fn rescanning_source_text_gives_same_tokens() {
    for input in [
        "(add 2 (subtract 4 2))",
        "(concat \"foo\" \"bar\")",
        "12)",
        "1a",
        "\"ab\"cd",
        "(\"\"x\"y z\"(9",
        "",
        "  ",
    ] {
        let tokens = lex(input).unwrap();
        let text = source_text(&tokens);
        assert_eq!(lex(&text), Ok(tokens));
    }
    assert_eq!(source_text(&lex("(a\"b\"1)").unwrap()), "( a \"b\" 1 )");
}

#[test]
fn chars_of_keeps_every_character() {
    assert_eq!(chars_of("aé京"), vec!['a', 'é', '京']);
    assert_eq!(chars_of(""), Vec::<char>::new());
}

#[test]
fn scan_on_characters() {
    assert_eq!(scan(&vec!['(', 'x', ')']), Ok(vec![paren('('), name("x"), paren(')')]));
}
