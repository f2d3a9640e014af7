use json_lexer::input_reader::StringReader;
use json_lexer::lexer::{ExpectedKind, Error, Lexer, LiteralKind, Repr, Token, TokenKind};

const NULL: TokenKind = TokenKind::Literal { kind: LiteralKind::Null };
const BOOLEAN: TokenKind = TokenKind::Literal { kind: LiteralKind::Boolean };
const NUMBER: TokenKind = TokenKind::Literal { kind: LiteralKind::Number };

fn lexer(text: &str) -> Lexer<StringReader> {
    Lexer::new(StringReader::new(text)).unwrap()
}

fn pairs(tokens: &[Token]) -> Vec<(TokenKind, String)> {
    tokens.iter().map(|t| (t.kind(), t.raw().to_string())).collect()
}

fn lex_all(text: &str) -> Vec<(TokenKind, String)> {
    pairs(&lexer(text).into_iter().collect())
}

fn pair(kind: TokenKind, raw: &str) -> (TokenKind, String) {
    (kind, raw.to_string())
}

fn first_error(text: &str) -> Error {
    let mut lexer = match Lexer::new(StringReader::new(text)) {
        Ok(lexer) => lexer,
        Err(e) => return e,
    };
    loop {
        assert!(lexer.peek().is_some(), "no error in {:?}", text);
        if let Err(e) = lexer.consume() {
            return e;
        }
    }
}

fn expects_digit(e: &Error) -> bool {
    matches!(e.repr, Repr::Expected(ExpectedKind::Digit))
}

fn expects_keyword(e: &Error, keyword: &str) -> bool {
    matches!(e.repr, Repr::Expected(ExpectedKind::Keyword(k)) if k == keyword)
}

#[test]
fn punctuation_alone_is_one_token() {
    let cases = [
        (",", TokenKind::Comma),
        ("{", TokenKind::OpenBrace),
        ("}", TokenKind::CloseBrace),
        ("[", TokenKind::OpenBracket),
        ("]", TokenKind::CloseBracket),
        (":", TokenKind::Colon),
    ];
    for (text, kind) in cases {
        let mut lexer = lexer(text);
        let token = lexer.peek().unwrap();
        assert_eq!(token.kind(), kind);
        assert_eq!(token.raw(), text);
        lexer.consume().unwrap();
        assert!(lexer.peek().is_none());
    }
}

#[test]
fn whitespace_characters_are_single_tokens() {
    for text in [" ", "\n", "\r", "\t"] {
        assert_eq!(lex_all(text), vec![pair(TokenKind::Whitespace, text)]);
    }
}

#[test]
fn two_spaces_are_two_tokens() {
    assert_eq!(
        lex_all("  "),
        vec![pair(TokenKind::Whitespace, " "), pair(TokenKind::Whitespace, " ")]
    );
}

#[test]
fn whitespace_between_tokens_is_not_merged() {
    assert_eq!(
        lex_all("[ \t\r\n]"),
        vec![
            pair(TokenKind::OpenBracket, "["),
            pair(TokenKind::Whitespace, " "),
            pair(TokenKind::Whitespace, "\t"),
            pair(TokenKind::Whitespace, "\r"),
            pair(TokenKind::Whitespace, "\n"),
            pair(TokenKind::CloseBracket, "]"),
        ]
    );
}

#[test]
fn truncated_keyword_is_an_error() {
    let err = Lexer::new(StringReader::new("tru")).unwrap_err();
    assert!(expects_keyword(&err, "true"));
}

#[test]
fn keyword_true_is_a_boolean() {
    assert_eq!(lex_all("true"), vec![pair(BOOLEAN, "true")]);
}

#[test]
fn keyword_followed_by_letter_gives_unknown() {
    assert_eq!(lex_all("truee"), vec![pair(BOOLEAN, "true"), pair(TokenKind::Unknown, "e")]);
}

#[test]
fn keywords_null_and_false() {
    assert_eq!(lex_all("null"), vec![pair(NULL, "null")]);
    assert_eq!(lex_all("false"), vec![pair(BOOLEAN, "false")]);
}

#[test]
fn wrong_keywords_name_what_was_expected() {
    assert!(expects_keyword(&first_error("nul"), "null"));
    assert!(expects_keyword(&first_error("nulL"), "null"));
    assert!(expects_keyword(&first_error("n"), "null"));
    assert!(expects_keyword(&first_error("t"), "true"));
    assert!(expects_keyword(&first_error("trux"), "true"));
    assert!(expects_keyword(&first_error("fals"), "false"));
    assert!(expects_keyword(&first_error("f,"), "false"));
    assert!(expects_keyword(&first_error("[nil]"), "null"));
}

#[test]
fn failed_keyword_consumes_only_its_first_character() {
    let mut lexer = lexer(",nux");
    assert!(expects_keyword(&lexer.consume().unwrap_err(), "null"));
    assert!(lexer.peek().is_none());
    lexer.consume().unwrap();
    let token = lexer.peek().unwrap();
    assert_eq!((token.kind(), token.raw()), (TokenKind::Unknown, "u"));
}

#[test]
fn leading_zero_ends_the_number() {
    assert_eq!(lex_all("01"), vec![pair(NUMBER, "0"), pair(NUMBER, "1")]);
}

#[test]
fn zero_takes_no_underscore() {
    assert_eq!(lex_all("0_1"), vec![
        pair(NUMBER, "0"),
        pair(TokenKind::Unknown, "_"),
        pair(NUMBER, "1"),
    ]);
}

#[test]
fn underscores_vanish_from_numbers() {
    assert_eq!(lex_all("1_000"), vec![pair(NUMBER, "1000")]);
    assert_eq!(lex_all("1__2_"), vec![pair(NUMBER, "12")]);
    assert_eq!(lex_all("1_.5_0e1_0"), vec![pair(NUMBER, "1.50e10")]);
    assert_eq!(lex_all("2._5"), vec![pair(NUMBER, "2.5")]);
    assert_eq!(lex_all("3e_1"), vec![pair(NUMBER, "3e1")]);
}

#[test]
fn sign_alone_expects_a_digit() {
    let err = Lexer::new(StringReader::new("-")).unwrap_err();
    assert!(expects_digit(&err));
}

#[test]
fn sign_needs_a_digit_behind_it() {
    assert!(expects_digit(&first_error("-x")));
    assert!(expects_digit(&first_error("--1")));
    assert!(expects_digit(&first_error("-_1")));
    assert!(expects_digit(&first_error("[-]")));
}

#[test]
fn character_behind_a_sign_is_taken_on_failure() {
    let mut lexer = lexer(",-x1");
    assert!(expects_digit(&lexer.consume().unwrap_err()));
    lexer.consume().unwrap();
    let token = lexer.peek().unwrap();
    assert_eq!((token.kind(), token.raw()), (NUMBER, "1"));
}

#[test]
fn negative_numbers() {
    assert_eq!(lex_all("-0"), vec![pair(NUMBER, "-0")]);
    assert_eq!(lex_all("-12"), vec![pair(NUMBER, "-12")]);
    assert_eq!(lex_all("-01"), vec![pair(NUMBER, "-0"), pair(NUMBER, "1")]);
    assert_eq!(lex_all("1-2"), vec![pair(NUMBER, "1"), pair(NUMBER, "-2")]);
}

#[test]
fn bare_dot_expects_a_digit() {
    let err = Lexer::new(StringReader::new("1.")).unwrap_err();
    assert!(expects_digit(&err));
    assert!(expects_digit(&first_error("0.x")));
    assert!(expects_digit(&first_error("1._")));
}

#[test]
fn bare_exponent_expects_a_digit() {
    let err = Lexer::new(StringReader::new("1.5e")).unwrap_err();
    assert!(expects_digit(&err));
    assert!(expects_digit(&first_error("1e+")));
    assert!(expects_digit(&first_error("1E-x")));
    assert!(expects_digit(&first_error("0e_")));
}

#[test]
fn fraction_and_exponent() {
    assert_eq!(lex_all("1.5e+10"), vec![pair(NUMBER, "1.5e+10")]);
    assert_eq!(lex_all("0.25"), vec![pair(NUMBER, "0.25")]);
    assert_eq!(lex_all("7E3"), vec![pair(NUMBER, "7E3")]);
    assert_eq!(lex_all("0e-0"), vec![pair(NUMBER, "0e-0")]);
    assert_eq!(lex_all("1.0.5"), vec![pair(NUMBER, "1.0"), pair(TokenKind::Unknown, "."), pair(NUMBER, "5")]);
    assert_eq!(lex_all("1e5e6"), vec![pair(NUMBER, "1e5"), pair(TokenKind::Unknown, "e"), pair(NUMBER, "6")]);
}

#[test]
fn failed_number_leaves_no_token_and_the_input_behind_the_failure() {
    let mut lexer = lexer(",1.e5");
    assert!(expects_digit(&lexer.consume().unwrap_err()));
    assert!(lexer.peek().is_none());
    lexer.consume().unwrap();
    let token = lexer.peek().unwrap();
    assert_eq!((token.kind(), token.raw()), (TokenKind::Unknown, "e"));
}

#[test]
fn empty_input_has_no_token() {
    let lexer = lexer("");
    assert!(lexer.peek().is_none());
    assert!(lexer.into_iter().collect().is_empty());
}

#[test]
fn empty_input_stays_empty() {
    let mut lexer = lexer("");
    lexer.consume().unwrap();
    lexer.consume().unwrap();
    assert!(lexer.peek().is_none());
    let mut iter = lexer.into_iter();
    assert!(iter.next().is_none());
    assert!(iter.next().is_none());
}

#[test]
fn peek_is_idempotent() {
    let mut lexer = lexer("true,");
    let first = lexer.peek().unwrap();
    let second = lexer.peek().unwrap();
    assert!(std::ptr::eq(first, second));
    assert_eq!((first.kind(), first.raw()), (BOOLEAN, "true"));
    assert_eq!((second.kind(), second.raw()), (BOOLEAN, "true"));
    lexer.consume().unwrap();
    for _ in 0..3 {
        let token = lexer.peek().unwrap();
        assert_eq!((token.kind(), token.raw()), (TokenKind::Comma, ","));
    }
}

#[test]
fn end_to_end_object() {
    let unknown = |raw: &str| pair(TokenKind::Unknown, raw);
    assert_eq!(
        lex_all("{\"a\":1,\"b\":[true,null,-2.5e-1]}"),
        vec![
            pair(TokenKind::OpenBrace, "{"),
            unknown("\""),
            unknown("a"),
            unknown("\""),
            pair(TokenKind::Colon, ":"),
            pair(NUMBER, "1"),
            pair(TokenKind::Comma, ","),
            unknown("\""),
            unknown("b"),
            unknown("\""),
            pair(TokenKind::Colon, ":"),
            pair(TokenKind::OpenBracket, "["),
            pair(BOOLEAN, "true"),
            pair(TokenKind::Comma, ","),
            pair(NULL, "null"),
            pair(TokenKind::Comma, ","),
            pair(NUMBER, "-2.5e-1"),
            pair(TokenKind::CloseBracket, "]"),
            pair(TokenKind::CloseBrace, "}"),
        ]
    );
}

#[test]
fn unknown_characters_keep_their_text() {
    assert_eq!(lex_all("é"), vec![pair(TokenKind::Unknown, "é")]);
    assert_eq!(lex_all("+"), vec![pair(TokenKind::Unknown, "+")]);
    assert_eq!(lex_all("\u{1F600}x"), vec![
        pair(TokenKind::Unknown, "\u{1F600}"),
        pair(TokenKind::Unknown, "x"),
    ]);
    assert_eq!(lex_all("N"), vec![pair(TokenKind::Unknown, "N")]);
}

#[test]
fn stepping_by_hand_matches_iteration() {
    let text = "[1_0, -2.5e-1 ,false]";
    let mut by_hand = Vec::new();
    let mut lexer = lexer(text);
    while let Some(token) = lexer.peek() {
        by_hand.push((token.kind(), token.raw().to_string()));
        lexer.consume().unwrap();
    }
    assert_eq!(by_hand, lex_all(text));
    assert_eq!(by_hand.len(), 9);
    assert_eq!(by_hand[1], pair(NUMBER, "10"));
}

#[test]
fn iteration_ends_silently_at_an_error() {
    assert_eq!(lex_all("1,tru,2"), vec![pair(NUMBER, "1"), pair(TokenKind::Comma, ",")]);
    assert_eq!(lex_all("[-]"), vec![pair(TokenKind::OpenBracket, "[")]);
}

#[test]
fn next_hands_out_tokens_one_by_one() {
    let mut iter = lexer("0:").into_iter();
    let zero = iter.next().unwrap();
    assert_eq!((zero.kind(), zero.raw()), (NUMBER, "0"));
    let colon = iter.next().unwrap();
    assert_eq!((colon.kind(), colon.raw()), (TokenKind::Colon, ":"));
    assert!(iter.next().is_none());
    assert!(iter.next().is_none());
}

#[test]
fn error_messages() {
    assert_eq!(first_error("tru").to_string(), "expected keyword true");
    assert_eq!(first_error("nope").to_string(), "expected keyword null");
    assert_eq!(first_error("f").to_string(), "expected keyword false");
    assert_eq!(first_error("-").to_string(), "expected digit");
    assert!(first_error("-").source().is_none());
    assert!(first_error("tru").source().is_none());
}

#[test]
fn numbers_lex_as_themselves() {
    let numbers = [
        "0", "-0", "7", "10", "-123", "0.5", "-0.25", "12.125", "1e5", "1E5", "1e+5", "1e-5", "0e0",
        "-9.75E-31", "1234567890.0987654321e+1234567890",
    ];
    for number in numbers {
        for rest in [",", " ", "]", "x", "-1", ""] {
            let text = format!("{}{}", number, rest);
            let lexer = lexer(&text);
            let token = lexer.peek().unwrap();
            assert_eq!((token.kind(), token.raw()), (NUMBER, number), "in {:?}", text);
        }
    }
}

#[test]
fn token_texts_spell_the_input() {
    for text in ["", " ", "{\"k\": [true, false, null, -1.5e3, 0]}", "truefalsenull", "?!\u{7f}é"] {
        let spelled: String = lex_all(text).into_iter().map(|(_, raw)| raw).collect();
        assert_eq!(spelled, text);
    }
}

#[test]
fn only_numbers_drop_underscores() {
    let tokens = lex_all("_1_2_,_");
    assert_eq!(tokens, vec![
        pair(TokenKind::Unknown, "_"),
        pair(NUMBER, "12"),
        pair(TokenKind::Comma, ","),
        pair(TokenKind::Unknown, "_"),
    ]);
}

#[test]
fn token_kinds_compare() {
    assert_eq!(NULL, TokenKind::Literal { kind: LiteralKind::Null });
    assert_ne!(NULL, BOOLEAN);
    assert_ne!(TokenKind::Comma, TokenKind::Colon);
    assert_eq!(ExpectedKind::Keyword("null"), ExpectedKind::Keyword("null"));
    assert_ne!(ExpectedKind::Keyword("null"), ExpectedKind::Digit);
}
