use json_lexer::input_reader::{Error as SourceError, Limited, ReadInput, StringReader};
use json_lexer::lexer::{Error, Lexer, LiteralKind, Repr, TokenKind};

const NUMBER: TokenKind = TokenKind::Literal { kind: LiteralKind::Number };

fn is_source_failure(e: &Error) -> bool {
    matches!(e.repr, Repr::InputReader(_))
}

#[test]
fn string_reader_looks_ahead_without_consuming() {
    let reader = StringReader::new("añb");
    assert_eq!(reader.peek(0), Some('a'));
    assert_eq!(reader.peek(1), Some('ñ'));
    assert_eq!(reader.peek(2), Some('b'));
    assert_eq!(reader.peek(3), None);
    assert_eq!(reader.peek(usize::MAX), None);
    assert_eq!(reader.peek(0), Some('a'));
}

#[test]
fn string_reader_consumes_by_count() {
    let mut reader = StringReader::new("abcd");
    reader.consume(1).unwrap();
    assert_eq!(reader.peek(0), Some('b'));
    reader.consume(2).unwrap();
    assert_eq!(reader.peek(0), Some('d'));
    assert_eq!(reader.peek(1), None);
    reader.consume(1).unwrap();
    assert_eq!(reader.peek(0), None);
}

#[test]
fn empty_string_reader_has_nothing() {
    let reader = StringReader::new("");
    assert_eq!(reader.peek(0), None);
}

#[test]
fn limited_reader_fails_past_its_allowance() {
    let mut reader = Limited::new(StringReader::new("abc"), 2);
    assert_eq!(reader.peek(2), Some('c'));
    reader.consume(1).unwrap();
    let err = reader.consume(2).unwrap_err();
    assert_eq!(err.to_string(), "input limit reached");
    assert_eq!(reader.peek(0), Some('b'));
    reader.consume(1).unwrap();
    assert_eq!(reader.peek(0), Some('c'));
    assert!(reader.consume(1).is_err());
}

#[test]
fn source_failure_on_the_first_character() {
    let err = Lexer::new(Limited::new(StringReader::new("1"), 0)).unwrap_err();
    assert!(is_source_failure(&err));
    assert_eq!(err.to_string(), "input limit reached");
    assert_eq!(err.source().unwrap().to_string(), "input limit reached");
}

#[test]
fn source_failure_inside_a_keyword() {
    let err = Lexer::new(Limited::new(StringReader::new("true"), 3)).unwrap_err();
    assert!(is_source_failure(&err));
}

#[test]
fn source_failure_inside_a_number() {
    for allowance in 1..7 {
        let err = Lexer::new(Limited::new(StringReader::new("-1.5e+1"), allowance)).unwrap_err();
        assert!(is_source_failure(&err), "allowance {}", allowance);
    }
    let lexer = Lexer::new(Limited::new(StringReader::new("-1.5e+1"), 7)).unwrap();
    let token = lexer.peek().unwrap();
    assert_eq!((token.kind(), token.raw()), (NUMBER, "-1.5e+1"));
}

#[test]
fn source_failure_on_an_underscore() {
    let err = Lexer::new(Limited::new(StringReader::new("1_"), 1)).unwrap_err();
    assert!(is_source_failure(&err));
}

#[test]
fn source_failure_leaves_no_token() {
    let mut lexer = Lexer::new(Limited::new(StringReader::new(",,"), 1)).unwrap();
    assert!(lexer.peek().is_some());
    assert!(is_source_failure(&lexer.consume().unwrap_err()));
    assert!(lexer.peek().is_none());
}

#[test]
fn empty_input_needs_no_allowance() {
    let mut lexer = Lexer::new(Limited::new(StringReader::new(""), 0)).unwrap();
    assert!(lexer.peek().is_none());
    lexer.consume().unwrap();
    assert!(lexer.peek().is_none());
}

#[test]
fn iteration_ends_silently_at_a_source_failure() {
    let lexer = Lexer::new(Limited::new(StringReader::new("[1,2]"), 3)).unwrap();
    let tokens = lexer.into_iter().collect();
    let raws: Vec<&str> = tokens.iter().map(|t| t.raw()).collect();
    assert_eq!(raws, vec!["[", "1", ","]);
}

#[test]
fn lexer_error_from_a_source_error() {
    let err = Error::from(SourceError::new(String::from("disk on fire")));
    assert!(is_source_failure(&err));
    assert_eq!(err.to_string(), "disk on fire");
    assert_eq!(err.source().unwrap().to_string(), "disk on fire");
}
