//! The lexer: tokens, errors, and the step-once protocol over an input
//! source.

use crate::grammar::{
    after_digit_run, digit_run, false_text, in_digit_run, lex_exponent, lex_fraction, lex_integer,
    lex_keyword, lex_number, null_text, step, strip_underscores, tokenize, true_text, well_formed,
    Expected, Scan, Step, TokenView,
};
use crate::laws::{
    lemma_digit_run_len_is, lemma_step_progress, lemma_step_token_well_formed,
    lemma_strip_underscores_step,
};
use crate::input_reader;
use crate::input_reader::ReadInput;
use std::borrow::Cow;
use vstd::prelude::*;
use vstd::std_specs::convert::FromSpecImpl;

verus! {

/// Why the lexer could not produce a token.
#[derive(Debug)]
pub struct Error {
    pub repr: Repr,
}

/// The two sources of failure: the input source, or the text itself.
#[derive(Debug)]
pub enum Repr {
    InputReader(input_reader::Error),
    Expected(ExpectedKind),
}

/// What the text should have held at the point of failure.
#[derive(Debug, Clone, Copy, PartialEq, Eq)]
pub enum ExpectedKind {
    Keyword(&'static str),
    Digit,
}

impl View for ExpectedKind {
    type V = Expected;

    open spec fn view(&self) -> Expected {
        match self {
            ExpectedKind::Keyword(keyword) => Expected::Keyword(keyword@),
            ExpectedKind::Digit => Expected::Digit,
        }
    }
}

impl Error {
    /// What this error says, in words.
    pub open spec fn message(&self) -> Seq<char> {
        match self.repr {
            Repr::InputReader(e) => e@,
            Repr::Expected(ExpectedKind::Keyword(keyword)) => "expected keyword "@ + keyword@,
            Repr::Expected(ExpectedKind::Digit) => "expected digit"@,
        }
    }

    /// The message of this error: that of the input source where the
    /// failure is its own.
    pub fn to_string(&self) -> (text: String)
        ensures
            text@ == self.message(),
    {
        match &self.repr {
            Repr::InputReader(e) => e.to_string(),
            Repr::Expected(ExpectedKind::Keyword(keyword)) => String::from_str(
                "expected keyword ",
            ).concat(keyword),
            Repr::Expected(ExpectedKind::Digit) => String::from_str("expected digit"),
        }
    }

    /// The failure of the input source that lies behind this error, if that
    /// is what it is.
    pub fn source(&self) -> (cause: Option<&input_reader::Error>)
        ensures
            match self.repr {
                Repr::InputReader(e) => cause matches Some(inner) && *inner == e,
                Repr::Expected(_) => cause is None,
            },
    {
        match &self.repr {
            Repr::InputReader(e) => Some(e),
            Repr::Expected(_) => None,
        }
    }
}

impl From<input_reader::Error> for Error {
    fn from(error: input_reader::Error) -> (e: Error) {
        Error { repr: Repr::InputReader(error) }
    }
}

impl FromSpecImpl<input_reader::Error> for Error {
    open spec fn obeys_from_spec() -> bool {
        true
    }

    open spec fn from_spec(error: input_reader::Error) -> Error {
        Error { repr: Repr::InputReader(error) }
    }
}

impl From<Repr> for Error {
    fn from(repr: Repr) -> (e: Error) {
        Error { repr }
    }
}

impl FromSpecImpl<Repr> for Error {
    open spec fn obeys_from_spec() -> bool {
        true
    }

    open spec fn from_spec(repr: Repr) -> Error {
        Error { repr }
    }
}

/// A classified piece of the input, with the text that produced it.
#[derive(Debug)]
pub struct Token {
    kind: TokenKind,
    raw: Cow<'static, str>,
}

impl View for Token {
    type V = TokenView;

    closed spec fn view(&self) -> TokenView {
        TokenView { kind: self.kind, raw: self.raw@ }
    }
}

impl Token {
    #[verifier::type_invariant]
    spec fn fits_its_kind(&self) -> bool {
        well_formed(self@)
    }

    /// A token of the given kind and text, which must fit each other.
    fn new(kind: TokenKind, raw: Cow<'static, str>) -> (token: Token)
        requires
            well_formed(TokenView { kind, raw: raw@ }),
        ensures
            token@ == (TokenView { kind, raw: raw@ }),
    {
        Token { kind, raw }
    }

    /// The kind of the token. The token's text is one that this kind can
    /// have.
    pub fn kind(&self) -> (kind: TokenKind)
        ensures
            kind == self@.kind,
            well_formed(self@),
    {
        proof {
            use_type_invariant(self);
        }
        self.kind
    }

    /// The text of the token. It is never empty, and it is one that the
    /// token's kind can have.
    pub fn raw(&self) -> (raw: &str)
        ensures
            raw@ == self@.raw,
            raw@.len() > 0,
            well_formed(self@),
    {
        proof {
            use_type_invariant(self);
        }
        match &self.raw {
            Cow::Borrowed(text) => text,
            Cow::Owned(text) => text.as_str(),
        }
    }
}

/// The kinds of literal that the lexer knows.
#[derive(Debug, Clone, Copy, PartialEq, Eq)]
pub enum LiteralKind {
    Null,
    Boolean,
    Number,
}

/// The kinds of token.
#[derive(Debug, Clone, Copy, PartialEq, Eq)]
pub enum TokenKind {
    Whitespace,
    Comma,
    OpenBrace,
    CloseBrace,
    OpenBracket,
    CloseBracket,
    Colon,
    Literal { kind: LiteralKind },
    Unknown,
}

/// Taken on trust from the standard library: `String::push` appends the
/// given character to the end of the string and changes nothing else.
pub assume_specification[ String::push ](s: &mut String, c: char)
    ensures
        final(s)@ == old(s)@.push(c),
;

/// The text made of `ch` alone.
fn char_to_cow_str(ch: char) -> (text: Cow<'static, str>)
    ensures
        text@ == seq![ch],
{
    let mut owned = String::new();
    owned.push(ch);
    Cow::Owned(owned)
}

/// Whether `r` is what a match may return where the grammar says `scan`,
/// with `left` the input that the source holds afterwards and `expected`
/// what a rejection reports. A source that can fail may make any match fail;
/// nothing is then known of the input left.
pub open spec fn scanned<T: View<V = Seq<char>>>(
    r: Result<T, Error>,
    scan: Scan,
    expected: Expected,
    left: Seq<char>,
    infallible: bool,
) -> bool {
    match r {
        Ok(text) => scan == (Scan::Accepted { text: text@, rest: left }),
        Err(e) => match e.repr {
            Repr::Expected(kind) => kind@ == expected && scan == (Scan::Rejected { rest: left }),
            Repr::InputReader(_) => !infallible,
        },
    }
}

/// Whether a step of the lexer may end in `r` where the grammar says `step`,
/// with `current` the token that the lexer holds afterwards and `left` the
/// input that its source holds. On empty input the source is not asked for
/// anything and the step succeeds; otherwise a source that can fail may make
/// the step fail, and nothing is then known of the input left.
pub open spec fn stepped(
    r: Result<(), Error>,
    step: Step,
    current: Option<TokenView>,
    left: Seq<char>,
    infallible: bool,
) -> bool {
    match r {
        Ok(()) => match step {
            Step::Exhausted => current is None && left.len() == 0,
            Step::Produced { token, rest } => current == Some(token) && left == rest,
            Step::Failed { .. } => false,
        },
        Err(e) => current is None && match e.repr {
            Repr::Expected(kind) => step == (Step::Failed { expected: kind@, rest: left }),
            Repr::InputReader(_) => !infallible && !(step is Exhausted),
        },
    }
}

/// When a step succeeds: on empty input always; on a source that never
/// fails exactly where the grammar finds a token or the end of the input.
/// A step that succeeded leaves a token unless the input was empty, and a
/// step that failed leaves none.
pub proof fn lemma_stepped_outcome(
    r: Result<(), Error>,
    before: Seq<char>,
    current: Option<TokenView>,
    left: Seq<char>,
    infallible: bool,
)
    requires
        stepped(r, step(before), current, left, infallible),
    ensures
        before.len() == 0 ==> r is Ok,
        infallible ==> (r is Ok <==> !(step(before) is Failed)),
        r is Ok ==> (current is None <==> before.len() == 0),
        r is Ok && before.len() > 0 ==> well_formed(current->0) && left.len() < before.len(),
        r is Err ==> current is None,
{
    lemma_step_token_well_formed(before);
    lemma_step_progress(before);
}

/// Whether a lexer may hold `current` and its source `left` after a step from
/// the input `before` whose result was dropped: what `stepped` allows for
/// some result.
pub open spec fn advanced(
    before: Seq<char>,
    current: Option<TokenView>,
    left: Seq<char>,
    infallible: bool,
) -> bool {
    match step(before) {
        Step::Exhausted => current is None && left.len() == 0,
        Step::Produced { token, rest } => {
            ||| current == Some(token) && left == rest
            ||| current is None && !infallible
        },
        Step::Failed { rest, .. } => current is None && (left == rest || !infallible),
    }
}

/// The views of a sequence of tokens.
pub open spec fn views(tokens: Seq<Token>) -> Seq<TokenView> {
    tokens.map_values(|token: Token| token@)
}

/// A lexer over an input source of type `R`.
///
/// It holds the token it classified last, if any, and the source, whose
/// remaining input starts right behind that token.
#[derive(Debug)]
pub struct Lexer<R> {
    input_reader: R,
    current_token: Option<Token>,
}

impl<R> Lexer<R> {
    /// The current token.
    pub closed spec fn token(&self) -> Option<Token> {
        self.current_token
    }

    /// The current token as the grammar sees it.
    pub open spec fn current(&self) -> Option<TokenView> {
        match self.token() {
            Some(token) => Some(token@),
            None => None,
        }
    }

    /// The input source.
    pub closed spec fn source(&self) -> R {
        self.input_reader
    }

    /// Whether `t` is what a look at the current token shows.
    pub open spec fn peeked(&self, t: Option<&Token>) -> bool {
        match t {
            Some(token) => self.token() == Some(*token),
            None => self.token() is None,
        }
    }

    /// The current token, which stays where it is: the lexer is not changed.
    pub fn peek(&self) -> (t: Option<&Token>)
        ensures
            self.peeked(t),
    {
        self.current_token.as_ref()
    }

    /// Looking twice shows the same token: what `peek` returns depends on
    /// the lexer alone, which `peek` does not change.
    pub proof fn lemma_peek_is_idempotent(&self, first: Option<&Token>, second: Option<&Token>)
        requires
            self.peeked(first),
            self.peeked(second),
        ensures
            first == second,
    {
    }

    /// Turns the lexer into a producer of its tokens, the current one first.
    pub fn into_iter(self) -> (iter: IntoIter<R>)
        ensures
            iter.lexer() == self,
    {
        IntoIter { lexer: self }
    }
}

impl<R: ReadInput> Lexer<R> {
    /// The input that the source has not given up yet.
    pub open spec fn remaining(&self) -> Seq<char> {
        self.source().remaining()
    }

    /// Whether the source is one that never fails.
    pub open spec fn infallible(&self) -> bool {
        self.source().infallible()
    }

    /// The tokens that are still to come if the source does not fail: the
    /// current one, then those of the remaining input.
    pub open spec fn pending(&self) -> Seq<TokenView> {
        match self.current() {
            Some(token) => seq![token] + tokenize(self.remaining()),
            None => Seq::empty(),
        }
    }

    /// Wraps `input_reader` and classifies its first token, so that the new
    /// lexer holds that token already, or none if the input is empty.
    pub fn new(input_reader: R) -> (r: Result<Self, Error>)
        ensures
            match r {
                Ok(lexer) => {
                    &&& lexer.infallible() == input_reader.infallible()
                    &&& lexer.pending() == tokenize(input_reader.remaining())
                    &&& stepped(
                        Ok(()),
                        step(input_reader.remaining()),
                        lexer.current(),
                        lexer.remaining(),
                        input_reader.infallible(),
                    )
                },
                Err(e) => match e.repr {
                    Repr::Expected(kind) => step(input_reader.remaining()) matches Step::Failed {
                        expected,
                        ..
                    } && expected == kind@,
                    Repr::InputReader(_) => {
                        &&& !input_reader.infallible()
                        &&& input_reader.remaining().len() > 0
                    },
                },
            },
    {
        let mut lexer = Self { input_reader, current_token: None };
        match lexer.consume() {
            Ok(()) => Ok(lexer),
            Err(e) => Err(e),
        }
    }

    /// Drops the current token and classifies the next one from the front of
    /// the remaining input. Afterwards the lexer holds that token, or none
    /// if the input was empty or the step failed.
    pub fn consume(&mut self) -> (r: Result<(), Error>)
        ensures
            final(self).infallible() == old(self).infallible(),
            stepped(
                r,
                step(old(self).remaining()),
                final(self).current(),
                final(self).remaining(),
                old(self).infallible(),
            ),
    {
        self.current_token = None;

        let c = match self.advance_input_reader() {
            Ok(Some(c)) => c,
            Ok(None) => {
                return Ok(());
            },
            Err(e) => {
                return Err(e);
            },
        };
        proof {
            reveal_strlit("null");
            reveal_strlit("true");
            reveal_strlit("false");
            assert("null"@ == null_text());
            assert("true"@ == true_text());
            assert("false"@ == false_text());
        }
        let (kind, raw) = match c {
            ' ' | '\n' | '\r' | '\t' => (TokenKind::Whitespace, char_to_cow_str(c)),
            ',' => (TokenKind::Comma, char_to_cow_str(c)),
            '{' => (TokenKind::OpenBrace, char_to_cow_str(c)),
            '}' => (TokenKind::CloseBrace, char_to_cow_str(c)),
            '[' => (TokenKind::OpenBracket, char_to_cow_str(c)),
            ']' => (TokenKind::CloseBracket, char_to_cow_str(c)),
            ':' => (TokenKind::Colon, char_to_cow_str(c)),
            'n' => match self.match_keyword("null") {
                Ok(keyword) => (
                    TokenKind::Literal { kind: LiteralKind::Null },
                    Cow::Borrowed(keyword),
                ),
                Err(e) => {
                    return Err(e);
                },
            },
            't' => match self.match_keyword("true") {
                Ok(keyword) => (
                    TokenKind::Literal { kind: LiteralKind::Boolean },
                    Cow::Borrowed(keyword),
                ),
                Err(e) => {
                    return Err(e);
                },
            },
            'f' => match self.match_keyword("false") {
                Ok(keyword) => (
                    TokenKind::Literal { kind: LiteralKind::Boolean },
                    Cow::Borrowed(keyword),
                ),
                Err(e) => {
                    return Err(e);
                },
            },
            '0'..='9' | '-' => match self.match_number(c) {
                Ok(literal) => (
                    TokenKind::Literal { kind: LiteralKind::Number },
                    Cow::Owned(literal),
                ),
                Err(e) => {
                    return Err(e);
                },
            },
            _ => (TokenKind::Unknown, char_to_cow_str(c)),
        };

        proof {
            lemma_step_token_well_formed(old(self).remaining());
        }
        self.current_token = Some(Token::new(kind, raw));

        Ok(())
    }

    /// Takes the next character from the source, if there is one.
    fn advance_input_reader(&mut self) -> (r: Result<Option<char>, Error>)
        ensures
            final(self).token() == old(self).token(),
            final(self).infallible() == old(self).infallible(),
            match r {
                Ok(Some(c)) => {
                    &&& old(self).remaining().len() > 0
                    &&& c == old(self).remaining()[0]
                    &&& final(self).remaining() == old(self).remaining().skip(1)
                },
                Ok(None) => old(self).remaining().len() == 0 && *final(self) == *old(self),
                Err(e) => {
                    &&& e.repr is InputReader
                    &&& !old(self).infallible()
                    &&& old(self).remaining().len() > 0
                },
            },
    {
        match self.input_reader.peek(0) {
            Some(c) => match self.input_reader.consume(1) {
                Ok(()) => Ok(Some(c)),
                Err(e) => Err(Error::from(e)),
            },
            None => Ok(None),
        }
    }

    /// Matches the keyword `kw`, whose first character has been taken from
    /// the source already: all or nothing.
    fn match_keyword(&mut self, kw: &'static str) -> (r: Result<&'static str, Error>)
        requires
            kw@.len() >= 1,
        ensures
            final(self).token() == old(self).token(),
            final(self).infallible() == old(self).infallible(),
            scanned(
                r,
                lex_keyword(kw@, old(self).remaining()),
                Expected::Keyword(kw@),
                final(self).remaining(),
                old(self).infallible(),
            ),
    {
        let ghost before = *self;
        let ghost input = self.remaining();
        let ghost tail = kw@.skip(1);
        let len = kw.unicode_len();
        let mut seen: usize = 0;
        for expected in it: kw.chars()
            invariant
                it.seq() == kw@,
                len == kw@.len(),
                seen == it.index(),
                *self == before,
                input == self.remaining(),
                tail == kw@.skip(1),
                forall|i: int| 0 <= i < seen - 1 ==> i < input.len() && input[i] == tail[i],
        {
            if seen > 0 {
                let matched = match self.input_reader.peek(seen - 1) {
                    Some(c) => c == expected,
                    None => false,
                };
                if !matched {
                    proof {
                        let i = seen - 1;
                        if tail.is_prefix_of(input) {
                            assert(input.subrange(0, tail.len() as int)[i] == input[i]);
                        }
                    }
                    return Err(Error::from(Repr::Expected(ExpectedKind::Keyword(kw))));
                }
            }
            seen = seen + 1;
        }
        assert(tail.is_prefix_of(input)) by {
            if len > 1 {
                let i = len - 2;
                assert(input[i] == tail[i]);
            }
        }
        if len > 1 {
            match self.input_reader.consume(len - 1) {
                Ok(()) => {},
                Err(e) => {
                    return Err(Error::from(e));
                },
            }
        }
        assert(input.skip(0) == input);
        Ok(kw)
    }

    /// Takes the run of digits at the front of the input and returns its
    /// digits; the underscores in it are taken and dropped.
    fn consume_digits(&mut self) -> (r: Result<String, Error>)
        ensures
            final(self).token() == old(self).token(),
            final(self).infallible() == old(self).infallible(),
            match r {
                Ok(digits) => {
                    &&& digits@ == digit_run(old(self).remaining())
                    &&& final(self).remaining() == after_digit_run(old(self).remaining())
                },
                Err(e) => e.repr is InputReader && !old(self).infallible(),
            },
    {
        let mut digits = String::new();
        let ghost input = self.remaining();
        let ghost mut taken: int = 0;
        loop
            invariant
                self.token() == old(self).token(),
                self.infallible() == old(self).infallible(),
                input == old(self).remaining(),
                0 <= taken <= input.len(),
                self.remaining() == input.skip(taken),
                forall|j: int| 0 <= j < taken ==> in_digit_run(#[trigger] input[j]),
                digits@ == strip_underscores(input.take(taken)),
            decreases input.len() - taken,
        {
            match self.input_reader.peek(0) {
                Some('_') => {
                    match self.input_reader.consume(1) {
                        Ok(()) => {},
                        Err(e) => {
                            return Err(Error::from(e));
                        },
                    }
                },
                Some(c @ '0'..='9') => {
                    digits.push(c);
                    match self.input_reader.consume(1) {
                        Ok(()) => {},
                        Err(e) => {
                            return Err(Error::from(e));
                        },
                    }
                },
                _ => {
                    proof {
                        lemma_digit_run_len_is(input, taken);
                    }
                    return Ok(digits);
                },
            }
            proof {
                lemma_strip_underscores_step(input, taken);
                taken = taken + 1;
            }
        }
    }

    /// Matches the integer part of a number whose first character,
    /// `first_digit`, has been taken from the source already.
    fn match_integer(&mut self, first_digit: char) -> (r: Result<String, Error>)
        ensures
            final(self).token() == old(self).token(),
            final(self).infallible() == old(self).infallible(),
            scanned(
                r,
                lex_integer(first_digit, old(self).remaining()),
                Expected::Digit,
                final(self).remaining(),
                old(self).infallible(),
            ),
    {
        let mut literal = String::new();
        literal.push(first_digit);

        let lead = if first_digit == '-' {
            match self.advance_input_reader() {
                Ok(Some(c)) => {
                    literal.push(c);
                    assert(literal@ == seq!['-', c]);
                    c
                },
                Ok(None) => {
                    return Err(Error::from(Repr::Expected(ExpectedKind::Digit)));
                },
                Err(e) => {
                    return Err(e);
                },
            }
        } else {
            first_digit
        };

        match lead {
            '1'..='9' => match self.consume_digits() {
                Ok(digits) => literal.append(digits.as_str()),
                Err(e) => {
                    return Err(e);
                },
            },
            '0' => {},
            _ => {
                return Err(Error::from(Repr::Expected(ExpectedKind::Digit)));
            },
        }
        Ok(literal)
    }

    /// Matches the fractional part of a number, if the input goes on with
    /// one. Without a dot at the front nothing is taken.
    fn match_fraction(&mut self) -> (r: Result<String, Error>)
        ensures
            final(self).token() == old(self).token(),
            final(self).infallible() == old(self).infallible(),
            scanned(
                r,
                lex_fraction(old(self).remaining()),
                Expected::Digit,
                final(self).remaining(),
                old(self).infallible(),
            ),
    {
        let mut literal = String::new();
        if let Some('.') = self.input_reader.peek(0) {
            match self.advance_input_reader() {
                Ok(_) => {},
                Err(e) => {
                    return Err(e);
                },
            }
            literal.push('.');

            let fractional = match self.consume_digits() {
                Ok(digits) => digits,
                Err(e) => {
                    return Err(e);
                },
            };
            if fractional.as_str().is_empty() {
                return Err(Error::from(Repr::Expected(ExpectedKind::Digit)));
            }
            literal.append(fractional.as_str());
        }
        Ok(literal)
    }

    /// Matches the exponent of a number, if the input goes on with one.
    /// Without an `e` or `E` at the front nothing is taken.
    fn match_exponent(&mut self) -> (r: Result<String, Error>)
        ensures
            final(self).token() == old(self).token(),
            final(self).infallible() == old(self).infallible(),
            scanned(
                r,
                lex_exponent(old(self).remaining()),
                Expected::Digit,
                final(self).remaining(),
                old(self).infallible(),
            ),
    {
        let ghost input = self.remaining();
        let mut literal = String::new();
        if let Some(c @ ('e' | 'E')) = self.input_reader.peek(0) {
            match self.advance_input_reader() {
                Ok(_) => {},
                Err(e) => {
                    return Err(e);
                },
            }
            literal.push(c);

            if let Some(sign @ ('-' | '+')) = self.input_reader.peek(0) {
                match self.advance_input_reader() {
                    Ok(_) => {},
                    Err(e) => {
                        return Err(e);
                    },
                }
                literal.push(sign);
                assert(literal@ == seq![c, sign]);
            }
            assert(self.remaining() == input.skip(literal@.len() as int));

            let exponent = match self.consume_digits() {
                Ok(digits) => digits,
                Err(e) => {
                    return Err(e);
                },
            };
            if exponent.as_str().is_empty() {
                return Err(Error::from(Repr::Expected(ExpectedKind::Digit)));
            }
            literal.append(exponent.as_str());
        }
        Ok(literal)
    }

    /// Matches a number whose first character, `first_digit`, has been taken
    /// from the source already, and returns its text.
    fn match_number(&mut self, first_digit: char) -> (r: Result<String, Error>)
        ensures
            final(self).token() == old(self).token(),
            final(self).infallible() == old(self).infallible(),
            scanned(
                r,
                lex_number(first_digit, old(self).remaining()),
                Expected::Digit,
                final(self).remaining(),
                old(self).infallible(),
            ),
    {
        let mut literal = match self.match_integer(first_digit) {
            Ok(integer) => integer,
            Err(e) => {
                return Err(e);
            },
        };
        match self.match_fraction() {
            Ok(fraction) => literal.append(fraction.as_str()),
            Err(e) => {
                return Err(e);
            },
        }
        match self.match_exponent() {
            Ok(exponent) => literal.append(exponent.as_str()),
            Err(e) => {
                return Err(e);
            },
        }
        Ok(literal)
    }
}

/// A lexer turned into a producer of owned tokens.
///
/// A failure of the lexer is not reported: it ends the sequence.
#[derive(Debug)]
pub struct IntoIter<R> {
    lexer: Lexer<R>,
}

impl<R> IntoIter<R> {
    /// The lexer inside.
    pub closed spec fn lexer(&self) -> Lexer<R> {
        self.lexer
    }
}

impl<R: ReadInput> IntoIter<R> {
    /// Hands out the current token and steps the lexer behind it; the
    /// result of that step is dropped. Without a current token nothing
    /// happens.
    pub fn next(&mut self) -> (t: Option<Token>)
        ensures
            t == old(self).lexer().token(),
            final(self).lexer().infallible() == old(self).lexer().infallible(),
            match t {
                Some(_) => advanced(
                    old(self).lexer().remaining(),
                    final(self).lexer().current(),
                    final(self).lexer().remaining(),
                    old(self).lexer().infallible(),
                ),
                None => *final(self) == *old(self),
            },
    {
        match self.lexer.current_token.take() {
            Some(token) => {
                let _ = self.lexer.consume();
                Some(token)
            },
            None => None,
        }
    }

    /// Runs the producer to its end and returns the tokens in order.
    ///
    /// They are a prefix of the pending tokens, and all of them if the source
    /// never fails.
    pub fn collect(self) -> (tokens: Vec<Token>)
        ensures
            views(tokens@).is_prefix_of(self.lexer().pending()),
            self.lexer().infallible() ==> views(tokens@) == self.lexer().pending(),
    {
        let ghost total = self.lexer().pending();
        let mut iter = self;
        let mut tokens: Vec<Token> = Vec::new();
        loop
            invariant
                iter.lexer().infallible() == self.lexer().infallible(),
                total == self.lexer().pending(),
                iter.lexer().current() is Some ==> views(tokens@) + iter.lexer().pending()
                    == total,
                iter.lexer().current() is None ==> views(tokens@).is_prefix_of(total),
                iter.lexer().current() is None && iter.lexer().infallible() ==> views(tokens@)
                    == total,
            decreases
                if iter.lexer().current() is Some {
                    iter.lexer().remaining().len() + 1
                } else {
                    0
                },
        {
            let ghost before = iter.lexer();
            match iter.next() {
                Some(token) => {
                    tokens.push(token);
                    proof {
                        lemma_step_progress(before.remaining());
                    }
                },
                None => {
                    return tokens;
                },
            }
        }
    }
}

} // verus!
