//! The token grammar, as functions on sequences of characters.
//!
//! Nothing here is executable. [`step`] says what the lexer makes of the
//! front of an input and [`tokenize`] what it makes of a whole input. The
//! predicates at the end say what a number reads like and which text a
//! token of each kind can have. What follows from these definitions is
//! proved in [`crate::laws`].

use crate::laws::lemma_step_progress;
use crate::lexer::{LiteralKind, TokenKind};
use vstd::prelude::*;

verus! {

/// A token as the grammar sees it: its kind and its text.
pub struct TokenView {
    pub kind: TokenKind,
    pub raw: Seq<char>,
}

/// What the lexer was looking for when it gave up.
pub enum Expected {
    Keyword(Seq<char>),
    Digit,
}

/// The result of matching a keyword or a number: either the text of the
/// literal, or a rejection. Both say what input is left.
pub enum Scan {
    Accepted { text: Seq<char>, rest: Seq<char> },
    Rejected { rest: Seq<char> },
}

/// The result of classifying the front of an input.
pub enum Step {
    /// The input is empty.
    Exhausted,
    /// A token, and the input left behind it.
    Produced { token: TokenView, rest: Seq<char> },
    /// No token, and the input left at the point of failure.
    Failed { expected: Expected, rest: Seq<char> },
}

pub open spec fn is_whitespace(c: char) -> bool {
    c == ' ' || c == '\n' || c == '\r' || c == '\t'
}

pub open spec fn is_digit(c: char) -> bool {
    '0' <= c && c <= '9'
}

/// The kind of a punctuation character, if `c` is one.
pub open spec fn punctuation(c: char) -> Option<TokenKind> {
    if c == ',' {
        Some(TokenKind::Comma)
    } else if c == '{' {
        Some(TokenKind::OpenBrace)
    } else if c == '}' {
        Some(TokenKind::CloseBrace)
    } else if c == '[' {
        Some(TokenKind::OpenBracket)
    } else if c == ']' {
        Some(TokenKind::CloseBracket)
    } else if c == ':' {
        Some(TokenKind::Colon)
    } else {
        None
    }
}

pub open spec fn null_text() -> Seq<char> {
    seq!['n', 'u', 'l', 'l']
}

pub open spec fn true_text() -> Seq<char> {
    seq!['t', 'r', 'u', 'e']
}

pub open spec fn false_text() -> Seq<char> {
    seq!['f', 'a', 'l', 's', 'e']
}

/// Matches `keyword` whose first character has been taken already: the
/// characters after the first must stand at the front of `s`, all of them.
pub open spec fn lex_keyword(keyword: Seq<char>, s: Seq<char>) -> Scan {
    let tail = keyword.skip(1);
    if tail.is_prefix_of(s) {
        Scan::Accepted { text: keyword, rest: s.skip(tail.len() as int) }
    } else {
        Scan::Rejected { rest: s }
    }
}

/// Whether `c` continues a run of digits: a digit, or an underscore that
/// separates groups of digits.
pub open spec fn in_digit_run(c: char) -> bool {
    is_digit(c) || c == '_'
}

/// How many characters the run of digits at the front of `s` takes.
pub open spec fn digit_run_len(s: Seq<char>) -> nat
    decreases s.len(),
{
    if s.len() > 0 && in_digit_run(s[0]) {
        1 + digit_run_len(s.skip(1))
    } else {
        0
    }
}

/// `s` without its underscores.
pub open spec fn strip_underscores(s: Seq<char>) -> Seq<char> {
    s.filter(|c: char| c != '_')
}

/// The digits of the run at the front of `s`.
pub open spec fn digit_run(s: Seq<char>) -> Seq<char> {
    strip_underscores(s.take(digit_run_len(s) as int))
}

/// The input behind the run of digits at the front of `s`.
pub open spec fn after_digit_run(s: Seq<char>) -> Seq<char> {
    s.skip(digit_run_len(s) as int)
}

/// The integer part of a number, sign included. `first` has been taken
/// already and `s` follows it. A sign must be followed by a character, which
/// is taken whatever it is; a leading `0` stands alone.
pub open spec fn lex_integer(first: char, s: Seq<char>) -> Scan {
    if first == '-' {
        if s.len() == 0 {
            Scan::Rejected { rest: s }
        } else {
            lex_digits_after(seq!['-', s[0]], s[0], s.skip(1))
        }
    } else {
        lex_digits_after(seq![first], first, s)
    }
}

/// The digits of the integer part, given its first character `lead`, the
/// text so far and the input `s` behind `lead`.
pub open spec fn lex_digits_after(prefix: Seq<char>, lead: char, s: Seq<char>) -> Scan {
    if lead == '0' {
        Scan::Accepted { text: prefix, rest: s }
    } else if is_digit(lead) {
        Scan::Accepted { text: prefix + digit_run(s), rest: after_digit_run(s) }
    } else {
        Scan::Rejected { rest: s }
    }
}

/// The fractional part, if `s` starts with a dot: the dot and at least one
/// digit.
pub open spec fn lex_fraction(s: Seq<char>) -> Scan {
    if s.len() > 0 && s[0] == '.' {
        let digits = digit_run(s.skip(1));
        let rest = after_digit_run(s.skip(1));
        if digits.len() == 0 {
            Scan::Rejected { rest }
        } else {
            Scan::Accepted { text: seq!['.'] + digits, rest }
        }
    } else {
        Scan::Accepted { text: Seq::empty(), rest: s }
    }
}

/// The exponent, if `s` starts with `e` or `E`: the marker, an optional sign
/// and at least one digit.
pub open spec fn lex_exponent(s: Seq<char>) -> Scan {
    if s.len() > 0 && (s[0] == 'e' || s[0] == 'E') {
        let signed = s.len() > 1 && (s[1] == '+' || s[1] == '-');
        let head = if signed { seq![s[0], s[1]] } else { seq![s[0]] };
        let body = s.skip(head.len() as int);
        let digits = digit_run(body);
        let rest = after_digit_run(body);
        if digits.len() == 0 {
            Scan::Rejected { rest }
        } else {
            Scan::Accepted { text: head + digits, rest }
        }
    } else {
        Scan::Accepted { text: Seq::empty(), rest: s }
    }
}

/// A whole number literal whose first character `first` has been taken
/// already: integer part, then fraction, then exponent.
pub open spec fn lex_number(first: char, s: Seq<char>) -> Scan {
    match lex_integer(first, s) {
        Scan::Rejected { rest } => Scan::Rejected { rest },
        Scan::Accepted { text: integer, rest } => match lex_fraction(rest) {
            Scan::Rejected { rest } => Scan::Rejected { rest },
            Scan::Accepted { text: fraction, rest } => match lex_exponent(rest) {
                Scan::Rejected { rest } => Scan::Rejected { rest },
                Scan::Accepted { text: exponent, rest } => Scan::Accepted {
                    text: integer + fraction + exponent,
                    rest,
                },
            },
        },
    }
}

/// A token of one character: `c`, with `rest` behind it.
pub open spec fn single(kind: TokenKind, c: char, rest: Seq<char>) -> Step {
    Step::Produced { token: TokenView { kind, raw: seq![c] }, rest }
}

/// The step that a keyword match makes.
pub open spec fn keyword_step(kind: LiteralKind, keyword: Seq<char>, s: Seq<char>) -> Step {
    match lex_keyword(keyword, s) {
        Scan::Accepted { text, rest } => Step::Produced {
            token: TokenView { kind: TokenKind::Literal { kind }, raw: text },
            rest,
        },
        Scan::Rejected { rest } => Step::Failed { expected: Expected::Keyword(keyword), rest },
    }
}

/// The step that a number match makes.
pub open spec fn number_step(first: char, s: Seq<char>) -> Step {
    match lex_number(first, s) {
        Scan::Accepted { text, rest } => Step::Produced {
            token: TokenView { kind: TokenKind::Literal { kind: LiteralKind::Number }, raw: text },
            rest,
        },
        Scan::Rejected { rest } => Step::Failed { expected: Expected::Digit, rest },
    }
}

/// What the lexer makes of the front of `s`: the first character decides.
pub open spec fn step(s: Seq<char>) -> Step {
    if s.len() == 0 {
        Step::Exhausted
    } else {
        let c = s[0];
        let rest = s.skip(1);
        if is_whitespace(c) {
            single(TokenKind::Whitespace, c, rest)
        } else if punctuation(c) is Some {
            single(punctuation(c)->0, c, rest)
        } else if c == 'n' {
            keyword_step(LiteralKind::Null, null_text(), rest)
        } else if c == 't' {
            keyword_step(LiteralKind::Boolean, true_text(), rest)
        } else if c == 'f' {
            keyword_step(LiteralKind::Boolean, false_text(), rest)
        } else if is_digit(c) || c == '-' {
            number_step(c, rest)
        } else {
            single(TokenKind::Unknown, c, rest)
        }
    }
}

/// The tokens of `s` in order, up to the end of the input or to the first
/// point where no token can be made.
pub open spec fn tokenize(s: Seq<char>) -> Seq<TokenView>
    decreases s.len(),
    via tokenize_decreases
{
    match step(s) {
        Step::Produced { token, rest } => seq![token] + tokenize(rest),
        _ => Seq::empty(),
    }
}

#[via_fn]
proof fn tokenize_decreases(s: Seq<char>) {
    lemma_step_progress(s);
}

/// The front of `s` that is gone when `rest` is what is left of it.
pub open spec fn taken(s: Seq<char>, rest: Seq<char>) -> Seq<char> {
    s.take(s.len() - rest.len())
}

/// Whether `text` is the front of `s` with its underscores dropped, and
/// `rest` what is left of `s` behind that front.
pub open spec fn spells(s: Seq<char>, text: Seq<char>, rest: Seq<char>) -> bool {
    &&& rest.len() <= s.len()
    &&& s == taken(s, rest) + rest
    &&& text == strip_underscores(taken(s, rest))
}

/// Whether `s` is made of digits alone.
pub open spec fn all_digits(s: Seq<char>) -> bool {
    forall|i: int| 0 <= i < s.len() ==> is_digit(#[trigger] s[i])
}

/// `text` without the minus sign at its front, if it has one.
pub open spec fn unsigned(text: Seq<char>) -> Seq<char> {
    if text.len() > 0 && text[0] == '-' {
        text.skip(1)
    } else {
        text
    }
}

/// Whether `text` reads as an integer: a minus sign or none, then either a
/// single `0`, or a digit from `1` to `9` and any digits behind it.
pub open spec fn is_integer_text(text: Seq<char>) -> bool {
    let digits = unsigned(text);
    digits.len() > 0 && all_digits(digits) && (digits[0] == '0' ==> digits.len() == 1)
}

/// Whether `text` reads as a fractional part, or is empty: a dot, then one
/// digit or more.
pub open spec fn is_fraction_text(text: Seq<char>) -> bool {
    text.len() == 0 || (text.len() > 1 && text[0] == '.' && all_digits(text.skip(1)))
}

/// Whether `text` reads as an exponent, or is empty: `e` or `E`, a sign or
/// none, then one digit or more.
pub open spec fn is_exponent_text(text: Seq<char>) -> bool {
    text.len() == 0 || ((text[0] == 'e' || text[0] == 'E') && {
        let digits = if text.len() > 1 && (text[1] == '+' || text[1] == '-') {
            text.skip(2)
        } else {
            text.skip(1)
        };
        digits.len() > 0 && all_digits(digits)
    })
}

/// Whether `text` reads as a number: an integer, then a fractional part or
/// none, then an exponent or none.
pub open spec fn is_number_text(text: Seq<char>) -> bool {
    exists|integer: Seq<char>, fraction: Seq<char>, exponent: Seq<char>|
        {
            &&& text == integer + fraction + exponent
            &&& #[trigger] is_integer_text(integer)
            &&& #[trigger] is_fraction_text(fraction)
            &&& #[trigger] is_exponent_text(exponent)
        }
}

/// Whether `s` is empty or starts with a character for which `stops` holds.
pub open spec fn ends_or_starts_with(s: Seq<char>, stops: spec_fn(char) -> bool) -> bool {
    s.len() == 0 || stops(s[0])
}

/// Whether a number that reads `integer`, `fraction`, `exponent` is at its
/// end in front of `rest`: `rest` does not start with a character that the
/// number would go on with. Behind the digits of a fraction or an exponent
/// that is a digit or an underscore; behind a fraction also `e` and `E`;
/// behind an integer also a dot, but a lone `0` does not go on with digits
/// or underscores.
pub open spec fn number_ends_before(
    integer: Seq<char>,
    fraction: Seq<char>,
    exponent: Seq<char>,
    rest: Seq<char>,
) -> bool {
    if exponent.len() > 0 {
        ends_or_starts_with(rest, |c: char| !in_digit_run(c))
    } else if fraction.len() > 0 {
        ends_or_starts_with(rest, |c: char| !in_digit_run(c) && c != 'e' && c != 'E')
    } else if unsigned(integer)[0] == '0' {
        ends_or_starts_with(rest, |c: char| c != '.' && c != 'e' && c != 'E')
    } else {
        ends_or_starts_with(rest, |c: char| !in_digit_run(c) && c != '.' && c != 'e' && c != 'E')
    }
}

/// Whether `c` is a character that the grammar has no use for.
pub open spec fn is_unknown(c: char) -> bool {
    &&& !is_whitespace(c)
    &&& punctuation(c) is None
    &&& c != 'n' && c != 't' && c != 'f'
    &&& !is_digit(c) && c != '-'
}

/// Whether the text of `token` is one that its kind can have.
pub open spec fn well_formed(token: TokenView) -> bool {
    match token.kind {
        TokenKind::Whitespace => token.raw.len() == 1 && is_whitespace(token.raw[0]),
        TokenKind::Literal { kind: LiteralKind::Null } => token.raw == null_text(),
        TokenKind::Literal { kind: LiteralKind::Boolean } => {
            token.raw == true_text() || token.raw == false_text()
        },
        TokenKind::Literal { kind: LiteralKind::Number } => is_number_text(token.raw),
        TokenKind::Unknown => token.raw.len() == 1 && is_unknown(token.raw[0]),
        punctuation_kind => {
            token.raw.len() == 1 && punctuation(token.raw[0]) == Some(punctuation_kind)
        },
    }
}

} // verus!
