//! What follows from the grammar: the laws of the lexer, each one proved.
//!
//! They say that a token's text is the input that the token took, that a
//! number's text reads as a number and that every number lexes as itself,
//! that keywords match all or nothing, that whitespace is never merged, and
//! that every token takes at least one character.

use crate::grammar::{
    after_digit_run, all_digits, digit_run, digit_run_len, false_text, in_digit_run, is_digit,
    is_exponent_text, is_fraction_text, is_integer_text, is_number_text, is_unknown, is_whitespace,
    lex_exponent, lex_fraction, lex_integer, lex_keyword, lex_number, null_text, number_ends_before,
    punctuation, single, spells, step, strip_underscores, taken, tokenize, true_text, unsigned,
    well_formed, Expected, Scan, Step, TokenView,
};
use crate::lexer::{LiteralKind, TokenKind};
use vstd::prelude::*;

verus! {

/// The run of digits at the front of `s` is the longest prefix of `s` made
/// of digits and underscores.
pub proof fn lemma_digit_run_is_longest(s: Seq<char>)
    ensures
        digit_run_len(s) <= s.len(),
        forall|i: int| 0 <= i < digit_run_len(s) ==> in_digit_run(#[trigger] s[i]),
        digit_run_len(s) < s.len() ==> !in_digit_run(s[digit_run_len(s) as int]),
    decreases s.len(),
{
    if s.len() > 0 && in_digit_run(s[0]) {
        let t = s.skip(1);
        lemma_digit_run_is_longest(t);
        assert forall|i: int| 0 <= i < digit_run_len(s) implies in_digit_run(#[trigger] s[i]) by {
            if i > 0 {
                assert(s[i] == t[i - 1]);
            }
        }
    }
}

/// The run of digits at the front of `s` takes `n` characters if the first
/// `n` all continue a run and the one behind them, if any, does not.
pub proof fn lemma_digit_run_len_is(s: Seq<char>, n: int)
    requires
        0 <= n <= s.len(),
        forall|j: int| 0 <= j < n ==> in_digit_run(#[trigger] s[j]),
        n < s.len() ==> !in_digit_run(s[n]),
    ensures
        digit_run_len(s) == n,
    decreases s.len(),
{
    if n > 0 {
        lemma_digit_run_len_is(s.skip(1), n - 1);
    }
}

/// Stripping underscores from one more character of `s` keeps that
/// character unless it is an underscore.
pub proof fn lemma_strip_underscores_step(s: Seq<char>, n: int)
    requires
        0 <= n < s.len(),
    ensures
        strip_underscores(s.take(n + 1)) == if s[n] == '_' {
            strip_underscores(s.take(n))
        } else {
            strip_underscores(s.take(n)).push(s[n])
        },
{
    assert(s.take(n + 1) == s.take(n).push(s[n]));
    s.take(n).lemma_filter_push(s[n], |c: char| c != '_');
}

/// Text without underscores is left as it is.
pub proof fn lemma_strip_underscores_clean(s: Seq<char>)
    requires
        forall|i: int| 0 <= i < s.len() ==> s[i] != '_',
    ensures
        strip_underscores(s) == s,
    decreases s.len(),
{
    if s.len() > 0 {
        lemma_strip_underscores_clean(s.drop_last());
        lemma_strip_underscores_step(s, s.len() - 1);
        assert(s.take(s.len() as int) == s);
    }
}

/// What is left of the first `n` characters of `s` once the underscores are
/// gone is digits only, if those characters are digits and underscores.
proof fn lemma_stripped_run_is_digits(s: Seq<char>, n: int)
    requires
        0 <= n <= s.len(),
        forall|j: int| 0 <= j < n ==> in_digit_run(#[trigger] s[j]),
    ensures
        forall|i: int|
            0 <= i < strip_underscores(s.take(n)).len() ==> is_digit(
                #[trigger] strip_underscores(s.take(n))[i],
            ),
    decreases n,
{
    if n == 0 {
        s.take(0).lemma_filter_len(|c: char| c != '_');
    } else {
        lemma_stripped_run_is_digits(s, n - 1);
        lemma_strip_underscores_step(s, n - 1);
    }
}

/// The digits of a run are digits, every one of them.
pub proof fn lemma_digit_run_is_digits(s: Seq<char>)
    ensures
        digit_run(s).len() <= digit_run_len(s),
        forall|i: int| 0 <= i < digit_run(s).len() ==> is_digit(#[trigger] digit_run(s)[i]),
{
    lemma_digit_run_is_longest(s);
    lemma_stripped_run_is_digits(s, digit_run_len(s) as int);
}

/// Spelling goes on from part to part: if `a` spells the front of `s` up to
/// `middle` and `b` the front of `middle` up to `rest`, then `a + b` spells
/// the front of `s` up to `rest`.
pub proof fn lemma_spells_concat(
    s: Seq<char>,
    a: Seq<char>,
    middle: Seq<char>,
    b: Seq<char>,
    rest: Seq<char>,
)
    requires
        spells(s, a, middle),
        spells(middle, b, rest),
    ensures
        spells(s, a + b, rest),
{
    assert(taken(s, rest) == taken(s, middle) + taken(middle, rest));
    assert(s == taken(s, rest) + rest);
}

/// A run of digits spells the input that it takes.
pub proof fn lemma_digit_run_spells(s: Seq<char>)
    ensures
        spells(s, digit_run(s), after_digit_run(s)),
{
    lemma_digit_run_is_longest(s);
    let n = digit_run_len(s) as int;
    assert(s == s.take(n) + s.skip(n));
}

/// A text of characters other than underscores, followed by a run of
/// digits, spells the input that both take.
proof fn lemma_head_and_run_spell(s: Seq<char>, head: Seq<char>)
    requires
        head.is_prefix_of(s),
        forall|i: int| 0 <= i < head.len() ==> head[i] != '_',
    ensures
        spells(
            s,
            head + digit_run(s.skip(head.len() as int)),
            after_digit_run(s.skip(head.len() as int)),
        ),
{
    let body = s.skip(head.len() as int);
    lemma_strip_underscores_clean(head);
    assert(s == head + body);
    lemma_digit_run_spells(body);
    lemma_spells_concat(s, head, body, digit_run(body), after_digit_run(body));
}

/// The integer part of a number spells the input that it takes, the first
/// character included.
pub proof fn lemma_integer_spells(first: char, s: Seq<char>)
    ensures
        lex_integer(first, s) matches Scan::Accepted { text, rest } ==> {
            &&& spells(seq![first] + s, text, rest)
            &&& rest.len() <= s.len()
            &&& text.len() > 0
        },
{
    let whole = seq![first] + s;
    if let Scan::Accepted { text, rest } = lex_integer(first, s) {
        let head = if first == '-' {
            seq!['-', s[0]]
        } else {
            seq![first]
        };
        let lead = if first == '-' {
            s[0]
        } else {
            first
        };
        assert(head.is_prefix_of(whole));
        let body = whole.skip(head.len() as int);
        assert(body == if first == '-' {
            s.skip(1)
        } else {
            s
        });
        lemma_digit_run_is_longest(body);
        if lead == '0' {
            lemma_strip_underscores_clean(head);
            assert(whole == head + body);
        } else {
            lemma_head_and_run_spell(whole, head);
        }
    }
}

/// The fractional part of a number spells the input that it takes.
pub proof fn lemma_fraction_spells(s: Seq<char>)
    ensures
        lex_fraction(s) matches Scan::Accepted { text, rest } ==> spells(s, text, rest),
{
    if s.len() > 0 && s[0] == '.' {
        let head = seq!['.'];
        lemma_head_and_run_spell(s, head);
    } else {
        lemma_strip_underscores_clean(Seq::<char>::empty());
        assert(taken(s, s) == Seq::<char>::empty());
    }
}

/// The exponent of a number spells the input that it takes.
pub proof fn lemma_exponent_spells(s: Seq<char>)
    ensures
        lex_exponent(s) matches Scan::Accepted { text, rest } ==> spells(s, text, rest),
{
    if s.len() > 0 && (s[0] == 'e' || s[0] == 'E') {
        let signed = s.len() > 1 && (s[1] == '+' || s[1] == '-');
        let head = if signed {
            seq![s[0], s[1]]
        } else {
            seq![s[0]]
        };
        lemma_head_and_run_spell(s, head);
    } else {
        lemma_strip_underscores_clean(Seq::<char>::empty());
        assert(taken(s, s) == Seq::<char>::empty());
    }
}

/// The text of a number is the input that the number took, the first
/// character included, with the underscores dropped and nothing else
/// changed.
pub proof fn lemma_number_spells(first: char, s: Seq<char>)
    ensures
        lex_number(first, s) matches Scan::Accepted { text, rest } ==> {
            &&& spells(seq![first] + s, text, rest)
            &&& rest.len() <= s.len()
            &&& text.len() > 0
        },
{
    let whole = seq![first] + s;
    if let Scan::Accepted { text: integer, rest: r1 } = lex_integer(first, s) {
        lemma_integer_spells(first, s);
        if let Scan::Accepted { text: fraction, rest: r2 } = lex_fraction(r1) {
            lemma_fraction_spells(r1);
            lemma_spells_concat(whole, integer, r1, fraction, r2);
            if let Scan::Accepted { text: exponent, rest: r3 } = lex_exponent(r2) {
                lemma_exponent_spells(r2);
                lemma_spells_concat(whole, integer + fraction, r2, exponent, r3);
            }
        }
    }
}

/// The text of a number holds no underscore.
pub proof fn lemma_number_has_no_underscore(first: char, s: Seq<char>)
    ensures
        lex_number(first, s) matches Scan::Accepted { text, .. } ==> forall|i: int|
            0 <= i < text.len() ==> text[i] != '_',
{
    lemma_number_spells(first, s);
}

/// A text followed by a run's digits, cut behind the text, is those digits.
proof fn lemma_digits_behind_head(head: Seq<char>, s: Seq<char>)
    ensures
        (head + digit_run(s)).skip(head.len() as int) == digit_run(s),
        all_digits(digit_run(s)),
{
    lemma_digit_run_is_digits(s);
}

/// The integer part of a number reads as an integer.
pub proof fn lemma_integer_reads_as_integer(first: char, s: Seq<char>)
    ensures
        lex_integer(first, s) matches Scan::Accepted { text, .. } ==> is_integer_text(text),
{
    if let Scan::Accepted { text, .. } = lex_integer(first, s) {
        if first == '-' {
            lemma_digits_behind_head(seq![s[0]], s.skip(1));
        } else {
            lemma_digits_behind_head(seq![first], s);
        }
    }
}

/// The fractional part of a number reads as one.
pub proof fn lemma_fraction_reads_as_fraction(s: Seq<char>)
    ensures
        lex_fraction(s) matches Scan::Accepted { text, .. } ==> is_fraction_text(text),
{
    if s.len() > 0 && s[0] == '.' {
        lemma_digits_behind_head(seq!['.'], s.skip(1));
    }
}

/// The exponent of a number reads as one.
pub proof fn lemma_exponent_reads_as_exponent(s: Seq<char>)
    ensures
        lex_exponent(s) matches Scan::Accepted { text, .. } ==> is_exponent_text(text),
{
    if s.len() > 0 && (s[0] == 'e' || s[0] == 'E') {
        if s.len() > 1 && (s[1] == '+' || s[1] == '-') {
            lemma_digits_behind_head(seq![s[0], s[1]], s.skip(2));
        } else {
            lemma_digits_behind_head(seq![s[0]], s.skip(1));
        }
    }
}

/// The text of a number reads as a number.
pub proof fn lemma_number_reads_as_number(first: char, s: Seq<char>)
    ensures
        lex_number(first, s) matches Scan::Accepted { text, .. } ==> is_number_text(text),
{
    lemma_integer_reads_as_integer(first, s);
    if let Scan::Accepted { rest: after_integer, .. } = lex_integer(first, s) {
        lemma_fraction_reads_as_fraction(after_integer);
        if let Scan::Accepted { rest: after_fraction, .. } = lex_fraction(after_integer) {
            lemma_exponent_reads_as_exponent(after_fraction);
        }
    }
}

/// Digits in front of input that does not go on with a digit or an
/// underscore are a run of their own.
proof fn lemma_run_of_digits(digits: Seq<char>, tail: Seq<char>)
    requires
        all_digits(digits),
        tail.len() > 0 ==> !in_digit_run(tail[0]),
    ensures
        digit_run(digits + tail) == digits,
        after_digit_run(digits + tail) == tail,
{
    let s = digits + tail;
    let n = digits.len() as int;
    lemma_digit_run_len_is(s, n);
    assert(s.take(n) == digits);
    lemma_strip_underscores_clean(digits);
}

/// An integer in front of input that it does not go on with is matched as
/// it stands.
proof fn lemma_integer_lexes_as_itself(integer: Seq<char>, tail: Seq<char>)
    requires
        is_integer_text(integer),
        unsigned(integer)[0] != '0' && tail.len() > 0 ==> !in_digit_run(tail[0]),
    ensures
        lex_integer(integer[0], (integer + tail).skip(1)) == (Scan::Accepted {
            text: integer,
            rest: tail,
        }),
{
    let digits = unsigned(integer);
    let s = (integer + tail).skip(1);
    let sign = integer.take(integer.len() - digits.len());
    if digits[0] == '0' {
        assert(integer == sign + seq![digits[0]]);
    } else {
        lemma_run_of_digits(digits.skip(1), tail);
        assert(integer == sign + seq![digits[0]] + digits.skip(1));
    }
    if integer[0] == '-' {
        assert(s.skip(1) == digits.skip(1) + tail);
        assert(sign + seq![digits[0]] == seq!['-', s[0]]);
    } else {
        assert(s == digits.skip(1) + tail);
    }
}

/// A fractional part in front of input that it does not go on with is
/// matched as it stands; so is none, in front of input without a dot.
proof fn lemma_fraction_lexes_as_itself(fraction: Seq<char>, tail: Seq<char>)
    requires
        is_fraction_text(fraction),
        tail.len() > 0 ==> if fraction.len() > 0 {
            !in_digit_run(tail[0])
        } else {
            tail[0] != '.'
        },
    ensures
        lex_fraction(fraction + tail) == (Scan::Accepted { text: fraction, rest: tail }),
{
    let s = fraction + tail;
    if fraction.len() > 0 {
        let digits = fraction.skip(1);
        assert(s.skip(1) == digits + tail);
        lemma_run_of_digits(digits, tail);
        assert(fraction == seq!['.'] + digits);
    } else {
        assert(fraction == Seq::<char>::empty());
    }
}

/// An exponent in front of input that it does not go on with is matched as
/// it stands; so is none, in front of input without an `e` or `E`.
proof fn lemma_exponent_lexes_as_itself(exponent: Seq<char>, tail: Seq<char>)
    requires
        is_exponent_text(exponent),
        tail.len() > 0 ==> if exponent.len() > 0 {
            !in_digit_run(tail[0])
        } else {
            tail[0] != 'e' && tail[0] != 'E'
        },
    ensures
        lex_exponent(exponent + tail) == (Scan::Accepted { text: exponent, rest: tail }),
{
    let s = exponent + tail;
    if exponent.len() > 0 {
        let signed = exponent.len() > 1 && (exponent[1] == '+' || exponent[1] == '-');
        let head = if signed {
            seq![exponent[0], exponent[1]]
        } else {
            seq![exponent[0]]
        };
        let digits = exponent.skip(head.len() as int);
        assert(s.skip(head.len() as int) == digits + tail);
        lemma_run_of_digits(digits, tail);
        assert(exponent == head + digits);
    } else {
        assert(exponent == Seq::<char>::empty());
    }
}

/// Every number lexes as itself: text that reads as a number, in front of
/// input that the number does not go on with, is one token of kind number
/// whose text is that text, and that input is what is left.
pub proof fn lemma_number_lexes_as_itself(
    integer: Seq<char>,
    fraction: Seq<char>,
    exponent: Seq<char>,
    rest: Seq<char>,
)
    requires
        is_integer_text(integer),
        is_fraction_text(fraction),
        is_exponent_text(exponent),
        number_ends_before(integer, fraction, exponent, rest),
    ensures
        step(integer + fraction + exponent + rest) == (Step::Produced {
            token: TokenView {
                kind: TokenKind::Literal { kind: LiteralKind::Number },
                raw: integer + fraction + exponent,
            },
            rest,
        }),
{
    let input = integer + fraction + exponent + rest;
    let after_integer = fraction + exponent + rest;
    let after_fraction = exponent + rest;
    assert(input == integer + after_integer);
    assert(after_integer == fraction + after_fraction);
    lemma_integer_lexes_as_itself(integer, after_integer);
    lemma_fraction_lexes_as_itself(fraction, after_fraction);
    lemma_exponent_lexes_as_itself(exponent, rest);
}

/// The text of a well-formed token is not empty.
pub proof fn lemma_well_formed_has_text(token: TokenView)
    requires
        well_formed(token),
    ensures
        token.raw.len() > 0,
{
}

/// Every token that a step produces is well-formed.
pub proof fn lemma_step_token_well_formed(s: Seq<char>)
    ensures
        step(s) matches Step::Produced { token, .. } ==> well_formed(token),
{
    if s.len() > 0 {
        lemma_number_reads_as_number(s[0], s.skip(1));
    }
}

/// A token is made of the front of the input, at least one character of it,
/// and its text is what it took: character for character, but that a number
/// drops its underscores.
pub proof fn lemma_token_spells_input(s: Seq<char>)
    ensures
        step(s) matches Step::Produced { token, rest } ==> {
            &&& rest.len() < s.len()
            &&& s == taken(s, rest) + rest
            &&& token.raw.len() > 0
            &&& token.raw == if token.kind == (TokenKind::Literal { kind: LiteralKind::Number }) {
                strip_underscores(taken(s, rest))
            } else {
                taken(s, rest)
            }
        },
{
    if let Step::Produced { token, rest } = step(s) {
        let c = s[0];
        let t = s.skip(1);
        assert(s == seq![c] + t);
        if c == 'n' || c == 't' || c == 'f' {
            let keyword = token.raw;
            assert(keyword == seq![c] + keyword.skip(1));
        } else if is_digit(c) || c == '-' {
            lemma_number_spells(c, t);
        }
    }
}

/// Every token takes at least one character: the input behind it is
/// shorter than the input it was made from.
pub proof fn lemma_step_progress(s: Seq<char>)
    ensures
        step(s) matches Step::Produced { rest, .. } ==> rest.len() < s.len(),
{
    lemma_token_spells_input(s);
}

/// Empty input holds no token.
pub proof fn lemma_empty_input()
    ensures
        step(Seq::<char>::empty()) == Step::Exhausted,
        tokenize(Seq::<char>::empty()) == Seq::<TokenView>::empty(),
{
}

/// A punctuation character alone is one token of its kind, whose text is
/// that character, and nothing comes behind it.
pub proof fn lemma_punctuation_alone(c: char)
    requires
        punctuation(c) is Some,
    ensures
        step(seq![c]) == single(punctuation(c)->0, c, Seq::empty()),
        step(Seq::<char>::empty()) == Step::Exhausted,
        tokenize(seq![c]) == seq![TokenView { kind: punctuation(c)->0, raw: seq![c] }],
{
    assert(seq![c].skip(1) == Seq::<char>::empty());
    assert(tokenize(seq![c]) == seq![TokenView { kind: punctuation(c)->0, raw: seq![c] }]
        + tokenize(Seq::empty()));
}

/// A whitespace character at the front of the input is a token by itself,
/// whatever follows it.
pub proof fn lemma_whitespace_is_single(s: Seq<char>)
    requires
        s.len() > 0,
        is_whitespace(s[0]),
    ensures
        step(s) == single(TokenKind::Whitespace, s[0], s.skip(1)),
        tokenize(s) == seq![TokenView { kind: TokenKind::Whitespace, raw: seq![s[0]] }] + tokenize(
            s.skip(1),
        ),
{
}

/// A character that the grammar has no use for is a token by itself, of
/// kind `Unknown`, whatever follows it.
pub proof fn lemma_unknown_is_single(s: Seq<char>)
    requires
        s.len() > 0,
        is_unknown(s[0]),
    ensures
        step(s) == single(TokenKind::Unknown, s[0], s.skip(1)),
{
}

/// A keyword at the front of the input is a token of its kind, whatever
/// follows it.
pub proof fn lemma_keyword_lexes_as_itself(rest: Seq<char>)
    ensures
        step(null_text() + rest) == (Step::Produced {
            token: TokenView {
                kind: TokenKind::Literal { kind: LiteralKind::Null },
                raw: null_text(),
            },
            rest,
        }),
        step(true_text() + rest) == (Step::Produced {
            token: TokenView {
                kind: TokenKind::Literal { kind: LiteralKind::Boolean },
                raw: true_text(),
            },
            rest,
        }),
        step(false_text() + rest) == (Step::Produced {
            token: TokenView {
                kind: TokenKind::Literal { kind: LiteralKind::Boolean },
                raw: false_text(),
            },
            rest,
        }),
{
    lemma_keyword_in_front(null_text(), rest);
    lemma_keyword_in_front(true_text(), rest);
    lemma_keyword_in_front(false_text(), rest);
}

/// A keyword in front of `rest`, once its first character is gone, matches
/// and leaves `rest`.
proof fn lemma_keyword_in_front(keyword: Seq<char>, rest: Seq<char>)
    requires
        keyword.len() > 0,
    ensures
        lex_keyword(keyword, (keyword + rest).skip(1)) == (Scan::Accepted { text: keyword, rest }),
{
    let tail = keyword.skip(1);
    let s = (keyword + rest).skip(1);
    assert(s.skip(tail.len() as int) == rest);
}

/// A keyword matches all or nothing: input that starts like `keyword` is a
/// token if the whole keyword stands at its front; if the keyword is cut
/// short or spelled otherwise, it is a failure that names the keyword and
/// leaves the input behind its first character.
pub proof fn lemma_keyword_all_or_nothing(keyword: Seq<char>, s: Seq<char>)
    requires
        keyword == null_text() || keyword == true_text() || keyword == false_text(),
        s.len() > 0,
        s[0] == keyword[0],
    ensures
        if keyword.is_prefix_of(s) {
            step(s) is Produced
        } else {
            step(s) == (Step::Failed { expected: Expected::Keyword(keyword), rest: s.skip(1) })
        },
{
    let tail = keyword.skip(1);
    let t = s.skip(1);
    if !keyword.is_prefix_of(s) && tail.is_prefix_of(t) {
        let front = s.subrange(0, keyword.len() as int);
        assert forall|i: int| 0 <= i < keyword.len() implies keyword[i] == front[i] by {
            if i > 0 {
                assert(t.subrange(0, tail.len() as int)[i - 1] == t[i - 1]);
            }
        }
    }
}

/// Whitespace is never merged: input made of whitespace alone gives one
/// token for each of its characters, in order.
pub proof fn lemma_whitespace_never_merges(s: Seq<char>)
    requires
        forall|i: int| 0 <= i < s.len() ==> is_whitespace(#[trigger] s[i]),
    ensures
        tokenize(s).len() == s.len(),
        forall|i: int|
            0 <= i < s.len() ==> #[trigger] tokenize(s)[i] == (TokenView {
                kind: TokenKind::Whitespace,
                raw: seq![s[i]],
            }),
    decreases s.len(),
{
    if s.len() > 0 {
        let t = s.skip(1);
        lemma_whitespace_never_merges(t);
    }
}

/// The tokens of an input are well-formed, each of them, and there are no
/// more of them than the input has characters.
pub proof fn lemma_tokens_are_well_formed(s: Seq<char>)
    ensures
        tokenize(s).len() <= s.len(),
        forall|i: int| 0 <= i < tokenize(s).len() ==> well_formed(#[trigger] tokenize(s)[i]),
    decreases s.len(),
{
    if let Step::Produced { token, rest } = step(s) {
        lemma_step_progress(s);
        lemma_step_token_well_formed(s);
        lemma_tokens_are_well_formed(rest);
    }
}

} // verus!
