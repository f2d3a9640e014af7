//! A streaming tokenizer for JSON-like text.
//!
//! The [`lexer::Lexer`] turns the characters of an input source into
//! classified tokens, one at a time and on demand: punctuation, the keywords
//! `null`, `true` and `false`, numbers, single whitespace characters, and
//! single characters of no known kind. Strings are not lexed as such, and no
//! token is turned into a value: a token keeps the text that it was made of.
//!
//! What a token is, for any input, is defined in [`grammar`] as plain
//! functions on sequences of characters, and [`laws`] proves what follows
//! from that definition. The executable lexer is proved against it. An
//! input source is anything that implements [`input_reader::ReadInput`].

pub mod grammar;
pub mod input_reader;
pub mod laws;
pub mod lexer;
