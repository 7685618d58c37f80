//! A reader for a restricted subset of JSON: `null`, `true`, `false`, strings
//! without escapes, decimal numbers without exponent, arrays and objects.
//!
//! [`tokenize`] cuts a text into tokens and [`parser`] builds a [`Value`]
//! from them. What both compute is defined on sequences of characters in
//! [`tokenize`], [`number`] and [`grammar`]. [`whitespace`] proves that
//! whitespace between tokens is insignificant. [`document`] takes the texts
//! of the format apart: [`read_back`] proves that such a text holds the
//! value that was meant, [`written`] that no other text holds a value, and
//! [`rejected`] with which errors texts fail that come close.

pub mod document;
pub mod grammar;
pub mod lexing;
pub mod number;
pub mod parser;
pub mod read_back;
pub mod rejected;
pub mod stream;
pub mod text;
pub mod tokenize;
pub mod value;
pub mod whitespace;
pub mod written;

pub use number::Number;
pub use parser::{Parser, ParsingError};
pub use tokenize::{is_whitespace, Token, TokenizeError, Tokenizer};
pub use value::{Object, Value, ValueError};
