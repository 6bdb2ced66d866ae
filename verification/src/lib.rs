//! A lenient parser for a JSON-like data language.
//!
//! Text is first split into tokens by [`tokenize`]; a recursive-descent walk
//! over the tokens, [`parse_value`] with [`parse_object`] and
//! [`parse_array`], then builds a [`Value`] tree. [`parse`] does both, and
//! [`try_parse`] does both for any text at all.
//!
//! Every contract is stated over mathematical models: the token texts of
//! `lexer::tokens_of`, the grammar of `parser::value_at`, and the `Tree` that
//! a `Value` stands for.

pub mod lexer;
pub mod parser;
pub mod strict;
pub mod value;

pub use lexer::tokenize;
pub use parser::{parse, parse_array, parse_object, parse_value, try_parse};
pub use value::{Fields, Tree, Value};
