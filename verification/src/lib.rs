//! Parser-first backends for template strings whose static text is JSON or TOML.
use vstd::prelude::*;

pub mod cursor;
pub mod formatting;
pub mod parse_cache;
pub mod json;
pub mod syntax;
pub mod text;
pub mod toml_backend;
pub mod toml_grammar;
pub mod toml_parser;
pub mod toml_format;

verus! {

} // verus!
