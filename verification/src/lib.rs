//! A small backtracking regular-expression engine.
//!
//! [`parser::parse`] compiles a pattern string into a [`parser::RE`] tree and
//! [`matcher::matches`] decides whether a text contains a match for such a
//! tree. Both are verified against mathematical models: the grammar in
//! [`syntax`] and the matching relation in [`semantics`]; [`search`] connects
//! the relation with the order in which the matcher works.
//!
//! The pattern language: literal characters, `.`, the escapes `\d`, `\w` and
//! `\1` to `\9`, character classes `[...]` and `[^...]` of literal members,
//! groups `(...)` with alternatives separated by `|`, the quantifiers `*`, `+`
//! and `?`, and the anchors `^` and `$`.

pub mod syntax;
pub mod parser;
pub mod semantics;
pub mod search;
pub mod matcher;
