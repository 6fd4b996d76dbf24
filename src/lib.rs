//! Tokenizer and expression parser for a dual-syntax template language:
//! modern `{ expr }` / `{{ expr }}` / `{{{ if expr }}}` directives and legacy
//! `<!-- IF expr -->` comment directives.
//!
//! - `span`: byte ranges of the source and the scanning primitives.
//! - `expression`: the expression grammar and its parsers.
//! - `tokens`: the token recognizers.
//! - `anchors`: the anchor scan, done by an Aho-Corasick automaton.
//! - `tokenize`: the top-level tokenizer, with coverage and no-empty-text.
//! - `nesting`: span containment and re-parsing.
//! - `escapes`: what escaping every opener does to the tokens.
pub mod anchors;
pub mod escapes;
pub mod span;
pub mod expression;
pub mod nesting;
pub mod tokenize;
pub mod tokens;

pub use expression::{expression, Expression, PathPart};
pub use span::Span;
pub use tokenize::tokens;
pub use tokens::Token;
