//! Rendering core of a regular-expression synthesizer.
//!
//! The crate serializes an immutable expression tree (alternation,
//! concatenation, character class, literal, repetition) into a regular
//! expression string with minimal parenthesization, optional ANSI coloring,
//! metacharacter escaping, Unicode-aware character-class range compression
//! and quantifier synthesis.  It also provides the quantified-literal
//! interval model ([`grapheme::Grapheme`]) whose overlap/split algorithm
//! lets a tree builder merge literal branches that share text but differ
//! in repeat counts.

pub mod color;
pub mod config;
pub mod expression;
pub mod grapheme;
pub mod unicode;
