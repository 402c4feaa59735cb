//! A small declarative pattern-matching engine for structured text.
//!
//! A pattern is an ordered sequence of literal fragments and named capture
//! placeholders.  The library compiles such a pattern from a token stream
//! ([`parse::Fmt::parse`]), validates it against the field schema of a target
//! record ([`bind::bind`]), and interprets the bound pattern against input
//! text ([`bind::BoundPattern::match_input`]), extracting a typed value for
//! every field or failing with a structured diagnosis.
//!
//! Text is handled as sequences of characters, so every position the engine
//! works at is a character boundary by construction.

pub mod bind;
pub mod convert;
pub mod engine;
pub mod parse;
pub mod text;
