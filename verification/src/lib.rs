//! Pattern-keyed maps over digit strings.
//!
//! A pattern such as `"12[34]*5"` describes a family of digit strings:
//! plain digits match themselves, a bracket group offers alternatives, and
//! the quantifiers `*` and `+` allow repetition of one chosen alternative.
//! The tokenizer expands a pattern into the concrete token sequences it
//! denotes, and the automaton node tree absorbs every sequence of every
//! registered pattern into one shared structure that classifies a query
//! string and yields the value stored for the pattern it matches.
//!
//! A plain digit trie ([`map::DigitMap`]) keyed by exact digit strings is
//! also provided for lookups without patterns.

pub mod digits;
pub mod error;
pub mod laws;
pub mod map;
pub mod matcher;
pub mod model;
pub mod node;
pub mod tokenizer;
