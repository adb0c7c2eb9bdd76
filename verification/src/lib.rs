//! A streaming, namespace-aware XML parsing core.
//!
//! The crate is organised around three subsystems:
//!
//! * a restartable byte-to-token lexer that accepts arbitrarily small input
//!   chunks and emits complete tokens as soon as they can be parsed
//!   unambiguously;
//! * a namespace-scoped tree builder that turns the token stream into nested
//!   element values;
//! * a namespace resolution set implementing lexically-scoped prefix lookup
//!   with parent chaining.

pub mod attention;
pub mod bind;
pub mod decode;
pub mod element;
pub mod error;
pub mod grammar;
pub mod iq;
pub mod jids;
pub mod namespace_set;
pub mod ns;
pub mod parser;
pub mod token;
pub mod tokenizer;
pub mod tree_builder;
