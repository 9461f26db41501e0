//! A small configuration language: constant definitions, integer
//! expressions, lists and dictionaries, resolved into a tree of values.
//!
//! `syntax` recognises the text and builds a syntax tree; `resolver` says
//! what a node of that tree means against the constants defined so far;
//! `config_parser` resolves nodes, walks the statements of a document and
//! assembles the output dictionary; `value` and `number` hold the value
//! model and the arithmetic; `laws` proves what holds of every document.

pub mod value;
pub mod syntax;
pub mod number;
pub mod resolver;
pub mod config_parser;
pub mod laws;
