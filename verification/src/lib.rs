//! Parsing of comma-separated, optionally double-quoted records into typed
//! values, with per-line rejection of malformed input.
//!
//! The core is a two-state tokenizer for one line of text ([`splitter`]) and
//! the positional assembly of its fields against a fixed schema ([`record`]).
//! Accepted records can be reduced to a derived key and counted ([`aggregate`]).

pub mod aggregate;
pub mod numbers;
pub mod record;
pub mod splitter;
