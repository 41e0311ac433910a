//! Incremental parser for delimited (CSV-style) byte streams.
//!
//! A configurable dialect (delimiter, quote, escape) drives a per-byte
//! tokenizer whose state persists across input chunks.  Complete records are
//! assembled, blank records are dropped, and results are consumed either as
//! one in-memory table or as successive batches pushed to a caller.
//!
//! `model` holds the mathematical transition system every contract is
//! stated against; `parser` the executable tokenizer; `session` the
//! streaming driver and the full collector; `trusted` the two standard
//! library calls taken on their documentation; `laws` and `baseline` the
//! properties proved of the model.

pub mod baseline;
pub mod laws;
pub mod model;
pub mod parser;
pub mod session;
pub mod trusted;
