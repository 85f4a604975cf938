//! An in-memory boolean property index over compressed sets of 32-bit
//! element identifiers.
//!
//! Each named property owns a compressed identifier set (a roaring bitmap);
//! boolean expressions over property names are parsed, evaluated against the
//! index, and the resulting identifier sets are returned.  The index can be
//! encoded to and decoded from two portable formats, and a small executor
//! layer bounds request admission.

pub mod backends;
pub mod cis;
pub mod encoding;
pub mod executor;
pub mod expression;
pub mod index;
pub mod laws;
pub mod ndjson;
pub mod operations;
pub mod parser;
pub mod server;
pub mod text;
pub mod utils;
