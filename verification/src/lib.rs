//! Deterministic, schema-driven password derivation.
//!
//! A schema is a small regular-expression-like description of the shape of a
//! password. The crate counts exactly how many strings a schema can produce,
//! decodes an index below that count into the string it stands for, and draws
//! such an index from a master secret and a salt.

pub mod cardinality;
pub mod charset;
pub mod count;
pub mod error;
pub mod generate;
pub mod grammar;
pub mod keystream;
pub mod language;
pub mod parser;
pub mod pipeline;
pub mod radix;
pub mod salt;
pub mod schema;
pub mod words;
