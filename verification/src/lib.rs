//! A brace-delimited, quoted key/value text format: a parser with multi-file
//! import flattening, a shape-driven encoder and decoder between the tree and
//! typed values, and a text-level indentation formatter.

pub mod deserializer;
pub mod error;
pub mod kv;
pub mod laws;
pub mod parser;
pub mod serializer;
pub mod shape;
pub mod text;
