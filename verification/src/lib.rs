//! A schema-to-TypeScript declaration generator.
//!
//! The library parses a line-oriented schema language of `message { ... }`
//! and `enum { ... }` blocks into a schema document, maps the schema's
//! scalar types onto TypeScript types, and renders the document as a
//! TypeScript type-declaration file.

pub mod convert;
pub mod laws;
pub mod parser;
pub mod paths;
pub mod render;
pub mod scalar;
pub mod schema;
pub mod text;
