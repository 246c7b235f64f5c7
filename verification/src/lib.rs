//! A reader for line-oriented, level-numbered genealogical documents.
//!
//! A document is a sequence of text lines. Each line carries a nesting level,
//! and either a tag with optional content or the name of an entity that other
//! lines can refer to. The nesting of the units is rebuilt from the level
//! numbers alone, the entities are gathered in a registry keyed by their
//! identifiers, and the references between them are resolved.

pub mod ancestry;
pub mod common;
pub mod error;
pub mod gedex;
pub mod kinship;
pub mod laws;
pub mod line;
pub mod number;
pub mod parser;
pub mod pattern;
pub mod reader;
pub mod record;
pub mod registry;
pub mod roundtrip;
pub mod state;
pub mod tag;
