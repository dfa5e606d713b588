//! Turns game definition markup into cross-referenced records.
//!
//! A file's text is cut into markup events, the events are assembled into
//! element trees, each top-level tree inside the `Defs` container becomes a
//! record, and a final pass over all records resolves the references
//! between them.

pub mod builder;
pub mod dataset;
pub mod element;
pub mod index;
pub mod laws;
pub mod parser;
pub mod profile;
pub mod ranking;
pub mod reader;
pub mod record;
pub mod references;
pub mod render;
pub mod resolver;
pub mod sorted;
pub mod text;
