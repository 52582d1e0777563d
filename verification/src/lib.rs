//! Lossless, path-addressed editing of YAML text.
//!
//! A [`cst::Document`] keeps its source byte for byte. Every edit replaces a
//! range of bytes, found by a path, and leaves the others alone; an edit that
//! is refused leaves the document as it was.
pub mod blocks;
pub mod boundaries;
pub mod census;
pub mod composition;
pub mod config;
pub mod cst;
pub mod decode;
pub mod diagnostic;
pub mod document;
pub mod edits;
pub mod emit;
pub mod entry;
pub mod error;
pub mod extents;
pub mod folding;
pub mod grammar;
pub mod green;
pub mod growth;
pub mod included;
pub mod inclusion;
pub mod indents;
pub mod insertion;
pub mod laws;
pub mod lexis;
pub mod lines;
pub mod load;
pub mod mappings;
pub mod model;
pub mod oracle;
pub mod ownership;
pub mod path;
pub mod refusals;
pub mod relative;
pub mod repair;
pub mod report;
pub mod resolve;
pub mod scalar;
pub mod siblings;
pub mod site;
pub mod sites;
pub mod spans;
pub mod spelling;
pub mod stream;
pub mod styles;
pub mod successes;
pub mod syntax;
pub mod text;
pub mod tiling;
pub mod tokens;
pub mod typing;
pub mod value;

pub use crate::config::ParserConfig;
pub use crate::diagnostic::{
    Diagnostic, DiagnosticCode, DiagnosticLabel, DiagnosticSeverity, SourceSpan,
};
pub use crate::error::{Error, Location, Operation, Refusal};
pub use crate::load::{from_str, from_str_with_config};
pub use crate::report::Spanned;
pub use crate::site::{FlowStyle, ScalarStyle};
pub use crate::value::{Mapping, Number, TaggedValue, Value};
