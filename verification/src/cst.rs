//! Documents and their edits.
pub use crate::document::{parse_document, parse_document_with_config, Document};
pub use crate::emit::Emit;
pub use crate::green::GreenNode;
pub use crate::repair::RepairScope;
pub use crate::stream::{parse_stream, parse_stream_with_config};
pub use crate::syntax::{Elem, SyntaxKind};
