//! A document tree with one canonical wrapper per node handle.
//!
//! A [`Document`] owns an arena of node records, addressed by small integer
//! handles, together with the identity map that records which handles
//! currently have a registered wrapper. A [`Node`] is a non-owning handle into
//! that arena; every operation on it names the document it belongs to.
pub mod options;
pub mod node;
pub mod document;
pub mod serialize;
pub mod laws;

pub use options::{ParseOptions, XmlError};
pub use node::{Node, NodeType};
pub use document::{Attr, Document, NodeData};
