//! An in-memory, mutable document-tree library for parsed markup documents.
//!
//! The tree is an arena of nodes addressed by stable indices: parent, sibling
//! and child relationships are stored as indices into the arena, which keeps
//! the ownership graph acyclic by construction. On top of the node store the
//! crate offers a traversal family (ancestors, siblings, descendants,
//! edge-based traversal), the element predicates consumed by a selector
//! matching engine, and a post-parse namespace-normalization pass that
//! rewrites colon-prefixed names into properly namespaced qualified names.

mod attributes;
pub mod iter;
pub mod ns;
pub mod preamble;
pub mod select;
mod text;
mod tree;

pub use attributes::Attribute;
pub use attributes::Attributes;
pub use attributes::ExpandedName;
pub use select::AttrValue;
pub use select::PseudoClass;
pub use select::PseudoElement;
pub use select::Specificity;
pub use tree::Doctype;
pub use tree::DocumentData;
pub use tree::ElementData;
pub use tree::NodeData;
pub use tree::QualName;
pub use tree::QuirksMode;
pub use tree::Tree;
