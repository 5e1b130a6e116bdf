//! Scope-aware querying over a parsed document tree, plus HTML form
//! semantics: which controls belong to a form, and what value each holds.
//!
//! The document is held in an arena: nodes are addressed by index into a
//! vector, and an element reference is a borrowed tree plus a node index.

pub mod element_ref;
pub mod form;
pub mod selector;
pub mod serialize;
pub mod strutil;
pub mod tree;

pub use element_ref::ElementRef;
pub use element_ref::Select;
pub use element_ref::Text;
pub use form::Form;
pub use selector::Selector;
pub use selector::SelectorParseError;
pub use tree::ElementData;
pub use tree::Node;
pub use tree::Tree;
