//! An in-memory tree for XML documents: parse text into it through the xml-rs reader, or build it
//! from a sequence of XML events; find, change and take out children and attributes; walk it in
//! pre-order or post-order; and write it back as events or, through the xml-rs writer, as text.
pub mod attribute;
pub mod builder;
pub mod element;
pub mod event;
pub mod laws;
pub mod namespace;
pub mod traverse;
pub mod walk;
pub mod writer;

pub use attribute::{AttributeMap, AttributeName};
pub use builder::{build_nodes, ParseError};
pub use element::{AttributePredicate, Element, ElementPredicate, XMLNode};
pub use event::{EmitterConfig, Event, ParserConfig, QualifiedName};
pub use namespace::Namespace;
pub use walk::{PostOrderWalk, PreOrderWalk};
