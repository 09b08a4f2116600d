//! HTML document model with CSS selection, traversal, mutation and
//! serialization. Every operation states its result in its contract, and
//! the properties that relate operations are proved in `properties`.

pub mod text;
pub mod dom;
pub mod document;
pub mod node;
pub mod error;
pub mod selector;
pub mod selector_parse;
pub mod query;
pub mod html_token;
pub mod html_build;
pub mod serialize;
pub mod properties;
pub mod conformance;
pub mod collection;
pub mod css;

pub use document::HtmlDocument;
pub use node::{Node, TextOpts};
pub use serialize::SerializeOpts;
pub use error::Error;
pub use query::Selector;
pub use collection::Collection;
pub use css::StyleSheet;
