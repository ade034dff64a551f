//! marklens: markdown to data and back, through one schema that looks like
//! the document it describes. From a schema a document can be validated,
//! extracted to data, rendered from data, scaffolded, and edited in place.

pub mod text;
pub mod schema;
pub mod error;
pub mod doc;
pub mod json;
pub mod parse;
pub mod frontmatter;
pub mod matcher;
pub mod validate;
pub mod render;
pub mod edit;
pub mod formats;
pub mod xml_reader;
pub mod serde_text;
pub mod opaque;
pub mod roundtrip;
pub mod cli;

pub use doc::Span;
pub use error::{EditError, Problem, RenderError, SchemaError};
pub use formats::Format;
pub use json::Json;
pub use parse::parse_schema;
pub use schema::{Card, FieldSchema, FieldType, Head, ListStyle, Match, Node, Regexp, Schema, SchemaOpts};
