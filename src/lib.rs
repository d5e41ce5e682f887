//! A codec for the Jce tag-length-value wire format: a builder that writes it, a parser
//! that reads it, the field multiplexer of structs, and a schema-less `Value` with its
//! total order. `laws` states how encoding and decoding relate.

pub mod builder;
pub mod deserializer;
pub mod error;
pub mod format;
pub mod laws;
pub mod names;
pub mod order;
pub mod parser;
pub mod serializer;
pub mod types;
pub mod value;

pub use builder::Jcebuilder;
pub use deserializer::{Deserializer, TagsAccess};
pub use error::{Error, Result};
pub use parser::JceParser;
pub use serializer::{Serializer, StructSerializer};
pub use types::JceType;
pub use value::Value;
