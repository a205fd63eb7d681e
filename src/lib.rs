//! Resolution of enum variants from a stream of markup events, and the
//! extraction of each variant's content in the shape the caller asks for.

pub mod error;
pub mod event;
pub mod reader;
pub mod var;

pub use error::DeError;
pub use event::DeEvent;
pub use reader::Deserializer;
pub use var::{EnumAccess, VariantAccess, VariantName, PRIMITIVE_PREFIX};
