//! A verified implementation of the HAL (Hypertext Application Language)
//! hypermedia document format: JSON documents with reserved `_links` and
//! `_embedded` sections layered over an arbitrary application payload.
//!
//! The crate models untyped JSON as [`json::JsonValue`], builds HAL documents
//! with [`resource::HalResource`] and [`link::HalLink`], and provides a codec
//! between resources and JSON text.

pub mod codec;
pub mod error;
pub mod json;
pub mod laws;
pub mod link;
pub mod one_or_many;
pub mod order;
pub mod parse;
pub mod resource;
pub mod text;

pub use error::{HalError, HalResult};
pub use json::JsonValue;
pub use link::HalLink;
pub use one_or_many::OneOrMany;
pub use resource::HalResource;
