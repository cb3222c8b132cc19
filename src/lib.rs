//! Schema-driven codecs for flat records.
//!
//! A record type is described once by a [`schema::RecordSchema`]: an ordered
//! list of named fields, each either an unsigned 32-bit integer or a UTF-8
//! string, with optional per-field directives. From it the library derives a
//! compact binary encoding and decoding pair and a text rendering that honours
//! the directives (rename, skip, conditional skip).
pub mod schema;
pub mod resolve;
pub mod binary;
pub mod text;
pub mod codec;
