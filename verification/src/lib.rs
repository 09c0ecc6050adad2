//! Canonical serialization and semantic hashing of JSON-like values.
//!
//! A [`Value`] is canonicalized by recursively ordering object keys and
//! homogeneous primitive arrays, then serializing to one compact textual
//! form; the semantic hash is the SHA-256 digest of that form's UTF-8
//! bytes. Two values with the same semantic content yield the same
//! canonical string and hash regardless of construction order.

pub mod value;
pub mod deepsort;
pub mod ser;
pub mod digest;
pub mod api;
pub mod laws;
pub mod order;
pub mod sorting;

pub use value::Number;
pub use value::HASH_ALGORITHM;
pub use value::ENCODING;
pub use value::Value;
pub use value::GValue;
pub use value::ConstitutionalError;
pub use api::canonicalize;
pub use api::semantic_hash;
pub use api::verify_semantic_hash;
pub use api::canonically_equal;
