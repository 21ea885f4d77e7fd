//! Typed containers over a flat, ordered, byte-oriented key-value store.
//!
//! Application code addresses nested, strongly typed data (a map of maps of
//! scalars, and so on) through container descriptors and accessors, while the
//! backing store only ever sees flat byte-string keys. A composite logical
//! key is laid out as the container root prefix followed by one
//! length-prefixed segment per nesting level, which keeps decoding
//! unambiguous and keeps every nested container inside its own slice of the
//! key space.

pub mod bin_storage;
pub mod bytes;
pub mod branch;
pub mod codec;
pub mod containers;
pub mod keys;
pub mod mem;
pub mod order;
pub mod values;
