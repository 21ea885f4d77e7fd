//! The container framework: a container descriptor is pure metadata (a shape
//! and a storage prefix); binding it to a backend scope yields an accessor.
//!
//! A container is either terminal (an [`item::Item`], holding one value) or
//! recursive (a [`map::StoreMap`], mapping an owned key to an inner
//! container). Composite keys mirror the nesting: one length-prefixed segment
//! per map level, ending at the terminal container.

use vstd::prelude::*;

use crate::keys::KeyDecodeError;
use crate::values::ValueDecodeError;

pub mod item;
pub mod map;

verus! {

/// Typed iteration stopped at an entry that could not be decoded.
#[derive(Clone, Copy, Debug, PartialEq, Eq, Structural)]
pub enum IterError {
    /// A raw key was not a full composite key of the container's shape.
    KeyDecode,
    /// A stored value did not decode to the container's value type.
    ValueDecode,
}

/// What every container shape provides: its composite key and value types,
/// their codecs, and the binding of a storage prefix to an accessor.
pub trait Storable: Sized {
    /// The composite key: a right-nested tuple, one component per map level,
    /// ended by `()` at the terminal container.
    type Key;

    /// The value type stored at the leaves.
    type Value;

    /// The live handle produced by binding this shape to a storage scope.
    type Accessor;

    /// Whether a composite key of this shape parses off the front of `b`.
    spec fn spec_key_valid(b: Seq<u8>) -> bool;

    /// How many leading bytes of `b` that composite key occupies (meaningful
    /// when `b` is valid).
    spec fn spec_key_len(b: Seq<u8>) -> int;

    /// The exact encoding of the composite key `k`.
    spec fn spec_key_bytes(k: &Self::Key) -> Seq<u8>;

    /// The storage prefix an accessor is bound to.
    spec fn spec_accessor_prefix(a: &Self::Accessor) -> Seq<u8>;

    /// The bytes standing for the value `v`.
    spec fn spec_value_encoded(v: &Self::Value) -> Seq<u8>;

    /// The byte strings that decode to a value.
    spec fn spec_value_valid(b: Seq<u8>) -> bool;

    /// Binds this shape to the storage scope under `prefix`.
    fn access_impl(prefix: Vec<u8>) -> (a: Self::Accessor)
        ensures
            Self::spec_accessor_prefix(&a) == prefix@,
    ;

    /// Decodes a composite key off the front of `key`, returning it together
    /// with the number of bytes consumed. Exactly the valid byte strings are
    /// accepted, and the decoded key re-encodes to the very bytes consumed.
    fn decode_key_prefix(key: &[u8]) -> (r: Result<(Self::Key, usize), KeyDecodeError>)
        ensures
            r is Ok <==> Self::spec_key_valid(key@),
            r matches Ok((k, n)) ==> n == Self::spec_key_len(key@) && n <= key@.len()
                && Self::spec_key_bytes(&k) == key@.take(n as int),
    ;

    /// Decodes a composite key, tolerating trailing bytes past it.
    fn decode_key(key: &[u8]) -> (r: Result<Self::Key, KeyDecodeError>)
        ensures
            r is Ok <==> Self::spec_key_valid(key@),
            r matches Ok(k) ==> Self::spec_key_bytes(&k) == key@.take(Self::spec_key_len(key@)),
    {
        match Self::decode_key_prefix(key) {
            Ok((k, _)) => Ok(k),
            Err(e) => Err(e),
        }
    }

    /// Decodes a stored value.
    fn decode_value(value: &[u8]) -> (r: Result<Self::Value, ValueDecodeError>)
        ensures
            r is Ok <==> Self::spec_value_valid(value@),
            r matches Ok(v) ==> Self::spec_value_encoded(&v) == value@,
    ;
}

} // verus!
