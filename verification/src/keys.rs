//! Typed keys: the types whose values can stand at one nesting level of a
//! composite key.

use vstd::prelude::*;

use vstd::utf8::{
    decode_utf8, decode_utf8_encode_utf8, encode_utf8, encode_utf8_decode_utf8,
    encode_utf8_valid_utf8, valid_utf8,
};

verus! {

/// A raw key could not be decoded: too short for its declared length, or its
/// bytes fail the owned key type's own validation.
#[derive(Clone, Copy, Debug, PartialEq, Eq, Structural)]
pub struct KeyDecodeError;

/// A type usable as one level of a composite key.
pub trait Key {
    /// The bytes this key contributes to a stored composite key.
    spec fn spec_bytes(&self) -> Seq<u8>;

    /// Serializes the key.
    fn bytes(&self) -> (r: &[u8])
        ensures
            r@ == self.spec_bytes(),
    ;
}

/// A key type whose values can also be decoded back out of stored key bytes,
/// as range iteration requires.
pub trait OwnedKey: Key + Sized {
    /// The byte strings that decode to a key of this type.
    spec fn spec_valid_bytes(b: Seq<u8>) -> bool;

    /// Deserializes a key. Exactly the valid byte strings are accepted, and a
    /// decoded key re-serializes to the very bytes it was decoded from.
    fn from_bytes(b: &[u8]) -> (r: Result<Self, KeyDecodeError>)
        ensures
            r is Ok <==> Self::spec_valid_bytes(b@),
            r matches Ok(k) ==> k.spec_bytes() == b@,
    ;

    /// A key's own serialization is always accepted back.
    proof fn lemma_bytes_valid(&self)
        ensures
            Self::spec_valid_bytes(self.spec_bytes()),
    ;
}

/// Relies on str::from_utf8: it accepts exactly the valid UTF-8 byte strings,
/// and the accepted string consists of the characters those bytes encode.
#[verifier::external_body]
fn utf8_to_string(b: &[u8]) -> (r: Option<String>)
    ensures
        r matches Some(s) ==> valid_utf8(b@) && s@ == decode_utf8(b@),
        r is None ==> !valid_utf8(b@),
{
    core::str::from_utf8(b).ok().map(String::from)
}

impl Key for String {
    open spec fn spec_bytes(&self) -> Seq<u8> {
        encode_utf8(self@)
    }

    fn bytes(&self) -> (r: &[u8]) {
        self.as_str().as_bytes()
    }
}

impl Key for str {
    open spec fn spec_bytes(&self) -> Seq<u8> {
        encode_utf8(self@)
    }

    fn bytes(&self) -> (r: &[u8]) {
        self.as_bytes()
    }
}

impl OwnedKey for String {
    open spec fn spec_valid_bytes(b: Seq<u8>) -> bool {
        valid_utf8(b)
    }

    fn from_bytes(b: &[u8]) -> (r: Result<Self, KeyDecodeError>) {
        match utf8_to_string(b) {
            Some(s) => {
                proof {
                    decode_utf8_encode_utf8(b@);
                }
                Ok(s)
            },
            None => Err(KeyDecodeError),
        }
    }

    proof fn lemma_bytes_valid(&self) {
        encode_utf8_valid_utf8(self@);
    }
}

/// String keys serialize injectively: two strings with the same key bytes are
/// the same sequence of characters, so decoding a stored key cannot confuse
/// two distinct keys.
pub proof fn lemma_string_key_injective(a: Seq<char>, b: Seq<char>)
    requires
        encode_utf8(a) == encode_utf8(b),
    ensures
        a == b,
{
    encode_utf8_decode_utf8(a);
    encode_utf8_decode_utf8(b);
}

} // verus!
