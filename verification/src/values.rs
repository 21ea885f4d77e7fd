//! Typed values: the pluggable codec between a terminal container's value
//! type and the bytes the backend stores.

use vstd::prelude::*;

verus! {

/// A stored value's bytes could not be decoded back to the value type.
#[derive(Clone, Copy, Debug, PartialEq, Eq, Structural)]
pub struct ValueDecodeError;

/// A type storable in a terminal container: a deterministic byte codec.
pub trait StoreValue: Sized {
    /// The bytes that stand for this value in the backend.
    spec fn spec_encoded(&self) -> Seq<u8>;

    /// The byte strings that decode to a value of this type.
    spec fn spec_valid_bytes(b: Seq<u8>) -> bool;

    /// Serializes the value.
    fn encode(&self) -> (r: Vec<u8>)
        ensures
            r@ == self.spec_encoded(),
    ;

    /// Deserializes a value. Exactly the valid byte strings are accepted, and
    /// a decoded value re-serializes to the very bytes it was decoded from.
    fn decode(b: &[u8]) -> (r: Result<Self, ValueDecodeError>)
        ensures
            r is Ok <==> Self::spec_valid_bytes(b@),
            r matches Ok(v) ==> v.spec_encoded() == b@,
    ;

    /// A value's own encoding is always accepted back.
    proof fn lemma_encoded_valid(&self)
        ensures
            Self::spec_valid_bytes(self.spec_encoded()),
    ;

    /// The encoding is injective: no two values share their bytes.
    proof fn lemma_encoding_injective(&self, other: &Self)
        requires
            self.spec_encoded() == other.spec_encoded(),
        ensures
            *self == *other,
    ;
}

/// Value round trip: a value's encoding decodes, and anything that
/// re-encodes to those same bytes is that value — so `decode(encode(v))`
/// can only return `Ok(v)`.
pub proof fn lemma_value_round_trip<V: StoreValue>(v: &V, w: &V)
    requires
        w.spec_encoded() == v.spec_encoded(),
    ensures
        V::spec_valid_bytes(v.spec_encoded()),
        *w == *v,
{
    v.lemma_encoded_valid();
    v.lemma_encoding_injective(w);
}

/// The bytes of a 64-bit unsigned integer, least significant byte first.
pub open spec fn u64_le_bytes(v: u64) -> Seq<u8> {
    Seq::new(8, |i: int| (v >> ((8 * i) as u64)) as u8)
}

impl StoreValue for u64 {
    open spec fn spec_encoded(&self) -> Seq<u8> {
        u64_le_bytes(*self)
    }

    open spec fn spec_valid_bytes(b: Seq<u8>) -> bool {
        b.len() == 8
    }

    fn encode(&self) -> (r: Vec<u8>) {
        let v = *self;
        let mut r: Vec<u8> = Vec::new();
        let mut i: usize = 0;
        while i < 8
            invariant
                0 <= i <= 8,
                r@ == u64_le_bytes(v).take(i as int),
            decreases 8 - i,
        {
            let shift: u64 = 8 * (i as u64);
            r.push((v >> shift) as u8);
            proof {
                assert(u64_le_bytes(v).take(i + 1) =~= u64_le_bytes(v).take(i as int).push(
                    u64_le_bytes(v)[i as int],
                ));
            }
            i = i + 1;
        }
        proof {
            assert(u64_le_bytes(v).take(8) =~= u64_le_bytes(v));
        }
        r
    }

    fn decode(b: &[u8]) -> (r: Result<Self, ValueDecodeError>) {
        if b.len() != 8 {
            return Err(ValueDecodeError);
        }
        let x0 = b[0];
        let x1 = b[1];
        let x2 = b[2];
        let x3 = b[3];
        let x4 = b[4];
        let x5 = b[5];
        let x6 = b[6];
        let x7 = b[7];
        let v: u64 = (x0 as u64) | ((x1 as u64) << 8u64) | ((x2 as u64) << 16u64) | ((x3 as u64)
            << 24u64) | ((x4 as u64) << 32u64) | ((x5 as u64) << 40u64) | ((x6 as u64) << 48u64) | (
        (x7 as u64) << 56u64);
        proof {
            assert((v >> 0u64) as u8 == x0 && (v >> 8u64) as u8 == x1 && (v >> 16u64) as u8 == x2
                && (v >> 24u64) as u8 == x3 && (v >> 32u64) as u8 == x4 && (v >> 40u64) as u8 == x5
                && (v >> 48u64) as u8 == x6 && (v >> 56u64) as u8 == x7) by (bit_vector)
                requires
                    v == (x0 as u64) | ((x1 as u64) << 8u64) | ((x2 as u64) << 16u64) | ((x3 as u64)
                        << 24u64) | ((x4 as u64) << 32u64) | ((x5 as u64) << 40u64) | ((x6 as u64)
                        << 48u64) | ((x7 as u64) << 56u64),
            ;
            assert(u64_le_bytes(v) =~= b@) by {
                assert(u64_le_bytes(v)[0] == (v >> 0u64) as u8);
                assert(u64_le_bytes(v)[1] == (v >> 8u64) as u8);
                assert(u64_le_bytes(v)[2] == (v >> 16u64) as u8);
                assert(u64_le_bytes(v)[3] == (v >> 24u64) as u8);
                assert(u64_le_bytes(v)[4] == (v >> 32u64) as u8);
                assert(u64_le_bytes(v)[5] == (v >> 40u64) as u8);
                assert(u64_le_bytes(v)[6] == (v >> 48u64) as u8);
                assert(u64_le_bytes(v)[7] == (v >> 56u64) as u8);
            }
        }
        Ok(v)
    }

    proof fn lemma_encoded_valid(&self) {
    }

    proof fn lemma_encoding_injective(&self, other: &Self) {
        let a = *self;
        let b = *other;
        assert(u64_le_bytes(a)[0] == u64_le_bytes(b)[0]);
        assert(u64_le_bytes(a)[1] == u64_le_bytes(b)[1]);
        assert(u64_le_bytes(a)[2] == u64_le_bytes(b)[2]);
        assert(u64_le_bytes(a)[3] == u64_le_bytes(b)[3]);
        assert(u64_le_bytes(a)[4] == u64_le_bytes(b)[4]);
        assert(u64_le_bytes(a)[5] == u64_le_bytes(b)[5]);
        assert(u64_le_bytes(a)[6] == u64_le_bytes(b)[6]);
        assert(u64_le_bytes(a)[7] == u64_le_bytes(b)[7]);
        assert(a == b) by (bit_vector)
            requires
                (a >> 0u64) as u8 == (b >> 0u64) as u8,
                (a >> 8u64) as u8 == (b >> 8u64) as u8,
                (a >> 16u64) as u8 == (b >> 16u64) as u8,
                (a >> 24u64) as u8 == (b >> 24u64) as u8,
                (a >> 32u64) as u8 == (b >> 32u64) as u8,
                (a >> 40u64) as u8 == (b >> 40u64) as u8,
                (a >> 48u64) as u8 == (b >> 48u64) as u8,
                (a >> 56u64) as u8 == (b >> 56u64) as u8,
        ;
    }
}

} // verus!
