//! The composite-key codec: one level of a composite key is stored as a
//! single length byte (0–255) followed by exactly that many raw key bytes.
//!
//! The length byte makes decoding unambiguous (no encoded segment is a proper
//! prefix of another) and lets a decoder hand the remainder of a byte string
//! to the next nesting level.

use vstd::prelude::*;

use crate::order::{is_prefix, lemma_lex_lt_prepend, lex_lt};

verus! {

/// The largest key-segment length the single length byte can represent.
pub const MAX_SEGMENT_LEN: usize = 255;

/// A key segment was longer than 255 bytes, so the length prefix cannot
/// represent it.
#[derive(Clone, Copy, Debug, PartialEq, Eq, Structural)]
pub struct KeyLengthError;

/// The byte string one level of a composite key contributes: a length byte
/// followed by the raw key bytes.
pub open spec fn spec_encode_segment(k: Seq<u8>) -> Seq<u8>
    recommends
        k.len() <= MAX_SEGMENT_LEN,
{
    seq![k.len() as u8] + k
}

/// Length-prefixes one key segment, rejecting a segment whose length the
/// length byte cannot represent.
pub fn encode_segment(key: &[u8]) -> (r: Result<Vec<u8>, KeyLengthError>)
    ensures
        key@.len() <= MAX_SEGMENT_LEN ==> (r matches Ok(v) && v@ == spec_encode_segment(key@)),
        key@.len() > MAX_SEGMENT_LEN ==> r is Err,
{
    if key.len() > MAX_SEGMENT_LEN {
        return Err(KeyLengthError);
    }
    let mut v: Vec<u8> = Vec::new();
    v.push(key.len() as u8);
    let mut i: usize = 0;
    while i < key.len()
        invariant
            0 <= i <= key@.len() <= MAX_SEGMENT_LEN,
            v@ == seq![key@.len() as u8] + key@.take(i as int),
        decreases key@.len() - i,
    {
        v.push(key[i]);
        proof {
            assert(key@.take(i + 1) =~= key@.take(i as int).push(key@[i as int]));
            assert(v@.drop_last() + seq![key@[i as int]] =~= v@);
        }
        i = i + 1;
    }
    proof {
        assert(key@.take(key@.len() as int) =~= key@);
    }
    Ok(v)
}

/// Prefix safety: the encoded segments of two distinct sibling keys are never
/// one a byte-prefix of the other, so no valid decode of one key's bytes can
/// be mistaken for another's.
pub proof fn lemma_segment_prefix_safety(a: Seq<u8>, b: Seq<u8>)
    requires
        a.len() <= MAX_SEGMENT_LEN,
        b.len() <= MAX_SEGMENT_LEN,
        a != b,
    ensures
        !is_prefix(spec_encode_segment(a), spec_encode_segment(b)),
{
    let ea = spec_encode_segment(a);
    let eb = spec_encode_segment(b);
    if is_prefix(ea, eb) {
        assert(eb.take(ea.len() as int)[0] == eb[0]);
        assert(a.len() == b.len());
        assert(ea.len() == eb.len());
        assert(eb.take(ea.len() as int) =~= eb);
        assert(a =~= b) by {
            assert(forall|i: int| 0 <= i < a.len() ==> a[i] == ea[i + 1] && b[i] == eb[i + 1]);
        }
    }
}

/// For same-length keys, the length-prefixed encoding keeps the raw byte
/// order: stored sibling entries iterate in ascending raw-key order whenever
/// the keys' own byte encodings are order-preserving.
pub proof fn lemma_segment_order_preserving(a: Seq<u8>, b: Seq<u8>)
    requires
        a.len() == b.len(),
        a.len() <= MAX_SEGMENT_LEN,
    ensures
        lex_lt(spec_encode_segment(a), spec_encode_segment(b)) <==> lex_lt(a, b),
{
    lemma_lex_lt_prepend(seq![a.len() as u8], a, b);
}

} // verus!
