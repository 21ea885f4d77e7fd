//! The recursive container: maps an owned key type to an inner container,
//! which may itself be terminal or recursive.
//!
//! A map entry's key contributes one length-prefixed segment to the composite
//! key; the child container lives under the map's prefix followed by that
//! segment, so nesting is prefix branching all the way down.

use vstd::prelude::*;

use core::marker::PhantomData;
use std::borrow::Borrow;

use crate::bin_storage::{in_range, opt_bound, range_entries, IterableStorage};
use crate::branch::{branch_hi, branch_lo, lemma_branch_range, prefix_successor};
use crate::bytes::{clone_bytes, concat_bytes};
use crate::codec::{encode_segment, spec_encode_segment, MAX_SEGMENT_LEN};
use crate::containers::{IterError, Storable};
use crate::keys::{Key, KeyDecodeError, OwnedKey};
use crate::order::{
    is_prefix, lemma_lex_lt_irreflexive, lemma_lex_lt_prepend, lemma_lex_lt_trans,
    lemma_prefix_split, lex_lt,
};
use crate::values::ValueDecodeError;

verus! {

/// A descriptor for a map from `K` to an inner container `V`, stored under a
/// fixed prefix. Pure metadata: it owns no storage and may be copied freely.
pub struct StoreMap<K, V> {
    prefix: Vec<u8>,
    phantom: PhantomData<(K, V)>,
}

impl<K: OwnedKey, V: Storable> StoreMap<K, V> {
    /// The descriptor's storage prefix.
    pub closed spec fn spec_prefix(&self) -> Seq<u8> {
        self.prefix@
    }

    /// A descriptor for the map stored under `prefix`.
    pub fn new(prefix: &[u8]) -> (r: Self)
        ensures
            r.spec_prefix() == prefix@,
    {
        StoreMap { prefix: vstd::slice::slice_to_vec(prefix), phantom: PhantomData }
    }

    /// Binds the descriptor to its storage scope.
    pub fn access(&self) -> (a: MapAccess<K, V>)
        ensures
            a.spec_prefix() == self.spec_prefix(),
    {
        Self::access_impl(clone_bytes(&self.prefix))
    }
}

/// A live handle on a map's storage scope: entries live under the handle's
/// prefix, each behind its encoded key segment.
pub struct MapAccess<K, V> {
    prefix: Vec<u8>,
    phantom: PhantomData<(K, V)>,
}

/// A raw key belongs to an accessor's range query: it is stored, starts with
/// the accessor's prefix, and its logical remainder lies between the caller's
/// bounds.
pub open spec fn in_scope(
    m: Map<Seq<u8>, Seq<u8>>,
    p: Seq<u8>,
    lo: Option<Seq<u8>>,
    hi: Option<Seq<u8>>,
    rk: Seq<u8>,
) -> bool {
    m.contains_key(rk) && is_prefix(p, rk) && in_range(rk.skip(p.len() as int), lo, hi)
}

/// The logical remainder of a raw key is one whole composite key of the
/// map's shape, nothing shorter and nothing longer.
pub open spec fn key_part_clean<K: OwnedKey, V: Storable>(s: Seq<u8>) -> bool {
    StoreMap::<K, V>::spec_key_valid(s) && StoreMap::<K, V>::spec_key_len(s) == s.len()
}

/// A stored entry decodes in full: its stripped key is exactly one composite
/// key and its value bytes decode.
pub open spec fn entry_clean<K: OwnedKey, V: Storable>(
    m: Map<Seq<u8>, Seq<u8>>,
    p: Seq<u8>,
    rk: Seq<u8>,
) -> bool {
    key_part_clean::<K, V>(rk.skip(p.len() as int)) && StoreMap::<K, V>::spec_value_valid(m[rk])
}

/// Every stored entry of the queried range decodes in full.
pub open spec fn scope_clean<K: OwnedKey, V: Storable>(
    m: Map<Seq<u8>, Seq<u8>>,
    p: Seq<u8>,
    lo: Option<Seq<u8>>,
    hi: Option<Seq<u8>>,
) -> bool {
    forall|rk: Seq<u8>| #[trigger] in_scope(m, p, lo, hi, rk) ==> entry_clean::<K, V>(m, p, rk)
}

/// `list` is exactly the decoded image of the stored entries of the queried
/// range, in ascending raw-key order.
pub open spec fn pairs_ok<K: OwnedKey, V: Storable>(
    m: Map<Seq<u8>, Seq<u8>>,
    p: Seq<u8>,
    lo: Option<Seq<u8>>,
    hi: Option<Seq<u8>>,
    list: Seq<((K, V::Key), V::Value)>,
) -> bool {
    &&& forall|i: int, j: int| #![trigger list[i], list[j]]
        0 <= i < j < list.len() ==> lex_lt(
            StoreMap::<K, V>::spec_key_bytes(&list[i].0),
            StoreMap::<K, V>::spec_key_bytes(&list[j].0),
        )
    &&& forall|i: int| #![trigger list[i]]
        0 <= i < list.len() ==> m.contains_pair(
            p + StoreMap::<K, V>::spec_key_bytes(&list[i].0),
            StoreMap::<K, V>::spec_value_encoded(&list[i].1),
        ) && in_range(StoreMap::<K, V>::spec_key_bytes(&list[i].0), lo, hi)
    &&& forall|rk: Seq<u8>|
        #[trigger] in_scope(m, p, lo, hi, rk) ==> exists|i: int|
            0 <= i < list.len() && p + StoreMap::<K, V>::spec_key_bytes(
                &#[trigger] list[i].0,
            ) == rk
}

impl<K: OwnedKey, V: Storable> MapAccess<K, V> {
    /// The storage prefix this handle is scoped to.
    pub closed spec fn spec_prefix(&self) -> Seq<u8> {
        self.prefix@
    }

    /// The storage prefix of the child container at the key whose bytes are
    /// `kb`: this prefix, then the length-prefixed segment.
    pub open spec fn spec_child_prefix(&self, kb: Seq<u8>) -> Seq<u8> {
        self.spec_prefix() + spec_encode_segment(kb)
    }

    /// A read handle on the child container at `key`, scoped under this map's
    /// prefix plus the encoded key segment.
    pub fn entry<Q>(&self, key: &Q) -> (a: V::Accessor) where K: Borrow<Q>, Q: Key + ?Sized
        requires
            key.spec_bytes().len() <= MAX_SEGMENT_LEN,
        ensures
            V::spec_accessor_prefix(&a) == self.spec_child_prefix(key.spec_bytes()),
    {
        let kb = key.bytes();
        let seg = match encode_segment(kb) {
            Ok(s) => s,
            Err(_) => vstd::pervasive::unreached(),
        };
        let child = concat_bytes(self.prefix.as_slice(), seg.as_slice());
        V::access_impl(child)
    }

    /// A write handle on the child container at `key`; the same scope as
    /// [`Self::entry`], for call sites that hold the backend exclusively.
    pub fn entry_mut<Q>(&self, key: &Q) -> (a: V::Accessor) where K: Borrow<Q>, Q: Key + ?Sized
        requires
            key.spec_bytes().len() <= MAX_SEGMENT_LEN,
        ensures
            V::spec_accessor_prefix(&a) == self.spec_child_prefix(key.spec_bytes()),
    {
        self.entry(key)
    }

    /// The decoded entries of the queried range, in ascending raw-key order;
    /// the first entry that does not decode in full stops the whole walk with
    /// an error. `start` and `end` bound the logical (prefix-stripped) key
    /// space.
    pub fn pairs<S: IterableStorage>(
        &self,
        storage: &S,
        start: Option<&[u8]>,
        end: Option<&[u8]>,
    ) -> (r: Result<Vec<((K, V::Key), V::Value)>, IterError>)
        ensures
            ({
                let m = storage.contents();
                let p = self.spec_prefix();
                let lo = opt_bound(start);
                let hi = opt_bound(end);
                &&& (r matches Ok(list) ==> pairs_ok::<K, V>(m, p, lo, hi, list@))
                &&& (r is Ok <==> scope_clean::<K, V>(m, p, lo, hi))
                &&& (r matches Err(e) ==> exists|rk: Seq<u8>|
                    {
                        &&& #[trigger] in_scope(m, p, lo, hi, rk)
                        &&& !entry_clean::<K, V>(m, p, rk)
                        &&& forall|rk2: Seq<u8>|
                            #[trigger] in_scope(m, p, lo, hi, rk2) && lex_lt(rk2, rk)
                                ==> entry_clean::<K, V>(m, p, rk2)
                        &&& (e == IterError::ValueDecode <==> key_part_clean::<K, V>(
                            rk.skip(p.len() as int),
                        ))
                    })
            }),
    {
        let ghost m = storage.contents();
        let ghost p = self.prefix@;
        let ghost slo = opt_bound(start);
        let ghost shi = opt_bound(end);

        let lo_vec: Vec<u8> = match start {
            Some(s) => concat_bytes(self.prefix.as_slice(), s),
            None => clone_bytes(&self.prefix),
        };
        proof {
            assert(lo_vec@ == branch_lo(p, slo)) by {
                if start is None {
                    assert(lo_vec@ =~= p);
                }
            }
        }
        let hi_vec: Option<Vec<u8>> = match end {
            Some(e) => Some(concat_bytes(self.prefix.as_slice(), e)),
            None => prefix_successor(self.prefix.as_slice()),
        };
        let raw = match &hi_vec {
            Some(h) => storage.pairs(Some(lo_vec.as_slice()), Some(h.as_slice())),
            None => storage.pairs(Some(lo_vec.as_slice()), None),
        };
        let ghost dv = raw.deep_view();
        proof {
            assert(range_entries(m, Some(branch_lo(p, slo)), branch_hi(p, shi), dv));
        }

        let plen = self.prefix.len();
        let mut out: Vec<((K, V::Key), V::Value)> = Vec::new();
        let mut i: usize = 0;
        while i < raw.len()
            invariant
                m == storage.contents(),
                p == self.prefix@,
                slo == opt_bound(start),
                shi == opt_bound(end),
                plen == p.len(),
                dv == raw.deep_view(),
                dv.len() == raw@.len(),
                range_entries(m, Some(branch_lo(p, slo)), branch_hi(p, shi), dv),
                0 <= i <= dv.len(),
                out@.len() == i,
                forall|a: int| #![trigger out@[a]] #![trigger dv[a]]
                    0 <= a < i ==> dv[a].0 == p + StoreMap::<K, V>::spec_key_bytes(&out@[a].0)
                        && StoreMap::<K, V>::spec_value_encoded(&out@[a].1) == dv[a].1
                        && entry_clean::<K, V>(m, p, dv[a].0),
            decreases dv.len() - i,
        {
            proof {
                assert(raw@[i as int].0.deep_view() =~= raw@[i as int].0@);
                assert(raw@[i as int].1.deep_view() =~= raw@[i as int].1@);
                assert(m.contains_pair(dv[i as int].0, dv[i as int].1) && in_range(
                    dv[i as int].0,
                    Some(branch_lo(p, slo)),
                    branch_hi(p, shi),
                ));
                lemma_branch_range(p, slo, shi, dv[i as int].0);
                lemma_prefix_split(p, dv[i as int].0);
            }
            let ghost rk = dv[i as int].0;
            let ghost stripped_spec = rk.skip(p.len() as int);
            let stripped = vstd::slice::slice_subrange(raw[i].0.as_slice(), plen, raw[i].0.len());
            proof {
                assert(stripped@ =~= stripped_spec);
            }
            let decoded = StoreMap::<K, V>::decode_key_prefix(stripped);
            match decoded {
                Ok((kk, n)) => {
                    if n != stripped.len() {
                        proof {
                            lemma_first_failure::<K, V>(m, p, slo, shi, dv, i as int);
                            assert(!key_part_clean::<K, V>(stripped_spec));
                            assert(in_scope(m, p, slo, shi, rk) && !entry_clean::<K, V>(m, p, rk));
                            assert(!scope_clean::<K, V>(m, p, slo, shi));
                            assert(in_scope(
                                storage.contents(),
                                self.spec_prefix(),
                                opt_bound(start),
                                opt_bound(end),
                                rk,
                            ));
                            assert(!scope_clean::<K, V>(
                                storage.contents(),
                                self.spec_prefix(),
                                opt_bound(start),
                                opt_bound(end),
                            ));
                        }
                        return Err(IterError::KeyDecode);
                    }
                    match V::decode_value(raw[i].1.as_slice()) {
                        Ok(vv) => {
                            proof {
                                assert(stripped_spec.take(n as int) =~= stripped_spec);
                                assert(rk == p + StoreMap::<K, V>::spec_key_bytes(&(kk, vv).0));
                            }
                            out.push((kk, vv));
                        },
                        Err(_) => {
                            proof {
                                lemma_first_failure::<K, V>(m, p, slo, shi, dv, i as int);
                                assert(m.contains_pair(rk, dv[i as int].1));
                                assert(m[rk] == dv[i as int].1);
                                assert(key_part_clean::<K, V>(stripped_spec)) by {
                                    assert(stripped_spec.take(n as int) =~= stripped_spec);
                                }
                                assert(!StoreMap::<K, V>::spec_value_valid(m[rk]));
                                assert(in_scope(m, p, slo, shi, rk) && !entry_clean::<K, V>(
                                    m,
                                    p,
                                    rk,
                                ));
                                assert(!scope_clean::<K, V>(m, p, slo, shi));
                                assert(in_scope(
                                    storage.contents(),
                                    self.spec_prefix(),
                                    opt_bound(start),
                                    opt_bound(end),
                                    rk,
                                ));
                                assert(!scope_clean::<K, V>(
                                    storage.contents(),
                                    self.spec_prefix(),
                                    opt_bound(start),
                                    opt_bound(end),
                                ));
                            }
                            return Err(IterError::ValueDecode);
                        },
                    }
                },
                Err(_) => {
                    proof {
                        lemma_first_failure::<K, V>(m, p, slo, shi, dv, i as int);
                        assert(!StoreMap::<K, V>::spec_key_valid(stripped_spec));
                        assert(!key_part_clean::<K, V>(stripped_spec));
                        assert(in_scope(m, p, slo, shi, rk) && !entry_clean::<K, V>(m, p, rk));
                        assert(!scope_clean::<K, V>(m, p, slo, shi));
                    }
                    return Err(IterError::KeyDecode);
                },
            }
            i = i + 1;
        }
        proof {
            assert forall|rk: Seq<u8>| #[trigger] in_scope(m, p, slo, shi, rk) implies (exists|
                j: int,
            | 0 <= j < dv.len() && #[trigger] dv[j].0 == rk) by {
                lemma_branch_range(p, slo, shi, rk);
            }
            assert(scope_clean::<K, V>(m, p, slo, shi)) by {
                assert forall|rk: Seq<u8>| #[trigger] in_scope(m, p, slo, shi, rk) implies
                    entry_clean::<K, V>(m, p, rk) by {
                    let j = choose|j: int| 0 <= j < dv.len() && #[trigger] dv[j].0 == rk;
                    assert(entry_clean::<K, V>(m, p, dv[j].0));
                }
            }
            assert(pairs_ok::<K, V>(m, p, slo, shi, out@)) by {
                assert forall|a: int, b: int| #![trigger out@[a], out@[b]]
                    0 <= a < b < out@.len() implies lex_lt(
                    StoreMap::<K, V>::spec_key_bytes(&out@[a].0),
                    StoreMap::<K, V>::spec_key_bytes(&out@[b].0),
                ) by {
                    assert(lex_lt(dv[a].0, dv[b].0));
                    lemma_lex_lt_prepend(
                        p,
                        StoreMap::<K, V>::spec_key_bytes(&out@[a].0),
                        StoreMap::<K, V>::spec_key_bytes(&out@[b].0),
                    );
                }
                assert forall|a: int| #![trigger out@[a]] 0 <= a < out@.len() implies m.contains_pair(
                    p + StoreMap::<K, V>::spec_key_bytes(&out@[a].0),
                    StoreMap::<K, V>::spec_value_encoded(&out@[a].1),
                ) && in_range(StoreMap::<K, V>::spec_key_bytes(&out@[a].0), slo, shi) by {
                    assert(m.contains_pair(dv[a].0, dv[a].1));
                    lemma_branch_range(p, slo, shi, dv[a].0);
                    crate::order::lemma_concat_prefix(
                        p,
                        StoreMap::<K, V>::spec_key_bytes(&out@[a].0),
                    );
                }
                assert forall|rk: Seq<u8>| #[trigger] in_scope(m, p, slo, shi, rk) implies exists|
                    a: int,
                |
                    0 <= a < out@.len() && p + StoreMap::<K, V>::spec_key_bytes(
                        &#[trigger] out@[a].0,
                    ) == rk by {
                    let j = choose|j: int| 0 <= j < dv.len() && #[trigger] dv[j].0 == rk;
                    assert(p + StoreMap::<K, V>::spec_key_bytes(&out@[j].0) == rk);
                }
            }
        }
        Ok(out)
    }

    /// The typed range walk under its short name: as [`Self::pairs`].
    pub fn iter<S: IterableStorage>(
        &self,
        storage: &S,
        start: Option<&[u8]>,
        end: Option<&[u8]>,
    ) -> (r: Result<Vec<((K, V::Key), V::Value)>, IterError>)
        ensures
            ({
                let m = storage.contents();
                let p = self.spec_prefix();
                let lo = opt_bound(start);
                let hi = opt_bound(end);
                &&& (r matches Ok(list) ==> pairs_ok::<K, V>(m, p, lo, hi, list@))
                &&& (r is Ok <==> scope_clean::<K, V>(m, p, lo, hi))
                &&& (r matches Err(e) ==> exists|rk: Seq<u8>|
                    {
                        &&& #[trigger] in_scope(m, p, lo, hi, rk)
                        &&& !entry_clean::<K, V>(m, p, rk)
                        &&& forall|rk2: Seq<u8>|
                            #[trigger] in_scope(m, p, lo, hi, rk2) && lex_lt(rk2, rk)
                                ==> entry_clean::<K, V>(m, p, rk2)
                        &&& (e == IterError::ValueDecode <==> key_part_clean::<K, V>(
                            rk.skip(p.len() as int),
                        ))
                    })
            }),
    {
        self.pairs(storage, start, end)
    }

    /// The decoded keys of the queried range, in ascending raw-key order; the
    /// walk decodes whole entries and stops at the first failure.
    pub fn keys<S: IterableStorage>(
        &self,
        storage: &S,
        start: Option<&[u8]>,
        end: Option<&[u8]>,
    ) -> (r: Result<Vec<(K, V::Key)>, IterError>)
        ensures
            ({
                let m = storage.contents();
                let p = self.spec_prefix();
                let lo = opt_bound(start);
                let hi = opt_bound(end);
                &&& (r matches Ok(ks) ==> exists|list: Seq<((K, V::Key), V::Value)>|
                    pairs_ok::<K, V>(m, p, lo, hi, list) && ks@ =~= list.map_values(
                        |e: ((K, V::Key), V::Value)| e.0,
                    ))
                &&& (r is Ok <==> scope_clean::<K, V>(m, p, lo, hi))
            }),
    {
        match self.pairs(storage, start, end) {
            Ok(list) => {
                let ghost ldv = list@;
                let mut rev: Vec<(K, V::Key)> = Vec::new();
                let mut src = list;
                while src.len() > 0
                    invariant
                        src@ =~= ldv.take(src@.len() as int),
                        rev@.len() == ldv.len() - src@.len(),
                        forall|a: int| #![trigger rev@[a]]
                            0 <= a < rev@.len() ==> rev@[a] == ldv[ldv.len() - 1 - a].0,
                    decreases src@.len(),
                {
                    match src.pop() {
                        Some((kk, _)) => {
                            rev.push(kk);
                        },
                        None => {},
                    }
                    proof {
                        assert(src@ =~= ldv.take(src@.len() as int));
                    }
                }
                let mut ks: Vec<(K, V::Key)> = Vec::new();
                while rev.len() > 0
                    invariant
                        rev@.len() + ks@.len() == ldv.len(),
                        forall|a: int| #![trigger rev@[a]]
                            0 <= a < rev@.len() ==> rev@[a] == ldv[ldv.len() - 1 - a].0,
                        forall|a: int| #![trigger ks@[a]]
                            0 <= a < ks@.len() ==> ks@[a] == ldv[a].0,
                    decreases rev@.len(),
                {
                    match rev.pop() {
                        Some(kk) => {
                            ks.push(kk);
                        },
                        None => {},
                    }
                }
                proof {
                    assert(ks@ =~= ldv.map_values(|e: ((K, V::Key), V::Value)| e.0));
                }
                Ok(ks)
            },
            Err(e) => Err(e),
        }
    }

    /// The decoded values of the queried range, in ascending raw-key order;
    /// the walk decodes whole entries and stops at the first failure.
    pub fn values<S: IterableStorage>(
        &self,
        storage: &S,
        start: Option<&[u8]>,
        end: Option<&[u8]>,
    ) -> (r: Result<Vec<V::Value>, IterError>)
        ensures
            ({
                let m = storage.contents();
                let p = self.spec_prefix();
                let lo = opt_bound(start);
                let hi = opt_bound(end);
                &&& (r matches Ok(vs) ==> exists|list: Seq<((K, V::Key), V::Value)>|
                    pairs_ok::<K, V>(m, p, lo, hi, list) && vs@ =~= list.map_values(
                        |e: ((K, V::Key), V::Value)| e.1,
                    ))
                &&& (r is Ok <==> scope_clean::<K, V>(m, p, lo, hi))
            }),
    {
        match self.pairs(storage, start, end) {
            Ok(list) => {
                let ghost ldv = list@;
                let mut rev: Vec<V::Value> = Vec::new();
                let mut src = list;
                while src.len() > 0
                    invariant
                        src@ =~= ldv.take(src@.len() as int),
                        rev@.len() == ldv.len() - src@.len(),
                        forall|a: int| #![trigger rev@[a]]
                            0 <= a < rev@.len() ==> rev@[a] == ldv[ldv.len() - 1 - a].1,
                    decreases src@.len(),
                {
                    match src.pop() {
                        Some((_, vv)) => {
                            rev.push(vv);
                        },
                        None => {},
                    }
                    proof {
                        assert(src@ =~= ldv.take(src@.len() as int));
                    }
                }
                let mut vs: Vec<V::Value> = Vec::new();
                while rev.len() > 0
                    invariant
                        rev@.len() + vs@.len() == ldv.len(),
                        forall|a: int| #![trigger rev@[a]]
                            0 <= a < rev@.len() ==> rev@[a] == ldv[ldv.len() - 1 - a].1,
                        forall|a: int| #![trigger vs@[a]]
                            0 <= a < vs@.len() ==> vs@[a] == ldv[a].1,
                    decreases rev@.len(),
                {
                    match rev.pop() {
                        Some(vv) => {
                            vs.push(vv);
                        },
                        None => {},
                    }
                }
                proof {
                    assert(vs@ =~= ldv.map_values(|e: ((K, V::Key), V::Value)| e.1));
                }
                Ok(vs)
            },
            Err(e) => Err(e),
        }
    }
}

/// At the point iteration stops, every smaller in-scope raw key was already
/// decoded in full: the failing entry is the first failure of the walk.
proof fn lemma_first_failure<K: OwnedKey, V: Storable>(
    m: Map<Seq<u8>, Seq<u8>>,
    p: Seq<u8>,
    lo: Option<Seq<u8>>,
    hi: Option<Seq<u8>>,
    dv: Seq<(Seq<u8>, Seq<u8>)>,
    i: int,
)
    requires
        range_entries(m, Some(branch_lo(p, lo)), branch_hi(p, hi), dv),
        0 <= i < dv.len(),
        forall|a: int| #![trigger dv[a]] 0 <= a < i ==> entry_clean::<K, V>(m, p, dv[a].0),
    ensures
        forall|rk2: Seq<u8>|
            #[trigger] in_scope(m, p, lo, hi, rk2) && lex_lt(rk2, dv[i].0) ==> entry_clean::<K, V>(
                m,
                p,
                rk2,
            ),
        in_scope(m, p, lo, hi, dv[i].0),
{
    lemma_branch_range(p, lo, hi, dv[i].0);
    assert forall|rk2: Seq<u8>|
        #[trigger] in_scope(m, p, lo, hi, rk2) && lex_lt(rk2, dv[i].0) implies entry_clean::<K, V>(
        m,
        p,
        rk2,
    ) by {
        lemma_branch_range(p, lo, hi, rk2);
        let j = choose|j: int| 0 <= j < dv.len() && #[trigger] dv[j].0 == rk2;
        if j > i {
            assert(lex_lt(dv[i].0, dv[j].0));
            lemma_lex_lt_trans(rk2, dv[i].0, dv[j].0);
            lemma_lex_lt_irreflexive(rk2);
        } else if j == i {
            lemma_lex_lt_irreflexive(rk2);
        }
        assert(entry_clean::<K, V>(m, p, dv[j].0));
    }
}

impl<K: OwnedKey, V: Storable> Storable for StoreMap<K, V> {
    type Key = (K, V::Key);

    type Value = V::Value;

    type Accessor = MapAccess<K, V>;

    open spec fn spec_key_valid(b: Seq<u8>) -> bool {
        &&& b.len() >= 1
    &&& b.len() >= 1 + (b[0] as int)
        &&& K::spec_valid_bytes(b.subrange(1, 1 + (b[0] as int)))
        &&& V::spec_key_valid(b.skip(1 + (b[0] as int)))
    }

    open spec fn spec_key_len(b: Seq<u8>) -> int {
        1 + (b[0] as int) + V::spec_key_len(b.skip(1 + (b[0] as int)))
    }

    open spec fn spec_key_bytes(k: &(K, V::Key)) -> Seq<u8> {
        spec_encode_segment(k.0.spec_bytes()) + V::spec_key_bytes(&k.1)
    }

    open spec fn spec_accessor_prefix(a: &MapAccess<K, V>) -> Seq<u8> {
        a.spec_prefix()
    }

    open spec fn spec_value_encoded(v: &V::Value) -> Seq<u8> {
        V::spec_value_encoded(v)
    }

    open spec fn spec_value_valid(b: Seq<u8>) -> bool {
        V::spec_value_valid(b)
    }

    fn access_impl(prefix: Vec<u8>) -> (a: MapAccess<K, V>) {
        MapAccess { prefix, phantom: PhantomData }
    }

    fn decode_key_prefix(key: &[u8]) -> (r: Result<((K, V::Key), usize), KeyDecodeError>) {
        if key.len() == 0 {
            return Err(KeyDecodeError);
        }
        let len: usize = key[0] as usize;
        if key.len() < len + 1 {
            return Err(KeyDecodeError);
        }
        let seg = vstd::slice::slice_subrange(key, 1, len + 1);
        proof {
            assert(seg@ =~= key@.subrange(1, 1 + (key@[0] as int)));
        }
        let k0 = match K::from_bytes(seg) {
            Ok(k) => k,
            Err(_) => {
                return Err(KeyDecodeError);
            },
        };
        let rest = vstd::slice::slice_subrange(key, len + 1, key.len());
        proof {
            assert(rest@ =~= key@.skip(1 + (key@[0] as int)));
        }
        match V::decode_key_prefix(rest) {
            Ok((k1, n1)) => {
                let n: usize = 1 + len + n1;
                proof {
                    let kk = (k0, k1);
                    assert(Self::spec_key_bytes(&kk) =~= key@.take(n as int)) by {
                        assert(k0.spec_bytes() == seg@);
                        assert(k0.spec_bytes().len() == len);
                        assert((len as u8) == key@[0]);
                        assert(V::spec_key_bytes(&k1) == rest@.take(n1 as int));
                    }
                }
                Ok(((k0, k1), n))
            },
            Err(_) => Err(KeyDecodeError),
        }
    }

    fn decode_value(value: &[u8]) -> (r: Result<V::Value, ValueDecodeError>) {
        V::decode_value(value)
    }
}

/// Round trip at one nesting level: a length-prefixed key segment followed by
/// any remainder forms a composite key that is valid exactly when both parts
/// are, whose segment is consumed in full — and any decoded composite key
/// whose encoding is those bytes carries exactly that segment and that
/// remainder, so decoding the concatenation gives back the parts.
pub proof fn lemma_key_round_trip<K: OwnedKey, V: Storable>(kb: Seq<u8>, rest: Seq<u8>)
    requires
        kb.len() <= MAX_SEGMENT_LEN,
    ensures
        ({
            let b = spec_encode_segment(kb) + rest;
            &&& (StoreMap::<K, V>::spec_key_valid(b) <==> (K::spec_valid_bytes(kb)
                && V::spec_key_valid(rest)))
            &&& StoreMap::<K, V>::spec_key_len(b) == 1 + kb.len() + V::spec_key_len(rest)
            &&& forall|kk: &(K, V::Key)|
                kk.0.spec_bytes().len() <= MAX_SEGMENT_LEN
                    && #[trigger] StoreMap::<K, V>::spec_key_bytes(kk) == b
                    ==> kk.0.spec_bytes() == kb && V::spec_key_bytes(&kk.1) == rest
        }),
{
    let b = spec_encode_segment(kb) + rest;
    assert(b[0] == kb.len() as u8);
    assert(b.subrange(1, 1 + (b[0] as int)) =~= kb);
    assert(b.skip(1 + (b[0] as int)) =~= rest);
    assert forall|kk: &(K, V::Key)|
        kk.0.spec_bytes().len() <= MAX_SEGMENT_LEN && #[trigger] StoreMap::<K, V>::spec_key_bytes(
            kk,
        ) == b implies kk.0.spec_bytes() == kb && V::spec_key_bytes(&kk.1) == rest by {
        let sb = kk.0.spec_bytes();
        let vb = V::spec_key_bytes(&kk.1);
        let eb = spec_encode_segment(sb) + vb;
        assert(eb[0] == sb.len() as u8);
        assert(sb.len() == kb.len()) by {
            assert(eb[0] == b[0]);
        }
        assert(sb =~= kb) by {
            assert(forall|i: int|
                0 <= i < sb.len() ==> sb[i] == eb[i + 1] && kb[i] == b[i + 1]);
        }
        assert(vb =~= rest) by {
            assert(forall|i: int|
                0 <= i < vb.len() ==> vb[i] == eb[1 + sb.len() + i] && rest[i] == b[1 + kb.len()
                    + i]);
        }
    }
}

} // verus!
