//! Prefix namespacing: the machinery that lets a nested container treat one
//! slice of the key space as if it were the whole store.
//!
//! Every key an accessor touches is `prefix ++ logical_key`. Range iteration
//! under a prefix is bounded below by `prefix ++ start` and above by
//! `prefix ++ end`, or by the lexicographic successor of the prefix when no
//! end bound is given — which is exactly the set of keys that begin with the
//! prefix, so a branch can never see or leak a sibling's data.

use vstd::prelude::*;

use crate::bin_storage::in_range;
use crate::order::{
    is_prefix, lemma_concat_prefix, lemma_lex_le_prepend,
    lemma_lex_le_trans, lemma_lex_lt_prepend, lemma_prefix_le, lemma_prefix_split, lex_le, lex_lt,
};

verus! {

/// The smallest byte string lexicographically greater than every byte string
/// that starts with `p`, or `None` when no such bound exists (for the empty
/// prefix and for prefixes made of nothing but `0xff`).
pub open spec fn spec_prefix_successor(p: Seq<u8>) -> Option<Seq<u8>>
    decreases p.len(),
{
    if p.len() == 0 {
        None
    } else {
        match spec_prefix_successor(p.skip(1)) {
            Some(s) => Some(seq![p[0]] + s),
            None => if p[0] < 255 {
                Some(seq![(p[0] + 1) as u8])
            } else {
                None
            },
        }
    }
}

/// Being an initial run descends into the remainders once the heads agree.
pub proof fn lemma_is_prefix_skip(p: Seq<u8>, k: Seq<u8>)
    requires
        p.len() > 0,
        k.len() > 0,
    ensures
        is_prefix(p, k) <==> (p[0] == k[0] && is_prefix(p.skip(1), k.skip(1))),
{
    if is_prefix(p, k) {
        assert(k.take(p.len() as int)[0] == k[0]);
        assert(k.skip(1).take(p.len() - 1) =~= p.skip(1)) by {
            assert(forall|i: int| #![trigger k.skip(1).take(p.len() - 1)[i]]
                0 <= i < p.len() - 1 ==> k.skip(1).take(p.len() - 1)[i] == k.take(
                    p.len() as int,
                )[i + 1]);
        }
    }
    if p[0] == k[0] && is_prefix(p.skip(1), k.skip(1)) {
        assert(k.take(p.len() as int) =~= p) by {
            assert(forall|i: int| #![trigger k.take(p.len() as int)[i]]
                0 < i < p.len() ==> k[i] == k.skip(1).take(p.len() - 1)[i - 1] && p[i] == p.skip(
                    1,
                )[i - 1]);
        }
    }
}

/// The range `[p, successor(p))` holds exactly the byte strings that start
/// with `p`; when `p` has no successor, every byte string at or past `p`
/// starts with it.
pub proof fn lemma_prefix_range(p: Seq<u8>, k: Seq<u8>)
    ensures
        is_prefix(p, k) <==> (lex_le(p, k) && (match spec_prefix_successor(p) {
            Some(s) => lex_lt(k, s),
            None => true,
        })),
    decreases p.len(),
{
    if p.len() == 0 {
        assert(is_prefix(p, k)) by {
            assert(k.take(0) =~= p);
        }
        assert(lex_le(p, k)) by {
            if k.len() == 0 {
                assert(p =~= k);
            }
        }
    } else if k.len() == 0 {
        assert(!is_prefix(p, k));
        assert(!lex_le(p, k)) by {
            if p == k {
                assert(p.len() == 0);
            }
        }
    } else if k[0] == p[0] {
        lemma_is_prefix_skip(p, k);
        lemma_prefix_range(p.skip(1), k.skip(1));
        assert(lex_le(p, k) <==> lex_le(p.skip(1), k.skip(1))) by {
            if p == k {
                assert(p.skip(1) =~= k.skip(1));
            }
            if p.skip(1) == k.skip(1) && !lex_lt(p, k) && !lex_lt(k, p) {
                crate::order::lemma_lex_trichotomy(p, k);
            }
        }
        match spec_prefix_successor(p.skip(1)) {
            Some(s1) => {
                let s = seq![p[0]] + s1;
                assert(spec_prefix_successor(p) == Some(s));
                assert(lex_lt(k, s) <==> lex_lt(k.skip(1), s1)) by {
                    assert(s[0] == p[0]);
                    assert(k =~= seq![k[0]] + k.skip(1));
                    lemma_lex_lt_prepend(seq![k[0]], k.skip(1), s1);
                    assert(seq![k[0]] + s1 =~= s);
                }
            },
            None => {
                if p[0] < 255 {
                    let s = seq![(p[0] + 1) as u8];
                    assert(spec_prefix_successor(p) == Some(s));
                    assert(lex_lt(k, s)) by {
                        assert(k[0] < s[0]);
                    }
                } else {
                    assert(spec_prefix_successor(p) is None);
                }
            },
        }
    } else {
        assert(!is_prefix(p, k)) by {
            lemma_is_prefix_skip(p, k);
        }
        if k[0] < p[0] {
            assert(!lex_le(p, k)) by {
                if p == k {
                    assert(p[0] == k[0]);
                }
            }
        } else {
            assert(lex_le(p, k));
            assert(p[0] < 255);
            match spec_prefix_successor(p) {
                Some(s) => {
                    assert(!lex_lt(k, s)) by {
                        match spec_prefix_successor(p.skip(1)) {
                            Some(s1) => {
                                assert(s == seq![p[0]] + s1);
                                assert(s[0] == p[0]);
                                assert(s[0] < k[0]);
                            },
                            None => {
                                assert(s == seq![(p[0] + 1) as u8]);
                                if k[0] == s[0] {
                                    assert(s.skip(1) =~= Seq::<u8>::empty());
                                    assert(!lex_lt(k.skip(1), s.skip(1)));
                                }
                            },
                        }
                    }
                },
                None => {
                    assert(false) by {
                        assert(spec_prefix_successor(p.skip(1)) is None);
                    }
                },
            }
        }
    }
}

/// The lower raw bound a branch hands its backend: the prefix followed by the
/// caller's start bound, or the prefix alone.
pub open spec fn branch_lo(p: Seq<u8>, start: Option<Seq<u8>>) -> Seq<u8> {
    match start {
        Some(s) => p + s,
        None => p,
    }
}

/// The upper raw bound a branch hands its backend: the prefix followed by the
/// caller's end bound, or the successor of the prefix alone.
pub open spec fn branch_hi(p: Seq<u8>, end: Option<Seq<u8>>) -> Option<Seq<u8>> {
    match end {
        Some(e) => Some(p + e),
        None => spec_prefix_successor(p),
    }
}

/// A raw key lies between a branch's raw bounds exactly when it starts with
/// the branch's prefix and its logical remainder lies between the caller's
/// bounds: iteration through a branch yields every key of the branch's own
/// subtree and nothing else.
pub proof fn lemma_branch_range(
    p: Seq<u8>,
    start: Option<Seq<u8>>,
    end: Option<Seq<u8>>,
    rk: Seq<u8>,
)
    ensures
        in_range(rk, Some(branch_lo(p, start)), branch_hi(p, end)) <==> (is_prefix(p, rk)
            && in_range(rk.skip(p.len() as int), start, end)),
{
    let lo = branch_lo(p, start);
    let s0: Seq<u8> = match start {
        Some(s) => s,
        None => Seq::empty(),
    };
    assert(lo == p + s0) by {
        if start is None {
            assert(p + s0 =~= p);
        }
    }
    lemma_prefix_range(p, rk);

    if in_range(rk, Some(lo), branch_hi(p, end)) {
        // The raw key starts with the prefix.
        assert(lex_le(p, rk)) by {
            lemma_concat_prefix(p, s0);
            lemma_prefix_le(p, p + s0);
            lemma_lex_le_trans(p, lo, rk);
        }
        assert(is_prefix(p, rk)) by {
            match end {
                Some(e) => {
                    match spec_prefix_successor(p) {
                        Some(s) => {
                            lemma_concat_prefix(p, e);
                            lemma_prefix_range(p, p + e);
                            crate::order::lemma_lex_lt_trans(rk, p + e, s);
                        },
                        None => {},
                    }
                },
                None => {},
            }
        }
        lemma_prefix_split(p, rk);
        let k = rk.skip(p.len() as int);
        assert(in_range(k, start, end)) by {
            match start {
                Some(s) => {
                    lemma_lex_le_prepend(p, s, k);
                },
                None => {},
            }
            match end {
                Some(e) => {
                    lemma_lex_lt_prepend(p, k, e);
                },
                None => {},
            }
        }
    }

    if is_prefix(p, rk) && in_range(rk.skip(p.len() as int), start, end) {
        lemma_prefix_split(p, rk);
        let k = rk.skip(p.len() as int);
        assert(lex_le(lo, rk)) by {
            lemma_lex_le_prepend(p, s0, k);
            if start is None {
                lemma_prefix_le(p, rk);
            }
        }
        match end {
            Some(e) => {
                lemma_lex_lt_prepend(p, k, e);
            },
            None => {},
        }
    }
}

/// Computes the lexicographic successor of a key prefix, the tight upper
/// bound on the keys that start with it.
pub fn prefix_successor(p: &[u8]) -> (r: Option<Vec<u8>>)
    ensures
        match r {
            Some(v) => spec_prefix_successor(p@) == Some(v@),
            None => spec_prefix_successor(p@) is None,
        },
    decreases p@.len(),
{
    if p.len() == 0 {
        return None;
    }
    let rest = vstd::slice::slice_subrange(p, 1, p.len());
    proof {
        assert(rest@ =~= p@.skip(1));
    }
    match prefix_successor(rest) {
        Some(s) => {
            let mut v: Vec<u8> = Vec::new();
            v.push(p[0]);
            let r = crate::bytes::concat_bytes(v.as_slice(), s.as_slice());
            proof {
                assert(v@ =~= seq![p@[0]]);
            }
            Some(r)
        },
        None => {
            if p[0] < 255 {
                let mut v: Vec<u8> = Vec::new();
                v.push(p[0] + 1);
                proof {
                    assert(v@ =~= seq![(p@[0] + 1) as u8]);
                }
                Some(v)
            } else {
                None
            }
        },
    }
}

/// The portion of a backend's contents that lives under a prefix, seen with
/// the prefix stripped: the abstract state a branch presents.
pub open spec fn sub_contents(m: Map<Seq<u8>, Seq<u8>>, p: Seq<u8>) -> Map<Seq<u8>, Seq<u8>> {
    Map::new(|k: Seq<u8>| m.contains_key(p + k), |k: Seq<u8>| m[p + k])
}

/// A prefix-scoped view over a backend: every key passed through is extended
/// with the branch's prefix, so the subtree under the prefix behaves like an
/// entire independent store. Branches compose: branching a branch acts as one
/// branch with the concatenated prefix.
pub struct StorageBranch {
    prefix: Vec<u8>,
}

impl StorageBranch {
    /// The branch's prefix.
    pub closed spec fn spec_prefix(&self) -> Seq<u8> {
        self.prefix@
    }

    /// A branch scoping `prefix` of the key space.
    pub fn new(prefix: Vec<u8>) -> (r: Self)
        ensures
            r.spec_prefix() == prefix@,
    {
        StorageBranch { prefix }
    }

    /// A branch of this branch: the concatenated prefix.
    pub fn branch(&self, prefix: &[u8]) -> (r: Self)
        ensures
            r.spec_prefix() == self.spec_prefix() + prefix@,
    {
        StorageBranch { prefix: crate::bytes::concat_bytes(self.prefix.as_slice(), prefix) }
    }

    /// The store this branch presents: the backend's contents under the
    /// prefix, with the prefix stripped.
    pub open spec fn contents<S: crate::bin_storage::Storage>(&self, storage: &S) -> Map<
        Seq<u8>,
        Seq<u8>,
    > {
        sub_contents(storage.contents(), self.spec_prefix())
    }

    /// Point lookup under the prefix.
    pub fn get<S: crate::bin_storage::Storage>(&self, storage: &S, key: &[u8]) -> (r: Option<
        Vec<u8>,
    >)
        ensures
            match r {
                Some(v) => self.contents(storage).contains_pair(key@, v@),
                None => !self.contents(storage).contains_key(key@),
            },
    {
        let full = crate::bytes::concat_bytes(self.prefix.as_slice(), key);
        storage.get(full.as_slice())
    }

    /// Point write under the prefix.
    pub fn set<S: crate::bin_storage::StorageMut>(&self, storage: &mut S, key: &[u8], value: &[u8])
        ensures
            final(storage).contents() == old(storage).contents().insert(
                self.spec_prefix() + key@,
                value@,
            ),
            self.contents(final(storage)) == self.contents(old(storage)).insert(key@, value@),
    {
        let full = crate::bytes::concat_bytes(self.prefix.as_slice(), key);
        storage.set(full.as_slice(), value);
        proof {
            let p = self.spec_prefix();
            assert(sub_contents(old(storage).contents().insert(p + key@, value@), p)
                =~= sub_contents(old(storage).contents(), p).insert(key@, value@)) by {
                assert forall|k: Seq<u8>| #![trigger p + k] p + k == p + key@ implies k == key@ by {
                    lemma_concat_prefix(p, k);
                    lemma_concat_prefix(p, key@);
                }
            }
        }
    }

    /// Point delete under the prefix.
    pub fn remove<S: crate::bin_storage::StorageMut>(&self, storage: &mut S, key: &[u8])
        ensures
            final(storage).contents() == old(storage).contents().remove(self.spec_prefix() + key@),
            self.contents(final(storage)) == self.contents(old(storage)).remove(key@),
    {
        let full = crate::bytes::concat_bytes(self.prefix.as_slice(), key);
        storage.remove(full.as_slice());
        proof {
            let p = self.spec_prefix();
            assert(sub_contents(old(storage).contents().remove(p + key@), p) =~= sub_contents(
                old(storage).contents(),
                p,
            ).remove(key@)) by {
                assert forall|k: Seq<u8>| #![trigger p + k] p + k == p + key@ implies k == key@ by {
                    lemma_concat_prefix(p, k);
                    lemma_concat_prefix(p, key@);
                }
            }
        }
    }
}

/// Branch isolation for writes: storing through a branch with prefix `p1`
/// changes nothing a branch with an unrelated prefix `p2` can see.
pub proof fn lemma_branch_isolation_set(
    m: Map<Seq<u8>, Seq<u8>>,
    p1: Seq<u8>,
    p2: Seq<u8>,
    k1: Seq<u8>,
    v: Seq<u8>,
)
    requires
        !is_prefix(p2, p1 + k1),
    ensures
        sub_contents(m.insert(p1 + k1, v), p2) == sub_contents(m, p2),
{
    assert forall|k: Seq<u8>| p2 + k != p1 + k1 by {
        lemma_concat_prefix(p2, k);
    }
    assert(sub_contents(m.insert(p1 + k1, v), p2) =~= sub_contents(m, p2));
}

/// Branch isolation for deletes: removing through a branch with prefix `p1`
/// changes nothing a branch with an unrelated prefix `p2` can see.
pub proof fn lemma_branch_isolation_remove(
    m: Map<Seq<u8>, Seq<u8>>,
    p1: Seq<u8>,
    p2: Seq<u8>,
    k1: Seq<u8>,
)
    requires
        !is_prefix(p2, p1 + k1),
    ensures
        sub_contents(m.remove(p1 + k1), p2) == sub_contents(m, p2),
{
    assert forall|k: Seq<u8>| p2 + k != p1 + k1 by {
        lemma_concat_prefix(p2, k);
    }
    assert(sub_contents(m.remove(p1 + k1), p2) =~= sub_contents(m, p2));
}

} // verus!
