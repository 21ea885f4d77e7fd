//! The capability traits a byte-oriented backend must satisfy: point lookup,
//! point write and delete, and optional ordered range iteration.
//!
//! A backend's abstract state is the map `contents()` from stored key bytes
//! to stored value bytes; every contract in the crate is stated against it.
//! Range iteration is a snapshot: a call returns the finite, ascending
//! sequence of stored pairs whose keys fall in the half-open range
//! `[start, end)`, a missing bound meaning unbounded on that side.

use vstd::prelude::*;

use crate::order::{lex_le, lex_lt};

verus! {

/// The view of an optional range bound.
pub open spec fn opt_bound(o: Option<&[u8]>) -> Option<Seq<u8>> {
    match o {
        Some(b) => Some(b@),
        None => None,
    }
}

/// `k` lies in the half-open range `[lo, hi)`; a missing bound is unbounded
/// on that side.
pub open spec fn in_range(k: Seq<u8>, lo: Option<Seq<u8>>, hi: Option<Seq<u8>>) -> bool {
    &&& match lo {
        Some(l) => lex_le(l, k),
        None => true,
    }
    &&& match hi {
        Some(h) => lex_lt(k, h),
        None => true,
    }
}

/// `r` is exactly the sequence of pairs of `m` whose keys lie in `[lo, hi)`,
/// in strictly ascending key order.
pub open spec fn range_entries(
    m: Map<Seq<u8>, Seq<u8>>,
    lo: Option<Seq<u8>>,
    hi: Option<Seq<u8>>,
    r: Seq<(Seq<u8>, Seq<u8>)>,
) -> bool {
    &&& forall|i: int, j: int| #![trigger r[i], r[j]] 0 <= i < j < r.len() ==> lex_lt(r[i].0, r[j].0)
    &&& forall|i: int| #![trigger r[i]]
        0 <= i < r.len() ==> m.contains_pair(r[i].0, r[i].1) && in_range(r[i].0, lo, hi)
    &&& forall|k: Seq<u8>|
        #[trigger] m.contains_key(k) && in_range(k, lo, hi) ==> exists|i: int|
            0 <= i < r.len() && #[trigger] r[i].0 == k
}

/// `ks` is exactly the ascending sequence of keys of `m` in `[lo, hi)`.
pub open spec fn range_keys(
    m: Map<Seq<u8>, Seq<u8>>,
    lo: Option<Seq<u8>>,
    hi: Option<Seq<u8>>,
    ks: Seq<Seq<u8>>,
) -> bool {
    &&& forall|i: int, j: int| #![trigger ks[i], ks[j]] 0 <= i < j < ks.len() ==> lex_lt(ks[i], ks[j])
    &&& forall|i: int| #![trigger ks[i]]
        0 <= i < ks.len() ==> m.contains_key(ks[i]) && in_range(ks[i], lo, hi)
    &&& forall|k: Seq<u8>|
        #[trigger] m.contains_key(k) && in_range(k, lo, hi) ==> exists|i: int|
            0 <= i < ks.len() && #[trigger] ks[i] == k
}

/// Removing an absent key is a no-op: [`StorageMut::remove`] promises the
/// contents with the key removed, and when the key was never there, that is
/// the very contents the store started with — and `remove` returns nothing,
/// so there is no error it could raise.
pub proof fn lemma_remove_absent(m: Map<Seq<u8>, Seq<u8>>, k: Seq<u8>)
    requires
        !m.contains_key(k),
    ensures
        m.remove(k) == m,
{
    assert(m.remove(k) =~= m);
}

/// Decides whether a key lies in the half-open range `[start, end)`.
pub fn in_range_exec(k: &[u8], start: Option<&[u8]>, end: Option<&[u8]>) -> (r: bool)
    ensures
        r == in_range(k@, opt_bound(start), opt_bound(end)),
{
    let lo_ok = match start {
        Some(s) => {
            let below = crate::order::lex_less(k, s);
            proof {
                crate::order::lemma_lex_trichotomy(s@, k@);
                crate::order::lemma_lex_lt_irreflexive(k@);
                if lex_lt(k@, s@) && lex_lt(s@, k@) {
                    crate::order::lemma_lex_lt_trans(k@, s@, k@);
                }
            }
            !below
        },
        None => true,
    };
    let hi_ok = match end {
        Some(e) => crate::order::lex_less(k, e),
        None => true,
    };
    lo_ok && hi_ok
}

/// The keys of a range snapshot are themselves a key snapshot of the same
/// range.
pub proof fn lemma_keys_of_entries(
    m: Map<Seq<u8>, Seq<u8>>,
    lo: Option<Seq<u8>>,
    hi: Option<Seq<u8>>,
    e: Seq<(Seq<u8>, Seq<u8>)>,
    ks: Seq<Seq<u8>>,
)
    requires
        range_entries(m, lo, hi, e),
        ks == e.map_values(|p: (Seq<u8>, Seq<u8>)| p.0),
    ensures
        range_keys(m, lo, hi, ks),
{
    assert forall|i: int, j: int| #![trigger ks[i], ks[j]] 0 <= i < j < ks.len() implies lex_lt(
        ks[i],
        ks[j],
    ) by {
        assert(lex_lt(e[i].0, e[j].0));
    }
    assert forall|i: int| #![trigger ks[i]] 0 <= i < ks.len() implies m.contains_key(ks[i])
        && in_range(ks[i], lo, hi) by {
        assert(m.contains_pair(e[i].0, e[i].1));
    }
    assert forall|k: Seq<u8>| #[trigger] m.contains_key(k) && in_range(k, lo, hi) implies exists|
        i: int,
    | 0 <= i < ks.len() && #[trigger] ks[i] == k by {
        let i = choose|i: int| 0 <= i < e.len() && #[trigger] e[i].0 == k;
        assert(ks[i] == k);
    }
}

/// A byte store supporting point reads.
pub trait Storage {
    /// The abstract contents: what value bytes are stored under what key
    /// bytes.
    spec fn contents(&self) -> Map<Seq<u8>, Seq<u8>>;

    /// Point lookup; a miss is the defined absent result, not an error.
    fn get(&self, key: &[u8]) -> (r: Option<Vec<u8>>)
        ensures
            match r {
                Some(v) => self.contents().contains_pair(key@, v@),
                None => !self.contents().contains_key(key@),
            },
    ;

    /// Whether a value is stored under `key`.
    fn has(&self, key: &[u8]) -> (r: bool)
        ensures
            r == self.contents().contains_key(key@),
    {
        self.get(key).is_some()
    }
}

/// A byte store supporting point writes and deletes.
pub trait StorageMut: Storage {
    /// Stores `value` under `key`, replacing any previous value.
    fn set(&mut self, key: &[u8], value: &[u8])
        ensures
            final(self).contents() == old(self).contents().insert(key@, value@),
    ;

    /// Deletes whatever is stored under `key`; deleting an absent key is a
    /// no-op.
    fn remove(&mut self, key: &[u8])
        ensures
            final(self).contents() == old(self).contents().remove(key@),
    ;
}

/// A byte store supporting ordered (ascending) range iteration.
pub trait IterableStorage: Storage {
    /// The stored pairs with keys in `[start, end)`, ascending by key.
    fn pairs(&self, start: Option<&[u8]>, end: Option<&[u8]>) -> (r: Vec<(Vec<u8>, Vec<u8>)>)
        ensures
            range_entries(self.contents(), opt_bound(start), opt_bound(end), r.deep_view()),
    ;

    /// The stored keys in `[start, end)`, ascending.
    fn keys(&self, start: Option<&[u8]>, end: Option<&[u8]>) -> (r: Vec<Vec<u8>>)
        ensures
            range_keys(self.contents(), opt_bound(start), opt_bound(end), r.deep_view()),
    {
        let ps = self.pairs(start, end);
        let ghost dv = ps.deep_view();
        let mut ks: Vec<Vec<u8>> = Vec::new();
        let mut i: usize = 0;
        while i < ps.len()
            invariant
                0 <= i <= ps@.len(),
                dv == ps.deep_view(),
                dv.len() == ps@.len(),
                ks.deep_view() == dv.take(i as int).map_values(|p: (Seq<u8>, Seq<u8>)| p.0),
                range_entries(self.contents(), opt_bound(start), opt_bound(end), dv),
            decreases ps@.len() - i,
        {
            let ghost pre = ks.deep_view();
            let x = crate::bytes::clone_bytes(&ps[i].0);
            proof {
                assert(x.deep_view() =~= x@);
                assert(ps@[i as int].0.deep_view() =~= ps@[i as int].0@);
            }
            ks.push(x);
            proof {
                assert(ks.deep_view() =~= pre.push(dv[i as int].0));
                assert(dv.take(i + 1) =~= dv.take(i as int).push(dv[i as int]));
                assert(ks.deep_view() =~= dv.take(i + 1).map_values(|p: (Seq<u8>, Seq<u8>)| p.0));
            }
            i = i + 1;
        }
        proof {
            assert(dv.take(dv.len() as int) =~= dv);
            lemma_keys_of_entries(
                self.contents(),
                opt_bound(start),
                opt_bound(end),
                dv,
                ks.deep_view(),
            );
        }
        ks
    }

    /// The stored values for keys in `[start, end)`, in ascending key order.
    fn values(&self, start: Option<&[u8]>, end: Option<&[u8]>) -> (r: Vec<Vec<u8>>)
        ensures
            exists|e: Seq<(Seq<u8>, Seq<u8>)>|
                range_entries(self.contents(), opt_bound(start), opt_bound(end), e)
                    && r.deep_view() == e.map_values(|p: (Seq<u8>, Seq<u8>)| p.1),
    {
        let ps = self.pairs(start, end);
        let ghost dv = ps.deep_view();
        let mut vs: Vec<Vec<u8>> = Vec::new();
        let mut i: usize = 0;
        while i < ps.len()
            invariant
                0 <= i <= ps@.len(),
                dv == ps.deep_view(),
                dv.len() == ps@.len(),
                vs.deep_view() == dv.take(i as int).map_values(|p: (Seq<u8>, Seq<u8>)| p.1),
                range_entries(self.contents(), opt_bound(start), opt_bound(end), dv),
            decreases ps@.len() - i,
        {
            let ghost pre = vs.deep_view();
            let x = crate::bytes::clone_bytes(&ps[i].1);
            proof {
                assert(x.deep_view() =~= x@);
                assert(ps@[i as int].1.deep_view() =~= ps@[i as int].1@);
            }
            vs.push(x);
            proof {
                assert(vs.deep_view() =~= pre.push(dv[i as int].1));
                assert(dv.take(i + 1) =~= dv.take(i as int).push(dv[i as int]));
                assert(vs.deep_view() =~= dv.take(i + 1).map_values(|p: (Seq<u8>, Seq<u8>)| p.1));
            }
            i = i + 1;
        }
        proof {
            assert(dv.take(dv.len() as int) =~= dv);
        }
        vs
    }
}

/// A byte store that can also iterate a range descending.
pub trait RevIterableStorage: Storage {
    /// The stored pairs with keys in `[start, end)`, descending by key.
    fn rev_pairs(&self, start: Option<&[u8]>, end: Option<&[u8]>) -> (r: Vec<(Vec<u8>, Vec<u8>)>)
        ensures
            range_entries(
                self.contents(),
                opt_bound(start),
                opt_bound(end),
                r.deep_view().reverse(),
            ),
    ;

    /// The stored keys in `[start, end)`, descending.
    fn rev_keys(&self, start: Option<&[u8]>, end: Option<&[u8]>) -> (r: Vec<Vec<u8>>)
        ensures
            range_keys(
                self.contents(),
                opt_bound(start),
                opt_bound(end),
                r.deep_view().reverse(),
            ),
    {
        let ps = self.rev_pairs(start, end);
        let ghost dv = ps.deep_view();
        let mut ks: Vec<Vec<u8>> = Vec::new();
        let mut i: usize = 0;
        while i < ps.len()
            invariant
                dv == ps.deep_view(),
                dv.len() == ps@.len(),
                0 <= i <= dv.len(),
                ks.deep_view() == dv.take(i as int).map_values(|p: (Seq<u8>, Seq<u8>)| p.0),
                range_entries(self.contents(), opt_bound(start), opt_bound(end), dv.reverse()),
            decreases dv.len() - i,
        {
            let ghost pre = ks.deep_view();
            let x = crate::bytes::clone_bytes(&ps[i].0);
            proof {
                assert(x.deep_view() =~= x@);
                assert(ps@[i as int].0.deep_view() =~= ps@[i as int].0@);
            }
            ks.push(x);
            proof {
                assert(ks.deep_view() =~= pre.push(dv[i as int].0));
                assert(dv.take(i + 1) =~= dv.take(i as int).push(dv[i as int]));
                assert(ks.deep_view() =~= dv.take(i + 1).map_values(|p: (Seq<u8>, Seq<u8>)| p.0));
            }
            i = i + 1;
        }
        proof {
            assert(dv.take(dv.len() as int) =~= dv);
            assert(ks.deep_view().reverse() =~= dv.reverse().map_values(
                |p: (Seq<u8>, Seq<u8>)| p.0,
            ));
            lemma_keys_of_entries(
                self.contents(),
                opt_bound(start),
                opt_bound(end),
                dv.reverse(),
                ks.deep_view().reverse(),
            );
        }
        ks
    }

    /// The stored values for keys in `[start, end)`, in descending key order.
    fn rev_values(&self, start: Option<&[u8]>, end: Option<&[u8]>) -> (r: Vec<Vec<u8>>)
        ensures
            exists|e: Seq<(Seq<u8>, Seq<u8>)>|
                range_entries(self.contents(), opt_bound(start), opt_bound(end), e)
                    && r.deep_view().reverse() == e.map_values(|p: (Seq<u8>, Seq<u8>)| p.1),
    {
        let ps = self.rev_pairs(start, end);
        let ghost dv = ps.deep_view();
        let mut vs: Vec<Vec<u8>> = Vec::new();
        let mut i: usize = 0;
        while i < ps.len()
            invariant
                dv == ps.deep_view(),
                dv.len() == ps@.len(),
                0 <= i <= dv.len(),
                vs.deep_view() == dv.take(i as int).map_values(|p: (Seq<u8>, Seq<u8>)| p.1),
                range_entries(self.contents(), opt_bound(start), opt_bound(end), dv.reverse()),
            decreases dv.len() - i,
        {
            let ghost pre = vs.deep_view();
            let x = crate::bytes::clone_bytes(&ps[i].1);
            proof {
                assert(x.deep_view() =~= x@);
                assert(ps@[i as int].1.deep_view() =~= ps@[i as int].1@);
            }
            vs.push(x);
            proof {
                assert(vs.deep_view() =~= pre.push(dv[i as int].1));
                assert(dv.take(i + 1) =~= dv.take(i as int).push(dv[i as int]));
                assert(vs.deep_view() =~= dv.take(i + 1).map_values(|p: (Seq<u8>, Seq<u8>)| p.1));
            }
            i = i + 1;
        }
        proof {
            assert(dv.take(dv.len() as int) =~= dv);
            assert(vs.deep_view().reverse() =~= dv.reverse().map_values(
                |p: (Seq<u8>, Seq<u8>)| p.1,
            ));
        }
        vs
    }
}

} // verus!
