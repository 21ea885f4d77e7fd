//! A verified in-memory backend: the stored pairs are kept in a vector in
//! strictly ascending key order, so range iteration is a filtered walk.

use vstd::prelude::*;

use crate::bin_storage::{
    in_range, opt_bound, range_entries, IterableStorage, RevIterableStorage, Storage, StorageMut,
};
use crate::bytes::clone_bytes;
use crate::order::{
    bytes_eq, lemma_lex_lt_irreflexive, lemma_lex_lt_trans, lemma_lex_trichotomy, lex_less, lex_lt,
};

verus! {

/// The map denoted by a sequence of key/value pairs, later pairs overriding
/// earlier ones.
pub open spec fn entries_map(s: Seq<(Seq<u8>, Seq<u8>)>) -> Map<Seq<u8>, Seq<u8>>
    decreases s.len(),
{
    if s.len() == 0 {
        Map::empty()
    } else {
        entries_map(s.drop_last()).insert(s.last().0, s.last().1)
    }
}

/// The keys of the pair sequence ascend strictly.
pub open spec fn entries_sorted(s: Seq<(Seq<u8>, Seq<u8>)>) -> bool {
    forall|i: int, j: int| #![trigger s[i], s[j]] 0 <= i < j < s.len() ==> lex_lt(s[i].0, s[j].0)
}

/// A key is in the denoted map exactly when some pair carries it.
pub proof fn lemma_entries_map_contains(s: Seq<(Seq<u8>, Seq<u8>)>, k: Seq<u8>)
    ensures
        entries_map(s).contains_key(k) <==> exists|i: int| 0 <= i < s.len() && #[trigger] s[i].0
            == k,
    decreases s.len(),
{
    if s.len() > 0 {
        lemma_entries_map_contains(s.drop_last(), k);
        assert(forall|i: int| 0 <= i < s.len() - 1 ==> #[trigger] s.drop_last()[i] == s[i]);
        if entries_map(s).contains_key(k) {
            if k == s.last().0 {
                assert(s[s.len() - 1].0 == k);
            } else {
                let i = choose|i: int| 0 <= i < s.drop_last().len() && #[trigger] s.drop_last()[i].0
                    == k;
                assert(s[i].0 == k);
            }
        }
        if exists|i: int| 0 <= i < s.len() && #[trigger] s[i].0 == k {
            let i = choose|i: int| 0 <= i < s.len() && #[trigger] s[i].0 == k;
            if i < s.len() - 1 {
                assert(s.drop_last()[i].0 == k);
            }
        }
    }
}

/// Every pair of a sorted sequence is in the denoted map.
pub proof fn lemma_entries_map_index(s: Seq<(Seq<u8>, Seq<u8>)>, i: int)
    requires
        entries_sorted(s),
        0 <= i < s.len(),
    ensures
        entries_map(s).contains_pair(s[i].0, s[i].1),
    decreases s.len(),
{
    if i == s.len() - 1 {
    } else {
        assert(forall|j: int| 0 <= j < s.len() - 1 ==> #[trigger] s.drop_last()[j] == s[j]);
        lemma_entries_map_index(s.drop_last(), i);
        assert(s[i].0 != s.last().0) by {
            assert(lex_lt(s[i].0, s[s.len() - 1].0));
            lemma_lex_lt_irreflexive(s[i].0);
        }
    }
}

/// Inserting a pair at its sorted position denotes a map insertion.
pub proof fn lemma_sorted_insert(s: Seq<(Seq<u8>, Seq<u8>)>, idx: int, k: Seq<u8>, v: Seq<u8>)
    requires
        entries_sorted(s),
        0 <= idx <= s.len(),
        forall|j: int| 0 <= j < idx ==> lex_lt(#[trigger] s[j].0, k),
        forall|j: int| idx <= j < s.len() ==> lex_lt(k, #[trigger] s[j].0),
    ensures
        entries_sorted(s.insert(idx, (k, v))),
        entries_map(s.insert(idx, (k, v))) == entries_map(s).insert(k, v),
    decreases s.len(),
{
    let s2 = s.insert(idx, (k, v));
    assert(forall|j: int| 0 <= j < idx ==> #[trigger] s2[j] == s[j]);
    assert(s2[idx] == (k, v));
    assert(forall|j: int| idx < j < s2.len() ==> #[trigger] s2[j] == s[j - 1]);
    assert(entries_sorted(s2)) by {
        assert forall|a: int, b: int| #![trigger s2[a], s2[b]] 0 <= a < b < s2.len() implies lex_lt(
            s2[a].0,
            s2[b].0,
        ) by {
            if a == idx {
                assert(lex_lt(k, s[b - 1].0));
            } else if b == idx {
                assert(lex_lt(s[a].0, k));
            }
        }
    }
    if idx == s.len() {
        assert(s2.drop_last() =~= s);
        assert(s2.last() == (k, v));
    } else {
        assert(s2.last() == s.last());
        assert(s2.drop_last() =~= s.drop_last().insert(idx, (k, v)));
        assert(entries_sorted(s.drop_last())) by {
            assert(forall|j: int| 0 <= j < s.len() - 1 ==> #[trigger] s.drop_last()[j] == s[j]);
        }
        assert(forall|j: int|
            0 <= j < s.len() - 1 ==> #[trigger] s.drop_last()[j].0 == s[j].0);
        lemma_sorted_insert(s.drop_last(), idx, k, v);
        assert(k != s.last().0) by {
            assert(lex_lt(k, s[s.len() - 1].0));
            lemma_lex_lt_irreflexive(k);
        }
        assert(entries_map(s2) =~= entries_map(s).insert(k, v)) by {
            assert(entries_map(s2) == entries_map(s.drop_last()).insert(k, v).insert(
                s.last().0,
                s.last().1,
            ));
            assert(entries_map(s) == entries_map(s.drop_last()).insert(s.last().0, s.last().1));
        }
    }
}

/// Removing a pair from a sorted sequence denotes a map removal.
pub proof fn lemma_sorted_remove(s: Seq<(Seq<u8>, Seq<u8>)>, idx: int)
    requires
        entries_sorted(s),
        0 <= idx < s.len(),
    ensures
        entries_sorted(s.remove(idx)),
        entries_map(s.remove(idx)) == entries_map(s).remove(s[idx].0),
    decreases s.len(),
{
    let s2 = s.remove(idx);
    assert(forall|j: int| 0 <= j < idx ==> #[trigger] s2[j] == s[j]);
    assert(forall|j: int| idx <= j < s2.len() ==> #[trigger] s2[j] == s[j + 1]);
    assert(entries_sorted(s2));
    assert(forall|j: int| 0 <= j < s.len() - 1 ==> #[trigger] s.drop_last()[j] == s[j]);
    assert(entries_sorted(s.drop_last()));
    if idx == s.len() - 1 {
        assert(s2 =~= s.drop_last());
        assert(!entries_map(s.drop_last()).contains_key(s[idx].0)) by {
            lemma_entries_map_contains(s.drop_last(), s[idx].0);
            if exists|i: int|
                0 <= i < s.drop_last().len() && #[trigger] s.drop_last()[i].0 == s[idx].0 {
                let i = choose|i: int|
                    0 <= i < s.drop_last().len() && #[trigger] s.drop_last()[i].0 == s[idx].0;
                assert(lex_lt(s[i].0, s[idx].0));
                lemma_lex_lt_irreflexive(s[idx].0);
            }
        }
        assert(entries_map(s2) =~= entries_map(s).remove(s[idx].0));
    } else {
        assert(s2.last() == s.last());
        assert(s2.drop_last() =~= s.drop_last().remove(idx));
        lemma_sorted_remove(s.drop_last(), idx);
        assert(s.drop_last()[idx] == s[idx]);
        assert(s[idx].0 != s.last().0) by {
            assert(lex_lt(s[idx].0, s[s.len() - 1].0));
            lemma_lex_lt_irreflexive(s[idx].0);
        }
        assert(entries_map(s2) =~= entries_map(s).remove(s[idx].0)) by {
            assert(entries_map(s2) == entries_map(s.drop_last()).remove(s[idx].0).insert(
                s.last().0,
                s.last().1,
            ));
            assert(entries_map(s) == entries_map(s.drop_last()).insert(s.last().0, s.last().1));
        }
    }
}

/// An in-memory ordered byte store.
pub struct MemStorage {
    entries: Vec<(Vec<u8>, Vec<u8>)>,
}

impl MemStorage {
    /// The stored pairs ascend strictly by key.
    #[verifier::type_invariant]
    pub closed spec fn wf(&self) -> bool {
        entries_sorted(self.entries.deep_view())
    }

    /// An empty store.
    pub fn new() -> (s: Self)
        ensures
            s.contents() == Map::<Seq<u8>, Seq<u8>>::empty(),
    {
        let s = MemStorage { entries: Vec::new() };
        proof {
            assert(s.entries.deep_view() =~= Seq::<(Seq<u8>, Seq<u8>)>::empty());
        }
        s
    }

    /// The position where `key` is stored or would be inserted: everything
    /// before it is strictly below `key`, everything from it on is at or
    /// above.
    fn find_lower(entries: &Vec<(Vec<u8>, Vec<u8>)>, key: &[u8]) -> (idx: usize)
        requires
            entries_sorted(entries.deep_view()),
        ensures
            0 <= idx <= entries.deep_view().len(),
            forall|j: int| 0 <= j < idx ==> lex_lt(#[trigger] entries.deep_view()[j].0, key@),
            idx < entries.deep_view().len() ==> !lex_lt(entries.deep_view()[idx as int].0, key@),
    {
        let ghost s = entries.deep_view();
        let mut idx: usize = 0;
        while idx < entries.len()
            invariant
                s == entries.deep_view(),
                s.len() == entries@.len(),
                0 <= idx <= s.len(),
                forall|j: int| 0 <= j < idx ==> lex_lt(#[trigger] s[j].0, key@),
            decreases s.len() - idx,
        {
            proof {
                assert(entries@[idx as int].0.deep_view() =~= entries@[idx as int].0@);
            }
            if !lex_less(entries[idx].0.as_slice(), key) {
                return idx;
            }
            idx = idx + 1;
        }
        idx
    }
}

impl Storage for MemStorage {
    closed spec fn contents(&self) -> Map<Seq<u8>, Seq<u8>> {
        entries_map(self.entries.deep_view())
    }

    fn get(&self, key: &[u8]) -> (r: Option<Vec<u8>>) {
        proof {
            use_type_invariant(self);
        }
        let ghost s = self.entries.deep_view();
        let mut i: usize = 0;
        while i < self.entries.len()
            invariant
                self.wf(),
                s == self.entries.deep_view(),
                s.len() == self.entries@.len(),
                0 <= i <= s.len(),
                forall|j: int| 0 <= j < i ==> (#[trigger] s[j].0) != key@,
            decreases s.len() - i,
        {
            proof {
                assert(self.entries@[i as int].0.deep_view() =~= self.entries@[i as int].0@);
                assert(self.entries@[i as int].1.deep_view() =~= self.entries@[i as int].1@);
            }
            if bytes_eq(self.entries[i].0.as_slice(), key) {
                let v = clone_bytes(&self.entries[i].1);
                proof {
                    lemma_entries_map_index(s, i as int);
                }
                return Some(v);
            }
            i = i + 1;
        }
        proof {
            lemma_entries_map_contains(s, key@);
        }
        None
    }
}

impl StorageMut for MemStorage {
    fn set(&mut self, key: &[u8], value: &[u8]) {
        proof {
            use_type_invariant(&*self);
        }
        let ghost s = self.entries.deep_view();
        // The vector is moved out, edited, and moved back: the type invariant
        // must hold whenever the field could be observed, and a swap is the
        // one field mutation guaranteed never to unwind mid-edit.
        let mut es: Vec<(Vec<u8>, Vec<u8>)> = Vec::new();
        core::mem::swap(&mut es, &mut self.entries);
        proof {
            assert(self.entries.deep_view() =~= Seq::<(Seq<u8>, Seq<u8>)>::empty());
        }
        let idx = Self::find_lower(&es, key);
        let kv = (vstd::slice::slice_to_vec(key), vstd::slice::slice_to_vec(value));
        proof {
            assert(kv.0.deep_view() =~= key@);
            assert(kv.1.deep_view() =~= value@);
        }
        let hit = if idx < es.len() {
            proof {
                assert(es@[idx as int].0.deep_view() =~= es@[idx as int].0@);
            }
            bytes_eq(es[idx].0.as_slice(), key)
        } else {
            false
        };
        if hit {
            let ghost srem = s.remove(idx as int);
            proof {
                lemma_sorted_remove(s, idx as int);
            }
            es.remove(idx);
            proof {
                assert(es.deep_view() =~= srem);
                lemma_sorted_insert(srem, idx as int, key@, value@);
                assert(forall|j: int|
                    idx <= j < srem.len() ==> #[trigger] srem[j] == s[j + 1]);
                assert(forall|j: int| 0 <= j < idx ==> #[trigger] srem[j] == s[j]);
            }
            es.insert(idx, kv);
            proof {
                assert(es.deep_view() =~= srem.insert(idx as int, (key@, value@)));
                assert(entries_map(es.deep_view()) =~= entries_map(s).insert(key@, value@));
            }
        } else {
            proof {
                assert(forall|j: int|
                    idx <= j < s.len() ==> lex_lt(key@, #[trigger] s[j].0)) by {
                    assert forall|j: int| idx <= j < s.len() implies lex_lt(
                        key@,
                        #[trigger] s[j].0,
                    ) by {
                        lemma_lex_trichotomy(key@, s[idx as int].0);
                        if idx < j {
                            assert(lex_lt(s[idx as int].0, s[j].0));
                            if key@ == s[idx as int].0 {
                            } else {
                                lemma_lex_lt_trans(key@, s[idx as int].0, s[j].0);
                            }
                        }
                    }
                }
                lemma_sorted_insert(s, idx as int, key@, value@);
            }
            es.insert(idx, kv);
            proof {
                assert(es.deep_view() =~= s.insert(idx as int, (key@, value@)));
            }
        }
        core::mem::swap(&mut es, &mut self.entries);
    }

    fn remove(&mut self, key: &[u8]) {
        proof {
            use_type_invariant(&*self);
        }
        let ghost s = self.entries.deep_view();
        // Moved out and back for the same reason as in `set`.
        let mut es: Vec<(Vec<u8>, Vec<u8>)> = Vec::new();
        core::mem::swap(&mut es, &mut self.entries);
        proof {
            assert(self.entries.deep_view() =~= Seq::<(Seq<u8>, Seq<u8>)>::empty());
        }
        let idx = Self::find_lower(&es, key);
        let hit = if idx < es.len() {
            proof {
                assert(es@[idx as int].0.deep_view() =~= es@[idx as int].0@);
            }
            bytes_eq(es[idx].0.as_slice(), key)
        } else {
            false
        };
        if hit {
            proof {
                lemma_sorted_remove(s, idx as int);
            }
            es.remove(idx);
            proof {
                assert(es.deep_view() =~= s.remove(idx as int));
            }
        } else {
            proof {
                assert(!entries_map(s).contains_key(key@)) by {
                    lemma_entries_map_contains(s, key@);
                    if exists|i: int| 0 <= i < s.len() && #[trigger] s[i].0 == key@ {
                        let i = choose|i: int| 0 <= i < s.len() && #[trigger] s[i].0 == key@;
                        lemma_lex_lt_irreflexive(key@);
                        if idx <= i {
                            lemma_lex_trichotomy(s[idx as int].0, key@);
                            if idx < i {
                                assert(lex_lt(s[idx as int].0, s[i].0));
                            }
                        }
                    }
                }
                assert(entries_map(s) =~= entries_map(s).remove(key@));
            }
        }
        core::mem::swap(&mut es, &mut self.entries);
    }
}

impl IterableStorage for MemStorage {
    fn pairs(&self, start: Option<&[u8]>, end: Option<&[u8]>) -> (r: Vec<(Vec<u8>, Vec<u8>)>) {
        proof {
            use_type_invariant(self);
        }
        let ghost s = self.entries.deep_view();
        let ghost m = self.contents();
        let ghost lo = opt_bound(start);
        let ghost hi = opt_bound(end);
        let mut r: Vec<(Vec<u8>, Vec<u8>)> = Vec::new();
        let mut i: usize = 0;
        while i < self.entries.len()
            invariant
                self.wf(),
                s == self.entries.deep_view(),
                s.len() == self.entries@.len(),
                m == self.contents(),
                lo == opt_bound(start),
                hi == opt_bound(end),
                0 <= i <= s.len(),
                forall|a: int, b: int| #![trigger r.deep_view()[a], r.deep_view()[b]]
                    0 <= a < b < r.deep_view().len() ==> lex_lt(
                        r.deep_view()[a].0,
                        r.deep_view()[b].0,
                    ),
                forall|a: int, j: int| #![trigger r.deep_view()[a], s[j]]
                    0 <= a < r.deep_view().len() && i <= j < s.len() ==> lex_lt(
                        r.deep_view()[a].0,
                        s[j].0,
                    ),
                forall|a: int| #![trigger r.deep_view()[a]]
                    0 <= a < r.deep_view().len() ==> m.contains_pair(
                        r.deep_view()[a].0,
                        r.deep_view()[a].1,
                    ) && in_range(r.deep_view()[a].0, lo, hi),
                forall|j: int|
                    0 <= j < i && in_range(#[trigger] s[j].0, lo, hi) ==> exists|a: int|
                        0 <= a < r.deep_view().len() && #[trigger] r.deep_view()[a].0 == s[j].0,
            decreases s.len() - i,
        {
            proof {
                assert(self.entries@[i as int].0.deep_view() =~= self.entries@[i as int].0@);
                assert(self.entries@[i as int].1.deep_view() =~= self.entries@[i as int].1@);
            }
            let ghost pre = r.deep_view();
            let hit = crate::bin_storage::in_range_exec(self.entries[i].0.as_slice(), start, end);
            if hit {
                let k = clone_bytes(&self.entries[i].0);
                let v = clone_bytes(&self.entries[i].1);
                proof {
                    assert(k.deep_view() =~= k@);
                    assert(v.deep_view() =~= v@);
                }
                r.push((k, v));
                proof {
                    assert(r.deep_view() =~= pre.push((s[i as int].0, s[i as int].1)));
                    lemma_entries_map_index(s, i as int);
                    assert(s[i as int] == (s[i as int].0, s[i as int].1));
                    assert(r.deep_view()[pre.len() as int].0 == s[i as int].0);
                }
            }
            proof {
                assert forall|j: int|
                    0 <= j < i + 1 && in_range(#[trigger] s[j].0, lo, hi) implies exists|a: int|
                    0 <= a < r.deep_view().len() && #[trigger] r.deep_view()[a].0 == s[j].0 by {
                    if j < i {
                        let a = choose|a: int| 0 <= a < pre.len() && #[trigger] pre[a].0 == s[j].0;
                        assert(r.deep_view()[a].0 == s[j].0);
                    } else {
                        assert(r.deep_view()[pre.len() as int].0 == s[i as int].0);
                    }
                }
            }
            i = i + 1;
        }
        proof {
            assert forall|k: Seq<u8>| #[trigger] m.contains_key(k) && in_range(k, lo, hi) implies
                exists|a: int|
                    0 <= a < r.deep_view().len() && #[trigger] r.deep_view()[a].0 == k by {
                lemma_entries_map_contains(s, k);
                let j = choose|j: int| 0 <= j < s.len() && #[trigger] s[j].0 == k;
                assert(in_range(s[j].0, lo, hi));
            }
        }
        r
    }
}

impl RevIterableStorage for MemStorage {
    fn rev_pairs(&self, start: Option<&[u8]>, end: Option<&[u8]>) -> (r: Vec<(Vec<u8>, Vec<u8>)>) {
        let ps = self.pairs(start, end);
        let ghost dv = ps.deep_view();
        let mut r: Vec<(Vec<u8>, Vec<u8>)> = Vec::new();
        let mut i: usize = ps.len();
        while i > 0
            invariant
                dv == ps.deep_view(),
                dv.len() == ps@.len(),
                0 <= i <= dv.len(),
                range_entries(self.contents(), opt_bound(start), opt_bound(end), dv),
                r.deep_view().len() == dv.len() - i,
                forall|a: int| #![trigger r.deep_view()[a]]
                    0 <= a < r.deep_view().len() ==> r.deep_view()[a] == dv[dv.len() - 1 - a],
            decreases i,
        {
            i = i - 1;
            let ghost pre = r.deep_view();
            let k = clone_bytes(&ps[i].0);
            let v = clone_bytes(&ps[i].1);
            proof {
                assert(ps@[i as int].0.deep_view() =~= ps@[i as int].0@);
                assert(ps@[i as int].1.deep_view() =~= ps@[i as int].1@);
                assert(k.deep_view() =~= k@);
                assert(v.deep_view() =~= v@);
            }
            r.push((k, v));
            proof {
                assert(r.deep_view() =~= pre.push((dv[i as int].0, dv[i as int].1)));
                assert(dv[i as int] == (dv[i as int].0, dv[i as int].1));
            }
        }
        proof {
            assert(r.deep_view().reverse() =~= dv);
        }
        r
    }
}

} // verus!
