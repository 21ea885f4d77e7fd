//! The terminal container: exactly one typed value stored under a prefix.

use vstd::prelude::*;

use core::marker::PhantomData;

use crate::bin_storage::{Storage, StorageMut};
use crate::bytes::clone_bytes;
use crate::containers::Storable;
use crate::keys::KeyDecodeError;
use crate::values::{StoreValue, ValueDecodeError};

verus! {

/// A descriptor for a single value of type `V` stored under a fixed prefix.
/// Pure metadata: it owns no storage and may be copied freely.
pub struct Item<V> {
    prefix: Vec<u8>,
    phantom: PhantomData<V>,
}

impl<V: StoreValue> Item<V> {
    /// The descriptor's storage prefix.
    pub closed spec fn spec_prefix(&self) -> Seq<u8> {
        self.prefix@
    }

    /// A descriptor for the item stored under `prefix`.
    pub fn new(prefix: &[u8]) -> (r: Self)
        ensures
            r.spec_prefix() == prefix@,
    {
        Item { prefix: vstd::slice::slice_to_vec(prefix), phantom: PhantomData }
    }

    /// Binds the descriptor to its storage scope.
    pub fn access(&self) -> (a: ItemAccess<V>)
        ensures
            a.spec_prefix() == self.spec_prefix(),
    {
        Self::access_impl(clone_bytes(&self.prefix))
    }
}

/// A live handle on one stored value: the descriptor's prefix is the full
/// physical key.
pub struct ItemAccess<V> {
    prefix: Vec<u8>,
    phantom: PhantomData<V>,
}

impl<V: StoreValue> ItemAccess<V> {
    /// The full physical key this handle reads and writes.
    pub closed spec fn spec_prefix(&self) -> Seq<u8> {
        self.prefix@
    }

    /// Reads the value: a backend miss is `None`; present bytes that do not
    /// decode are an error.
    pub fn get<S: Storage>(&self, storage: &S) -> (r: Result<Option<V>, ValueDecodeError>)
        ensures
            ({
                let m = storage.contents();
                match r {
                    Ok(None) => !m.contains_key(self.spec_prefix()),
                    Ok(Some(v)) => m.contains_key(self.spec_prefix()) && v.spec_encoded()
                        == m[self.spec_prefix()],
                    Err(_) => m.contains_key(self.spec_prefix()) && !V::spec_valid_bytes(
                        m[self.spec_prefix()],
                    ),
                }
            }),
    {
        match storage.get(self.prefix.as_slice()) {
            None => Ok(None),
            Some(b) => match V::decode(b.as_slice()) {
                Ok(v) => Ok(Some(v)),
                Err(e) => Err(e),
            },
        }
    }

    /// Stores the value under this handle's key.
    pub fn set<S: StorageMut>(&self, storage: &mut S, value: &V)
        ensures
            final(storage).contents() == old(storage).contents().insert(
                self.spec_prefix(),
                value.spec_encoded(),
            ),
    {
        let b = value.encode();
        storage.set(self.prefix.as_slice(), b.as_slice());
    }

    /// Deletes the value; removing an absent value is a no-op and no error.
    pub fn remove<S: StorageMut>(&self, storage: &mut S)
        ensures
            final(storage).contents() == old(storage).contents().remove(self.spec_prefix()),
    {
        storage.remove(self.prefix.as_slice());
    }
}

impl<V: StoreValue> Storable for Item<V> {
    type Key = ();

    type Value = V;

    type Accessor = ItemAccess<V>;

    open spec fn spec_key_valid(b: Seq<u8>) -> bool {
        true
    }

    open spec fn spec_key_len(b: Seq<u8>) -> int {
        0
    }

    open spec fn spec_key_bytes(k: &()) -> Seq<u8> {
        Seq::empty()
    }

    open spec fn spec_accessor_prefix(a: &ItemAccess<V>) -> Seq<u8> {
        a.spec_prefix()
    }

    open spec fn spec_value_encoded(v: &V) -> Seq<u8> {
        v.spec_encoded()
    }

    open spec fn spec_value_valid(b: Seq<u8>) -> bool {
        V::spec_valid_bytes(b)
    }

    fn access_impl(prefix: Vec<u8>) -> (a: ItemAccess<V>) {
        ItemAccess { prefix, phantom: PhantomData }
    }

    fn decode_key_prefix(key: &[u8]) -> (r: Result<((), usize), KeyDecodeError>) {
        proof {
            assert(key@.take(0) =~= Seq::<u8>::empty());
        }
        Ok(((), 0))
    }

    fn decode_value(value: &[u8]) -> (r: Result<V, ValueDecodeError>) {
        V::decode(value)
    }
}

} // verus!
