use storey::bin_storage::{IterableStorage, RevIterableStorage, Storage, StorageMut};
use storey::branch::prefix_successor;
use storey::codec::encode_segment;
use storey::containers::item::Item;
use storey::containers::map::StoreMap;
use storey::containers::IterError;
use storey::keys::OwnedKey;
use storey::mem::MemStorage;
use storey::values::StoreValue;

#[test]
fn segment_encoding_exact() {
    let seg = encode_segment(b"foo").unwrap();
    assert_eq!(seg, vec![3, 102, 111, 111]);
    let empty = encode_segment(b"").unwrap();
    assert_eq!(empty, vec![0]);
}

#[test]
fn boundary() {
    let long = vec![7u8; 255];
    let seg = encode_segment(&long).unwrap();
    assert_eq!(seg.len(), 256);
    assert_eq!(seg[0], 255);

    let too_long = vec![7u8; 256];
    assert!(encode_segment(&too_long).is_err());
}

#[test]
fn value_codec_round_trip() {
    assert_eq!(42u64.encode(), 42u64.to_le_bytes().to_vec());
    assert_eq!(u64::decode(&1337u64.to_le_bytes()).unwrap(), 1337);
    assert_eq!(u64::decode(&42u64.encode()).unwrap(), 42);
    assert!(u64::decode(&[1, 2, 3]).is_err());
}

#[test]
fn string_key_decoding() {
    let s = <String as OwnedKey>::from_bytes(b"foo").unwrap();
    assert_eq!(s, "foo");
    assert!(<String as OwnedKey>::from_bytes(&[0xff, 0xfe]).is_err());
}

#[test]
fn remove_absent_is_noop() {
    let mut storage = MemStorage::new();
    let map = StoreMap::<String, Item<u64>>::new(&[0]);

    map.access().entry_mut("foo").set(&mut storage, &1);
    map.access().entry_mut("bar").remove(&mut storage);

    assert_eq!(map.access().entry("foo").get(&storage).unwrap(), Some(1));
    assert_eq!(map.access().pairs(&storage, None, None).unwrap().len(), 1);

    storage.remove(&[9, 9, 9]);
    assert_eq!(map.access().pairs(&storage, None, None).unwrap().len(), 1);
}

#[test]
fn value_decode_error() {
    let mut storage = MemStorage::new();
    storage.set(&[0], &[1, 2, 3]);

    let item = Item::<u64>::new(&[0]);
    assert!(item.access().get(&storage).is_err());
}

#[test]
fn iteration_key_decode_error() {
    let mut storage = MemStorage::new();
    // A stored key whose segment is not valid UTF-8.
    storage.set(&[0, 2, 0xff, 0xfe], &42u64.to_le_bytes());

    let map = StoreMap::<String, Item<u64>>::new(&[0]);
    assert_eq!(
        map.access().pairs(&storage, None, None),
        Err(IterError::KeyDecode)
    );
}

#[test]
fn iteration_leftover_key_error() {
    let mut storage = MemStorage::new();
    // One valid segment ('a'), then a trailing byte no decoder accounts for.
    storage.set(&[0, 1, 97, 99], &42u64.to_le_bytes());

    let map = StoreMap::<String, Item<u64>>::new(&[0]);
    assert_eq!(
        map.access().pairs(&storage, None, None),
        Err(IterError::KeyDecode)
    );
}

#[test]
fn iteration_value_decode_error() {
    let mut storage = MemStorage::new();
    let map = StoreMap::<String, Item<u64>>::new(&[0]);
    map.access().entry_mut("aa").set(&mut storage, &7);
    // Corrupt the stored value behind the accessor's back.
    storage.set(&[0, 2, 97, 97], &[1, 2, 3]);

    assert_eq!(
        map.access().pairs(&storage, None, None),
        Err(IterError::ValueDecode)
    );
}

#[test]
fn branch_isolation() {
    let mut storage = MemStorage::new();
    let left = StoreMap::<String, Item<u64>>::new(&[0]);
    let right = StoreMap::<String, Item<u64>>::new(&[1]);

    left.access().entry_mut("foo").set(&mut storage, &1337);

    assert_eq!(right.access().entry("foo").get(&storage).unwrap(), None);
    assert_eq!(right.access().pairs(&storage, None, None).unwrap(), vec![]);
    assert_eq!(
        left.access().pairs(&storage, None, None).unwrap().len(),
        1
    );
}

#[test]
fn same_length_key_ordering() {
    let mut storage = MemStorage::new();
    let map = StoreMap::<String, Item<u64>>::new(&[0]);
    let access = map.access();

    access.entry_mut("ba").set(&mut storage, &3);
    access.entry_mut("aa").set(&mut storage, &1);
    access.entry_mut("ab").set(&mut storage, &2);

    let keys = access.keys(&storage, None, None).unwrap();
    assert_eq!(
        keys,
        vec![
            ("aa".to_string(), ()),
            ("ab".to_string(), ()),
            ("ba".to_string(), ())
        ]
    );
}

#[test]
fn raw_storage_ranges() {
    let mut storage = MemStorage::new();
    storage.set(&[1], b"a");
    storage.set(&[3], b"c");
    storage.set(&[2], b"b");
    storage.set(&[2], b"b2");

    assert!(storage.has(&[2]));
    assert!(!storage.has(&[4]));
    assert_eq!(storage.get(&[2]), Some(b"b2".to_vec()));

    let pairs = storage.pairs(None, None);
    assert_eq!(
        pairs,
        vec![
            (vec![1], b"a".to_vec()),
            (vec![2], b"b2".to_vec()),
            (vec![3], b"c".to_vec())
        ]
    );

    let bounded = storage.pairs(Some(&[2]), Some(&[3]));
    assert_eq!(bounded, vec![(vec![2], b"b2".to_vec())]);

    let keys = storage.keys(Some(&[2]), None);
    assert_eq!(keys, vec![vec![2], vec![3]]);

    let values = storage.values(None, Some(&[3]));
    assert_eq!(values, vec![b"a".to_vec(), b"b2".to_vec()]);

    let rev = storage.rev_pairs(None, None);
    assert_eq!(
        rev,
        vec![
            (vec![3], b"c".to_vec()),
            (vec![2], b"b2".to_vec()),
            (vec![1], b"a".to_vec())
        ]
    );

    let rev_keys = storage.rev_keys(None, None);
    assert_eq!(rev_keys, vec![vec![3], vec![2], vec![1]]);

    let rev_values = storage.rev_values(Some(&[2]), None);
    assert_eq!(rev_values, vec![b"c".to_vec(), b"b2".to_vec()]);
}

#[test]
fn prefix_successor_values() {
    assert_eq!(prefix_successor(&[1]), Some(vec![2]));
    assert_eq!(prefix_successor(&[1, 255]), Some(vec![2]));
    assert_eq!(prefix_successor(&[1, 2]), Some(vec![1, 3]));
    assert_eq!(prefix_successor(&[255, 255]), None);
    assert_eq!(prefix_successor(&[]), None);
}

#[test]
fn bounded_typed_iteration() {
    let mut storage = MemStorage::new();
    let map = StoreMap::<String, Item<u64>>::new(&[0]);
    let access = map.access();

    access.entry_mut("aa").set(&mut storage, &1);
    access.entry_mut("ab").set(&mut storage, &2);
    access.entry_mut("ba").set(&mut storage, &3);

    // Bounds are raw bounds on the logical (prefix-stripped) key space.
    let items = access
        .pairs(&storage, Some(&[2, 97, 97]), Some(&[2, 97, 255]))
        .unwrap();
    assert_eq!(
        items,
        vec![
            (("aa".to_string(), ()), 1),
            (("ab".to_string(), ()), 2)
        ]
    );
}

#[test]
fn storage_branch_ops() {
    let mut storage = MemStorage::new();
    let branch = storey::branch::StorageBranch::new(vec![9]);

    branch.set(&mut storage, &[1], b"x");
    assert_eq!(branch.get(&storage, &[1]), Some(b"x".to_vec()));
    assert_eq!(storage.get(&[9, 1]), Some(b"x".to_vec()));

    // A branch of a branch acts as one branch with the concatenated prefix.
    let sub = branch.branch(&[1]);
    assert_eq!(sub.get(&storage, &[]), Some(b"x".to_vec()));

    branch.remove(&mut storage, &[1]);
    assert_eq!(branch.get(&storage, &[1]), None);
}
