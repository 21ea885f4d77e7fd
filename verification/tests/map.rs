use storey::bin_storage::Storage;
use storey::containers::item::Item;
use storey::containers::map::StoreMap;
use storey::mem::MemStorage;

#[test]
fn map_map() {
    let mut storage = MemStorage::new();

    let map = StoreMap::<String, Item<u64>>::new(&[0]);

    map.access().entry_mut("foo").set(&mut storage, &1337);

    assert_eq!(map.access().entry("foo").get(&storage).unwrap(), Some(1337));
    assert_eq!(
        storage.get(&[0, 3, 102, 111, 111]),
        Some(1337u64.to_le_bytes().to_vec())
    );
    assert_eq!(map.access().entry("bar").get(&storage).unwrap(), None);
}

#[test]
fn pairs() {
    let mut storage = MemStorage::new();

    let map = StoreMap::<String, Item<u64>>::new(&[0]);
    let access = map.access();

    access.entry_mut("foo").set(&mut storage, &1337);
    access.entry_mut("bar").set(&mut storage, &42);

    let items = access.pairs(&storage, None, None).unwrap();
    assert_eq!(
        items,
        vec![
            (("bar".to_string(), ()), 42),
            (("foo".to_string(), ()), 1337)
        ]
    );
}

#[test]
fn keys() {
    let mut storage = MemStorage::new();

    let map = StoreMap::<String, Item<u64>>::new(&[0]);
    let access = map.access();

    access.entry_mut("foo").set(&mut storage, &1337);
    access.entry_mut("bar").set(&mut storage, &42);

    let keys = access.keys(&storage, None, None).unwrap();
    assert_eq!(keys, vec![("bar".to_string(), ()), ("foo".to_string(), ())])
}

#[test]
fn values() {
    let mut storage = MemStorage::new();

    let map = StoreMap::<String, Item<u64>>::new(&[0]);
    let access = map.access();

    access.entry_mut("foo").set(&mut storage, &1337);
    access.entry_mut("bar").set(&mut storage, &42);

    let values = access.values(&storage, None, None).unwrap();
    assert_eq!(values, vec![42, 1337])
}

#[test]
fn map_of_map_iteration() {
    let mut storage = MemStorage::new();

    let map = StoreMap::<String, StoreMap<String, Item<u64>>>::new(&[0]);
    let access = map.access();

    access
        .entry_mut("foo")
        .entry_mut("bar")
        .set(&mut storage, &1337);
    access
        .entry_mut("foo")
        .entry_mut("baz")
        .set(&mut storage, &42);
    access
        .entry_mut("qux")
        .entry_mut("quux")
        .set(&mut storage, &9001);

    let items = access.pairs(&storage, None, None).unwrap();
    assert_eq!(
        items,
        vec![
            (("foo".to_string(), ("bar".to_string(), ())), 1337),
            (("foo".to_string(), ("baz".to_string(), ())), 42),
            (("qux".to_string(), ("quux".to_string(), ())), 9001),
        ]
    );

    let inner = access.entry("foo").pairs(&storage, None, None).unwrap();
    assert_eq!(
        inner,
        vec![
            (("bar".to_string(), ()), 1337),
            (("baz".to_string(), ()), 42)
        ]
    );
}
