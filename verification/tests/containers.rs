use storey::bin_storage::Storage;
use storey::containers::item::Item;
use storey::containers::map::StoreMap;
use storey::mem::MemStorage;

#[test]
fn item() {
    let mut storage = MemStorage::new();

    let item = Item::<u64>::new(&[0]);
    let access = item.access();

    assert_eq!(access.get(&storage).unwrap(), None);

    access.set(&mut storage, &42);

    assert_eq!(access.get(&storage).unwrap(), Some(42));
    assert_eq!(storage.get(&[0]), Some(42u64.to_le_bytes().to_vec()));

    access.remove(&mut storage);
    assert_eq!(access.get(&storage).unwrap(), None);
}

#[test]
fn containers_map() {
    let mut storage = MemStorage::new();

    let map = StoreMap::<String, Item<u64>>::new(&[0]);

    map.access().entry_mut("foo").set(&mut storage, &1337);

    assert_eq!(map.access().entry("foo").get(&storage).unwrap(), Some(1337));
    assert_eq!(
        storage.get(&[0, 3, 102, 111, 111]),
        Some(1337u64.to_le_bytes().to_vec())
    );
    assert_eq!(map.access().entry("bar").get(&storage).unwrap(), None);
}

#[test]
fn map_of_map() {
    let mut storage = MemStorage::new();

    let map = StoreMap::<String, StoreMap<String, Item<u64>>>::new(&[0]);

    map.access()
        .entry_mut("foo")
        .entry_mut("bar")
        .set(&mut storage, &1337);

    assert_eq!(
        map.access()
            .entry("foo")
            .entry("bar")
            .get(&storage)
            .unwrap(),
        Some(1337)
    );
    assert_eq!(
        storage.get(&[0, 3, 102, 111, 111, 3, 98, 97, 114]),
        Some(1337u64.to_le_bytes().to_vec())
    );
    assert_eq!(
        map.access()
            .entry("foo")
            .entry("baz")
            .get(&storage)
            .unwrap(),
        None
    );
}

#[test]
fn simple_iteration() {
    let mut storage = MemStorage::new();

    let map = StoreMap::<String, Item<u64>>::new(&[0]);
    let access = map.access();

    access.entry_mut("foo").set(&mut storage, &1337);
    access.entry_mut("bar").set(&mut storage, &42);

    let items = access.iter(&storage, None, None).unwrap();
    assert_eq!(
        items,
        vec![
            (("bar".to_string(), ()), 42),
            (("foo".to_string(), ()), 1337)
        ]
    );
}

#[test]
fn composable_iteration() {
    let mut storage = MemStorage::new();

    let map = StoreMap::<String, StoreMap<String, Item<u64>>>::new(&[0]);
    let access = map.access();

    access
        .entry_mut("foo")
        .entry_mut("bar")
        .set(&mut storage, &1337);
    access
        .entry_mut("foo")
        .entry_mut("baz")
        .set(&mut storage, &42);
    access
        .entry_mut("qux")
        .entry_mut("quux")
        .set(&mut storage, &9001);

    let items = access.iter(&storage, None, None).unwrap();
    assert_eq!(
        items,
        vec![
            (("foo".to_string(), ("bar".to_string(), ())), 1337),
            (("foo".to_string(), ("baz".to_string(), ())), 42),
            (("qux".to_string(), ("quux".to_string(), ())), 9001),
        ]
    );

    let inner = access.entry("foo").iter(&storage, None, None).unwrap();
    assert_eq!(
        inner,
        vec![
            (("bar".to_string(), ()), 1337),
            (("baz".to_string(), ()), 42)
        ]
    );
}
