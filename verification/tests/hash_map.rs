use kvs::hash_map::HashMapStore;
use kvs::kv::KeyValueStore;

#[test]
fn hash_map_store_engine_write_read() {
    let mut store_engine = HashMapStore::new();
    let key = "key1".as_bytes();
    let expected_value = "value1".as_bytes();

    store_engine.set(&key, &expected_value);
    let actual_value = store_engine.get(&key).unwrap();

    assert_eq!(expected_value.to_vec(), actual_value);
}

#[test]
fn hash_map_store_engine_get_non_existed_value() {
    let store_engine = HashMapStore::new();
    let non_existed_key = "key1".as_bytes();

    let output = store_engine.get(&non_existed_key);

    assert!(output.is_none());
}

#[test]
fn hash_map_store_engine_replace_write() {
    let mut store_engine = HashMapStore::new();
    let key = "key1".as_bytes();
    let values = ["v1", "v2", "v3", "v4"];

    for value in values.iter() {
        store_engine.set(&key, &value.as_bytes());
    }

    let expected_value = values.last().unwrap().as_bytes().to_vec();
    let actual_value = store_engine.get(&key).unwrap();

    assert_eq!(expected_value, actual_value);
}

#[test]
fn hash_map_store_engine_remove() {
    let mut store_engine = HashMapStore::new();
    let key = "key1".as_bytes();
    let expected_value = "value1".as_bytes();

    store_engine.set(&key, &expected_value);
    let actual_value = store_engine.get(&key).unwrap();

    assert_eq!(expected_value.to_vec(), actual_value);

    store_engine.remove(&key);
    let output = store_engine.get(&key);

    assert!(output.is_none());
}
