use kvs::bitcask::{Bitcask, Segment};
use kvs::command::Command;
use kvs::error::KVError;

fn open_empty() -> Bitcask {
    Bitcask::open(Vec::new()).unwrap()
}

#[test]
fn fresh_engine_has_no_keys() {
    let engine = open_empty();
    assert_eq!(engine.get(b"never set".to_vec()).unwrap(), None);
    assert_eq!(engine.uncompacted(), 0);
    assert_eq!(engine.current_generation(), 0);
}

#[test]
fn write_read() {
    let mut engine = open_empty();
    engine.set(b"key1".to_vec(), b"value1".to_vec()).unwrap();
    assert_eq!(engine.get(b"key1".to_vec()).unwrap(), Some(b"value1".to_vec()));
}

#[test]
fn last_write_wins() {
    let mut engine = open_empty();
    engine.set(b"k".to_vec(), b"v1".to_vec()).unwrap();
    engine.set(b"k".to_vec(), b"v2".to_vec()).unwrap();
    assert_eq!(engine.get(b"k".to_vec()).unwrap(), Some(b"v2".to_vec()));
}

#[test]
fn remove_clears_and_second_remove_fails() {
    let mut engine = open_empty();
    engine.set(b"k".to_vec(), b"v".to_vec()).unwrap();
    engine.remove(b"k".to_vec()).unwrap();
    assert_eq!(engine.get(b"k".to_vec()).unwrap(), None);
    assert_eq!(engine.remove(b"k".to_vec()), Err(KVError::KeyNotFound));
}

#[test]
fn remove_on_fresh_engine_fails() {
    let mut engine = open_empty();
    assert_eq!(engine.remove(b"k".to_vec()), Err(KVError::KeyNotFound));
}

#[test]
fn reopen_scenario() {
    // open empty at a fresh directory, set, close and reopen, read back,
    // remove, reopen again, gone.
    let mut engine = open_empty();
    engine.set(b"foo".to_vec(), b"bar".to_vec()).unwrap();
    let dir = engine.close();

    let mut engine = Bitcask::open(dir).unwrap();
    assert_eq!(engine.get(b"foo".to_vec()).unwrap(), Some(b"bar".to_vec()));
    engine.remove(b"foo".to_vec()).unwrap();
    let dir = engine.close();

    let engine = Bitcask::open(dir).unwrap();
    assert_eq!(engine.get(b"foo".to_vec()).unwrap(), None);
}

#[test]
fn reopen_replays_overwrites_and_removes() {
    let mut engine = open_empty();
    engine.set(b"a".to_vec(), b"1".to_vec()).unwrap();
    engine.set(b"b".to_vec(), b"2".to_vec()).unwrap();
    engine.set(b"a".to_vec(), b"3".to_vec()).unwrap();
    engine.remove(b"b".to_vec()).unwrap();
    let before_counter = engine.uncompacted();

    let engine = Bitcask::open(engine.close()).unwrap();
    assert_eq!(engine.get(b"a".to_vec()).unwrap(), Some(b"3".to_vec()));
    assert_eq!(engine.get(b"b".to_vec()).unwrap(), None);
    assert_eq!(engine.uncompacted(), before_counter);
}

#[test]
fn generation_rollover() {
    // keys written on either side of a simulated rollover (a second,
    // empty generation file) resolve through the correct generation.
    let mut engine = open_empty();
    engine.set(b"k1".to_vec(), b"v1".to_vec()).unwrap();
    let mut dir = engine.close();
    dir.push(Segment { gen: 1, data: Vec::new() });

    let mut engine = Bitcask::open(dir).unwrap();
    assert_eq!(engine.current_generation(), 1);
    engine.set(b"k2".to_vec(), b"v2".to_vec()).unwrap();
    assert_eq!(engine.get(b"k1".to_vec()).unwrap(), Some(b"v1".to_vec()));
    assert_eq!(engine.get(b"k2".to_vec()).unwrap(), Some(b"v2".to_vec()));

    // and still after another reopen
    let engine = Bitcask::open(engine.close()).unwrap();
    assert_eq!(engine.get(b"k1".to_vec()).unwrap(), Some(b"v1".to_vec()));
    assert_eq!(engine.get(b"k2".to_vec()).unwrap(), Some(b"v2".to_vec()));
}

#[test]
fn obsolete_counter_counts_first_record_exactly() {
    let mut engine = open_empty();
    engine.set(b"k".to_vec(), b"a".to_vec()).unwrap();
    assert_eq!(engine.uncompacted(), 0);
    engine.set(b"k".to_vec(), b"b".to_vec()).unwrap();
    // the first Set frame: 25 bytes of overhead, one of key, one of value
    let first_len = Command::Put { key: b"k".to_vec(), value: b"a".to_vec() }.parse().len();
    assert_eq!(engine.uncompacted(), first_len as u64);
    assert_eq!(first_len, 27);
}

#[test]
fn obsolete_counter_counts_removes() {
    let mut engine = open_empty();
    engine.set(b"k".to_vec(), b"a".to_vec()).unwrap();
    engine.remove(b"k".to_vec()).unwrap();
    let set_len = Command::Put { key: b"k".to_vec(), value: b"a".to_vec() }.parse().len();
    let rm_len = Command::Remove { key: b"k".to_vec() }.parse().len();
    assert_eq!(engine.uncompacted(), (set_len + rm_len) as u64);
}

#[test]
fn open_rejects_truncated_log() {
    let mut engine = open_empty();
    engine.set(b"k".to_vec(), b"v".to_vec()).unwrap();
    let mut dir = engine.close();
    let data = &mut dir[0].data;
    data.pop();
    assert!(matches!(Bitcask::open(dir), Err(KVError::CorruptLog)));
}

#[test]
fn open_rejects_garbage_log() {
    let dir = vec![Segment { gen: 0, data: vec![7, 7, 7] }];
    assert!(matches!(Bitcask::open(dir), Err(KVError::CorruptLog)));
}

#[test]
fn empty_key_and_value_survive_reopen() {
    let mut engine = open_empty();
    engine.set(Vec::new(), Vec::new()).unwrap();
    let engine = Bitcask::open(engine.close()).unwrap();
    assert_eq!(engine.get(Vec::new()).unwrap(), Some(Vec::new()));
}
