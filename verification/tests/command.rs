use kvs::command::Command;
use kvs::error::KVError;

fn le_bytes(x: u64) -> Vec<u8> {
    x.to_le_bytes().to_vec()
}

#[test]
fn set_frame_layout() {
    let cmd = Command::Put { key: b"k".to_vec(), value: b"v".to_vec() };
    let frame = cmd.parse();

    let mut expected = le_bytes(27);
    expected.push(0);
    expected.extend_from_slice(&le_bytes(1));
    expected.push(b'k');
    expected.extend_from_slice(&le_bytes(1));
    expected.push(b'v');

    assert_eq!(expected, frame);
}

#[test]
fn remove_frame_layout() {
    let cmd = Command::Remove { key: b"key".to_vec() };
    let frame = cmd.parse();

    let mut expected = le_bytes(20);
    expected.push(1);
    expected.extend_from_slice(&le_bytes(3));
    expected.extend_from_slice(b"key");

    assert_eq!(expected, frame);
}

#[test]
fn round_trip_set() {
    let cmd = Command::Put { key: b"foo".to_vec(), value: b"bar baz".to_vec() };
    let frame = cmd.parse();

    let (decoded, consumed) = Command::decode(&frame, 0).unwrap();
    assert_eq!(consumed, frame.len());
    match decoded {
        Command::Put { key, value } => {
            assert_eq!(key, b"foo".to_vec());
            assert_eq!(value, b"bar baz".to_vec());
        }
        Command::Remove { .. } => panic!("decoded a Remove from a Set frame"),
    }
}

#[test]
fn round_trip_remove() {
    let cmd = Command::Remove { key: b"foo".to_vec() };
    let frame = cmd.parse();

    let (decoded, consumed) = Command::decode(&frame, 0).unwrap();
    assert_eq!(consumed, frame.len());
    match decoded {
        Command::Remove { key } => assert_eq!(key, b"foo".to_vec()),
        Command::Put { .. } => panic!("decoded a Set from a Remove frame"),
    }
}

#[test]
fn round_trip_empty_key_and_value() {
    let cmd = Command::Put { key: Vec::new(), value: Vec::new() };
    let frame = cmd.parse();
    assert_eq!(frame.len(), 25);

    let (decoded, consumed) = Command::decode(&frame, 0).unwrap();
    assert_eq!(consumed, 25);
    match decoded {
        Command::Put { key, value } => {
            assert!(key.is_empty());
            assert!(value.is_empty());
        }
        Command::Remove { .. } => panic!("decoded a Remove from a Set frame"),
    }
}

#[test]
fn round_trip_at_offset() {
    let first = Command::Put { key: b"a".to_vec(), value: b"1".to_vec() };
    let second = Command::Remove { key: b"a".to_vec() };
    let mut log = first.parse();
    let off = log.len();
    log.extend_from_slice(&second.parse());

    let (decoded, _) = Command::decode(&log, off).unwrap();
    match decoded {
        Command::Remove { key } => assert_eq!(key, b"a".to_vec()),
        Command::Put { .. } => panic!("decoded a Set from a Remove frame"),
    }
}

#[test]
fn decode_short_buffer_is_malformed() {
    let data = vec![1, 2, 3];
    assert_eq!(Command::decode(&data, 0).unwrap_err(), KVError::MalformedRecord);
}

#[test]
fn decode_total_past_buffer_is_malformed() {
    let cmd = Command::Put { key: b"k".to_vec(), value: b"v".to_vec() };
    let mut frame = cmd.parse();
    frame.pop();
    assert_eq!(Command::decode(&frame, 0).unwrap_err(), KVError::MalformedRecord);
}

#[test]
fn decode_tiny_total_is_malformed() {
    let mut data = 5u64.to_le_bytes().to_vec();
    data.extend_from_slice(&[0u8; 24]);
    assert_eq!(Command::decode(&data, 0).unwrap_err(), KVError::MalformedRecord);
}

#[test]
fn decode_key_length_past_frame_is_malformed() {
    let mut data = 17u64.to_le_bytes().to_vec();
    data.push(1);
    data.extend_from_slice(&3u64.to_le_bytes());
    data.extend_from_slice(b"abc");
    assert_eq!(Command::decode(&data, 0).unwrap_err(), KVError::MalformedRecord);
}
