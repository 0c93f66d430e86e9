use kvs::Command;
use kvs::KvsError;
use kvs::decode_command;
use kvs::encode_command;

fn round_trip_set(key: &str, value: &str) {
    let cmd = Command::set(key.to_string(), value.to_string());
    let bytes = encode_command(&cmd);
    let (decoded, end) = decode_command(&bytes, 0).unwrap();
    assert_eq!(end, bytes.len());
    match decoded {
        Command::Put { key: k, value: v } => {
            assert_eq!(k, key);
            assert_eq!(v, value);
        }
        Command::Remove { .. } => panic!("decoded a Remove from a Set record"),
    }
}

fn round_trip_remove(key: &str) {
    let cmd = Command::remove(key.to_string());
    let bytes = encode_command(&cmd);
    let (decoded, end) = decode_command(&bytes, 0).unwrap();
    assert_eq!(end, bytes.len());
    match decoded {
        Command::Remove { key: k } => assert_eq!(k, key),
        Command::Put { .. } => panic!("decoded a Set from a Remove record"),
    }
}

#[test]
fn encode_then_decode_set() {
    round_trip_set("k", "v");
    round_trip_set("key333", "value:value\u{ff1a}value\u{ff1a}");
    round_trip_set("a", "");
}

#[test]
fn encode_then_decode_remove() {
    round_trip_remove("k");
    round_trip_remove("key333");
}

#[test]
fn keys_and_values_may_hold_any_characters() {
    round_trip_set("with.log/inside", "line\nbreak\ttab");
    round_trip_set("\u{6570}\u{636e}\u{5e93}", "\u{0}embedded\u{0}nul");
    round_trip_set("12345678", "eight-byte-prefix-lookalike\u{1}\u{2}");
}

#[test]
fn set_record_length_is_deterministic() {
    let a = encode_command(&Command::set("k".to_string(), "v".to_string()));
    let b = encode_command(&Command::set("k".to_string(), "v".to_string()));
    assert_eq!(a, b);
}

#[test]
fn records_concatenate_and_split() {
    let mut bytes = encode_command(&Command::set("k1".to_string(), "v1".to_string()));
    let first_end = bytes.len();
    bytes.extend_from_slice(&encode_command(&Command::remove("k1".to_string())));
    let (first, end1) = decode_command(&bytes, 0).unwrap();
    assert_eq!(end1, first_end);
    match first {
        Command::Put { key, value } => {
            assert_eq!(key, "k1");
            assert_eq!(value, "v1");
        }
        Command::Remove { .. } => panic!("wrong variant"),
    }
    let (second, end2) = decode_command(&bytes, end1).unwrap();
    assert_eq!(end2, bytes.len());
    match second {
        Command::Remove { key } => assert_eq!(key, "k1"),
        Command::Put { .. } => panic!("wrong variant"),
    }
}

#[test]
fn garbage_does_not_decode() {
    assert!(matches!(decode_command(&vec![], 0), Err(KvsError::CorruptLog)));
    assert!(matches!(decode_command(&vec![9, 9, 9], 0), Err(KvsError::CorruptLog)));
    let mut truncated = encode_command(&Command::set("key".to_string(), "value".to_string()));
    truncated.pop();
    assert!(matches!(decode_command(&truncated, 0), Err(KvsError::CorruptLog)));
}
