use kvdb::command::Command;
use kvdb::error::ApplyError;

#[test]
fn round_trip_put() {
    let c = Command::new_set("key", "value");
    let bytes = c.encode().unwrap();
    assert_eq!(Command::decode(&bytes).unwrap(), c);
}

#[test]
fn round_trip_get() {
    let c = Command::new_get("some-key");
    let bytes = c.encode().unwrap();
    assert_eq!(Command::decode(&bytes).unwrap(), c);
}

#[test]
fn round_trip_empty_strings() {
    let c = Command::new_set("", "");
    let bytes = c.encode().unwrap();
    assert_eq!(Command::decode(&bytes).unwrap(), c);
}

#[test]
fn round_trip_multibyte_strings() {
    let c = Command::new_set("clé", "värde 日本語");
    let bytes = c.encode().unwrap();
    assert_eq!(Command::decode(&bytes).unwrap(), c);
}

#[test]
fn encode_get_exact_bytes() {
    let bytes = Command::new_get("a").encode().unwrap();
    assert_eq!(bytes, vec![1, 1, 0, 0, 0, 0, 0, 0, 0, b'a']);
}

#[test]
fn encode_put_exact_bytes() {
    let bytes = Command::new_set("key", "value").encode().unwrap();
    let expected = vec![
        0, // Put tag
        3, 0, 0, 0, 0, 0, 0, 0, b'k', b'e', b'y', // key record
        5, 0, 0, 0, 0, 0, 0, 0, b'v', b'a', b'l', b'u', b'e', // value record
    ];
    assert_eq!(bytes, expected);
}

#[test]
fn decode_rejects_empty_input() {
    assert_eq!(Command::decode(&[]), Err(ApplyError::DecodingFailure));
}

#[test]
fn decode_rejects_unknown_tag() {
    assert_eq!(Command::decode(&[9]), Err(ApplyError::DecodingFailure));
    let mut bytes = Command::new_get("a").encode().unwrap();
    bytes[0] = 2;
    assert_eq!(Command::decode(&bytes), Err(ApplyError::DecodingFailure));
}

#[test]
fn decode_rejects_truncated_input() {
    let bytes = Command::new_set("key", "value").encode().unwrap();
    for cut in 0..bytes.len() {
        assert_eq!(
            Command::decode(&bytes[..cut]),
            Err(ApplyError::DecodingFailure),
            "a prefix of {} bytes must not decode",
            cut
        );
    }
}

#[test]
fn decode_rejects_trailing_bytes() {
    let mut bytes = Command::new_get("a").encode().unwrap();
    bytes.push(0);
    assert_eq!(Command::decode(&bytes), Err(ApplyError::DecodingFailure));
}

#[test]
fn decode_rejects_invalid_utf8_payload() {
    // A structurally complete Get record whose payload byte 0xff is not UTF-8.
    let bytes = vec![1, 1, 0, 0, 0, 0, 0, 0, 0, 0xff];
    assert_eq!(Command::decode(&bytes), Err(ApplyError::DecodingFailure));
}

#[test]
fn decode_rejects_overlong_length_prefix() {
    // The prefix claims 200 payload bytes; only one follows.
    let bytes = vec![1, 200, 0, 0, 0, 0, 0, 0, 0, b'a'];
    assert_eq!(Command::decode(&bytes), Err(ApplyError::DecodingFailure));
}
