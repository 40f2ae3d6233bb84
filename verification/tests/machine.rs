use kvdb::command::Command;
use kvdb::error::ApplyError;
use kvdb::machine::StateMachine;

fn put_bytes(key: &str, value: &str) -> Vec<u8> {
    Command::new_set(key, value).encode().unwrap()
}

fn get_bytes(key: &str) -> Vec<u8> {
    Command::new_get(key).encode().unwrap()
}

#[test]
fn end_to_end_example() {
    let mut m = StateMachine::new(1);
    assert_eq!(m.apply(&put_bytes("a", "1")), Ok(Vec::new()));
    assert_eq!(m.apply(&get_bytes("a")), Ok(b"1".to_vec()));
    assert_eq!(m.apply(&get_bytes("b")), Err(ApplyError::NotFound));
}

#[test]
fn missing_key_on_fresh_machine() {
    let mut m = StateMachine::new(0);
    let r = m.apply(&get_bytes("absent"));
    assert_eq!(r, Err(ApplyError::NotFound));
    assert_ne!(r, Ok(Vec::new()), "a missing key must not look like an empty value");
}

#[test]
fn repeated_gets_are_identical() {
    let mut m = StateMachine::new(3);
    m.apply(&put_bytes("k", "stored")).unwrap();
    let first = m.apply(&get_bytes("k"));
    let second = m.apply(&get_bytes("k"));
    assert_eq!(first, Ok(b"stored".to_vec()));
    assert_eq!(first, second);
}

#[test]
fn last_write_wins() {
    let mut m = StateMachine::new(4);
    m.apply(&put_bytes("k", "v1")).unwrap();
    m.apply(&put_bytes("k", "v2")).unwrap();
    assert_eq!(m.apply(&get_bytes("k")), Ok(b"v2".to_vec()));
}

#[test]
fn puts_do_not_leak_across_keys() {
    let mut m = StateMachine::new(5);
    m.apply(&put_bytes("k2", "original")).unwrap();
    m.apply(&put_bytes("k1", "other")).unwrap();
    assert_eq!(m.apply(&get_bytes("k2")), Ok(b"original".to_vec()));
    let mut fresh = StateMachine::new(6);
    fresh.apply(&put_bytes("k1", "other")).unwrap();
    assert_eq!(fresh.apply(&get_bytes("k2")), Err(ApplyError::NotFound));
}

#[test]
fn malformed_input_leaves_mapping_unchanged() {
    let mut m = StateMachine::new(7);
    m.apply(&put_bytes("a", "1")).unwrap();
    assert_eq!(m.apply(&[]), Err(ApplyError::DecodingFailure));
    assert_eq!(m.apply(&[7, 7, 7]), Err(ApplyError::DecodingFailure));
    let mut truncated = put_bytes("b", "2");
    truncated.truncate(truncated.len() - 1);
    assert_eq!(m.apply(&truncated), Err(ApplyError::DecodingFailure));
    assert_eq!(m.apply(&get_bytes("a")), Ok(b"1".to_vec()));
    assert_eq!(m.apply(&get_bytes("b")), Err(ApplyError::NotFound));
}

#[test]
fn empty_key_and_value_are_accepted() {
    let mut m = StateMachine::new(8);
    assert_eq!(m.apply(&put_bytes("", "")), Ok(Vec::new()));
    assert_eq!(m.apply(&get_bytes("")), Ok(Vec::new()));
}

#[test]
fn multibyte_values_round_trip_through_apply() {
    let mut m = StateMachine::new(9);
    m.apply(&put_bytes("grüß", "日本語")).unwrap();
    assert_eq!(m.apply(&get_bytes("grüß")), Ok("日本語".as_bytes().to_vec()));
}
