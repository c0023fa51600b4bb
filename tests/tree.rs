use ncclient::tree::{find_key, merge_entry, put_entry};
use ncclient::Value;

fn s(t: &str) -> Value {
    Value::String(t.to_string())
}

#[test]
fn merge_promotes_second_occurrence() {
    let mut e: Vec<(String, Value)> = vec![("b".to_string(), s("0"))];
    merge_entry(&mut e, "a".to_string(), s("1"));
    merge_entry(&mut e, "a".to_string(), s("2"));
    assert_eq!(
        e,
        vec![("b".to_string(), s("0")), ("a".to_string(), Value::Array(vec![s("1"), s("2")]))]
    );
}

#[test]
fn put_replaces_in_place() {
    let mut e: Vec<(String, Value)> = vec![("a".to_string(), s("1")), ("b".to_string(), s("2"))];
    put_entry(&mut e, "a".to_string(), s("3"));
    put_entry(&mut e, "c".to_string(), Value::Null);
    assert_eq!(
        e,
        vec![("a".to_string(), s("3")), ("b".to_string(), s("2")), ("c".to_string(), Value::Null)]
    );
}

#[test]
fn find_key_gives_first_position() {
    let e: Vec<(String, Value)> = vec![("a".to_string(), s("1")), ("b".to_string(), s("2"))];
    assert_eq!(find_key(&e, &"b".to_string()), Some(1));
    assert_eq!(find_key(&e, &"z".to_string()), None);
}
