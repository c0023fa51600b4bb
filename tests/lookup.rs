use ncclient::lookup::{component_record, get_key, get_path, reply_components, value_to_i64};
use ncclient::{to_json, Value};

fn s(t: &str) -> Value {
    Value::String(t.to_string())
}

fn keys(k: &[&str]) -> Vec<String> {
    k.iter().map(|x| x.to_string()).collect()
}

const REPLY: &str = "\n#999\n<rpc-reply message-id=\"101\"><data><components>\
<component><name>port-1</name><transceiver><state><present>PRESENT</present>\
<serial-no>S1</serial-no><vendor>V</vendor><vendor-part>P</vendor-part><vendor-rev>R</vendor-rev></state>\
<physical-channels><channel><index>0</index><state><input-power><avg>-2.5</avg></input-power></state></channel>\
<channel><index>1</index></channel></physical-channels></transceiver></component>\
<component><name>port-2</name><transceiver><state><present>NOT_PRESENT</present></state></transceiver></component>\
</components></data></rpc-reply>\n##";

#[test]
fn path_lookup_follows_keys() {
    let v = to_json("<a><b><c>x</c></b></a>").unwrap();
    assert_eq!(get_path(&v, &keys(&["a", "b", "c"])), Some(&s("x")));
    assert_eq!(get_path(&v, &keys(&["a", "z"])), None);
    assert_eq!(get_path(&v, &keys(&[])), Some(&v));
    assert_eq!(get_key(&s("x"), &"a".to_string()), None);
}

#[test]
fn deep_clone_is_equal() {
    let v = to_json(REPLY).unwrap();
    assert_eq!(v.deep_clone(), v);
}

#[test]
fn components_of_a_reply() {
    let v = to_json(REPLY).unwrap();
    let cs = reply_components(&v).unwrap();
    assert_eq!(cs.len(), 2);
    assert_eq!(cs[0].name, s("port-1"));
    let t = cs[0].transceiver.as_ref().unwrap();
    assert_eq!(t.serial_no, s("S1"));
    assert_eq!(t.vendor, s("V"));
    assert_eq!(t.vendor_part, s("P"));
    assert_eq!(t.vendor_rev, s("R"));
    assert_eq!(t.channels.len(), 2);
    assert_eq!(
        t.channels[0],
        Value::Object(vec![(
            "input-power".to_string(),
            Value::Object(vec![("avg".to_string(), s("-2.5"))])
        )])
    );
    assert_eq!(t.channels[1], Value::Object(vec![]));
    assert_eq!(cs[1].name, s("port-2"));
    assert!(cs[1].transceiver.is_none());
}

#[test]
fn component_without_name_is_refused() {
    let v = to_json(
        "<rpc-reply><data><components><component><x>1</x></component>\
         <component><x>2</x></component></components></data></rpc-reply>",
    )
    .unwrap();
    assert!(reply_components(&v).is_none());
}

#[test]
fn single_component_is_not_a_list() {
    let v = to_json(
        "<rpc-reply><data><components><component><name>a</name></component></components></data></rpc-reply>",
    )
    .unwrap();
    assert_eq!(reply_components(&v).map(|c| c.len()), Some(0));
}

#[test]
fn integer_leaves_parse() {
    assert_eq!(value_to_i64(&s("42")), Some(42));
    assert_eq!(value_to_i64(&s("-7")), Some(-7));
    assert_eq!(value_to_i64(&s("+3")), Some(3));
    assert_eq!(value_to_i64(&s("-9223372036854775808")), Some(i64::MIN));
    assert_eq!(value_to_i64(&s("9223372036854775808")), None);
    assert_eq!(value_to_i64(&s("")), None);
    assert_eq!(value_to_i64(&s("-")), None);
    assert_eq!(value_to_i64(&s("1.5")), None);
    assert_eq!(value_to_i64(&s(" 1")), None);
    assert_eq!(value_to_i64(&Value::Null), None);
}

#[test]
fn records_of_components() {
    let v = to_json(REPLY).unwrap();
    let cs = reply_components(&v).unwrap();
    let present = component_record(&cs[0]);
    let Value::Object(entries) = present else { panic!("not an object") };
    let keys: Vec<&str> = entries.iter().map(|(k, _)| k.as_str()).collect();
    assert_eq!(
        keys,
        vec!["name", "present-state", "serial-no", "vendor", "vendor-part", "vendor-rev", "channel"]
    );
    assert_eq!(entries[1].1, s("PRESENT"));
    assert_eq!(
        component_record(&cs[1]),
        Value::Object(vec![
            ("name".to_string(), s("port-2")),
            ("present-state".to_string(), s("NOT_PRESENT")),
        ])
    );
}

#[test]
fn record_without_channels_has_no_channel_entry() {
    let v = to_json(
        "<rpc-reply><data><components><component><name>a</name><transceiver><state>\
         <present>PRESENT</present><serial-no>1</serial-no><vendor>2</vendor>\
         <vendor-part>3</vendor-part><vendor-rev>4</vendor-rev></state></transceiver>\
         </component><component><name>b</name><transceiver><state><present>NOT_PRESENT</present>\
         </state></transceiver></component></components></data></rpc-reply>",
    )
    .unwrap();
    let cs = reply_components(&v).unwrap();
    let Value::Object(entries) = component_record(&cs[0]) else { panic!("not an object") };
    assert_eq!(entries.len(), 6);
    assert_eq!(entries[5], ("vendor-rev".to_string(), s("4")));
}

#[test]
fn integer_leaf_edges() {
    assert_eq!(value_to_i64(&s("9223372036854775807")), Some(i64::MAX));
    assert_eq!(value_to_i64(&s("-9223372036854775809")), None);
    assert_eq!(value_to_i64(&s("99999999999999999999")), None);
    assert_eq!(value_to_i64(&s("-0")), Some(0));
    assert_eq!(value_to_i64(&s("0009")), Some(9));
    assert_eq!(value_to_i64(&s("+")), None);
    assert_eq!(value_to_i64(&s("1a")), None);
    assert_eq!(value_to_i64(&s("+-1")), None);
    assert_eq!(value_to_i64(&s("é")), None);
    assert_eq!(value_to_i64(&s("99999999999999999999x")), None);
}
