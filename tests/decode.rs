use ncclient::decode::element_value_of;
use ncclient::{decode_events, to_json, Error, Value, XmlEvent};

fn s(t: &str) -> Value {
    Value::String(t.to_string())
}

fn obj(entries: Vec<(&str, Value)>) -> Value {
    Value::Object(entries.into_iter().map(|(k, v)| (k.to_string(), v)).collect())
}

#[test]
fn single_leaf_stays_a_string() {
    assert_eq!(to_json("<a>5</a>"), Ok(obj(vec![("a", s("5"))])));
}

#[test]
fn repeated_siblings_become_an_array() {
    assert_eq!(
        to_json("<r><c>1</c><c>2</c></r>"),
        Ok(obj(vec![("r", obj(vec![("c", Value::Array(vec![s("1"), s("2")]))]))]))
    );
}

#[test]
fn third_sibling_is_appended() {
    assert_eq!(
        to_json("<r><c>1</c><c>2</c><c>3</c></r>"),
        Ok(obj(vec![("r", obj(vec![("c", Value::Array(vec![s("1"), s("2"), s("3")]))]))]))
    );
}

#[test]
fn attributes_with_text() {
    assert_eq!(
        to_json("<v present=\"true\">5</v>"),
        Ok(obj(vec![("v", obj(vec![("@present", s("true")), ("#text", s("5"))]))]))
    );
}

#[test]
fn attributes_join_an_object_content() {
    assert_eq!(
        to_json("<d xmlns=\"urn:x\"><a>1</a></d>"),
        Ok(obj(vec![("d", obj(vec![("a", s("1")), ("@xmlns", s("urn:x"))]))]))
    );
}

#[test]
fn attributes_on_an_empty_element() {
    assert_eq!(
        to_json("<e k=\"v\"></e>"),
        Ok(obj(vec![("e", obj(vec![("@k", s("v"))]))]))
    );
}

#[test]
fn empty_element_is_null() {
    assert_eq!(to_json("<e></e>"), Ok(obj(vec![("e", Value::Null)])));
}

#[test]
fn empty_markup_is_null() {
    assert_eq!(to_json(""), Ok(Value::Null));
}

#[test]
fn decoding_twice_gives_equal_values() {
    let markup = "<r a=\"1\"><c>1</c><c>2</c>t<![CDATA[x<y]]></r>";
    let first = to_json(markup);
    let second = to_json(markup);
    assert!(first.is_ok());
    assert_eq!(first, second);
}

#[test]
fn text_beside_children_keeps_the_first_run() {
    assert_eq!(
        to_json("<r>x<c>1</c>y</r>"),
        Ok(obj(vec![("r", obj(vec![("c", s("1")), ("#text", s("x"))]))]))
    );
}

#[test]
fn several_text_runs_form_an_array() {
    assert_eq!(
        to_json("<r>x<!-- note -->y</r>"),
        Ok(obj(vec![("r", Value::Array(vec![s("x"), s("y")]))]))
    );
}

#[test]
fn character_data_is_kept_under_its_key() {
    assert_eq!(
        to_json("<r><![CDATA[a<b]]></r>"),
        Ok(obj(vec![("r", obj(vec![("#cdata", s("a<b"))]))]))
    );
}

#[test]
fn last_character_data_wins() {
    assert_eq!(
        to_json("<r><![CDATA[one]]><![CDATA[two]]></r>"),
        Ok(obj(vec![("r", obj(vec![("#cdata", s("two"))]))]))
    );
}

#[test]
fn entities_are_resolved() {
    assert_eq!(to_json("<a>x &amp; y</a>"), Ok(obj(vec![("a", s("x & y"))])));
}

#[test]
fn whitespace_between_elements_is_dropped() {
    assert_eq!(
        to_json("<r>\n  <c>1</c>\n</r>"),
        Ok(obj(vec![("r", obj(vec![("c", s("1"))]))]))
    );
}

#[test]
fn framed_reply_keeps_its_chunk_header_as_text() {
    assert_eq!(
        to_json("\n#20\n<rpc-reply>ok</rpc-reply>\n##"),
        Ok(obj(vec![("rpc-reply", s("ok")), ("#text", s("#20"))]))
    );
}

#[test]
fn mismatched_end_tag_is_refused() {
    assert_eq!(to_json("<a><b></a>"), Err(Error::Decode));
}

#[test]
fn events_ending_inside_an_element_are_refused() {
    let events = vec![XmlEvent::Start("a".to_string(), String::new()), XmlEvent::Eof];
    assert_eq!(decode_events(&events), Err(Error::Decode));
}

#[test]
fn stray_end_event_is_refused() {
    let events = vec![XmlEvent::End, XmlEvent::Eof];
    assert_eq!(decode_events(&events), Err(Error::Decode));
}

#[test]
fn malformed_event_is_refused() {
    let events = vec![XmlEvent::Text("x".to_string()), XmlEvent::Malformed];
    assert_eq!(decode_events(&events), Err(Error::Decode));
}

#[test]
fn unreadable_attribute_is_refused() {
    let events = vec![
        XmlEvent::Start("a".to_string(), " k k2=\"v\"".to_string()),
        XmlEvent::Text("1".to_string()),
        XmlEvent::End,
        XmlEvent::Eof,
    ];
    assert_eq!(decode_events(&events), Err(Error::Decode));
}

#[test]
fn duplicate_attribute_is_refused() {
    assert_eq!(to_json("<a k=\"1\" k=\"2\">x</a>"), Err(Error::Decode));
}

#[test]
fn unknown_entity_is_refused() {
    assert_eq!(to_json("<a>x &bogus; y</a>"), Err(Error::Decode));
}

#[test]
fn array_content_with_attributes_keeps_only_attributes() {
    let attrs = vec![Some(("k".to_string(), "v".to_string()))];
    let content = Value::Array(vec![s("x"), s("y")]);
    assert_eq!(element_value_of(content, &attrs), obj(vec![("@k", s("v"))]));
}

#[test]
fn self_closing_element_adds_nothing() {
    assert_eq!(
        to_json("<r><a/><b>1</b></r>"),
        Ok(obj(vec![("r", obj(vec![("b", s("1"))]))]))
    );
}

#[test]
fn self_closing_element_with_attributes_adds_nothing() {
    assert_eq!(to_json("<r><a k=\"v\"/></r>"), Ok(obj(vec![("r", Value::Null)])));
}

#[test]
fn declaration_comment_and_doctype_add_nothing() {
    assert_eq!(
        to_json("<?xml version=\"1.0\"?><!DOCTYPE r><!-- c --><r><?pi x?>1</r>"),
        Ok(obj(vec![("r", s("1"))]))
    );
}

#[test]
fn empty_event_is_passed_over() {
    let events = vec![
        XmlEvent::Empty("a".to_string(), " k=\"v\"".to_string()),
        XmlEvent::Comment,
        XmlEvent::Declaration,
        XmlEvent::Instruction,
        XmlEvent::DocType,
        XmlEvent::Eof,
    ];
    assert_eq!(decode_events(&events), Ok(Value::Null));
}

#[test]
fn raw_events_resolve_text_and_attributes() {
    let events = vec![
        XmlEvent::Start("a".to_string(), " k='v' j=\"w\"".to_string()),
        XmlEvent::Text("x &lt; y".to_string()),
        XmlEvent::End,
        XmlEvent::Eof,
    ];
    assert_eq!(
        decode_events(&events),
        Ok(obj(vec![("a", obj(vec![("@k", s("v")), ("@j", s("w")), ("#text", s("x < y"))]))]))
    );
}

#[test]
fn unresolved_text_event_is_refused() {
    let events = vec![XmlEvent::Text("&nope;".to_string()), XmlEvent::Eof];
    assert_eq!(decode_events(&events), Err(Error::Decode));
}
