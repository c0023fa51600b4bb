use ncclient::{frame_request, Error, FrameReader, GREETING};

#[test]
fn frame_of_abc() {
    let expected = format!("{}\n#3\nabc\n##\n", GREETING);
    assert_eq!(frame_request("abc"), expected.into_bytes());
}

#[test]
fn frame_length_counts_bytes() {
    let body = "é".repeat(60);
    let expected = format!("{}\n#120\n{}\n##\n", GREETING, body);
    assert_eq!(frame_request(&body), expected.into_bytes());
}

#[test]
fn frame_of_empty_body() {
    let expected = format!("{}\n#0\n\n##\n", GREETING);
    assert_eq!(frame_request(""), expected.into_bytes());
}

#[test]
fn greeting_ends_with_legacy_marker() {
    assert!(GREETING.starts_with("<hello xmlns=\"urn:ietf:params:xml:ns:netconf:base:1.0\">"));
    assert!(GREETING.ends_with("</hello>\n]]>]]>"));
}

#[test]
fn reader_stops_right_after_legacy_marker() {
    let mut reader = FrameReader::new();
    let input = b"<hello/>]]>]]>after";
    let used = reader.push_bytes(input);
    assert_eq!(used, 14);
    assert!(reader.is_complete());
    assert_eq!(reader.finish(), Ok(b"<hello/>]]>]]>".to_vec()));
}

#[test]
fn reader_stops_right_after_chunk_marker() {
    let mut reader = FrameReader::new();
    let input = b"\n#3\nabc\n##\nrest";
    let used = reader.push_bytes(input);
    assert_eq!(used, 10);
    assert_eq!(reader.finish(), Ok(b"\n#3\nabc\n##".to_vec()));
}

#[test]
fn reader_byte_by_byte() {
    let mut reader = FrameReader::new();
    let input = b"x]]>]]";
    for b in input.iter() {
        assert!(!reader.push_byte(*b));
    }
    assert!(reader.push_byte(b'>'));
    assert_eq!(reader.finish(), Ok(b"x]]>]]>".to_vec()));
}

#[test]
fn reader_takes_all_without_marker() {
    let mut reader = FrameReader::new();
    let used = reader.push_bytes(b"]]>]]#");
    assert_eq!(used, 6);
    assert!(!reader.is_complete());
    assert_eq!(reader.finish(), Err(Error::IncompleteFrame));
}

#[test]
fn reader_on_empty_stream_is_incomplete() {
    assert_eq!(FrameReader::new().finish(), Err(Error::IncompleteFrame));
}
