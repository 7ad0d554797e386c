use crush::protocol::{
    decode_body, frame, read_message, write_notification, write_response, FrameError, FrameHeader,
    FrameReader, MAX_FRAME_BYTES,
};
use serde_json::Value;

fn json(text: &str) -> Value {
    serde_json::from_str(text).unwrap()
}

fn reader(bytes: &[u8]) -> FrameReader {
    FrameReader::new(bytes.to_vec())
}

#[test]
fn reads_a_single_framed_message() {
    let body = r#"{"jsonrpc":"2.0","id":1,"method":"initialize"}"#;
    let frame = format!("Content-Length: {}\r\n\r\n{}", body.len(), body);
    let mut cursor = FrameReader::new(frame.into_bytes());
    let msg = read_message(&mut cursor).unwrap().unwrap();
    assert_eq!(msg["method"], "initialize");
    assert_eq!(msg["id"], 1);
}

#[test]
fn returns_none_on_clean_eof() {
    let mut cursor = FrameReader::new(Vec::new());
    assert!(read_message(&mut cursor).unwrap().is_none());
}

#[test]
fn errors_on_missing_content_length() {
    let mut cursor = FrameReader::new(b"\r\n{}".to_vec());
    assert!(read_message(&mut cursor).is_err());
}

#[test]
fn round_trips_two_back_to_back_messages() {
    let a = r#"{"id":1,"method":"a"}"#;
    let b = r#"{"id":2,"method":"b"}"#;
    let frame = format!(
        "Content-Length: {}\r\n\r\n{}Content-Length: {}\r\n\r\n{}",
        a.len(),
        a,
        b.len(),
        b
    );
    let mut cursor = FrameReader::new(frame.into_bytes());
    let first = read_message(&mut cursor).unwrap().unwrap();
    let second = read_message(&mut cursor).unwrap().unwrap();
    assert_eq!(first["method"], "a");
    assert_eq!(second["method"], "b");
}

#[test]
fn write_response_is_framed_and_readable() {
    let mut out = Vec::new();
    write_response(&mut out, &json("7"), json(r#"{"action":"continue"}"#)).unwrap();
    let mut cursor = FrameReader::new(out);
    let msg = read_message(&mut cursor).unwrap().unwrap();
    assert_eq!(msg["id"], 7);
    assert_eq!(msg["result"]["action"], "continue");
}

#[test]
fn a_response_is_these_bytes() {
    let mut out = b"before".to_vec();
    write_response(&mut out, &Value::Null, json("[1]")).unwrap();
    assert_eq!(
        String::from_utf8(out).unwrap(),
        "beforeContent-Length: 40\r\n\r\n{\"jsonrpc\":\"2.0\",\"id\":null,\"result\":[1]}"
    );
}

#[test]
fn a_notification_is_these_bytes() {
    let mut out = Vec::new();
    write_notification(&mut out, "m", json("{\"a\":\"é\"}")).unwrap();
    assert_eq!(
        String::from_utf8(out).unwrap(),
        "Content-Length: 50\r\n\r\n{\"jsonrpc\":\"2.0\",\"method\":\"m\",\"params\":{\"a\":\"é\"}}"
    );
}

#[test]
fn frames_carry_any_bytes() {
    let mut out = Vec::new();
    frame(&mut out, b"\"a\r\n\"");
    assert_eq!(out, b"Content-Length: 5\r\n\r\n\"a\r\n\"");
}

#[test]
fn headers_are_read_loosely() {
    let mut r = reader(b"content-LENGTH :  +2 \nX-Other: 9\nContent-Length: 04\r\r\n\r\n true");
    assert!(matches!(read_message(&mut r), Err(FrameError::Malformed(_))));
    let mut r = reader(b"no colon\ncontent-length: 4\n\ntrue");
    assert_eq!(read_message(&mut r).unwrap(), Some(Value::Bool(true)));
    let mut r = reader("Content-Length:\u{a0}4\u{2003}\n\nnull".as_bytes());
    assert_eq!(read_message(&mut r).unwrap(), Some(Value::Null));
}

#[test]
fn the_last_length_counts_even_where_it_is_none() {
    let mut r = reader(b"Content-Length: 4\nContent-Length: x\n\ntrue");
    assert!(matches!(read_message(&mut r), Err(FrameError::MissingLength)));
    for bad in ["-1", "", "+", "1x", "99999999999999999999999"] {
        let mut r = FrameReader::new(format!("Content-Length: {bad}\n\n").into_bytes());
        assert!(matches!(read_message(&mut r), Err(FrameError::MissingLength)));
    }
}

#[test]
fn the_end_within_headers_is_an_error() {
    for cut in ["Content-Length: 2\r\n", "Content-Length: 2", "x"] {
        let mut r = reader(cut.as_bytes());
        assert!(matches!(read_message(&mut r), Err(FrameError::Truncated)));
        assert!(read_message(&mut r).unwrap().is_none());
    }
    let mut h = FrameHeader::new();
    assert!(h.at_end().is_ok());
    assert!(!h.accept(b"a: b\n").unwrap());
    assert!(matches!(h.at_end(), Err(FrameError::Truncated)));
}

#[test]
fn a_body_that_is_cut_off_is_an_error() {
    let mut r = reader(b"Content-Length: 5\r\n\r\ntrue");
    assert!(matches!(read_message(&mut r), Err(FrameError::Truncated)));
    assert!(read_message(&mut r).unwrap().is_none());
}

#[test]
fn a_length_over_the_limit_is_an_error() {
    let mut r = FrameReader::new(
        format!("Content-Length: {}\r\n\r\n", MAX_FRAME_BYTES + 1).into_bytes(),
    );
    assert!(matches!(read_message(&mut r), Err(FrameError::TooLong)));
    let mut r = FrameReader::new(format!("Content-Length: {}\r\n\r\n", MAX_FRAME_BYTES).into_bytes());
    assert!(matches!(read_message(&mut r), Err(FrameError::Truncated)));
    assert_eq!(MAX_FRAME_BYTES, 64 * 1024 * 1024);
}

#[test]
fn a_header_that_is_no_text_is_an_error_and_reading_goes_on() {
    let mut r = reader(b"\xff\xfe\nContent-Length: 1\n\n7");
    assert!(matches!(read_message(&mut r), Err(FrameError::NotText)));
    assert_eq!(read_message(&mut r).unwrap(), Some(Value::from(7)));
}

#[test]
fn headers_can_be_taken_line_by_line() {
    let mut h = FrameHeader::new();
    assert!(matches!(h.body_length(), Err(FrameError::MissingLength)));
    assert!(!h.accept(b"Content-Length: 12\r\n").unwrap());
    assert!(!h.accept(b"Content-Type: x\r\n").unwrap());
    assert!(h.accept(b"\r\n").unwrap());
    assert_eq!(h.body_length().unwrap(), 12);
    assert!(matches!(h.accept(b"\xc3"), Err(FrameError::NotText)));
}

#[test]
fn bodies_are_decoded() {
    assert_eq!(decode_body(b"[1,2]").unwrap(), json("[1,2]"));
    assert!(matches!(decode_body(b"[1,"), Err(FrameError::Malformed(_))));
    assert!(matches!(decode_body(b"\xff"), Err(FrameError::Malformed(_))));
}

#[test]
fn errors_have_messages() {
    assert_eq!(FrameError::NotText.message(), "header is not valid UTF-8");
    assert_eq!(FrameError::MissingLength.message(), "missing Content-Length");
    assert_eq!(FrameError::TooLong.message(), "Content-Length over the limit");
    assert_eq!(FrameError::Truncated.message(), "unexpected end of frame");
    assert_eq!(decode_body(b"x").unwrap_err().message(), "malformed JSON");
}

#[test]
fn written_values_read_back() {
    for text in ["null", "-9223372036854775808", "18446744073709551615", "[{\"a\":[]},\"\\u0000\\\"\"]"] {
        let mut out = Vec::new();
        write_response(&mut out, &json(text), json(text)).unwrap();
        write_notification(&mut out, text, json(text)).unwrap();
        let mut r = FrameReader::new(out);
        let first = read_message(&mut r).unwrap().unwrap();
        assert_eq!(first["id"], json(text));
        assert_eq!(first["result"], json(text));
        let second = read_message(&mut r).unwrap().unwrap();
        assert_eq!(second["method"], text);
        assert_eq!(second["params"], json(text));
        assert!(read_message(&mut r).unwrap().is_none());
    }
}
