//! Socket payload parsing: the two-field JSON object, its escapes, NUL
//! trimming, and the failure cases — cross-checked against serde_json.

use server_tui::models::event_bus_message::DecodeError;
use server_tui::services::socket::parse_socket_message;

fn padded(s: &str) -> Vec<u8> {
    let mut v = s.as_bytes().to_vec();
    v.resize(1024, 0);
    v
}

#[test]
fn parses_a_plain_report() {
    let m = parse_socket_message(&padded("{\"title\":\"backup\",\"status\":\"running\"}"))
        .unwrap();
    assert_eq!(m.title, "backup");
    assert_eq!(m.status, "running");
}

#[test]
fn parses_with_whitespace_and_swapped_order() {
    let m = parse_socket_message(&padded(
        " {\n\t\"status\" : \"ok\" ,\r\n \"title\" : \"job\" }\n",
    ))
    .unwrap();
    assert_eq!(m.title, "job");
    assert_eq!(m.status, "ok");
}

#[test]
fn parses_escapes() {
    let m = parse_socket_message(&padded(
        "{\"title\":\"a\\\"b\\\\c\",\"status\":\"line\\nbreak\\tand\\/slash\"}",
    ))
    .unwrap();
    assert_eq!(m.title, "a\"b\\c");
    assert_eq!(m.status, "line\nbreak\tand/slash");
}

#[test]
fn parses_unicode_text() {
    let m = parse_socket_message(&padded(
        "{\"title\":\"b\u{00e4}ckup\",\"status\":\"l\u{00e4}uft\"}",
    ))
    .unwrap();
    assert_eq!(m.title, "b\u{00e4}ckup");
    assert_eq!(m.status, "l\u{00e4}uft");
}

#[test]
fn works_without_padding_too() {
    let m = parse_socket_message(b"{\"title\":\"t\",\"status\":\"s\"}").unwrap();
    assert_eq!(m.title, "t");
    assert_eq!(m.status, "s");
}

#[test]
fn rejects_malformed_payloads() {
    let bad = [
        "",
        "{}",
        "[1,2]",
        "{\"title\":\"a\"}",
        "{\"title\":\"a\",\"status\":\"b\",\"extra\":\"c\"}",
        "{\"title\":\"a\",\"state\":\"b\"}",
        "{\"title\":\"a\",\"status\":\"b\"} trailing",
        "{\"title\":\"a\",\"status\":\"b\"",
        "{\"title\":\"a\" \"status\":\"b\"}",
        "{\"title\":\"a\",\"status\":42}",
        "{\"title\":\"a\",\"status\":\"b\\u0041\"}",
    ];
    for s in bad {
        assert_eq!(
            parse_socket_message(&padded(s)).unwrap_err(),
            DecodeError::MalformedJson,
            "accepted: {s}"
        );
    }
}

#[test]
fn rejects_invalid_utf8_strings() {
    let mut v = b"{\"title\":\"".to_vec();
    v.push(0xff);
    v.extend_from_slice(b"\",\"status\":\"ok\"}");
    v.resize(1024, 0);
    assert_eq!(parse_socket_message(&v).unwrap_err(), DecodeError::InvalidUtf8);
}

#[test]
fn agrees_with_a_reference_parser_on_accepted_inputs() {
    let cases = [
        "{\"title\":\"backup\",\"status\":\"running\"}",
        " { \"status\" : \"x y z\" , \"title\" : \"T\" } ",
        "{\"title\":\"q\\\"uote\",\"status\":\"ta\\tb\"}",
    ];
    for s in cases {
        let mine = parse_socket_message(&padded(s)).unwrap();
        let v: serde_json::Value = serde_json::from_str(s).unwrap();
        assert_eq!(mine.title, v.get("title").unwrap().as_str().unwrap());
        assert_eq!(mine.status, v.get("status").unwrap().as_str().unwrap());
    }
}

#[test]
fn rejects_what_the_reference_parser_rejects() {
    let cases = [
        "{\"title\":\"a\",\"status\":\"b\"",
        "{\"title\":\"a\" \"status\":\"b\"}",
        "{\"title\":\"a\",\"status\":\"b\\x\"}",
    ];
    for s in cases {
        assert!(parse_socket_message(&padded(s)).is_err());
        assert!(serde_json::from_str::<serde_json::Value>(s).is_err());
    }
}
