//! Wire codec behavior: encoding, decoding, and the round trip.

use server_tui::models::event_bus_field_type::EventFieldType;
use server_tui::models::event_bus_message::{DecodeError, EventBusMessage};
use server_tui::models::event_type::EventType;

fn make(title: &str, kind: EventType, fields: Vec<(EventFieldType, Vec<u8>)>) -> EventBusMessage {
    EventBusMessage::new(title, kind, Some(fields))
}

#[test]
fn round_trip_description() {
    let e = make(
        "backup",
        EventType::Socket,
        vec![(EventFieldType::Description, b"running".to_vec())],
    );
    let wire = e.format_bytes();
    let d = EventBusMessage::from_bytes(wire).unwrap();
    assert_eq!(d.title(), "backup");
    assert_eq!(*d.event_type(), EventType::Socket);
    assert_eq!(d.get_field(EventFieldType::Description), b"running".to_vec());
}

#[test]
fn round_trip_numeric_fields() {
    let cpu = vec![0u8, 1, 9, 10, 99, 100, 255];
    let mem = vec![255u8; 8];
    let e = make(
        "usage",
        EventType::HWusage,
        vec![
            (EventFieldType::Cpu, cpu.clone()),
            (EventFieldType::Memory, mem.clone()),
        ],
    );
    let d = EventBusMessage::from_bytes(e.format_bytes()).unwrap();
    assert_eq!(d.title(), "usage");
    assert_eq!(*d.event_type(), EventType::HWusage);
    assert_eq!(d.get_field(EventFieldType::Cpu), cpu);
    assert_eq!(d.get_field(EventFieldType::Memory), mem);
}

#[test]
fn round_trip_empty_fields() {
    let e = EventBusMessage::new("just-a-title", EventType::Process, None);
    let wire = e.format_bytes();
    assert_eq!(wire, b"just-a-title|1".to_vec());
    let d = EventBusMessage::from_bytes(wire).unwrap();
    assert_eq!(d.title(), "just-a-title");
    assert_eq!(*d.event_type(), EventType::Process);
}

#[test]
fn round_trip_unicode_title() {
    let e = make(
        "sicherung-\u{00e9}\u{4e2d}",
        EventType::Timestamp,
        vec![(EventFieldType::Timestamp, vec![1, 2, 3, 4, 5, 6, 7, 8])],
    );
    let d = EventBusMessage::from_bytes(e.format_bytes()).unwrap();
    assert_eq!(d.title(), "sicherung-\u{00e9}\u{4e2d}");
    assert_eq!(
        d.get_field(EventFieldType::Timestamp),
        vec![1, 2, 3, 4, 5, 6, 7, 8]
    );
}

#[test]
fn wire_text_format() {
    let e = make(
        "usage",
        EventType::HWusage,
        vec![(EventFieldType::Cpu, vec![1, 2])],
    );
    assert_eq!(e.format(), "usage|2|cpu=[1,2]");
    assert_eq!(e.format_bytes(), b"usage|2|cpu=[1,2]".to_vec());
}

#[test]
fn decode_needs_two_segments() {
    assert_eq!(EventBusMessage::from_bytes(b"title-without-kind".to_vec()).unwrap_err(), DecodeError::MissingSegments);
    assert_eq!(EventBusMessage::from_bytes(Vec::new()).unwrap_err(), DecodeError::MissingSegments);
}

#[test]
fn decode_rejects_bad_kind() {
    assert_eq!(EventBusMessage::from_bytes(b"t|9".to_vec()).unwrap_err(), DecodeError::InvalidKind);
    assert_eq!(EventBusMessage::from_bytes(b"t|x".to_vec()).unwrap_err(), DecodeError::InvalidKind);
    assert_eq!(EventBusMessage::from_bytes(b"t|".to_vec()).unwrap_err(), DecodeError::InvalidKind);
    assert_eq!(EventBusMessage::from_bytes(b"t|1234".to_vec()).unwrap_err(), DecodeError::InvalidKind);
}

#[test]
fn decode_rejects_unknown_key() {
    assert_eq!(EventBusMessage::from_bytes(b"t|0|speed=[1]".to_vec()).unwrap_err(), DecodeError::UnknownFieldKey);
}

#[test]
fn decode_rejects_field_without_value() {
    assert_eq!(EventBusMessage::from_bytes(b"t|0|description".to_vec()).unwrap_err(), DecodeError::MissingFieldValue);
}

#[test]
fn decode_rejects_bad_numeric_value() {
    assert_eq!(EventBusMessage::from_bytes(b"t|2|cpu=1,2".to_vec()).unwrap_err(), DecodeError::InvalidFieldValue);
    assert_eq!(EventBusMessage::from_bytes(b"t|2|cpu=[256]".to_vec()).unwrap_err(), DecodeError::InvalidFieldValue);
    assert_eq!(EventBusMessage::from_bytes(b"t|2|cpu=[1,,2]".to_vec()).unwrap_err(), DecodeError::InvalidFieldValue);
}

#[test]
fn decode_rejects_invalid_utf8_title() {
    assert_eq!(EventBusMessage::from_bytes(vec![0xff, 0xfe, b'|', b'0']).unwrap_err(), DecodeError::InvalidUtf8);
}

#[test]
fn decode_is_case_insensitive_on_keys() {
    let d = EventBusMessage::from_bytes(b"t|0|DESCRIPTION=ok".to_vec()).unwrap();
    assert_eq!(d.get_field_string(EventFieldType::Description), "ok");
}

#[test]
fn decode_accepts_spaces_in_numeric_lists() {
    let d = EventBusMessage::from_bytes(b"t|2|cpu=[1, 2, 3]".to_vec()).unwrap();
    assert_eq!(d.get_field(EventFieldType::Cpu), vec![1, 2, 3]);
    let d = EventBusMessage::from_bytes(b"t|2|cpu=[]".to_vec()).unwrap();
    assert_eq!(d.get_field(EventFieldType::Cpu), Vec::<u8>::new());
}

#[test]
fn decode_keeps_equals_signs_in_description() {
    let d = EventBusMessage::from_bytes(b"t|0|description=a=b=c".to_vec()).unwrap();
    assert_eq!(d.get_field_string(EventFieldType::Description), "a=b=c");
}

#[test]
fn decode_duplicate_key_keeps_latest_value() {
    let d = EventBusMessage::from_bytes(b"t|0|description=old|description=new".to_vec()).unwrap();
    assert_eq!(d.get_field_string(EventFieldType::Description), "new");
}

#[test]
fn absent_field_yields_note() {
    let e = EventBusMessage::new("t", EventType::Process, None);
    assert_eq!(
        e.get_field_string(EventFieldType::Description),
        "'description' not found"
    );
    assert_eq!(
        e.get_field_string(EventFieldType::Cpu),
        "'cpu' not found"
    );
}

#[test]
fn timestamps_are_not_carried_by_the_wire() {
    let e = EventBusMessage::with_timestamp("t", EventType::Process, None, 123456);
    assert_eq!(e.ts(), 123456);
    let wire = e.format_bytes();
    assert_eq!(wire, b"t|1".to_vec());
    let d = EventBusMessage::from_bytes(wire).unwrap();
    assert_ne!(d.ts(), 123456);
}

#[test]
fn event_type_values() {
    assert_eq!(EventType::Socket.get_value(), 0);
    assert_eq!(EventType::Process.get_value(), 1);
    assert_eq!(EventType::HWusage.get_value(), 2);
    assert_eq!(EventType::Timestamp.get_value(), 3);
    assert_eq!(EventType::from_u8(0), EventType::Socket);
    assert_eq!(EventType::from_u8(3), EventType::Timestamp);
}

#[test]
fn field_type_names() {
    assert_eq!(EventFieldType::Description.to_string(), "description");
    assert_eq!(EventFieldType::Timestamp.to_string(), "timestamp");
    assert_eq!(
        EventFieldType::from_string("MeMoRy"),
        EventFieldType::Memory
    );
    assert_eq!(EventFieldType::from_string("cpu"), EventFieldType::Cpu);
}
