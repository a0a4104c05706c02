//! Clock plumbing: timestamp bytes, the wall-clock producer, and the
//! clock display state.

use std::cell::RefCell;
use std::rc::Rc;

use server_tui::controllers::datetime::DateTimeController;
use server_tui::models::event_bus_field_type::EventFieldType;
use server_tui::models::event_bus_message::EventBusMessage;
use server_tui::models::event_type::EventType;
use server_tui::services::datetime::{self, DateTimeService};
use server_tui::services::event_bus::{EventBus, Subscriber};
use server_tui::utils::bytes_helper::{bytes_to_i64, i64_to_le_bytes};

#[test]
fn i64_bytes_round_trip() {
    for v in [0i64, 1, -1, 1_700_000_000, i64::MAX, i64::MIN] {
        assert_eq!(bytes_to_i64(i64_to_le_bytes(v)), v);
    }
}

#[test]
fn i64_bytes_are_little_endian() {
    assert_eq!(i64_to_le_bytes(1), vec![1, 0, 0, 0, 0, 0, 0, 0]);
    assert_eq!(bytes_to_i64(vec![0xff; 8]), -1);
}

fn timestamp_wire(ts: i64) -> Vec<u8> {
    EventBusMessage::new(
        "timestamp",
        EventType::Timestamp,
        Some(vec![(EventFieldType::Timestamp, i64_to_le_bytes(ts))]),
    )
    .format_bytes()
}

#[test]
fn controller_takes_the_published_timestamp_over() {
    let mut c = DateTimeController::new();
    assert!(c.on_event(&timestamp_wire(12345)).is_ok());
    assert_eq!(c.get_formatted_time(), "03:25:45");
}

#[test]
fn formatted_time_wraps_days_and_handles_negatives() {
    let mut c = DateTimeController::new();
    c.on_event(&timestamp_wire(0)).unwrap();
    assert_eq!(c.get_formatted_time(), "00:00:00");
    c.on_event(&timestamp_wire(86399)).unwrap();
    assert_eq!(c.get_formatted_time(), "23:59:59");
    c.on_event(&timestamp_wire(86400)).unwrap();
    assert_eq!(c.get_formatted_time(), "00:00:00");
    c.on_event(&timestamp_wire(-1)).unwrap();
    assert_eq!(c.get_formatted_time(), "23:59:59");
    c.on_event(&timestamp_wire(-86400)).unwrap();
    assert_eq!(c.get_formatted_time(), "00:00:00");
}

#[test]
fn malformed_or_fieldless_events_leave_the_clock_alone() {
    let mut c = DateTimeController::new();
    c.on_event(&timestamp_wire(3661)).unwrap();
    assert_eq!(c.get_formatted_time(), "01:01:01");
    assert!(c.on_event(&b"garbage".to_vec()).is_err());
    assert_eq!(c.get_formatted_time(), "01:01:01");
    let fieldless = EventBusMessage::new("timestamp", EventType::Timestamp, None).format_bytes();
    c.on_event(&fieldless).unwrap();
    assert_eq!(c.get_formatted_time(), "01:01:01");
}

struct SharedClock(Rc<RefCell<DateTimeController>>);

impl Subscriber for SharedClock {
    fn handle(&mut self, payload: &Vec<u8>) {
        let _ = self.0.borrow_mut().on_event(payload);
    }
}

#[test]
fn the_producer_feeds_the_controller_through_the_bus() {
    let ctl = Rc::new(RefCell::new(DateTimeController::new()));
    let mut bus: EventBus<SharedClock> = EventBus::new();
    bus.subscribe(datetime::EVENT_TOPIC, SharedClock(Rc::clone(&ctl)));
    let service = DateTimeService::new();
    service.poll(&mut bus);
    let now = chrono::Utc::now().timestamp();
    let shown = ctl.borrow().get_formatted_time();
    let secs = now.rem_euclid(86400);
    let expect_now = format!(
        "{:02}:{:02}:{:02}",
        secs / 3600,
        (secs % 3600) / 60,
        secs % 60
    );
    let prev = (now - 1).rem_euclid(86400);
    let expect_prev = format!(
        "{:02}:{:02}:{:02}",
        prev / 3600,
        (prev % 3600) / 60,
        prev % 60
    );
    assert!(shown == expect_now || shown == expect_prev);
}

struct Recorder {
    log: Rc<RefCell<Vec<Vec<u8>>>>,
}

impl Subscriber for Recorder {
    fn handle(&mut self, payload: &Vec<u8>) {
        self.log.borrow_mut().push(payload.clone());
    }
}

#[test]
fn hardware_usage_payload_carries_both_bit_patterns() {
    let log = Rc::new(RefCell::new(Vec::new()));
    let mut bus: EventBus<Recorder> = EventBus::new();
    bus.subscribe(
        server_tui::services::hw_usage::EVENT_TOPIC,
        Recorder { log: Rc::clone(&log) },
    );
    let cpu = 42.5f64;
    let mem = 87.25f64;
    server_tui::services::hw_usage::publish_usage(&mut bus, cpu.to_bits(), mem.to_bits());
    let seen = log.borrow().clone();
    assert_eq!(seen.len(), 1);
    let d = EventBusMessage::from_bytes(seen[0].clone()).unwrap();
    assert_eq!(d.title(), "usage");
    assert_eq!(*d.event_type(), EventType::HWusage);
    let cpu_bytes = d.get_field(EventFieldType::Cpu);
    let mem_bytes = d.get_field(EventFieldType::Memory);
    assert_eq!(
        f64::from_bits(u64::from_le_bytes(cpu_bytes.try_into().unwrap())),
        42.5
    );
    assert_eq!(
        f64::from_bits(u64::from_le_bytes(mem_bytes.try_into().unwrap())),
        87.25
    );
}
