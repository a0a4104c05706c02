//! Status aggregator behavior: TTL eviction, socket exemption, the
//! "done" sentinel, and the placeholder invariant.

use std::cell::RefCell;
use std::rc::Rc;

use server_tui::controllers::current_status::CurrentStatusController;
use server_tui::models::event_bus_field_type::EventFieldType;
use server_tui::models::event_bus_message::EventBusMessage;
use server_tui::models::event_type::EventType;
use server_tui::services::event_bus::{EventBus, Subscriber};
use server_tui::services::socket;

const PLACEHOLDER: &str = "All good!";

fn titles(c: &CurrentStatusController) -> Vec<String> {
    let mut out: Vec<String> = c
        .get_message_lock()
        .iter()
        .map(|m| m.title().to_string())
        .collect();
    out.sort();
    out
}

fn entry(title: &str, kind: EventType, desc: &str, ts: i64) -> EventBusMessage {
    EventBusMessage::with_timestamp(
        title,
        kind,
        Some(vec![(EventFieldType::Description, desc.as_bytes().to_vec())]),
        ts,
    )
}

#[test]
fn ttl_evicts_stale_process_entries() {
    let mut c = CurrentStatusController::new();
    c.apply_event(entry("proc", EventType::Process, "Running", 1000));
    c.cleanup(1001);
    assert_eq!(titles(&c), vec!["proc".to_string()]);
    c.cleanup(1003);
    assert_eq!(titles(&c), vec![PLACEHOLDER.to_string()]);
}

#[test]
fn refresh_restarts_the_ttl() {
    let mut c = CurrentStatusController::new();
    c.apply_event(entry("proc", EventType::Process, "Running", 1000));
    c.apply_event(entry("proc", EventType::Process, "Running", 1004));
    c.cleanup(1005);
    assert_eq!(titles(&c), vec!["proc".to_string()]);
}

#[test]
fn socket_entries_survive_any_age() {
    let mut c = CurrentStatusController::new();
    c.apply_event(entry("job", EventType::Socket, "running", 1000));
    c.cleanup(1010);
    assert_eq!(titles(&c), vec!["job".to_string()]);
    c.cleanup(999_999);
    assert_eq!(titles(&c), vec!["job".to_string()]);
}

#[test]
fn done_removes_a_socket_entry_immediately() {
    let mut c = CurrentStatusController::new();
    c.apply_event(entry("job", EventType::Socket, "running", 1000));
    c.apply_event(entry("job", EventType::Socket, "DONE", 1000));
    assert!(titles(&c).is_empty());
    c.cleanup(1000);
    assert_eq!(titles(&c), vec![PLACEHOLDER.to_string()]);
}

#[test]
fn done_for_an_absent_title_is_stored_like_any_report() {
    let mut c = CurrentStatusController::new();
    c.apply_event(entry("job", EventType::Socket, "done", 1000));
    assert_eq!(titles(&c), vec!["job".to_string()]);
}

#[test]
fn placeholder_appears_only_alone() {
    let mut c = CurrentStatusController::new();
    c.cleanup(0);
    assert_eq!(titles(&c), vec![PLACEHOLDER.to_string()]);
    c.apply_event(entry("a", EventType::Process, "Running", 50));
    assert_eq!(titles(&c), vec!["a".to_string()]);
    c.apply_event(entry("b", EventType::Process, "Running", 50));
    c.cleanup(51);
    let t = titles(&c);
    assert_eq!(t, vec!["a".to_string(), "b".to_string()]);
    assert!(!t.contains(&PLACEHOLDER.to_string()));
    c.cleanup(60);
    assert_eq!(titles(&c), vec![PLACEHOLDER.to_string()]);
}

#[test]
fn malformed_payload_changes_nothing() {
    let mut c = CurrentStatusController::new();
    c.apply_event(entry("a", EventType::Process, "Running", 50));
    let before = titles(&c);
    assert!(c.on_event(&b"no-kind-segment".to_vec()).is_err());
    assert_eq!(titles(&c), before);
}

#[test]
fn on_event_decodes_and_stores() {
    let mut c = CurrentStatusController::new();
    let wire = entry("svc", EventType::Process, "Running", 0).format_bytes();
    assert!(c.on_event(&wire).is_ok());
    assert_eq!(titles(&c), vec!["svc".to_string()]);
    let lock = c.get_message_lock();
    assert_eq!(
        lock[0].get_field_string(EventFieldType::Description),
        "Running"
    );
}

/// A subscriber that forwards deliveries into a shared aggregator, as
/// the application wires the bus to the controller.
struct SharedAggregator(Rc<RefCell<CurrentStatusController>>);

impl Subscriber for SharedAggregator {
    fn handle(&mut self, payload: &Vec<u8>) {
        let _ = self.0.borrow_mut().on_event(payload);
    }
}

#[test]
fn socket_report_reaches_the_snapshot_and_done_clears_it() {
    let ctl = Rc::new(RefCell::new(CurrentStatusController::new()));
    let mut bus: EventBus<SharedAggregator> = EventBus::new();
    bus.subscribe(socket::EVENT_TOPIC, SharedAggregator(Rc::clone(&ctl)));

    let mut buffer = b"{\"title\":\"backup\",\"status\":\"running\"}".to_vec();
    buffer.resize(1024, 0);
    socket::process_message(buffer, &mut bus).unwrap();
    {
        let c = ctl.borrow();
        assert_eq!(titles(&c), vec!["backup".to_string()]);
        let lock = c.get_message_lock();
        assert_eq!(lock[0].title(), "backup");
        assert_eq!(
            lock[0].get_field_string(EventFieldType::Description),
            "running"
        );
        assert_eq!(*lock[0].event_type(), EventType::Socket);
    }

    let mut done = b"{\"title\":\"backup\",\"status\":\"done\"}".to_vec();
    done.resize(1024, 0);
    socket::process_message(done, &mut bus).unwrap();
    assert!(titles(&ctl.borrow()).is_empty());
}
