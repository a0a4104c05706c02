//! Process watcher behavior: case-insensitive substring matching, one
//! report per watched name per tick, and the published payloads.

use std::cell::RefCell;
use std::rc::Rc;

use server_tui::models::event_bus_field_type::EventFieldType;
use server_tui::models::event_bus_message::EventBusMessage;
use server_tui::models::event_type::EventType;
use server_tui::services::event_bus::{EventBus, Subscriber};
use server_tui::services::process_watcher::{self, ProcessWatcher};

fn strs(v: &[&str]) -> Vec<String> {
    v.iter().map(|s| s.to_string()).collect()
}

#[test]
fn matches_case_insensitively() {
    let w = ProcessWatcher::new(strs(&["FireFox"]));
    let found = w.watch_tick(&strs(&["firefox-bin"]));
    assert_eq!(found, strs(&["FireFox"]));
}

#[test]
fn matches_substrings_of_process_names() {
    let w = ProcessWatcher::new(strs(&["sh"]));
    let found = w.watch_tick(&strs(&["bash"]));
    assert_eq!(found, strs(&["sh"]));
}

#[test]
fn reports_each_watched_name_at_most_once() {
    let w = ProcessWatcher::new(strs(&["a", "b"]));
    let found = w.watch_tick(&strs(&["xa", "ya", "zb"]));
    assert_eq!(found, strs(&["a", "b"]));
}

#[test]
fn reports_in_snapshot_order() {
    let w = ProcessWatcher::new(strs(&["alpha", "beta"]));
    let found = w.watch_tick(&strs(&["the-beta-daemon", "an-alpha-task"]));
    assert_eq!(found, strs(&["beta", "alpha"]));
}

#[test]
fn unmatched_names_are_not_reported() {
    let w = ProcessWatcher::new(strs(&["postgres"]));
    let found = w.watch_tick(&strs(&["bash", "vim"]));
    assert!(found.is_empty());
    let none = w.watch_tick(&Vec::new());
    assert!(none.is_empty());
}

#[test]
fn folding_applies_to_both_sides() {
    let w = ProcessWatcher::new(strs(&["FOO"]));
    assert_eq!(w.watch_tick(&strs(&["foo"])), strs(&["FOO"]));
    let w = ProcessWatcher::new(strs(&["foo"]));
    assert_eq!(w.watch_tick(&strs(&["FOO"])), strs(&["foo"]));
}

#[test]
fn process_payload_decodes_to_a_running_event() {
    let payload = process_watcher::process_event_payload("nginx");
    let d = EventBusMessage::from_bytes(payload).unwrap();
    assert_eq!(d.title(), "nginx");
    assert_eq!(*d.event_type(), EventType::Process);
    assert_eq!(
        d.get_field_string(EventFieldType::Description),
        "Running"
    );
}

struct Recorder {
    log: Rc<RefCell<Vec<Vec<u8>>>>,
}

impl Subscriber for Recorder {
    fn handle(&mut self, payload: &Vec<u8>) {
        self.log.borrow_mut().push(payload.clone());
    }
}

#[test]
fn watch_processes_publishes_one_event_per_match() {
    let log = Rc::new(RefCell::new(Vec::new()));
    let mut bus: EventBus<Recorder> = EventBus::new();
    bus.subscribe(process_watcher::EVENT_TOPIC, Recorder { log: Rc::clone(&log) });
    let w = ProcessWatcher::new(strs(&["cargo", "rustc"]));
    w.watch_processes(&mut bus, &strs(&["rustc-wrapper", "cargo-watch"]));
    let seen = log.borrow().clone();
    assert_eq!(seen.len(), 2);
    let first = EventBusMessage::from_bytes(seen[0].clone()).unwrap();
    let second = EventBusMessage::from_bytes(seen[1].clone()).unwrap();
    assert_eq!(first.title(), "rustc");
    assert_eq!(second.title(), "cargo");
}
