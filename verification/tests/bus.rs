//! Event bus behavior: id assignment and reuse, fan-out, unsubscribe.

use std::cell::RefCell;
use std::rc::Rc;

use server_tui::services::event_bus::{EventBus, Subscriber};

/// A callback that records every payload it handles into a shared log,
/// tagged with its own number, so delivery order is observable.
struct Recorder {
    tag: u32,
    log: Rc<RefCell<Vec<(u32, Vec<u8>)>>>,
}

impl Subscriber for Recorder {
    fn handle(&mut self, payload: &Vec<u8>) {
        self.log.borrow_mut().push((self.tag, payload.clone()));
    }
}

fn recorder(tag: u32, log: &Rc<RefCell<Vec<(u32, Vec<u8>)>>>) -> Recorder {
    Recorder { tag, log: Rc::clone(log) }
}

#[test]
fn subscribe_assigns_sequential_ids() {
    let log = Rc::new(RefCell::new(Vec::new()));
    let mut bus: EventBus<Recorder> = EventBus::new();
    assert_eq!(bus.subscribe("topic", recorder(0, &log)), 0);
    assert_eq!(bus.subscribe("topic", recorder(1, &log)), 1);
    assert_eq!(bus.subscribe("topic", recorder(2, &log)), 2);
}

#[test]
fn unsubscribe_vacates_an_id_for_reuse() {
    let log = Rc::new(RefCell::new(Vec::new()));
    let mut bus: EventBus<Recorder> = EventBus::new();
    assert_eq!(bus.subscribe("topic", recorder(0, &log)), 0);
    assert_eq!(bus.subscribe("topic", recorder(1, &log)), 1);
    assert_eq!(bus.subscribe("topic", recorder(2, &log)), 2);
    assert_eq!(bus.unsubscribe("topic", 1), Some(1));
    assert_eq!(bus.subscribe("topic", recorder(3, &log)), 1);
}

#[test]
fn unsubscribe_missing_id_returns_nothing() {
    let log = Rc::new(RefCell::new(Vec::new()));
    let mut bus: EventBus<Recorder> = EventBus::new();
    assert_eq!(bus.unsubscribe("topic", 0), None);
    bus.subscribe("topic", recorder(0, &log));
    assert_eq!(bus.unsubscribe("topic", 7), None);
    assert_eq!(bus.unsubscribe("other", 0), None);
}

#[test]
fn ids_are_per_topic() {
    let log = Rc::new(RefCell::new(Vec::new()));
    let mut bus: EventBus<Recorder> = EventBus::new();
    assert_eq!(bus.subscribe("a", recorder(0, &log)), 0);
    assert_eq!(bus.subscribe("b", recorder(1, &log)), 0);
    assert_eq!(bus.subscribe("a", recorder(2, &log)), 1);
}

#[test]
fn publish_reaches_every_subscriber_once_in_order() {
    let log = Rc::new(RefCell::new(Vec::new()));
    let mut bus: EventBus<Recorder> = EventBus::new();
    bus.subscribe("topic", recorder(10, &log));
    bus.subscribe("topic", recorder(20, &log));
    bus.subscribe("topic", recorder(30, &log));
    let payload = b"hello".to_vec();
    bus.publish("topic", &payload);
    let seen = log.borrow().clone();
    assert_eq!(
        seen,
        vec![
            (10, b"hello".to_vec()),
            (20, b"hello".to_vec()),
            (30, b"hello".to_vec()),
        ]
    );
}

#[test]
fn publish_skips_other_topics_and_empty_topics() {
    let log = Rc::new(RefCell::new(Vec::new()));
    let mut bus: EventBus<Recorder> = EventBus::new();
    bus.subscribe("a", recorder(1, &log));
    bus.publish("b", &b"x".to_vec());
    assert!(log.borrow().is_empty());
    bus.publish("a", &b"y".to_vec());
    assert_eq!(log.borrow().clone(), vec![(1, b"y".to_vec())]);
}

#[test]
fn unsubscribed_callback_is_not_invoked() {
    let log = Rc::new(RefCell::new(Vec::new()));
    let mut bus: EventBus<Recorder> = EventBus::new();
    bus.subscribe("topic", recorder(1, &log));
    let id = bus.subscribe("topic", recorder(2, &log));
    assert_eq!(bus.unsubscribe("topic", id), Some(id));
    bus.publish("topic", &b"z".to_vec());
    assert_eq!(log.borrow().clone(), vec![(1, b"z".to_vec())]);
}
