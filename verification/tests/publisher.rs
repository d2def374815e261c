use std::cell::RefCell;
use std::rc::Rc;

use event_publisher::{Event, EventHandler, EventPublisher};

/// A handler with no observable behaviour, for registry-only tests.
struct Silent;

impl EventHandler<i64> for Silent {
    fn handle(&self, _event: &Event<i64>) {}
}

/// A handler that appends its label and the payload it saw to a shared log.
struct Recorder {
    label: u64,
    log: Rc<RefCell<Vec<(u64, i64)>>>,
}

impl EventHandler<i64> for Recorder {
    fn handle(&self, event: &Event<i64>) {
        match event {
            Event::Args(value) => self.log.borrow_mut().push((self.label, *value)),
            Event::Missing => self.log.borrow_mut().push((self.label, -1)),
        }
    }
}

#[test]
fn registry_size_counts_subscribe_calls() {
    let mut publisher = EventPublisher::<i64, Silent>::new();
    assert_eq!(publisher.handler_count(), 0);
    for expected in 1..=5usize {
        publisher.subscribe_handler(Silent);
        assert_eq!(publisher.handler_count(), expected);
    }
}

#[test]
fn unsubscribe_on_empty_registry_returns_false() {
    let mut publisher = EventPublisher::<i64, Silent>::new();
    assert!(!publisher.unsubscribe_handler(0));
    assert!(!publisher.unsubscribe_handler(17));
}

#[test]
fn unsubscribe_twice_returns_false() {
    let mut publisher = EventPublisher::<i64, Silent>::new();
    let first = publisher.subscribe_handler(Silent);
    let second = publisher.subscribe_handler(Silent);
    assert!(publisher.unsubscribe_handler(second));
    assert!(!publisher.unsubscribe_handler(second));
    assert!(publisher.unsubscribe_handler(first));
    assert!(!publisher.unsubscribe_handler(first));
}

#[test]
fn subscribe_unsubscribe_round_trip_preserves_state() {
    let mut publisher = EventPublisher::<i64, Silent>::new();
    publisher.subscribe_handler(Silent);
    publisher.subscribe_handler(Silent);
    let count_before = publisher.handler_count();
    let ids_before = publisher.handler_identities();
    let extra = publisher.subscribe_handler(Silent);
    assert!(publisher.unsubscribe_handler(extra));
    assert_eq!(publisher.handler_count(), count_before);
    assert_eq!(publisher.handler_identities(), ids_before);
}

#[test]
fn duplicate_handlers_occupy_separate_slots() {
    let mut publisher = EventPublisher::<i64, Silent>::new();
    let first = publisher.subscribe_handler(Silent);
    let second = publisher.subscribe_handler(Silent);
    assert_ne!(first, second);
    assert_eq!(publisher.handler_count(), 2);
    assert!(publisher.unsubscribe_handler(first));
    assert_eq!(publisher.handler_count(), 1);
    assert_eq!(publisher.handler_identities(), vec![second]);
}

#[test]
fn unsubscribe_removes_only_the_matching_entry() {
    let mut publisher = EventPublisher::<i64, Silent>::new();
    let mut ids = Vec::new();
    for _count in 0..7 {
        ids.push(publisher.subscribe_handler(Silent));
    }
    assert!(publisher.unsubscribe_handler(ids[3]));
    assert!(!publisher.unsubscribe_handler(ids[3]));
    let mut expected = ids.clone();
    expected.remove(3);
    assert_eq!(publisher.handler_identities(), expected);
    assert!(!publisher.unsubscribe_handler(999));
    assert_eq!(publisher.handler_identities(), expected);
}

#[test]
fn sequential_publish_visits_handlers_in_identity_order() {
    let log = Rc::new(RefCell::new(Vec::new()));
    let mut publisher = EventPublisher::<i64, Recorder>::new();
    let a = publisher.subscribe_handler(Recorder { label: 10, log: Rc::clone(&log) });
    let b = publisher.subscribe_handler(Recorder { label: 20, log: Rc::clone(&log) });
    let c = publisher.subscribe_handler(Recorder { label: 30, log: Rc::clone(&log) });
    assert!(a < b && b < c);
    assert_eq!(publisher.handler_identities(), vec![a, b, c]);
    publisher.publish_event(&Event::Args(42));
    let entries = log.borrow().clone();
    assert_eq!(entries, vec![(10, 42), (20, 42), (30, 42)]);
}

#[test]
fn publish_missing_event_reaches_every_handler() {
    let log = Rc::new(RefCell::new(Vec::new()));
    let mut publisher = EventPublisher::<i64, Recorder>::new();
    publisher.subscribe_handler(Recorder { label: 1, log: Rc::clone(&log) });
    publisher.subscribe_handler(Recorder { label: 2, log: Rc::clone(&log) });
    publisher.publish_event(&Event::Missing);
    let entries = log.borrow().clone();
    assert_eq!(entries, vec![(1, -1), (2, -1)]);
}

#[test]
fn publish_on_empty_registry_does_nothing() {
    let publisher = EventPublisher::<i64, Silent>::new();
    publisher.publish_event(&Event::Args(7));
    assert_eq!(publisher.handler_count(), 0);
}

#[test]
fn later_subscribers_receive_later_events_only() {
    let log = Rc::new(RefCell::new(Vec::new()));
    let mut publisher = EventPublisher::<i64, Recorder>::new();
    publisher.subscribe_handler(Recorder { label: 1, log: Rc::clone(&log) });
    publisher.publish_event(&Event::Args(5));
    publisher.subscribe_handler(Recorder { label: 2, log: Rc::clone(&log) });
    publisher.publish_event(&Event::Args(6));
    let entries = log.borrow().clone();
    assert_eq!(entries, vec![(1, 5), (1, 6), (2, 6)]);
}
