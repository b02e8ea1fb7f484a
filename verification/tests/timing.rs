use lithium::event::{Event, EventHandler};
use lithium::timer::Timer;

#[derive(Debug, Clone, PartialEq)]
struct Ping(u8);

impl Event for Ping {}

#[test]
fn timer_fires_due_callbacks_earliest_first() {
    let mut t = Timer::new();
    let a = t.schedule(300);
    let b = t.schedule(100);
    let c = t.schedule(100);
    assert_eq!((a, b, c), (1, 2, 3));
    assert!(t.update(50).is_empty());
    // at 150 ms both 100 ms callbacks are due, in scheduling order
    assert_eq!(t.update(100), vec![2, 3]);
    assert!(t.update(100).is_empty());
    assert_eq!(t.update(50), vec![1]);
    assert!(t.update(1000).is_empty());
}

#[test]
fn timer_schedules_relative_to_now() {
    let mut t = Timer::new();
    t.update(1000);
    let id = t.schedule(0);
    assert_eq!(t.update(0), vec![id]);
    t.cancel(7);
    let id2 = t.schedule(10);
    t.cancel(id2);
    // cancelling does not stop a callback
    assert_eq!(t.update(10), vec![id2]);
}

#[test]
fn events_are_selected_per_receiver() {
    let mut h: EventHandler<Ping> = EventHandler::new();
    assert_eq!(h.serialize_events(None, &vec![]), None);
    h.send(None, Ping(0));
    h.send(Some(7), Ping(1));
    h.send(Some(8), Ping(2));
    let encoded = vec![vec![10], vec![11, 11], vec![12]];
    assert_eq!(h.serialize_events(None, &encoded), Some(vec![10, 11, 11, 12]));
    assert_eq!(h.serialize_events(Some(7), &encoded), Some(vec![10, 11, 11]));
    assert_eq!(h.serialize_events(Some(8), &encoded), Some(vec![10, 12]));
    assert_eq!(h.serialize_events(Some(9), &encoded), Some(vec![10]));
    assert_eq!(h.outgoing()[1], (Some(7), Ping(1)));
    // events that encode to nothing make no batch
    assert_eq!(h.serialize_events(Some(9), &vec![vec![], vec![1], vec![2]]), None);
    h.flush();
    assert!(h.outgoing().is_empty());
    assert_eq!(h.serialize_events(None, &vec![]), None);
}

#[test]
fn events_for_one_connection_only() {
    let mut h: EventHandler<Ping> = EventHandler::new();
    h.send(Some(3), Ping(1));
    assert_eq!(h.serialize_events(Some(4), &vec![vec![1]]), None);
    assert_eq!(h.serialize_events(Some(3), &vec![vec![1]]), Some(vec![1]));
}

#[test]
fn received_events_are_handed_out_once() {
    let mut h: EventHandler<Ping> = EventHandler::new();
    assert!(h.received().is_none());
    h.receive_events(3, vec![Ping(4), Ping(5)]);
    assert_eq!(h.received(), Some(vec![(3, Ping(4)), (3, Ping(5))]));
    assert!(h.received().is_none());
    h.receive_events(1, vec![]);
    assert_eq!(h.received(), Some(vec![]));
}
