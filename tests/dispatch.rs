use redis_conn::dispatch::{Action, Dispatcher, Event};

#[test]
fn set_then_get_are_served_in_turn() {
    let mut d = Dispatcher::new();
    assert_eq!(d.step(Event::Dequeued), Action::Serve);
    assert!(!d.accepts(Event::Dequeued));
    assert_eq!(d.step(Event::Replied), Action::Deliver);
    assert_eq!(d.step(Event::Dequeued), Action::Serve);
    assert_eq!(d.step(Event::Replied), Action::Deliver);
    assert_eq!(d.step(Event::QueueClosed), Action::Exit);
    assert!(!d.accepts(Event::Dequeued));
}

#[test]
fn a_failure_stops_the_actor_and_drains_the_queue() {
    let mut d = Dispatcher::new();
    assert_eq!(d.step(Event::Dequeued), Action::Serve);
    assert_eq!(d.step(Event::Failed), Action::DeliverError);
    assert_eq!(d.step(Event::Dequeued), Action::Reject);
    assert_eq!(d.step(Event::Dequeued), Action::Reject);
    assert!(!d.accepts(Event::Replied));
    assert_eq!(d.step(Event::QueueClosed), Action::Exit);
}

#[test]
fn idle_actor_cannot_take_a_reply() {
    let d = Dispatcher::new();
    assert!(d.accepts(Event::Dequeued));
    assert!(d.accepts(Event::QueueClosed));
    assert!(!d.accepts(Event::Replied));
    assert!(!d.accepts(Event::Failed));
}
