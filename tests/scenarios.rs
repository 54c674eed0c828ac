use redis_conn::codec::encode;
use redis_conn::connection::{FrameReader, ReadStep};
use redis_conn::dispatch::{Action, Dispatcher, Event};
use redis_conn::frame::Frame;

#[test]
fn set_then_get_reads_back_the_value() {
    let mut d = Dispatcher::new();
    let mut r = FrameReader::new();

    assert_eq!(d.step(Event::Dequeued), Action::Serve);
    let ok = encode(&Frame::Simple("OK".to_string())).unwrap();
    assert_eq!(r.receive(&ok), Ok(ReadStep::Retry));
    assert!(matches!(r.parse_frame(), Ok(Some(Frame::Simple(ref s))) if s == "OK"));
    assert_eq!(d.step(Event::Replied), Action::Deliver);

    assert_eq!(d.step(Event::Dequeued), Action::Serve);
    assert_eq!(r.receive(b"$3\r\nbar\r\n"), Ok(ReadStep::Retry));
    assert!(matches!(r.parse_frame(), Ok(Some(Frame::Bulk(ref b))) if b == b"bar"));
    assert_eq!(d.step(Event::Replied), Action::Deliver);
}

#[test]
fn missing_key_is_absent_not_an_error() {
    let mut d = Dispatcher::new();
    let mut r = FrameReader::new();
    assert_eq!(d.step(Event::Dequeued), Action::Serve);
    assert_eq!(r.receive(b"\r\n"), Ok(ReadStep::Retry));
    assert!(matches!(r.parse_frame(), Ok(Some(Frame::Null))));
    assert_eq!(d.step(Event::Replied), Action::Deliver);
    assert!(d.accepts(Event::Dequeued));
}

#[test]
fn second_request_waits_for_the_first_reply() {
    let mut d = Dispatcher::new();
    assert_eq!(d.step(Event::Dequeued), Action::Serve);
    assert!(!d.accepts(Event::Dequeued));
    assert!(d.accepts(Event::Replied));
    assert_eq!(d.step(Event::Replied), Action::Deliver);
    assert!(d.accepts(Event::Dequeued));
}
