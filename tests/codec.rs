use redis_conn::codec::{decode, encode};
use redis_conn::frame::{Frame, FrameError};

fn round_trip(f: &Frame) -> (Frame, usize, usize) {
    let bytes = encode(f).unwrap();
    let mut with_rest = bytes.clone();
    with_rest.extend_from_slice(b"+next\r\n");
    let (g, n) = decode(&with_rest).unwrap();
    (g, n, bytes.len())
}

#[test]
fn encodes_simple() {
    assert_eq!(encode(&Frame::Simple("OK".to_string())).unwrap(), b"+OK\r\n".to_vec());
}

#[test]
fn encodes_error() {
    assert_eq!(encode(&Frame::Error("ERR bad".to_string())).unwrap(), b"-ERR bad\r\n".to_vec());
}

#[test]
fn encodes_integers() {
    assert_eq!(encode(&Frame::Integer(0)).unwrap(), b":0\r\n".to_vec());
    assert_eq!(encode(&Frame::Integer(1234)).unwrap(), b":1234\r\n".to_vec());
    assert_eq!(encode(&Frame::Integer(-42)).unwrap(), b":-42\r\n".to_vec());
    assert_eq!(
        encode(&Frame::Integer(i64::MIN)).unwrap(),
        b":-9223372036854775808\r\n".to_vec()
    );
    assert_eq!(
        encode(&Frame::Integer(i64::MAX)).unwrap(),
        b":9223372036854775807\r\n".to_vec()
    );
}

#[test]
fn encodes_null_without_type_byte() {
    assert_eq!(encode(&Frame::Null).unwrap(), b"\r\n".to_vec());
}

#[test]
fn encodes_bulk() {
    assert_eq!(encode(&Frame::Bulk(b"bar".to_vec())).unwrap(), b"$3\r\nbar\r\n".to_vec());
    assert_eq!(encode(&Frame::Bulk(Vec::new())).unwrap(), b"$0\r\n\r\n".to_vec());
}

#[test]
fn array_has_no_encoding() {
    let r = encode(&Frame::Array(vec![Frame::Null]));
    assert!(matches!(r, Err(FrameError::UnimplementedEncoding)));
}

#[test]
fn round_trips_every_kind() {
    let (g, n, len) = round_trip(&Frame::Simple("OK".to_string()));
    assert!(matches!(g, Frame::Simple(ref s) if s == "OK"));
    assert_eq!(n, len);
    let (g, n, len) = round_trip(&Frame::Error("ERR wrong type".to_string()));
    assert!(matches!(g, Frame::Error(ref s) if s == "ERR wrong type"));
    assert_eq!(n, len);
    for v in [0i64, 7, -7, 10, 1000, i64::MIN, i64::MAX] {
        let (g, n, len) = round_trip(&Frame::Integer(v));
        assert!(matches!(g, Frame::Integer(x) if x == v));
        assert_eq!(n, len);
    }
    let (g, n, len) = round_trip(&Frame::Null);
    assert!(matches!(g, Frame::Null));
    assert_eq!(n, len);
    let payload = vec![0u8, 13, 10, 255, b'$'];
    let (g, n, len) = round_trip(&Frame::Bulk(payload.clone()));
    assert!(matches!(g, Frame::Bulk(ref b) if *b == payload));
    assert_eq!(n, len);
}

#[test]
fn round_trips_non_ascii_text() {
    let (g, _, _) = round_trip(&Frame::Simple("héllo ✓".to_string()));
    assert!(matches!(g, Frame::Simple(ref s) if s == "héllo ✓"));
}

#[test]
fn incomplete_windows() {
    for w in [&b""[..], b"+OK", b"+OK\r", b":12", b"\r", b"$3\r\nba", b"$3\r\nbar\r", b"$1"] {
        assert!(matches!(decode(w), Err(FrameError::Incomplete)), "{:?}", w);
    }
}

#[test]
fn malformed_windows() {
    for w in [
        &b"!x\r\n"[..],
        b":007\r\n",
        b":-0\r\n",
        b":\r\n",
        b":12a\r\n",
        b":9223372036854775808\r\n",
        b"\rx",
        b"$x\r\n",
        b"$3\r\nbarXY",
        b"*1\r\n:1\r\n",
        b"+\xff\r\n",
    ] {
        assert!(matches!(decode(w), Err(FrameError::Protocol)), "{:?}", w);
    }
}

#[test]
fn decodes_extreme_integers() {
    let (f, n) = decode(b":-9223372036854775808\r\n").unwrap();
    assert!(matches!(f, Frame::Integer(i64::MIN)));
    assert_eq!(n, 23);
}

#[test]
fn simple_stops_at_first_line_break() {
    let (f, n) = decode(b"+a\rb\r\n+c\r\n").unwrap();
    assert!(matches!(f, Frame::Simple(ref s) if s == "a\rb"));
    assert_eq!(n, 6);
}
