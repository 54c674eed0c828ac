use redis_conn::codec::encode;
use redis_conn::connection::{FrameReader, ReadStep};
use redis_conn::frame::{Frame, FrameError};

fn stream() -> Vec<u8> {
    let mut s = Vec::new();
    s.extend(encode(&Frame::Simple("OK".to_string())).unwrap());
    s.extend(encode(&Frame::Bulk(b"bar".to_vec())).unwrap());
    s.extend(encode(&Frame::Integer(-5)).unwrap());
    s.extend(encode(&Frame::Null).unwrap());
    s
}

fn feed(chunk: usize) -> Vec<String> {
    let bytes = stream();
    let mut r = FrameReader::new();
    let mut out = Vec::new();
    let mut pos = 0;
    loop {
        while let Some(f) = r.parse_frame().unwrap() {
            out.push(format!("{:?}", f));
        }
        let end = usize::min(pos + chunk, bytes.len());
        match r.receive(&bytes[pos..end]).unwrap() {
            ReadStep::Retry => pos = end,
            ReadStep::EndOfStream => return out,
        }
    }
}

#[test]
fn one_byte_at_a_time_matches_one_chunk() {
    let whole = feed(usize::MAX / 2);
    assert_eq!(whole.len(), 4);
    assert_eq!(feed(1), whole);
    assert_eq!(feed(2), whole);
    assert_eq!(feed(5), whole);
    assert!(whole[1].contains("Bulk"));
}

#[test]
fn clean_end_of_stream() {
    let mut r = FrameReader::new();
    assert!(matches!(r.parse_frame(), Ok(None)));
    assert_eq!(r.receive(&[]), Ok(ReadStep::EndOfStream));
}

#[test]
fn reset_in_the_middle_of_a_frame() {
    let mut r = FrameReader::new();
    assert_eq!(r.receive(b"$3\r\nba"), Ok(ReadStep::Retry));
    assert!(matches!(r.parse_frame(), Ok(None)));
    assert_eq!(r.receive(&[]), Err(FrameError::ConnectionReset));
}

#[test]
fn malformed_bytes_are_an_error() {
    let mut r = FrameReader::new();
    assert_eq!(r.receive(b"?oops\r\n"), Ok(ReadStep::Retry));
    assert!(matches!(r.parse_frame(), Err(FrameError::Protocol)));
}

#[test]
fn failed_array_encoding_leaves_the_stream_intact() {
    let mut r = FrameReader::new();
    assert_eq!(r.receive(b"+fi"), Ok(ReadStep::Retry));
    assert!(matches!(
        encode(&Frame::Array(vec![Frame::Integer(1)])),
        Err(FrameError::UnimplementedEncoding)
    ));
    assert_eq!(r.receive(b"rst\r\n:2\r\n"), Ok(ReadStep::Retry));
    assert!(matches!(r.parse_frame(), Ok(Some(Frame::Simple(ref s))) if s == "first"));
    assert!(matches!(r.parse_frame(), Ok(Some(Frame::Integer(2)))));
    assert!(matches!(r.parse_frame(), Ok(None)));
}
