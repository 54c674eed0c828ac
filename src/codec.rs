//! Encoding frames to bytes, and decoding the frame at the front of a byte window.
use vstd::prelude::*;
use vstd::slice::{slice_subrange, slice_to_vec};
use vstd::utf8::{
    decode_utf8, decode_utf8_encode_utf8, encode_utf8, encode_utf8_decode_utf8,
    encode_utf8_valid_utf8, valid_utf8,
};
use crate::decimal::{
    canonical, decimal, digits, is_digit, lemma_digits_value, lemma_value_digits, push_decimal,
    push_digits, value,
};
use crate::frame::{Frame, FrameError, FrameView};
use crate::grammar::{
    crlf_at, decodable, decoded, ends_early, first_crlf, frame_bytes, incomplete, is_prefix, lemma_bulk_header,
    lemma_bulk_in_prefix, lemma_drop_sign, lemma_line, lemma_line_in_prefix, lemma_no_crlf_decimal,
    lemma_tag, lemma_tag_prefix, lemma_unique, lemma_whole_not_incomplete,
};

verus! {

/// Relies on String::from_utf8: it succeeds exactly on valid UTF-8, and the
/// string then holds the characters that the bytes encode.
#[verifier::external_body]
fn string_from_utf8(v: Vec<u8>) -> (r: Option<String>)
    ensures
        r is Some <==> valid_utf8(v@),
        r matches Some(s) ==> s@ == decode_utf8(v@),
{
    String::from_utf8(v).ok()
}

fn push_all(out: &mut Vec<u8>, b: &[u8])
    ensures
        final(out)@ == old(out)@ + b@,
{
    let mut i: usize = 0;
    while i < b.len()
        invariant
            i <= b@.len(),
            out@ == old(out)@ + b@.subrange(0, i as int),
        decreases b.len() - i,
    {
        out.push(b[i]);
        i = i + 1;
        assert(out@ =~= old(out)@ + b@.subrange(0, i as int));
    }
    assert(b@.subrange(0, i as int) =~= b@);
}

fn push_text(out: &mut Vec<u8>, s: &String)
    ensures
        final(out)@ == old(out)@ + encode_utf8(s@),
{
    let b = s.as_str().as_bytes();
    push_all(out, b);
}

/// The wire form of a frame; an array has none.
pub fn encode(f: &Frame) -> (r: Result<Vec<u8>, FrameError>)
    ensures
        f@ is Array ==> r == Err::<Vec<u8>, FrameError>(FrameError::UnimplementedEncoding),
        !(f@ is Array) ==> (r matches Ok(b) && b@ == frame_bytes(f@)),
{
    let mut out: Vec<u8> = Vec::new();
    match f {
        Frame::Simple(s) => {
            out.push(43);
            push_text(&mut out, s);
        },
        Frame::Error(s) => {
            out.push(45);
            push_text(&mut out, s);
        },
        Frame::Integer(n) => {
            out.push(58);
            push_decimal(*n, &mut out);
        },
        Frame::Null => {},
        Frame::Bulk(b) => {
            out.push(36);
            push_digits(b.len() as u64, &mut out);
            out.push(13);
            out.push(10);
            push_all(&mut out, b.as_slice());
        },
        Frame::Array(_) => {
            return Err(FrameError::UnimplementedEncoding);
        },
    }
    out.push(13);
    out.push(10);
    assert(out@ =~= frame_bytes(f@));
    Ok(out)
}

/// The first line break at or after `from`.
fn find_crlf(buf: &[u8], from: usize) -> (r: Option<usize>)
    requires
        from <= buf@.len(),
    ensures
        r matches Some(i) ==> from <= i && crlf_at(buf@, i as int) && forall|j: int|
            from <= j < i ==> !crlf_at(buf@, j),
        r is None ==> forall|j: int| from <= j ==> !crlf_at(buf@, j),
{
    let mut i: usize = from;
    while buf.len() - i > 1
        invariant
            from <= i <= buf@.len(),
            forall|j: int| from <= j < i ==> !crlf_at(buf@, j),
        decreases buf.len() - i,
    {
        if buf[i] == 13 && buf[i + 1] == 10 {
            return Some(i);
        }
        i = i + 1;
    }
    None
}

proof fn lemma_value_prefix(d: Seq<u8>, k: int)
    requires
        0 <= k <= d.len(),
        forall|i: int| 0 <= i < d.len() ==> is_digit(#[trigger] d[i]),
    ensures
        value(d.subrange(0, k)) <= value(d),
    decreases d.len(),
{
    if k < d.len() {
        let p = d.drop_last();
        assert(forall|i: int| 0 <= i < p.len() ==> p[i] == d[i]);
        lemma_value_prefix(p, k);
        assert(p.subrange(0, k) =~= d.subrange(0, k));
    } else {
        assert(d.subrange(0, k) =~= d);
    }
}

/// The value of `buf[start..end]` where those bytes are canonical digits of a
/// number no larger than `limit`.
fn parse_digits(buf: &[u8], start: usize, end: usize, limit: u64) -> (r: Option<u64>)
    requires
        start <= end <= buf@.len(),
    ensures
        r == (if canonical(buf@.subrange(start as int, end as int)) && value(
            buf@.subrange(start as int, end as int),
        ) <= limit {
            Some(value(buf@.subrange(start as int, end as int)) as u64)
        } else {
            None::<u64>
        }),
{
    let ghost d = buf@.subrange(start as int, end as int);
    if start == end || (end - start > 1 && buf[start] == 48) {
        return None;
    }
    let mut v: u64 = 0;
    let mut i: usize = start;
    assert(buf@.subrange(start as int, start as int).len() == 0);
    while i < end
        invariant
            start <= i <= end <= buf@.len(),
            d == buf@.subrange(start as int, end as int),
            v as nat == value(buf@.subrange(start as int, i as int)),
            v <= limit,
            forall|j: int| start <= j < i ==> is_digit(#[trigger] buf@[j]),
        decreases end - i,
    {
        let c = buf[i];
        let ghost before = buf@.subrange(start as int, i as int);
        let ghost after = buf@.subrange(start as int, i + 1);
        assert(after.drop_last() =~= before);
        if c < 48 || c > 57 {
            assert(d[i - start] == c);
            return None;
        }
        let digit: u64 = (c - 48) as u64;
        assert(value(after) == v * 10 + digit);
        if digit > limit || v > (limit - digit) / 10 {
            proof {
                if digit <= limit {
                    assert(v * 10 + digit > limit) by (nonlinear_arith)
                        requires
                            v > (limit - digit) / 10,
                            digit <= limit,
                    ;
                }
                if canonical(d) {
                    assert(forall|k: int| 0 <= k < d.len() ==> is_digit(#[trigger] d[k]));
                    lemma_value_prefix(d, i + 1 - start);
                    assert(d.subrange(0, i + 1 - start) =~= after);
                }
            }
            return None;
        }
        assert(v * 10 + digit <= limit) by (nonlinear_arith)
            requires
                v <= (limit - digit) / 10,
                digit <= limit,
        ;
        v = v * 10 + digit;
        i = i + 1;
    }
    assert(buf@.subrange(start as int, i as int) =~= d);
    assert(canonical(d)) by {
        assert forall|k: int| 0 <= k < d.len() implies is_digit(#[trigger] d[k]) by {
            assert(d[k] == buf@[start + k]);
        }
    }
    Some(v)
}

/// The signed integer whose decimal form is exactly `buf[start..end]`.
fn parse_decimal(buf: &[u8], start: usize, end: usize) -> (r: Option<i64>)
    requires
        start <= end <= buf@.len(),
    ensures
        r matches Some(n) ==> buf@.subrange(start as int, end as int) == decimal(n as int),
        forall|n: int|
            i64::MIN <= n <= i64::MAX && buf@.subrange(start as int, end as int) == decimal(n)
                ==> r == Some(n as i64),
{
    let ghost d = buf@.subrange(start as int, end as int);
    if start < end && buf[start] == 45 {
        let ghost rest = buf@.subrange(start + 1, end as int);
        assert(d =~= seq![45u8] + rest);
        match parse_digits(buf, start + 1, end, 9223372036854775808) {
            Some(m) => {
                if m == 0 {
                    proof {
                        assert forall|n: int|
                            i64::MIN <= n <= i64::MAX && d == decimal(n) implies false by {
                            if n >= 0 {
                                lemma_digits_value(n as nat);
                                assert(is_digit(d[0]));
                            } else {
                                lemma_digits_value((-n) as nat);
                                lemma_drop_sign(d, rest, digits((-n) as nat));
                            }
                        }
                    }
                    return None;
                }
                proof {
                    lemma_value_digits(rest);
                }
                let n: i64 = (-(m as i128)) as i64;
                assert(d =~= decimal(n as int));
                proof {
                    assert forall|k: int|
                        i64::MIN <= k <= i64::MAX && d == decimal(k) implies k == n by {
                        if k >= 0 {
                            lemma_digits_value(k as nat);
                            assert(is_digit(d[0]));
                        } else {
                            lemma_digits_value((-k) as nat);
                            lemma_drop_sign(d, rest, digits((-k) as nat));
                        }
                    }
                }
                Some(n)
            },
            None => {
                proof {
                    assert forall|n: int|
                        i64::MIN <= n <= i64::MAX && d == decimal(n) implies false by {
                        if n >= 0 {
                            lemma_digits_value(n as nat);
                            assert(is_digit(d[0]));
                        } else {
                            lemma_digits_value((-n) as nat);
                            lemma_drop_sign(d, rest, digits((-n) as nat));
                        }
                    }
                }
                None
            },
        }
    } else {
        match parse_digits(buf, start, end, 9223372036854775807) {
            Some(m) => {
                proof {
                    lemma_value_digits(d);
                    assert forall|k: int|
                        i64::MIN <= k <= i64::MAX && d == decimal(k) implies k == m by {
                        if k >= 0 {
                            lemma_digits_value(k as nat);
                        } else {
                            assert(d[0] == 45);
                        }
                    }
                }
                Some(m as i64)
            },
            None => {
                proof {
                    assert forall|n: int|
                        i64::MIN <= n <= i64::MAX && d == decimal(n) implies false by {
                        if n >= 0 {
                            lemma_digits_value(n as nat);
                        } else {
                            assert(d[0] == 45);
                        }
                    }
                }
                None
            },
        }
    }
}

#[verifier::rlimit(50)]
fn decode_bulk(buf: &[u8]) -> (r: Result<(Frame, usize), FrameError>)
    requires
        buf@.len() > 0,
        buf@[0] == 36,
    ensures
        r matches Ok((f, n)) ==> decodable(f@) && n == frame_bytes(f@).len() && is_prefix(
            frame_bytes(f@),
            buf@,
        ),
        r == Err::<(Frame, usize), FrameError>(FrameError::Protocol) ==> !incomplete(buf@),
        r matches Err(e) ==> (e == FrameError::Incomplete <==> ends_early(buf@)),
        r matches Err(e) ==> e == FrameError::Incomplete || e == FrameError::Protocol,
        forall|v: FrameView|
            decodable(v) && is_prefix(frame_bytes(v), buf@) ==> (r matches Ok((f, n)) && f@ == v
                && n == frame_bytes(v).len()),
{
    let len = buf.len();
    let i = match find_crlf(buf, 1) {
        None => {
            proof {
                assert forall|v: FrameView| decodable(v) && is_prefix(frame_bytes(v), buf@) implies false by {
                    lemma_tag(v, buf@);
                    if let FrameView::Bulk(b) = v {
                        lemma_bulk_header(buf@, b);
                    }
                }
            }
            return Err(FrameError::Incomplete);
        },
        Some(i) => i,
    };
    assert(first_crlf(buf@, i as int));
    assert forall|k: int| first_crlf(buf@, k) implies k == i by {
        if k < i {
            assert(!crlf_at(buf@, k));
        } else if k > i {
            assert(!crlf_at(buf@, i as int));
        }
    }
    let m = match parse_digits(buf, 1, i, usize::MAX as u64) {
        None => {
            proof {
                assert forall|v: FrameView| decodable(v) && is_prefix(frame_bytes(v), buf@) implies false by {
                    lemma_tag(v, buf@);
                    if let FrameView::Bulk(b) = v {
                        lemma_bulk_header(buf@, b);
                    }
                }
            }
            proof {
                assert forall|w: FrameView|
                    decodable(w) && buf@.len() < frame_bytes(w).len() && is_prefix(
                        buf@,
                        frame_bytes(w),
                    ) implies false by {
                    lemma_tag_prefix(w, buf@);
                    if let FrameView::Bulk(b) = w {
                        lemma_bulk_in_prefix(buf@, b, i as int);
                    }
                }
            }
            return Err(FrameError::Protocol);
        },
        Some(m) => m,
    };
    let n = m as usize;
    let start = i + 2;
    proof {
        lemma_value_digits(buf@.subrange(1, i as int));
    }
    // Every bulk frame at the front of the window has this header.
    assert forall|v: FrameView| decodable(v) && is_prefix(frame_bytes(v), buf@) implies (v
        is Bulk && v->Bulk_0.len() == n && is_prefix(frame_bytes(v), buf@)) by {
        lemma_tag(v, buf@);
        if let FrameView::Bulk(b) = v {
            lemma_bulk_header(buf@, b);
        }
    }
    if len - start < n || len - start - n < 2 {
        proof {
            assert forall|v: FrameView| decodable(v) && is_prefix(frame_bytes(v), buf@) implies false by {
                assert(frame_bytes(v).len() == start + n + 2);
            }
        }
        return Err(FrameError::Incomplete);
    }
    if buf[start + n] != 13 || buf[start + n + 1] != 10 {
        proof {
            assert forall|v: FrameView| decodable(v) && is_prefix(frame_bytes(v), buf@) implies false by {
                let fb = frame_bytes(v);
                assert(fb[start + n] == 13 && fb[start + n + 1] == 10);
                assert(buf@.subrange(0, fb.len() as int)[start + n] == buf@[start + n]);
                assert(buf@.subrange(0, fb.len() as int)[start + n + 1] == buf@[start + n + 1]);
            }
        }
        proof {
            assert forall|w: FrameView|
                decodable(w) && buf@.len() < frame_bytes(w).len() && is_prefix(
                    buf@,
                    frame_bytes(w),
                ) implies false by {
                lemma_tag_prefix(w, buf@);
                if let FrameView::Bulk(b) = w {
                    lemma_bulk_in_prefix(buf@, b, i as int);
                }
            }
        }
        return Err(FrameError::Protocol);
    }
    let payload = slice_to_vec(slice_subrange(buf, start, start + n));
    let f = Frame::Bulk(payload);
    assert(buf@.subrange(0, start + n + 2) =~= frame_bytes(f@));
    proof {
        assert forall|v: FrameView| decodable(v) && is_prefix(frame_bytes(v), buf@) implies f@ == v by {
            let b = v->Bulk_0;
            assert(b =~= payload@) by {
                assert forall|k: int| 0 <= k < b.len() implies b[k] == payload@[k] by {
                    assert(frame_bytes(v)[start + k] == b[k]);
                    assert(buf@.subrange(0, frame_bytes(v).len() as int)[start + k] == buf@[start + k]);
                }
            }
        }
    }
    Ok((f, start + n + 2))
}

#[verifier::rlimit(50)]
fn decode_front(buf: &[u8]) -> (r: Result<(Frame, usize), FrameError>)
    ensures
        r matches Ok((f, n)) ==> decodable(f@) && n == frame_bytes(f@).len() && is_prefix(
            frame_bytes(f@),
            buf@,
        ),
        r == Err::<(Frame, usize), FrameError>(FrameError::Protocol) ==> !incomplete(buf@),
        r matches Err(e) ==> (e == FrameError::Incomplete <==> ends_early(buf@)),
        r matches Err(e) ==> e == FrameError::Incomplete || e == FrameError::Protocol,
        forall|v: FrameView|
            decodable(v) && is_prefix(frame_bytes(v), buf@) ==> (r matches Ok((f, n)) && f@ == v
                && n == frame_bytes(v).len()),
{
    let len = buf.len();
    if len == 0 {
        proof {
            assert forall|v: FrameView| decodable(v) && is_prefix(frame_bytes(v), buf@) implies false by {
                lemma_tag(v, buf@);
            }
        }
        return Err(FrameError::Incomplete);
    }
    let t = buf[0];
    if t == 43 || t == 45 {
        match find_crlf(buf, 1) {
            None => {
                proof {
                    assert forall|v: FrameView| decodable(v) && is_prefix(frame_bytes(v), buf@) implies false by {
                        lemma_tag(v, buf@);
                        match v {
                            FrameView::Simple(s) => lemma_line(buf@, 43, encode_utf8(s), Seq::empty()),
                            FrameView::Error(s) => lemma_line(buf@, 45, encode_utf8(s), Seq::empty()),
                            _ => {},
                        }
                    }
                }
                Err(FrameError::Incomplete)
            },
            Some(i) => {
                let payload = slice_to_vec(slice_subrange(buf, 1, i));
                let ghost p = payload@;
                assert(p == buf@.subrange(1, i as int));
                match string_from_utf8(payload) {
                    None => {
                        proof {
                            assert forall|v: FrameView| decodable(v) && is_prefix(frame_bytes(v), buf@) implies false by {
                                lemma_tag(v, buf@);
                                match v {
                                    FrameView::Simple(s) => {
                                        lemma_line(buf@, 43, encode_utf8(s), Seq::empty());
                                        encode_utf8_valid_utf8(s);
                                    },
                                    FrameView::Error(s) => {
                                        lemma_line(buf@, 45, encode_utf8(s), Seq::empty());
                                        encode_utf8_valid_utf8(s);
                                    },
                                    _ => {},
                                }
                            }
                        }
                        proof {
                            assert forall|w: FrameView|
                                decodable(w) && buf@.len() < frame_bytes(w).len() && is_prefix(
                                    buf@,
                                    frame_bytes(w),
                                ) implies false by {
                                lemma_tag_prefix(w, buf@);
                                match w {
                                    FrameView::Simple(s) => {
                                        lemma_line_in_prefix(buf@, 43, encode_utf8(s), Seq::empty(), i as int);
                                        encode_utf8_valid_utf8(s);
                                    },
                                    FrameView::Error(s) => {
                                        lemma_line_in_prefix(buf@, 45, encode_utf8(s), Seq::empty(), i as int);
                                        encode_utf8_valid_utf8(s);
                                    },
                                    _ => {},
                                }
                            }
                        }
                        Err(FrameError::Protocol)
                    },
                    Some(text) => {
                        proof {
                            decode_utf8_encode_utf8(p);
                            assert forall|k: int| crlf_at(p, k) implies false by {
                                assert(buf@[1 + k] == p[k] && buf@[2 + k] == p[k + 1]);
                                assert(crlf_at(buf@, 1 + k));
                            }
                        }
                        let f = if t == 43 { Frame::Simple(text) } else { Frame::Error(text) };
                        assert(buf@.subrange(0, i + 2) =~= frame_bytes(f@));
                        proof {
                            assert forall|v: FrameView| decodable(v) && is_prefix(frame_bytes(v), buf@) implies f@ == v by {
                                lemma_tag(v, buf@);
                                match v {
                                    FrameView::Simple(s) => {
                                        lemma_line(buf@, 43, encode_utf8(s), Seq::empty());
                                        encode_utf8_decode_utf8(s);
                                    },
                                    FrameView::Error(s) => {
                                        lemma_line(buf@, 45, encode_utf8(s), Seq::empty());
                                        encode_utf8_decode_utf8(s);
                                    },
                                    _ => {},
                                }
                            }
                        }
                        Ok((f, i + 2))
                    },
                }
            },
        }
    } else if t == 58 {
        match find_crlf(buf, 1) {
            None => {
                proof {
                    assert forall|v: FrameView| decodable(v) && is_prefix(frame_bytes(v), buf@) implies false by {
                        lemma_tag(v, buf@);
                        if let FrameView::Integer(n) = v {
                            lemma_no_crlf_decimal(n);
                            lemma_line(buf@, 58, decimal(n), Seq::empty());
                        }
                    }
                }
                Err(FrameError::Incomplete)
            },
            Some(i) => {
                match parse_decimal(buf, 1, i) {
                    None => {
                        proof {
                            assert forall|v: FrameView| decodable(v) && is_prefix(frame_bytes(v), buf@) implies false by {
                                lemma_tag(v, buf@);
                                if let FrameView::Integer(n) = v {
                                    lemma_no_crlf_decimal(n);
                                    lemma_line(buf@, 58, decimal(n), Seq::empty());
                                }
                            }
                        }
                        proof {
                            assert forall|w: FrameView|
                                decodable(w) && buf@.len() < frame_bytes(w).len() && is_prefix(
                                    buf@,
                                    frame_bytes(w),
                                ) implies false by {
                                lemma_tag_prefix(w, buf@);
                                if let FrameView::Integer(n) = w {
                                    lemma_no_crlf_decimal(n);
                                    lemma_line_in_prefix(buf@, 58, decimal(n), Seq::empty(), i as int);
                                }
                            }
                        }
                        Err(FrameError::Protocol)
                    },
                    Some(n) => {
                        let f = Frame::Integer(n);
                        assert(buf@.subrange(0, i + 2) =~= frame_bytes(f@));
                        proof {
                            assert forall|v: FrameView| decodable(v) && is_prefix(frame_bytes(v), buf@) implies f@ == v by {
                                lemma_tag(v, buf@);
                                if let FrameView::Integer(k) = v {
                                    lemma_no_crlf_decimal(k);
                                    lemma_line(buf@, 58, decimal(k), Seq::empty());
                                }
                            }
                        }
                        Ok((f, i + 2))
                    },
                }
            },
        }
    } else if t == 13 {
        if len < 2 {
            proof {
                assert forall|v: FrameView| decodable(v) && is_prefix(frame_bytes(v), buf@) implies false by {
                    lemma_tag(v, buf@);
                }
            }
            return Err(FrameError::Incomplete);
        }
        if buf[1] != 10 {
            proof {
                assert forall|v: FrameView| decodable(v) && is_prefix(frame_bytes(v), buf@) implies false by {
                    lemma_tag(v, buf@);
                    assert(buf@.subrange(0, 2)[1] == buf@[1]);
                }
            }
            proof {
                assert forall|w: FrameView|
                    decodable(w) && buf@.len() < frame_bytes(w).len() && is_prefix(
                        buf@,
                        frame_bytes(w),
                    ) implies false by {
                    lemma_tag_prefix(w, buf@);
                }
            }
            return Err(FrameError::Protocol);
        }
        let f = Frame::Null;
        assert(buf@.subrange(0, 2) =~= frame_bytes(f@));
        proof {
            assert forall|v: FrameView| decodable(v) && is_prefix(frame_bytes(v), buf@) implies f@ == v by {
                lemma_tag(v, buf@);
            }
        }
        Ok((f, 2))
    } else if t == 36 {
        decode_bulk(buf)
    } else {
        proof {
            assert forall|v: FrameView| decodable(v) && is_prefix(frame_bytes(v), buf@) implies false by {
                lemma_tag(v, buf@);
            }
        }
        proof {
            assert forall|w: FrameView|
                decodable(w) && buf@.len() < frame_bytes(w).len() && is_prefix(
                    buf@,
                    frame_bytes(w),
                ) implies false by {
                lemma_tag_prefix(w, buf@);
            }
        }
        Err(FrameError::Protocol)
    }
}

/// Decodes the frame at the front of `buf`, and says how many bytes it took.
/// The window itself is left as it is.
pub fn decode(buf: &[u8]) -> (r: Result<(Frame, usize), FrameError>)
    ensures
        r matches Ok((f, n)) ==> decoded(buf@) == Some((f@, n as nat)),
        r is Err ==> decoded(buf@) is None,
        r matches Err(e) ==> (e == FrameError::Incomplete <==> ends_early(buf@)),
        r matches Err(e) ==> e == FrameError::Incomplete || e == FrameError::Protocol,
        incomplete(buf@) ==> r == Err::<(Frame, usize), FrameError>(FrameError::Incomplete),
{
    let r = decode_front(buf);
    proof {
        if let Ok((f, n)) = &r {
            let w = choose|w: FrameView| decodable(w) && is_prefix(frame_bytes(w), buf@);
            lemma_unique(f@, w, buf@);
            lemma_whole_not_incomplete(f@, buf@);
        }
    }
    r
}

} // verus!
