//! The wire form of frames as mathematics: which bytes each frame is, which
//! frames can be read back, and the laws that decoding obeys.
use vstd::prelude::*;
use vstd::utf8::{encode_utf8, encode_utf8_decode_utf8};
use crate::decimal::{canonical, decimal, digits, is_digit, lemma_digits_value, value};
use crate::frame::{Frame, FrameView};

verus! {

pub open spec fn crlf() -> Seq<u8> {
    seq![13u8, 10u8]
}

/// A line break `\r\n` starts at position `i` of `b`.
pub open spec fn crlf_at(b: Seq<u8>, i: int) -> bool {
    0 <= i && i + 1 < b.len() && b[i] == 13 && b[i + 1] == 10
}

pub open spec fn has_crlf(b: Seq<u8>) -> bool {
    exists|i: int| crlf_at(b, i)
}

/// The bytes of a frame on the wire. An array has none: it cannot be encoded.
pub open spec fn frame_bytes(v: FrameView) -> Seq<u8> {
    match v {
        FrameView::Simple(s) => seq![43u8] + encode_utf8(s) + crlf(),
        FrameView::Error(s) => seq![45u8] + encode_utf8(s) + crlf(),
        FrameView::Integer(n) => seq![58u8] + decimal(n) + crlf(),
        FrameView::Null => crlf(),
        FrameView::Bulk(b) => seq![36u8] + digits(b.len()) + crlf() + b + crlf(),
        FrameView::Array(_) => Seq::empty(),
    }
}

/// The first byte of a frame's wire form.
pub open spec fn tag(v: FrameView) -> u8 {
    match v {
        FrameView::Simple(_) => 43,
        FrameView::Error(_) => 45,
        FrameView::Integer(_) => 58,
        FrameView::Null => 13,
        FrameView::Bulk(_) => 36,
        FrameView::Array(_) => 42,
    }
}

/// The frames that decoding gives back: every kind but arrays, with text that
/// holds no line break and integers within 64 bits.
pub open spec fn decodable(v: FrameView) -> bool {
    match v {
        FrameView::Simple(s) => !has_crlf(encode_utf8(s)),
        FrameView::Error(s) => !has_crlf(encode_utf8(s)),
        FrameView::Integer(n) => i64::MIN <= n <= i64::MAX,
        FrameView::Null => true,
        FrameView::Bulk(b) => b.len() <= usize::MAX,
        FrameView::Array(_) => false,
    }
}

/// `p` stands at the front of `b`.
pub open spec fn is_prefix(p: Seq<u8>, b: Seq<u8>) -> bool {
    p.len() <= b.len() && b.subrange(0, p.len() as int) == p
}

/// The frame at the front of `buf`, with the length of its wire form, where
/// one stands there.
pub open spec fn decoded(buf: Seq<u8>) -> Option<(FrameView, nat)> {
    if exists|v: FrameView| decodable(v) && is_prefix(frame_bytes(v), buf) {
        let v = choose|v: FrameView| decodable(v) && is_prefix(frame_bytes(v), buf);
        Some((v, frame_bytes(v).len()))
    } else {
        None
    }
}

/// The window is a proper prefix of the wire form of some decodable frame:
/// more bytes could complete it.
pub open spec fn incomplete(buf: Seq<u8>) -> bool {
    exists|v: FrameView|
        decodable(v) && buf.len() < frame_bytes(v).len() && is_prefix(buf, frame_bytes(v))
}

/// The first line break after the tag byte starts at `i`.
pub open spec fn first_crlf(buf: Seq<u8>, i: int) -> bool {
    1 <= i && crlf_at(buf, i) && forall|j: int| 1 <= j < i ==> !crlf_at(buf, j)
}

/// The window ends before a frame boundary can be confirmed: it is empty, or
/// a lone `\r`, or a line-based frame whose first line has not ended yet, or a
/// bulk frame with a good length line and fewer bytes after it than it gives.
pub open spec fn ends_early(buf: Seq<u8>) -> bool {
    ||| buf.len() == 0
    ||| (buf.len() == 1 && buf[0] == 13)
    ||| (buf.len() > 0 && (buf[0] == 43 || buf[0] == 45 || buf[0] == 58 || buf[0] == 36)
        && forall|j: int| 1 <= j ==> !crlf_at(buf, j))
    ||| (buf.len() > 0 && buf[0] == 36 && exists|i: int|
        first_crlf(buf, i) && canonical(buf.subrange(1, i)) && value(buf.subrange(1, i))
            <= usize::MAX && buf.len() < i + value(buf.subrange(1, i)) + 4)
}

/// The wire form of a sequence of frames, one after the other.
pub open spec fn wire(vs: Seq<FrameView>) -> Seq<u8>
    decreases vs.len(),
{
    if vs.len() == 0 {
        Seq::empty()
    } else {
        frame_bytes(vs[0]) + wire(vs.drop_first())
    }
}

/// The frames that decoding takes, one after the other, from the front of
/// `buf`, until no whole frame is left.
pub open spec fn frames_of(buf: Seq<u8>) -> Seq<FrameView>
    decreases buf.len(),
{
    match decoded(buf) {
        Some((v, n)) => if 0 < n <= buf.len() {
            seq![v] + frames_of(buf.subrange(n as int, buf.len() as int))
        } else {
            Seq::empty()
        },
        None => Seq::empty(),
    }
}

/// How many of the frames of a stream lie whole within its first `k` bytes.
pub open spec fn whole_frames(vs: Seq<FrameView>, k: int) -> nat
    decreases vs.len(),
{
    if vs.len() == 0 {
        0
    } else if k >= frame_bytes(vs[0]).len() {
        1 + whole_frames(vs.drop_first(), k - frame_bytes(vs[0]).len())
    } else {
        0
    }
}

pub(crate) proof fn lemma_prefix_concat(a: Seq<u8>, x: Seq<u8>, buf: Seq<u8>)
    requires
        is_prefix(a + x, buf),
    ensures
        is_prefix(a, buf),
        forall|k: int| 0 <= k < a.len() ==> buf[k] == a[k],
        forall|k: int| 0 <= k < x.len() ==> buf[a.len() + k] == x[k],
{
    assert forall|k: int| 0 <= k < a.len() implies buf[k] == a[k] by {
        assert(buf.subrange(0, (a + x).len() as int)[k] == (a + x)[k]);
    }
    assert forall|k: int| 0 <= k < x.len() implies buf[a.len() + k] == x[k] by {
        assert(buf.subrange(0, (a + x).len() as int)[a.len() + k] == (a + x)[a.len() + k]);
    }
    assert(buf.subrange(0, a.len() as int) =~= a);
}

pub(crate) proof fn lemma_drop_sign(d: Seq<u8>, a: Seq<u8>, b: Seq<u8>)
    requires
        d == seq![45u8] + a,
        d == seq![45u8] + b,
    ensures
        a == b,
{
    assert(a =~= d.subrange(1, d.len() as int));
    assert(b =~= d.subrange(1, d.len() as int));
}

pub(crate) proof fn lemma_tag(v: FrameView, buf: Seq<u8>)
    requires
        decodable(v),
        is_prefix(frame_bytes(v), buf),
    ensures
        buf.len() > 0,
        buf[0] == tag(v),
{
    assert(frame_bytes(v)[0] == tag(v));
    assert(buf.subrange(0, frame_bytes(v).len() as int)[0] == buf[0]);
}

pub(crate) proof fn lemma_tag_prefix(v: FrameView, buf: Seq<u8>)
    requires
        decodable(v),
        buf.len() > 0,
        is_prefix(buf, frame_bytes(v)),
    ensures
        buf[0] == tag(v),
{
    assert(frame_bytes(v)[0] == tag(v));
    assert(frame_bytes(v).subrange(0, buf.len() as int)[0] == frame_bytes(v)[0]);
}

/// A frame that starts with a tag byte, then a line without a break: its first
/// line break comes right after the line.
pub(crate) proof fn lemma_line(buf: Seq<u8>, t: u8, body: Seq<u8>, x: Seq<u8>)
    requires
        is_prefix(seq![t] + body + crlf() + x, buf),
        !has_crlf(body),
    ensures
        crlf_at(buf, body.len() as int + 1),
        forall|j: int| 1 <= j < body.len() as int + 1 ==> !crlf_at(buf, j),
        buf.subrange(1, body.len() as int + 1) == body,
{
    let a = seq![t] + body + crlf();
    lemma_prefix_concat(a, x, buf);
    assert(a[body.len() as int + 1] == 13 && a[body.len() as int + 2] == 10);
    assert forall|j: int| 1 <= j < body.len() as int + 1 implies !crlf_at(buf, j) by {
        if j + 1 < body.len() as int + 1 {
            assert(buf[j] == body[j - 1] && buf[j + 1] == body[j]);
            if crlf_at(buf, j) {
                assert(crlf_at(body, j - 1));
            }
        } else {
            assert(buf[j + 1] == a[j + 1]);
        }
    }
    assert forall|k: int| 0 <= k < body.len() implies buf.subrange(1, body.len() as int + 1)[k]
        == body[k] by {
        assert(a[1 + k] == body[k]);
    }
    assert(buf.subrange(1, body.len() as int + 1) =~= body);
}

/// Where a window that the wire form of a frame extends holds a line break,
/// its first one is the one that ends the frame's first line.
pub(crate) proof fn lemma_line_in_prefix(buf: Seq<u8>, t: u8, body: Seq<u8>, x: Seq<u8>, i: int)
    requires
        is_prefix(buf, seq![t] + body + crlf() + x),
        !has_crlf(body),
        1 <= i,
        crlf_at(buf, i),
        forall|j: int| 1 <= j < i ==> !crlf_at(buf, j),
    ensures
        i == body.len() + 1,
        buf.subrange(1, i) == body,
{
    let full = seq![t] + body + crlf() + x;
    assert forall|k: int| 0 <= k < buf.len() implies buf[k] == full[k] by {
        assert(full.subrange(0, buf.len() as int)[k] == full[k]);
    }
    let e = body.len() as int;
    if i < e + 1 {
        assert(buf[i] == full[i] && buf[i + 1] == full[i + 1]);
        assert(full[i] == body[i - 1]);
        if i < e {
            assert(full[i + 1] == body[i]);
            assert(crlf_at(body, i - 1));
        } else {
            assert(full[i + 1] == 13);
        }
    }
    if i > e + 1 {
        assert(buf[e + 1] == full[e + 1] && buf[e + 2] == full[e + 2]);
        assert(crlf_at(buf, e + 1));
    }
    assert forall|k: int| 0 <= k < e implies buf.subrange(1, i)[k] == body[k] by {
        assert(buf[1 + k] == full[1 + k]);
    }
    assert(buf.subrange(1, i) =~= body);
}

pub(crate) proof fn lemma_no_crlf_digits(d: Seq<u8>)
    requires
        forall|i: int| 0 <= i < d.len() ==> is_digit(#[trigger] d[i]),
    ensures
        !has_crlf(d),
{
    assert forall|i: int| !crlf_at(d, i) by {
        if 0 <= i < d.len() {
            assert(is_digit(d[i]));
        }
    }
}

pub(crate) proof fn lemma_no_crlf_decimal(n: int)
    ensures
        !has_crlf(decimal(n)),
{
    let d = decimal(n);
    if n < 0 {
        lemma_digits_value((-n) as nat);
        assert forall|i: int| !crlf_at(d, i) by {
            if 0 < i < d.len() {
                assert(d[i] == digits((-n) as nat)[i - 1]);
                assert(is_digit(d[i]));
            }
        }
    } else {
        lemma_digits_value(n as nat);
        lemma_no_crlf_digits(d);
    }
}

pub(crate) proof fn lemma_bulk_header(buf: Seq<u8>, b: Seq<u8>)
    requires
        is_prefix(frame_bytes(FrameView::Bulk(b)), buf),
    ensures
        canonical(digits(b.len())),
        value(digits(b.len())) == b.len(),
        crlf_at(buf, digits(b.len()).len() as int + 1),
        forall|j: int| 1 <= j < digits(b.len()).len() as int + 1 ==> !crlf_at(buf, j),
        buf.subrange(1, digits(b.len()).len() as int + 1) == digits(b.len()),
{
    let d = digits(b.len());
    lemma_digits_value(b.len());
    lemma_no_crlf_digits(d);
    assert(frame_bytes(FrameView::Bulk(b)) =~= seq![36u8] + d + crlf() + (b + crlf()));
    lemma_line(buf, 36, d, b + crlf());
}

pub(crate) proof fn lemma_bulk_in_prefix(buf: Seq<u8>, b: Seq<u8>, i: int)
    requires
        is_prefix(buf, frame_bytes(FrameView::Bulk(b))),
        1 <= i,
        crlf_at(buf, i),
        forall|j: int| 1 <= j < i ==> !crlf_at(buf, j),
    ensures
        i == digits(b.len()).len() + 1,
        buf.subrange(1, i) == digits(b.len()),
        canonical(digits(b.len())),
        value(digits(b.len())) == b.len(),
{
    let d = digits(b.len());
    lemma_digits_value(b.len());
    lemma_no_crlf_digits(d);
    assert(frame_bytes(FrameView::Bulk(b)) =~= seq![36u8] + d + crlf() + (b + crlf()));
    lemma_line_in_prefix(buf, 36, d, b + crlf(), i);
}

pub(crate) proof fn lemma_decimal_injective(n: int, m: int)
    requires
        decimal(n) == decimal(m),
    ensures
        n == m,
{
    lemma_digits_value(if n < 0 { (-n) as nat } else { n as nat });
    lemma_digits_value(if m < 0 { (-m) as nat } else { m as nat });
    if n < 0 && m < 0 {
        lemma_drop_sign(decimal(n), digits((-n) as nat), digits((-m) as nat));
    } else if n < 0 {
        assert(decimal(m)[0] == 45);
        assert(is_digit(digits(m as nat)[0]));
    } else if m < 0 {
        assert(decimal(n)[0] == 45);
        assert(is_digit(digits(n as nat)[0]));
    }
}

/// Two lines that both end at the first line break after the tag are the same.
pub(crate) proof fn lemma_same_line(buf: Seq<u8>, a: Seq<u8>, b: Seq<u8>)
    requires
        crlf_at(buf, a.len() as int + 1),
        forall|j: int| 1 <= j < a.len() as int + 1 ==> !crlf_at(buf, j),
        buf.subrange(1, a.len() as int + 1) == a,
        crlf_at(buf, b.len() as int + 1),
        forall|j: int| 1 <= j < b.len() as int + 1 ==> !crlf_at(buf, j),
        buf.subrange(1, b.len() as int + 1) == b,
    ensures
        a == b,
{
}

/// At most one decodable frame stands at the front of a window.
pub proof fn lemma_unique(v: FrameView, w: FrameView, buf: Seq<u8>)
    requires
        decodable(v),
        is_prefix(frame_bytes(v), buf),
        decodable(w),
        is_prefix(frame_bytes(w), buf),
    ensures
        v == w,
{
    lemma_tag(v, buf);
    lemma_tag(w, buf);
    match (v, w) {
        (FrameView::Simple(s), FrameView::Simple(t)) => {
            lemma_line(buf, 43, encode_utf8(s), Seq::empty());
            lemma_line(buf, 43, encode_utf8(t), Seq::empty());
            lemma_same_line(buf, encode_utf8(s), encode_utf8(t));
            encode_utf8_decode_utf8(s);
            encode_utf8_decode_utf8(t);
        },
        (FrameView::Error(s), FrameView::Error(t)) => {
            lemma_line(buf, 45, encode_utf8(s), Seq::empty());
            lemma_line(buf, 45, encode_utf8(t), Seq::empty());
            lemma_same_line(buf, encode_utf8(s), encode_utf8(t));
            encode_utf8_decode_utf8(s);
            encode_utf8_decode_utf8(t);
        },
        (FrameView::Integer(n), FrameView::Integer(m)) => {
            lemma_no_crlf_decimal(n);
            lemma_no_crlf_decimal(m);
            lemma_line(buf, 58, decimal(n), Seq::empty());
            lemma_line(buf, 58, decimal(m), Seq::empty());
            lemma_same_line(buf, decimal(n), decimal(m));
            lemma_decimal_injective(n, m);
        },
        (FrameView::Bulk(b), FrameView::Bulk(c)) => {
            lemma_bulk_header(buf, b);
            lemma_bulk_header(buf, c);
            lemma_same_line(buf, digits(b.len()), digits(c.len()));
            let start = digits(b.len()).len() + 3;
            assert forall|k: int| 0 <= k < b.len() implies b[k] == c[k] by {
                assert(frame_bytes(v)[start + k] == b[k]);
                assert(frame_bytes(w)[start + k] == c[k]);
                assert(buf.subrange(0, frame_bytes(v).len() as int)[start + k] == buf[start + k]);
                assert(buf.subrange(0, frame_bytes(w).len() as int)[start + k] == buf[start + k]);
            }
            assert(b =~= c);
        },
        _ => {},
    }
}

/// A window that holds a whole decodable frame is not a proper prefix of one.
pub(crate) proof fn lemma_whole_not_incomplete(v: FrameView, buf: Seq<u8>)
    requires
        decodable(v),
        is_prefix(frame_bytes(v), buf),
    ensures
        !incomplete(buf),
{
    assert forall|w: FrameView|
        decodable(w) && buf.len() < frame_bytes(w).len() && is_prefix(
            buf,
            frame_bytes(w),
        ) implies false by {
        let fw = frame_bytes(w);
        assert(fw.subrange(0, frame_bytes(v).len() as int) =~= frame_bytes(v)) by {
            assert forall|k: int| 0 <= k < frame_bytes(v).len() implies fw[k] == frame_bytes(v)[k] by {
                assert(fw.subrange(0, buf.len() as int)[k] == fw[k]);
                assert(buf.subrange(0, frame_bytes(v).len() as int)[k] == buf[k]);
            }
        }
        assert(fw.subrange(0, fw.len() as int) =~= fw);
        lemma_unique(v, w, fw);
    }
}

/// Round trip: the wire form of a frame whose text holds no line break,
/// followed by any bytes, decodes to that frame and takes exactly its wire form.
pub proof fn lemma_round_trip(f: Frame, rest: Seq<u8>)
    requires
        decodable(f@),
    ensures
        decoded(frame_bytes(f@) + rest) == Some((f@, frame_bytes(f@).len())),
{
    let buf = frame_bytes(f@) + rest;
    assert(buf.subrange(0, frame_bytes(f@).len() as int) =~= frame_bytes(f@));
    let w = choose|w: FrameView| decodable(w) && is_prefix(frame_bytes(w), buf);
    lemma_unique(f@, w, buf);
}

/// Incremental delivery: a window that holds any part of the front of a
/// stream of frames either yields the stream's first frame, and leaves what
/// came after it, again the front of the rest of the stream, or is a proper
/// prefix of that frame, so that decoding waits for more bytes. It is never
/// malformed, however the stream was cut.
pub proof fn lemma_stream_prefix(vs: Seq<FrameView>, k: int)
    requires
        vs.len() > 0,
        forall|i: int| 0 <= i < vs.len() ==> decodable(#[trigger] vs[i]),
        0 <= k <= wire(vs).len(),
    ensures
        ({
            let w = wire(vs).take(k);
            let first = frame_bytes(vs[0]).len() as int;
            &&& k >= first ==> decoded(w) == Some((vs[0], first as nat)) && w.subrange(first, k)
                == wire(vs.drop_first()).take(k - first)
            &&& 0 < k < first ==> incomplete(w)
        }),
{
    let fb0 = frame_bytes(vs[0]);
    let rest = wire(vs.drop_first());
    let w = wire(vs).take(k);
    assert(decodable(vs[0]));
    if k >= fb0.len() {
        assert(w.subrange(0, fb0.len() as int) =~= fb0);
        let v = choose|v: FrameView| decodable(v) && is_prefix(frame_bytes(v), w);
        lemma_unique(vs[0], v, w);
        assert(w.subrange(fb0.len() as int, k) =~= rest.take(k - fb0.len()));
    } else if k > 0 {
        assert(fb0.subrange(0, k) =~= w);
    }
}

/// The first `k` bytes of a stream of frames decode to exactly the frames that
/// lie whole within them, in the order of the stream; the whole stream
/// decodes to all of its frames.
pub proof fn lemma_stream_frames(vs: Seq<FrameView>, k: int)
    requires
        forall|i: int| 0 <= i < vs.len() ==> decodable(#[trigger] vs[i]),
        0 <= k <= wire(vs).len(),
    ensures
        frames_of(wire(vs).take(k)) == vs.take(whole_frames(vs, k) as int),
        whole_frames(vs, k) <= vs.len(),
        k == wire(vs).len() ==> whole_frames(vs, k) == vs.len(),
    decreases vs.len(),
{
    let w = wire(vs).take(k);
    if vs.len() == 0 || k < frame_bytes(vs[0]).len() {
        if decoded(w) is Some {
            let v = choose|v: FrameView| decodable(v) && is_prefix(frame_bytes(v), w);
            lemma_tag(v, w);
            lemma_stream_prefix(vs, k);
            lemma_whole_not_incomplete(v, w);
        }
        assert(vs.take(0) =~= Seq::<FrameView>::empty());
    } else {
        let first = frame_bytes(vs[0]).len() as int;
        let tail = vs.drop_first();
        lemma_stream_prefix(vs, k);
        let fb0 = frame_bytes(vs[0]);
        assert(fb0.subrange(0, fb0.len() as int) =~= fb0);
        lemma_tag(vs[0], fb0);
        assert(wire(vs).len() == first + wire(tail).len());
        assert(forall|i: int| 0 <= i < tail.len() ==> tail[i] == vs[i + 1]);
        lemma_stream_frames(tail, k - first);
        assert(frames_of(w) == seq![vs[0]] + frames_of(w.subrange(first, k)));
        let m = whole_frames(tail, k - first);
        assert(whole_frames(vs, k) == 1 + m);
        assert(seq![vs[0]] + tail.take(m as int) =~= vs.take(
            whole_frames(vs, k) as int,
        ));
    }
}

} // verus!
