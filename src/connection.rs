//! The decisions of a buffered connection: frames are decoded from the
//! buffered bytes, and the socket is read only when those hold no whole frame.
use vstd::prelude::*;
use bytes::BytesMut;
use crate::buffer::{buffer_advance, buffer_bytes, buffer_extend, buffer_with_capacity, buffered};
use crate::codec::decode;
use crate::grammar::{decoded, ends_early, incomplete};
use crate::frame::{Frame, FrameError};

verus! {

/// The bytes read from a socket and not yet decoded into a frame.
pub struct FrameReader {
    buffer: BytesMut,
}

/// What follows a read from the socket.
#[derive(Debug, Clone, Copy, PartialEq, Eq, Structural)]
pub enum ReadStep {
    /// Bytes came in: try to decode again.
    Retry,
    /// The peer closed the stream between frames.
    EndOfStream,
}

impl View for FrameReader {
    type V = Seq<u8>;

    closed spec fn view(&self) -> Seq<u8> {
        buffered(self.buffer)
    }
}

impl FrameReader {
    /// An empty buffer.
    pub fn new() -> (r: FrameReader)
        ensures
            r@ == Seq::<u8>::empty(),
    {
        FrameReader { buffer: buffer_with_capacity(4096) }
    }

    /// Decodes the frame at the front of the buffered bytes, and discards the
    /// bytes that it took. `Ok(None)` when the bytes end before a frame boundary
    /// can be confirmed, and an error when they are malformed; the buffer is
    /// then left as it is.
    pub fn parse_frame(&mut self) -> (r: Result<Option<Frame>, FrameError>)
        ensures
            decoded(old(self)@) matches Some((v, n)) ==> (r matches Ok(Some(f)) && f@ == v
                && final(self)@ == old(self)@.subrange(n as int, old(self)@.len() as int)),
            decoded(old(self)@) is None ==> final(self)@ == old(self)@ && if ends_early(
                old(self)@,
            ) {
                r matches Ok(None)
            } else {
                r == Err::<Option<Frame>, FrameError>(FrameError::Protocol)
            },
            incomplete(old(self)@) ==> r matches Ok(None),
    {
        let res = decode(buffer_bytes(&self.buffer));
        match res {
            Ok((f, n)) => {
                buffer_advance(&mut self.buffer, n);
                Ok(Some(f))
            },
            Err(FrameError::Incomplete) => Ok(None),
            Err(e) => Err(e),
        }
    }

    /// Takes in what one read from the socket gave. An empty read is the end of
    /// the stream: clean when no bytes are buffered, a reset when a frame was
    /// cut off.
    pub fn receive(&mut self, data: &[u8]) -> (r: Result<ReadStep, FrameError>)
        ensures
            data@.len() > 0 ==> r == Ok::<ReadStep, FrameError>(ReadStep::Retry) && final(self)@
                == old(self)@ + data@,
            data@.len() == 0 ==> final(self)@ == old(self)@,
            data@.len() == 0 && old(self)@.len() == 0 ==> r == Ok::<ReadStep, FrameError>(
                ReadStep::EndOfStream,
            ),
            data@.len() == 0 && old(self)@.len() > 0 ==> r == Err::<ReadStep, FrameError>(
                FrameError::ConnectionReset,
            ),
    {
        if data.len() == 0 {
            if buffer_bytes(&self.buffer).len() == 0 {
                Ok(ReadStep::EndOfStream)
            } else {
                Err(FrameError::ConnectionReset)
            }
        } else {
            buffer_extend(&mut self.buffer, data);
            Ok(ReadStep::Retry)
        }
    }
}

} // verus!
