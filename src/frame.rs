use vstd::prelude::*;

verus! {

/// One protocol message.
#[derive(Debug)]
pub enum Frame {
    Simple(String),
    Error(String),
    Integer(i64),
    Null,
    Bulk(Vec<u8>),
    /// Part of the type, but its wire form is not implemented.
    Array(Vec<Frame>),
}

/// The mathematical value of a frame. An array is known only by its length,
/// since nothing here encodes or decodes one.
pub enum FrameView {
    Simple(Seq<char>),
    Error(Seq<char>),
    Integer(int),
    Null,
    Bulk(Seq<u8>),
    Array(nat),
}

impl View for Frame {
    type V = FrameView;

    open spec fn view(&self) -> FrameView {
        match self {
            Frame::Simple(s) => FrameView::Simple(s@),
            Frame::Error(s) => FrameView::Error(s@),
            Frame::Integer(n) => FrameView::Integer(*n as int),
            Frame::Null => FrameView::Null,
            Frame::Bulk(b) => FrameView::Bulk(b@),
            Frame::Array(a) => FrameView::Array(a@.len()),
        }
    }
}

/// The errors of the codec and of the buffered connection.
#[derive(Debug, Clone, Copy, PartialEq, Eq, Structural)]
pub enum FrameError {
    /// The buffered bytes end before a frame is complete.
    Incomplete,
    /// The buffered bytes are not a well-formed frame.
    Protocol,
    /// The peer closed the stream in the middle of a frame.
    ConnectionReset,
    /// Array frames have no wire form here.
    UnimplementedEncoding,
}

} // verus!
