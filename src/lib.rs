//! A framed connection for a Redis-style request/response protocol: the
//! frame codec, the buffered connection that assembles frames from a byte
//! stream, and the decisions of the actor that serialises commands over it.

pub mod frame;
pub mod decimal;
pub mod grammar;
pub mod codec;
pub mod buffer;
pub mod connection;
pub mod dispatch;
