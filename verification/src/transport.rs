//! The connection adapter's frame rules.
//!
//! A physical connection yields control and data frames. One place decides
//! what each frame means for the typed message stream: text and binary
//! frames carry payload bytes (a command to decode), a ping is answered
//! with a pong carrying the same payload, a pong and a raw fragment are
//! dropped, and a close frame ends the stream. The tasks around the socket
//! only carry these decisions out.

use vstd::prelude::*;
use vstd::string::StrSliceExecFns;
use vstd::utf8::encode_utf8;

verus! {

/// One inbound frame, reduced to the values the rules read.
pub enum Frame {
    /// A text frame and its characters.
    Text(String),
    /// A binary frame and its bytes.
    Binary(Vec<u8>),
    /// A ping control frame and its payload.
    Ping(Vec<u8>),
    /// A pong control frame and its payload.
    Pong(Vec<u8>),
    /// A close control frame.
    Close,
    /// A raw protocol fragment, visible only on some transports.
    Raw,
}

/// What the adapter does with one inbound frame.
pub enum FrameAction {
    /// Hand these payload bytes to the command decoder.
    Payload(Vec<u8>),
    /// Answer with a pong carrying these bytes, yield nothing.
    Pong(Vec<u8>),
    /// Drop the frame, yield nothing.
    Ignore,
    /// End the inbound stream; no further frame is read.
    Terminate,
}

/// Decides what one inbound frame means. Text and binary frames carry the
/// same payload bytes either way, so a command may arrive in either shape.
pub fn handle_frame(f: Frame) -> (r: FrameAction)
    ensures
        match f {
            Frame::Text(t) => r matches FrameAction::Payload(b) && b@ == encode_utf8(t@),
            Frame::Binary(v) => r matches FrameAction::Payload(b) && b@ == v@,
            Frame::Ping(d) => r matches FrameAction::Pong(b) && b@ == d@,
            Frame::Pong(_) => r is Ignore,
            Frame::Close => r is Terminate,
            Frame::Raw => r is Ignore,
        },
{
    match f {
        Frame::Text(t) => FrameAction::Payload(t.as_str().as_bytes_vec()),
        Frame::Binary(v) => FrameAction::Payload(v),
        Frame::Ping(d) => FrameAction::Pong(d),
        Frame::Pong(_) => FrameAction::Ignore,
        Frame::Close => FrameAction::Terminate,
        Frame::Raw => FrameAction::Ignore,
    }
}

} // verus!
