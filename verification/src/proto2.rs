use vstd::prelude::*;
use crate::key::Key;
use crate::rout2::KnownNode;

verus! {

pub const A_CONCURRENT_REQUESTS: usize = 3;

/// A request from one node to another.
#[derive(Clone, PartialEq)]
pub enum Request {
    Ping,
    Store(String, String),
    FindNode(Key),
    FindValue(String),
}

/// The reply to a `Request`.
#[derive(Clone)]
pub enum Reply {
    Ping,
    FindNode(Vec<KnownNode>),
    FindValue(FindValueResp),
}

/// The answer to a `FindValue` request: the closest nodes known, or the value.
#[derive(Clone)]
pub enum FindValueResp {
    Nodes(Vec<KnownNode>),
    Value(String),
}

/// Frames requests on a byte stream.
pub struct ProtocolCodec;

impl ProtocolCodec {
    pub fn new() -> Self {
        ProtocolCodec {  }
    }

    /// The next frame of the buffered bytes: none while the buffer is empty,
    /// otherwise every buffered byte, which leaves the buffer empty.
    pub fn next_frame(&mut self, src: &mut Vec<u8>) -> (frame: Option<Vec<u8>>)
        ensures
            old(src)@.len() == 0 ==> frame is None && final(src)@ == old(src)@,
            old(src)@.len() > 0 ==> (frame matches Some(f) && f@ == old(src)@ && final(src)@.len()
                == 0),
    {
        // 1. If the stream hasn't provided enough bytes yet, or is empty,
        // there is no frame yet.
        let len = src.len();
        if len == 0 {
            return None;
        }
        // 2. Otherwise the current frame is all of the buffered bytes.
        let mut frame: Vec<u8> = Vec::new();
        std::mem::swap(&mut frame, src);
        Some(frame)
    }
}

} // verus!
