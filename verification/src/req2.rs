use vstd::prelude::*;
use crate::key::Key;
use crate::rout2::KnownNode;

verus! {

pub const A_CONCURRENT_REQUESTS: usize = 3;

/// A request from one node to another.
#[derive(Clone)]
pub enum Request {
    Ping,
    Store(String, String),
    FindNode(Key),
    FindValue(String),
}

/// The answer to a `FindValue` request: the closest nodes known, or the value.
#[derive(Clone)]
pub enum FindValueResp {
    Nodes(Vec<KnownNode>),
    Value(String),
}

/// The reply to a `Request`.
#[derive(Clone)]
pub enum Reply {
    Ping,
    FindNode(Vec<KnownNode>),
    FindValue(FindValueResp),
}

/// The message that `MyCodec` carries.
#[derive(Clone, Copy, Debug, PartialEq, Eq, Structural)]
pub struct DummyData {
    pub field: i32,
}

/// Frames `DummyData` messages on a byte stream.
pub struct MyCodec;

impl MyCodec {
    pub fn new() -> Self {
        MyCodec {  }
    }

    /// The bytes of the next message: none while the buffer is empty,
    /// otherwise all of the buffered bytes (the buffer itself is cleared once
    /// the message is read from them).
    pub fn next_frame(&mut self, src: &Vec<u8>) -> (frame: Option<Vec<u8>>)
        ensures
            src@.len() == 0 ==> frame is None,
            src@.len() > 0 ==> (frame matches Some(f) && f@ == src@),
    {
        let len = src.len();
        if len == 0 {
            return None;
        }
        let mut frame: Vec<u8> = Vec::new();
        for i in 0..len
            invariant
                len == src@.len(),
                frame@ == src@.take(i as int),
        {
            frame.push(src[i]);
            proof {
                assert(src@.take(i + 1) =~= src@.take(i as int).push(src@[i as int]));
            }
        }
        proof {
            assert(src@.take(len as int) =~= src@);
        }
        Some(frame)
    }
}

} // verus!
