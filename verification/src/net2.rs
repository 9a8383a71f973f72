use vstd::prelude::*;

verus! {

/// Max message length
pub const MESSAGE_LEN: usize = 8196;

/// Default timeout
pub const TIMEOUT: u64 = 5000;

/// A client for the RPCs of other nodes.
pub struct RpcClient {}

impl RpcClient {
    pub fn new() -> (c: Self)
        ensures
            c == (RpcClient {}),
    {
        RpcClient {}
    }
}

} // verus!
