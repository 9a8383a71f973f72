use vstd::prelude::*;
use crate::key::Key;
use crate::proto2::{FindValueResp, Reply};
use crate::rout2::{closest_to, known_views, KnownNode, RoutingTable};
use crate::state2::{KvMap, StateErr};

verus! {

/// The number of nodes the router answers a closest-nodes query with.
pub const ROUTER_ANSWER_LEN: usize = 3;

/// The body of a request as the server reads it: the keys are already hashed.
pub enum RequestBody {
    Ping,
    Store(Key, String),
    FindNode(Key),
    FindValue(Key),
}

/// Errors while serving a stream of requests.
pub enum ReqErr {
    CodecErr(String),
    StateErr(StateErr),
    Unknown(String),
}

/// Errors while starting a node.
pub enum KadErr {
    IoErr(String),
    Unknown(String),
}

/// What serving a request needs next.
pub enum Step {
    /// Send this reply.
    Answer(Reply),
    /// Store `val` under `key`, then send `then`.
    Store { key: Key, val: String, then: Reply },
    /// Look the key up in the key-value store, then go on with `on_value`.
    GetValue(Key),
    /// Ask the router for the nodes closest to `key`, then build the reply
    /// with `on_nodes`.
    Closest { key: Key, for_value: bool },
}

/// What serving a `FindValue` request needs once the store was asked.
pub enum ValueStep {
    /// Send this reply.
    Answer(Reply),
    /// Ask the router for the nodes closest to the key, then build the reply
    /// with `on_nodes(true, ..)`.
    Closest(Key),
}

/// The first step of serving a request.
pub fn plan(body: RequestBody) -> (s: Step)
    ensures
        match body {
            RequestBody::Ping => s matches Step::Answer(r) && r is Ping,
            RequestBody::Store(k, v) => s matches Step::Store { key, val, then } && key@ == k@
                && val@ == v@ && then is Ping,
            RequestBody::FindNode(id) => s matches Step::Closest { key, for_value } && key@ == id@
                && !for_value,
            RequestBody::FindValue(k) => s matches Step::GetValue(key) && key@ == k@,
        },
{
    match body {
        RequestBody::Ping => Step::Answer(Reply::Ping),
        // The key is already hashed.
        RequestBody::Store(k, v) => Step::Store { key: k, val: v, then: Reply::Ping },
        // find closest nodes in routes
        RequestBody::FindNode(id) => Step::Closest { key: id, for_value: false },
        // lookup Key in store
        RequestBody::FindValue(k) => Step::GetValue(k),
    }
}

/// The step after the store was asked for `key`: the value found is the
/// reply; if there is none, the closest nodes are.
pub fn on_value(key: Key, found: Option<String>) -> (s: ValueStep)
    ensures
        match found {
            Some(v) => s matches ValueStep::Answer(Reply::FindValue(FindValueResp::Value(x)))
                && x@ == v@,
            None => s matches ValueStep::Closest(k) && k@ == key@,
        },
{
    match found {
        // return value if found
        Some(val_str) => ValueStep::Answer(Reply::FindValue(FindValueResp::Value(val_str))),
        // if not found, return closest nodes
        None => ValueStep::Closest(key),
    }
}

/// The reply that carries the closest nodes the router gave: a `FindValue`
/// reply when they answer a `FindValue` request, a `FindNode` reply otherwise.
pub fn on_nodes(for_value: bool, nodes: Vec<KnownNode>) -> (r: Reply)
    ensures
        for_value ==> (r matches Reply::FindValue(FindValueResp::Nodes(ns)) && ns@ == nodes@),
        !for_value ==> (r matches Reply::FindNode(ns) && ns@ == nodes@),
{
    if for_value {
        Reply::FindValue(FindValueResp::Nodes(nodes))
    } else {
        Reply::FindNode(nodes)
    }
}

/// Answers one request from the key-value store and the router.
pub fn process(body: RequestBody, kv: &mut KvMap, router: &RoutingTable) -> (rep: Reply)
    requires
        old(kv).wf(),
        router.wf(),
    ensures
        final(kv).wf(),
        match body {
            RequestBody::Ping => rep is Ping && final(kv)@ == old(kv)@,
            RequestBody::Store(k, v) => rep is Ping && final(kv)@ == old(kv)@.insert(k@, v@),
            RequestBody::FindNode(id) => {
                &&& final(kv)@ == old(kv)@
                &&& rep matches Reply::FindNode(ns) && closest_to(
                    router.entries(),
                    id@,
                    ROUTER_ANSWER_LEN as nat,
                    known_views(ns@),
                )
            },
            RequestBody::FindValue(k) => final(kv)@ == old(kv)@ && if old(kv)@.contains_key(k@) {
                rep matches Reply::FindValue(FindValueResp::Value(x)) && x@ == old(kv)@[k@]
            } else {
                rep matches Reply::FindValue(FindValueResp::Nodes(ns)) && closest_to(
                    router.entries(),
                    k@,
                    ROUTER_ANSWER_LEN as nat,
                    known_views(ns@),
                )
            },
        },
{
    match plan(body) {
        Step::Answer(r) => r,
        Step::Store { key, val, then } => {
            kv.set(key, val);
            then
        },
        Step::GetValue(k) => {
            let found = kv.get(&k);
            match on_value(k, found) {
                ValueStep::Answer(r) => r,
                ValueStep::Closest(key) => on_nodes(true, router.closest_nodes(key, ROUTER_ANSWER_LEN)),
            }
        },
        Step::Closest { key, for_value } => on_nodes(
            for_value,
            router.closest_nodes(key, ROUTER_ANSWER_LEN),
        ),
    }
}

} // verus!
