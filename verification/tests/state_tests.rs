use kademlia::kad2::{on_nodes, on_value, plan, process, RequestBody, Step, ValueStep, ROUTER_ANSWER_LEN};
use kademlia::key::{Key, KEY_LEN};
use kademlia::proto2::{FindValueResp, Reply};
use kademlia::rout2::{NetAddr, Node, RoutingTable};
use kademlia::state2::{serve_router, KvAnswer, KvMap, KvOp, RouterAnswer, RouterOp, StateErr};

fn key_with_last(b: u8) -> Key {
    let mut bytes = [0u8; KEY_LEN];
    bytes[KEY_LEN - 1] = b;
    Key(bytes)
}

fn node(b: u8) -> Node {
    Node {
        id: key_with_last(b),
        addr: NetAddr::V4 { ipv4: 0x7f000001, port: 9000 + b as u16 },
        net_id: String::from("tender_test_net"),
    }
}

#[test]
fn kv_map_get_after_set() {
    let mut kv = KvMap::new();
    assert_eq!(kv.get(&key_with_last(1)), None);
    kv.set(key_with_last(1), String::from("one"));
    kv.set(key_with_last(2), String::from("two"));
    kv.set(key_with_last(1), String::from("uno"));
    assert_eq!(kv.get(&key_with_last(1)), Some(String::from("uno")));
    assert_eq!(kv.get(&key_with_last(2)), Some(String::from("two")));
    assert_eq!(StateErr::RecvErr, StateErr::RecvErr);
}

#[test]
fn new_self_uses_test_net() {
    let addr = NetAddr::V4 { ipv4: 0, port: 8908 };
    let n = Node::new_self(&addr).ok().unwrap();
    assert!(n.addr == addr);
    assert_eq!(n.net_id, "tender_test_net");
}

#[test]
fn process_serves_from_kv_and_router() {
    let me = node(0);
    let mut router = RoutingTable::new(&me);
    for b in 1..6u8 {
        router.update(node(b));
    }
    let mut kv = KvMap::new();
    assert!(matches!(process(RequestBody::Ping, &mut kv, &router), Reply::Ping));
    assert!(matches!(
        process(RequestBody::Store(key_with_last(9), String::from("v")), &mut kv, &router),
        Reply::Ping
    ));
    match process(RequestBody::FindValue(key_with_last(9)), &mut kv, &router) {
        Reply::FindValue(FindValueResp::Value(v)) => assert_eq!(v, "v"),
        _ => panic!("expected the value"),
    }
    // The value stays in the store.
    assert_eq!(kv.get(&key_with_last(9)), Some(String::from("v")));
    match process(RequestBody::FindValue(key_with_last(4)), &mut kv, &router) {
        Reply::FindValue(FindValueResp::Nodes(ns)) => {
            assert_eq!(ns.len(), ROUTER_ANSWER_LEN);
            let got: Vec<u8> = ns.iter().map(|k| k.node.id.0[KEY_LEN - 1]).collect();
            assert_eq!(got, vec![4, 5, 0]);
        }
        _ => panic!("expected nodes"),
    }
    match process(RequestBody::FindNode(key_with_last(1)), &mut kv, &router) {
        Reply::FindNode(ns) => {
            let got: Vec<u8> = ns.iter().map(|k| k.node.id.0[KEY_LEN - 1]).collect();
            assert_eq!(got, vec![1, 0, 3]);
        }
        _ => panic!("expected nodes"),
    }
}

#[test]
fn rout2_remove_compares_addresses() {
    let me = node(0);
    let mut router = RoutingTable::new(&me);
    router.update(node(1));
    let mut moved = node(1);
    moved.addr = NetAddr::V6 { ipv6: 1, port: 1, flowinfo: 0, scope_id: 0 };
    router.remove(&moved);
    assert_eq!(router.closest_nodes(key_with_last(0), 10).len(), 2);
    router.remove(&node(1));
    assert_eq!(router.closest_nodes(key_with_last(0), 10).len(), 1);
}

#[test]
fn kv_task_serves_in_order() {
    let mut kv = KvMap::new();
    let ops = vec![
        KvOp::GetValue(key_with_last(1)),
        KvOp::SetValue(key_with_last(1), String::from("a")),
        KvOp::SetValue(key_with_last(2), String::from("b")),
        KvOp::GetValue(key_with_last(1)),
        KvOp::SetValue(key_with_last(1), String::from("c")),
        KvOp::GetValue(key_with_last(1)),
        KvOp::GetValue(key_with_last(2)),
    ];
    let mut got = Vec::new();
    for op in ops {
        match kv.serve(op) {
            KvAnswer::Value(v) => got.push(v),
            KvAnswer::Done => {}
        }
    }
    assert_eq!(
        got,
        vec![None, Some(String::from("a")), Some(String::from("c")), Some(String::from("b"))]
    );
}

#[test]
fn router_task_serves_updates_and_queries() {
    let mut router = RoutingTable::new(&node(0));
    match serve_router(&mut router, RouterOp::Update(node(7))) {
        RouterAnswer::Done => {}
        RouterAnswer::Nodes(_) => panic!("an update answers Done"),
    }
    serve_router(&mut router, RouterOp::Update(node(3)));
    serve_router(&mut router, RouterOp::Update(node(9)));
    match serve_router(&mut router, RouterOp::GetClosestNodes(key_with_last(2))) {
        RouterAnswer::Nodes(ns) => {
            let lasts: Vec<u8> = ns.iter().map(|k| k.node.id.0[KEY_LEN - 1]).collect();
            // distances to 2: 0->2, 3->1, 7->5, 9->11
            assert_eq!(lasts, vec![3, 0, 7]);
            assert_eq!(ns.len(), ROUTER_ANSWER_LEN);
        }
        RouterAnswer::Done => panic!("a query answers nodes"),
    }
}

#[test]
fn process_steps() {
    assert!(matches!(plan(RequestBody::Ping), Step::Answer(Reply::Ping)));
    match plan(RequestBody::Store(key_with_last(4), String::from("v"))) {
        Step::Store { key, val, then } => {
            assert!(key == key_with_last(4));
            assert_eq!(val, "v");
            assert!(matches!(then, Reply::Ping));
        }
        _ => panic!("a store stores"),
    }
    assert!(matches!(plan(RequestBody::FindNode(key_with_last(4))), Step::Closest { for_value: false, .. }));
    assert!(matches!(plan(RequestBody::FindValue(key_with_last(4))), Step::GetValue(_)));
    match on_value(key_with_last(4), Some(String::from("x"))) {
        ValueStep::Answer(Reply::FindValue(FindValueResp::Value(x))) => assert_eq!(x, "x"),
        _ => panic!("a found value is the answer"),
    }
    match on_value(key_with_last(4), None) {
        ValueStep::Closest(k) => assert!(k == key_with_last(4)),
        _ => panic!("no value asks the router"),
    }
    assert!(matches!(on_nodes(true, Vec::new()), Reply::FindValue(FindValueResp::Nodes(_))));
    assert!(matches!(on_nodes(false, Vec::new()), Reply::FindNode(_)));
}
