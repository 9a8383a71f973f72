use kademlia::kademlia::{
    cache_target, handle_req, initial_routes, record_find_node_reply, record_find_value_reply, record_ping_reply,
    record_store_reply, FindValueResult, Lookup, Reply, Request, ValueStore,
    A_CONCURRENT_REQUESTS,
};
use kademlia::key::{Key, KEY_LEN};
use kademlia::routing::{KnownNode, Node, RoutingTable};

fn key_with_last(b: u8) -> Key {
    let mut bytes = [0u8; KEY_LEN];
    bytes[KEY_LEN - 1] = b;
    Key(bytes)
}

fn node(b: u8) -> Node {
    Node { id: key_with_last(b), addr: format!("127.0.0.1:{}", 9000 + b as u32), net_id: String::from("test") }
}

fn entry(b: u8, target: u8) -> KnownNode {
    KnownNode { node: node(b), distance: key_with_last(b).dist(key_with_last(target)) }
}

fn lasts(nodes: &Vec<KnownNode>) -> Vec<u8> {
    nodes.iter().map(|k| k.node.id.0[KEY_LEN - 1]).collect()
}

fn table_lasts(t: &RoutingTable) -> Vec<u8> {
    lasts(&t.closest_nodes(key_with_last(0), 100))
}

#[test]
fn store_then_find_value_gives_value_once() {
    let mut routes = RoutingTable::new(node(0));
    let mut store = ValueStore::new();
    let rep = handle_req(
        &mut routes,
        &mut store,
        Request::Store(String::from("k"), String::from("v")),
        node(1),
    );
    assert!(matches!(rep, Reply::Ping));
    // The sender was recorded.
    assert_eq!(table_lasts(&routes), vec![0, 1]);
    let rep = handle_req(&mut routes, &mut store, Request::FindValue(String::from("k")), node(2));
    match rep {
        Reply::FindValue(FindValueResult::Value(v)) => assert_eq!(v, "v"),
        _ => panic!("expected the stored value"),
    }
    // The value was taken out: a second lookup gets nodes.
    let rep = handle_req(&mut routes, &mut store, Request::FindValue(String::from("k")), node(2));
    match rep {
        Reply::FindValue(FindValueResult::Nodes(ns)) => assert_eq!(ns.len(), 3),
        _ => panic!("expected nodes"),
    }
}

#[test]
fn later_store_wins() {
    let mut routes = RoutingTable::new(node(0));
    let mut store = ValueStore::new();
    handle_req(&mut routes, &mut store, Request::Store(String::from("k"), String::from("a")), node(1));
    handle_req(&mut routes, &mut store, Request::Store(String::from("k"), String::from("b")), node(1));
    handle_req(&mut routes, &mut store, Request::Store(String::from("j"), String::from("c")), node(1));
    match handle_req(&mut routes, &mut store, Request::FindValue(String::from("k")), node(1)) {
        Reply::FindValue(FindValueResult::Value(v)) => assert_eq!(v, "b"),
        _ => panic!("expected the stored value"),
    }
    match handle_req(&mut routes, &mut store, Request::FindValue(String::from("j")), node(1)) {
        Reply::FindValue(FindValueResult::Value(v)) => assert_eq!(v, "c"),
        _ => panic!("expected the stored value"),
    }
}

#[test]
fn find_node_returns_closest() {
    let mut routes = RoutingTable::new(node(0));
    let mut store = ValueStore::new();
    for b in 1..6u8 {
        handle_req(&mut routes, &mut store, Request::Ping, node(b));
    }
    match handle_req(&mut routes, &mut store, Request::FindNode(key_with_last(4)), node(6)) {
        // Distances to ...04: 4->0, 5->1, 6->2, 0->4, 1->5, 2->6, 3->7
        Reply::FindNode(ns) => assert_eq!(lasts(&ns), vec![4, 5, 6, 0, 1, 2, 3]),
        _ => panic!("expected nodes"),
    }
}

#[test]
fn value_store_insert_and_remove() {
    let mut store = ValueStore::new();
    assert!(store.insert(String::from("a"), String::from("1")).is_none());
    assert_eq!(store.insert(String::from("a"), String::from("2")), Some(String::from("1")));
    assert_eq!(store.remove(&String::from("a")), Some(String::from("2")));
    assert!(store.remove(&String::from("a")).is_none());
}

#[test]
fn replies_update_or_drop_the_peer() {
    let mut routes = RoutingTable::new(node(0));
    assert_eq!(record_ping_reply(&mut routes, node(1), Some(Reply::Ping)), Some(()));
    assert_eq!(table_lasts(&routes), vec![0, 1]);
    assert_eq!(record_ping_reply(&mut routes, node(1), None), None);
    assert_eq!(table_lasts(&routes), vec![0]);
    assert_eq!(record_store_reply(&mut routes, node(2), Some(Reply::Ping)), Some(()));
    assert_eq!(record_store_reply(&mut routes, node(2), Some(Reply::FindNode(Vec::new()))), None);
    assert_eq!(table_lasts(&routes), vec![0]);
    let got = record_find_node_reply(&mut routes, node(3), Some(Reply::FindNode(vec![entry(5, 0)])));
    assert_eq!(lasts(&got.unwrap()), vec![5]);
    assert_eq!(table_lasts(&routes), vec![0, 3]);
    assert!(record_find_node_reply(&mut routes, node(3), Some(Reply::Ping)).is_none());
    assert_eq!(table_lasts(&routes), vec![0]);
    let got = record_find_value_reply(
        &mut routes,
        node(4),
        Some(Reply::FindValue(FindValueResult::Value(String::from("x")))),
    );
    assert!(matches!(got, Some(FindValueResult::Value(ref v)) if v == "x"));
    assert_eq!(table_lasts(&routes), vec![0, 4]);
    assert!(record_find_value_reply(&mut routes, node(4), None).is_none());
    assert_eq!(table_lasts(&routes), vec![0]);
}

#[test]
fn cache_target_is_last_or_self() {
    let me = node(0);
    let t = cache_target(vec![entry(1, 0), entry(2, 0)], &me);
    assert_eq!(t.id.0[KEY_LEN - 1], 2);
    let t = cache_target(Vec::new(), &me);
    assert_eq!(t.id.0[KEY_LEN - 1], 0);
}

#[test]
fn lookup_queries_closest_first_and_never_twice() {
    let mut lookup = Lookup::new(vec![entry(6, 0), entry(1, 0), entry(4, 0), entry(2, 0)]);
    assert!(!lookup.is_done());
    let batch = lookup.next_queries();
    assert_eq!(batch.len(), A_CONCURRENT_REQUESTS);
    assert_eq!(lasts(&batch), vec![1, 2, 4]);
    // Node 1 answers with entries already queued and one new entry; node 2 is down.
    let results = vec![Some(vec![entry(6, 0), entry(3, 0), entry(3, 0)]), None, Some(vec![entry(1, 0)])];
    lookup.record_nodes(batch, results);
    let batch = lookup.next_queries();
    assert_eq!(lasts(&batch), vec![3, 6]);
    assert!(lookup.is_done());
    lookup.record_nodes(batch, vec![Some(Vec::new()), Some(Vec::new())]);
    assert!(lookup.is_done());
    // Answered: 1, 4, 3, 6 (node 2 never answered).
    assert_eq!(lasts(&lookup.finish()), vec![1, 3, 4, 6]);
}

#[test]
fn lookup_value_stops_at_first_value() {
    let mut lookup = Lookup::new(vec![entry(1, 0), entry(2, 0), entry(3, 0)]);
    let batch = lookup.next_queries();
    let results = vec![
        Some(FindValueResult::Nodes(vec![entry(5, 0)])),
        Some(FindValueResult::Value(String::from("v"))),
        Some(FindValueResult::Nodes(vec![entry(7, 0)])),
    ];
    let v = lookup.record_values(batch, results);
    assert_eq!(v, Some(String::from("v")));
    // Only the first answer was taken in.
    assert_eq!(lasts(&lookup.finish()), vec![1]);
    let batch = lookup.next_queries();
    assert_eq!(lasts(&batch), vec![5]);
    assert_eq!(lookup.record_values(batch, vec![None]), None);
}

#[test]
fn lookup_finish_keeps_k_closest() {
    let start: Vec<KnownNode> = (1..12u8).map(|b| entry(b, 0)).collect();
    let mut lookup = Lookup::new(start);
    while !lookup.is_done() {
        let batch = lookup.next_queries();
        let results = batch.iter().map(|_| Some(Vec::new())).collect();
        lookup.record_nodes(batch, results);
    }
    assert_eq!(lasts(&lookup.finish()), vec![1, 2, 3, 4, 5, 6, 7, 8]);
}

#[test]
fn initial_routes_hold_self_and_bootstrap() {
    let t = initial_routes(node(0), Some(node(5)));
    assert_eq!(table_lasts(&t), vec![0, 5]);
    let t = initial_routes(node(0), None);
    assert_eq!(table_lasts(&t), vec![0]);
}

#[test]
fn find_value_after_store_with_requests_between() {
    let mut routes = RoutingTable::new(node(0));
    let mut store = ValueStore::new();
    handle_req(&mut routes, &mut store, Request::Store(String::from("k"), String::from("v")), node(1));
    handle_req(&mut routes, &mut store, Request::Ping, node(2));
    handle_req(&mut routes, &mut store, Request::Store(String::from("other"), String::from("w")), node(3));
    handle_req(&mut routes, &mut store, Request::FindNode(key_with_last(4)), node(4));
    handle_req(&mut routes, &mut store, Request::FindValue(String::from("other")), node(5));
    match handle_req(&mut routes, &mut store, Request::FindValue(String::from("k")), node(6)) {
        Reply::FindValue(FindValueResult::Value(v)) => assert_eq!(v, "v"),
        _ => panic!("expected the stored value"),
    }
    match handle_req(&mut routes, &mut store, Request::FindValue(String::from("k")), node(6)) {
        Reply::FindValue(FindValueResult::Nodes(_)) => {}
        _ => panic!("the value was taken out"),
    }
}
