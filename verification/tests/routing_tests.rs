use kademlia::key::{Key, KEY_LEN};
use kademlia::routing::{KnownNode, Node, RoutingTable, K_ENTRIES_PER_BUCKET, N_BUCKETS};

fn key_with_last(b: u8) -> Key {
    let mut bytes = [0u8; KEY_LEN];
    bytes[KEY_LEN - 1] = b;
    Key(bytes)
}

fn node(b: u8) -> Node {
    Node { id: key_with_last(b), addr: format!("127.0.0.1:{}", 9000 + b as u32), net_id: String::from("test") }
}

fn lasts(nodes: &Vec<KnownNode>) -> Vec<u8> {
    nodes.iter().map(|k| k.node.id.0[KEY_LEN - 1]).collect()
}

#[test]
fn new_table_holds_only_itself() {
    let t = RoutingTable::new(node(0));
    assert_eq!(t.buckets().len(), N_BUCKETS);
    let all = t.closest_nodes(key_with_last(9), 100);
    assert_eq!(lasts(&all), vec![0]);
    assert_eq!(t.buckets()[N_BUCKETS - 1].len(), 1);
}

#[test]
fn closest_nodes_sorted_by_distance() {
    let mut t = RoutingTable::new(node(0));
    for b in 1..8u8 {
        t.update(node(b));
    }
    // Distances to ...05: 5->0, 4->1, 7->2, 6->3, 1->4, 0->5, 3->6, 2->7
    let all = t.closest_nodes(key_with_last(5), 100);
    assert_eq!(lasts(&all), vec![5, 4, 7, 6, 1, 0, 3, 2]);
    let three = t.closest_nodes(key_with_last(5), 3);
    assert_eq!(lasts(&three), vec![5, 4, 7]);
    assert_eq!(three[1].distance.0[KEY_LEN - 1], 1);
    assert!(t.closest_nodes(key_with_last(5), 0).is_empty());
}

#[test]
fn full_bucket_drops_new_node() {
    let mut t = RoutingTable::new(node(0));
    for b in 1..20u8 {
        t.update(node(b));
    }
    let all = t.closest_nodes(key_with_last(0), 100);
    assert_eq!(all.len(), K_ENTRIES_PER_BUCKET);
    assert_eq!(lasts(&all), vec![0, 1, 2, 3, 4, 5, 6, 7]);
}

#[test]
fn update_of_known_node_moves_it_to_tail() {
    let mut t = RoutingTable::new(node(0));
    t.update(node(1));
    t.update(node(2));
    let mut again = node(1);
    again.addr = String::from("10.0.0.1:1");
    t.update(again);
    let bucket = &t.buckets()[N_BUCKETS - 1];
    let order: Vec<u8> = bucket.iter().map(|n| n.id.0[KEY_LEN - 1]).collect();
    assert_eq!(order, vec![0, 2, 1]);
    // The stored record keeps its own address.
    assert_eq!(bucket[2].addr, "127.0.0.1:9001");
}

#[test]
fn remove_undoes_update() {
    let mut t = RoutingTable::new(node(0));
    t.update(node(3));
    assert_eq!(t.closest_nodes(key_with_last(0), 100).len(), 2);
    t.remove(&node(3));
    assert_eq!(lasts(&t.closest_nodes(key_with_last(0), 100)), vec![0]);
    // Removing a record that differs in its address leaves the table alone.
    t.update(node(3));
    let mut other = node(3);
    other.net_id = String::from("other");
    t.remove(&other);
    assert_eq!(t.closest_nodes(key_with_last(0), 100).len(), 2);
}

#[test]
fn known_node_equality_is_by_distance() {
    let a = KnownNode { node: node(1), distance: key_with_last(1).dist(key_with_last(0)) };
    let b = KnownNode { node: node(2), distance: key_with_last(1).dist(key_with_last(0)) };
    assert!(a == b);
    assert!(!a.same_entry(&b));
    assert!(a.same_entry(&a.clone()));
}

#[test]
fn closest_answer_for_fewer_is_prefix() {
    let mut t = RoutingTable::new(node(0));
    for b in [5u8, 9, 2, 7, 1] {
        t.update(node(b));
    }
    let all = lasts(&t.closest_nodes(key_with_last(6), 6));
    for c in 0..=6usize {
        assert_eq!(lasts(&t.closest_nodes(key_with_last(6), c)), all[..c].to_vec());
    }
}
