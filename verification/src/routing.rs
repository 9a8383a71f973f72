use vstd::prelude::*;
use vstd::seq_lib::to_multiset_remove;
use vstd::std_specs::cmp::PartialEqSpecImpl;
use crate::closeness::{ascending, sort_by_distance, ByDistance};
use crate::pairs::{lemma_filter_drops_one, lemma_filter_keeps_all};
use crate::key::{
    lemma_lex_asymmetric, lemma_lex_irreflexive, lemma_lex_total, lemma_xor_injective, lex_lt, prefix_zeroes, xor_bytes, Distance, Key,
    KEY_LEN,
};

verus! {

pub const N_BUCKETS: usize = KEY_LEN * 8;

pub const K_ENTRIES_PER_BUCKET: usize = 8;

/// A peer: its identifier, its address, and the name of its network.
#[derive(Hash, Eq)]
pub struct Node {
    pub id: Key,
    pub addr: String,
    pub net_id: String,
}

/// The contents of a `Node`.
pub struct NodeView {
    pub id: Seq<u8>,
    pub addr: Seq<char>,
    pub net_id: Seq<char>,
}

impl View for Node {
    type V = NodeView;

    open spec fn view(&self) -> NodeView {
        NodeView { id: self.id@, addr: self.addr@, net_id: self.net_id@ }
    }
}

impl Clone for Node {
    fn clone(&self) -> (r: Node)
        ensures
            r@ == self@,
    {
        Node { id: self.id, addr: self.addr.clone(), net_id: self.net_id.clone() }
    }
}

impl PartialEq for Node {
    fn eq(&self, other: &Node) -> (r: bool) {
        self.id == other.id && self.addr == other.addr && self.net_id == other.net_id
    }
}

impl PartialEqSpecImpl for Node {
    open spec fn obeys_eq_spec() -> bool {
        true
    }

    open spec fn eq_spec(&self, other: &Node) -> bool {
        self@ == other@
    }
}

/// A peer together with its distance to some target key.
#[derive(Hash, Eq)]
pub struct KnownNode {
    pub node: Node,
    pub distance: Distance,
}

/// The contents of a `KnownNode`.
pub struct KnownNodeView {
    pub node: NodeView,
    pub distance: Seq<u8>,
}

impl View for KnownNode {
    type V = KnownNodeView;

    open spec fn view(&self) -> KnownNodeView {
        KnownNodeView { node: self.node@, distance: self.distance@ }
    }
}

impl Clone for KnownNode {
    fn clone(&self) -> (r: KnownNode)
        ensures
            r@ == self@,
    {
        KnownNode { node: self.node.clone(), distance: self.distance }
    }
}

/// Entries compare equal when they are at the same distance.
impl PartialEq for KnownNode {
    fn eq(&self, other: &KnownNode) -> (r: bool) {
        self.distance == other.distance
    }
}

impl PartialEqSpecImpl for KnownNode {
    open spec fn obeys_eq_spec() -> bool {
        true
    }

    open spec fn eq_spec(&self, other: &KnownNode) -> bool {
        self.distance@ == other.distance@
    }
}

impl ByDistance for KnownNode {
    open spec fn rank(&self) -> Seq<u8> {
        self.distance@
    }

    fn precedes(&self, other: &KnownNode) -> (r: bool) {
        self.distance.less_than(&other.distance)
    }
}

impl KnownNode {
    /// Whether two entries agree in every field (node and distance).
    pub fn same_entry(&self, other: &KnownNode) -> (r: bool)
        ensures
            r == (self@ == other@),
    {
        self.node == other.node && self.distance == other.distance
    }
}

/// The contents of a list of nodes.
pub open spec fn node_views(s: Seq<Node>) -> Seq<NodeView> {
    s.map_values(|n: Node| n@)
}

/// The contents of a list of entries.
pub open spec fn known_views(s: Seq<KnownNode>) -> Seq<KnownNodeView> {
    s.map_values(|k: KnownNode| k@)
}

/// The entry of a node for the target `item`.
pub open spec fn known_of(n: NodeView, item: Seq<u8>) -> KnownNodeView {
    KnownNodeView { node: n, distance: xor_bytes(n.id, item) }
}

/// Index of the bucket where a table whose own id is `self_id` files `id`.
pub open spec fn bucket_for(self_id: Seq<u8>, id: Seq<u8>) -> int {
    prefix_zeroes(xor_bytes(self_id, id)) as int
}

/// Whether a bucket holds a node with identifier `id`.
pub open spec fn holds_id(bucket: Seq<NodeView>, id: Seq<u8>) -> bool {
    exists|i: int| 0 <= i < bucket.len() && #[trigger] bucket[i].id == id
}

/// A bucket after `node` was seen: a node of the same id moves to the tail
/// (it keeps its own record), a new node is appended while the bucket has
/// room, and a full bucket stays as it is.
pub open spec fn updated_bucket(bucket: Seq<NodeView>, node: NodeView) -> Seq<NodeView> {
    if holds_id(bucket, node.id) {
        let i = choose|i: int| 0 <= i < bucket.len() && #[trigger] bucket[i].id == node.id;
        bucket.remove(i).push(bucket[i])
    } else if bucket.len() < K_ENTRIES_PER_BUCKET {
        bucket.push(node)
    } else {
        bucket
    }
}

/// A bucket without the record equal to `node` (unchanged if it has none).
pub open spec fn removed_from(bucket: Seq<NodeView>, node: NodeView) -> Seq<NodeView> {
    bucket.remove_value(node)
}

/// A bucket is within capacity, holds only nodes whose identifiers map to its
/// index `b`, and holds no identifier twice.
pub open spec fn bucket_ok(bucket: Seq<NodeView>, self_id: Seq<u8>, b: int) -> bool {
    &&& bucket.len() <= K_ENTRIES_PER_BUCKET
    &&& forall|i: int|
        0 <= i < bucket.len() ==> (#[trigger] bucket[i]).id.len() == KEY_LEN && bucket_for(
            self_id,
            bucket[i].id,
        ) == b
    &&& forall|i: int, j: int|
        0 <= i < bucket.len() && 0 <= j < bucket.len() && i != j ==> (#[trigger] bucket[i]).id
            != (#[trigger] bucket[j]).id
}

/// Seeing a node that belongs in a well-formed bucket keeps it well formed.
proof fn lemma_updated_bucket_ok(ob: Seq<NodeView>, nv: NodeView, self_id: Seq<u8>, b: int)
    requires
        bucket_ok(ob, self_id, b),
        bucket_for(self_id, nv.id) == b,
        nv.id.len() == KEY_LEN,
    ensures
        bucket_ok(updated_bucket(ob, nv), self_id, b),
{
    let nb = updated_bucket(ob, nv);
    if holds_id(ob, nv.id) {
        let i = choose|i: int| 0 <= i < ob.len() && #[trigger] ob[i].id == nv.id;
        assert(nb == ob.remove(i).push(ob[i]));
        assert forall|a: int| 0 <= a < nb.len() implies (#[trigger] nb[a]) == ob[if a
            == nb.len() - 1 {
            i
        } else if a < i {
            a
        } else {
            a + 1
        }] by {}
        assert forall|a: int, c: int|
            0 <= a < nb.len() && 0 <= c < nb.len() && a != c implies (#[trigger] nb[a]).id != (
            #[trigger] nb[c]).id by {
            let a0 = if a == nb.len() - 1 { i } else if a < i { a } else { a + 1 };
            let c0 = if c == nb.len() - 1 { i } else if c < i { c } else { c + 1 };
            assert(nb[a] == ob[a0]);
            assert(nb[c] == ob[c0]);
        }
    } else if ob.len() < K_ENTRIES_PER_BUCKET {
        assert(nb == ob.push(nv));
        assert forall|a: int, c: int|
            0 <= a < nb.len() && 0 <= c < nb.len() && a != c implies (#[trigger] nb[a]).id != (
            #[trigger] nb[c]).id by {
            if a < ob.len() && c < ob.len() {
                assert(nb[a] == ob[a]);
                assert(nb[c] == ob[c]);
            } else if a < ob.len() {
                assert(nb[a] == ob[a]);
            } else {
                assert(nb[c] == ob[c]);
            }
        }
        assert forall|a: int| 0 <= a < nb.len() implies (#[trigger] nb[a]).id.len() == KEY_LEN
            && bucket_for(self_id, nb[a].id) == b by {
            if a < ob.len() {
                assert(nb[a] == ob[a]);
            }
        }
    }
}

/// Removing a record from a well-formed bucket keeps it well formed.
proof fn lemma_removed_bucket_ok(ob: Seq<NodeView>, nv: NodeView, self_id: Seq<u8>, b: int)
    requires
        bucket_ok(ob, self_id, b),
    ensures
        bucket_ok(removed_from(ob, nv), self_id, b),
{
    ob.index_of_first_ensures(nv);
    if ob.contains(nv) {
        let i = ob.index_of_first(nv).unwrap();
        let nb = removed_from(ob, nv);
        assert(nb == ob.remove(i));
        assert forall|a: int| 0 <= a < nb.len() implies (#[trigger] nb[a]).id.len() == KEY_LEN
            && bucket_for(self_id, nb[a].id) == b by {
            if a < i {
                assert(nb[a] == ob[a]);
            } else {
                assert(nb[a] == ob[a + 1]);
            }
        }
        assert forall|a: int, c: int|
            0 <= a < nb.len() && 0 <= c < nb.len() && a != c implies (#[trigger] nb[a]).id != (
            #[trigger] nb[c]).id by {
            let a0 = if a < i { a } else { a + 1 };
            let c0 = if c < i { c } else { c + 1 };
            assert(nb[a] == ob[a0]);
            assert(nb[c] == ob[c0]);
        }
    }
}

/// The buckets after `node` was seen by a table whose own id is `self_id`.
pub open spec fn after_update(
    t: Seq<Seq<NodeView>>,
    self_id: Seq<u8>,
    node: NodeView,
) -> Seq<Seq<NodeView>> {
    t.update(bucket_for(self_id, node.id), updated_bucket(t[bucket_for(self_id, node.id)], node))
}

/// The buckets after the record `node` was removed from a table whose own id
/// is `self_id`.
pub open spec fn after_remove(
    t: Seq<Seq<NodeView>>,
    self_id: Seq<u8>,
    node: NodeView,
) -> Seq<Seq<NodeView>> {
    t.update(bucket_for(self_id, node.id), removed_from(t[bucket_for(self_id, node.id)], node))
}

/// Whether some entry of `r` is for node `n`.
pub open spec fn lists_node(r: Seq<KnownNodeView>, n: NodeView) -> bool {
    exists|j: int| 0 <= j < r.len() && #[trigger] r[j].node == n
}

/// `r` holds the `count` nodes of `entries` closest to `item` (all of them if
/// there are fewer), each with its distance, closest first.
pub open spec fn closest_to(
    entries: Seq<NodeView>,
    item: Seq<u8>,
    count: nat,
    r: Seq<KnownNodeView>,
) -> bool {
    &&& r.len() == (if count < entries.len() { count } else { entries.len() })
    &&& forall|i: int|
        0 <= i < r.len() ==> entries.contains(#[trigger] r[i].node) && r[i].distance == xor_bytes(
            r[i].node.id,
            item,
        )
    &&& forall|i: int, j: int|
        0 <= i < j < r.len() ==> lex_lt(#[trigger] r[i].distance, #[trigger] r[j].distance)
    &&& forall|n: NodeView, i: int|
        entries.contains(n) && 0 <= i < r.len() && !lists_node(r, n) ==> lex_lt(
            #[trigger] r[i].distance,
            xor_bytes(#[trigger] n.id, item),
        )
}

/// The k-bucket routing table of a node.
pub struct RoutingTable {
    node_info: Node,
    buckets: Vec<Vec<Node>>,
}

impl View for RoutingTable {
    type V = Seq<Seq<NodeView>>;

    closed spec fn view(&self) -> Seq<Seq<NodeView>> {
        self.buckets@.map_values(|b: Vec<Node>| node_views(b@))
    }
}

impl RoutingTable {
    /// The record of the node that owns the table.
    pub closed spec fn self_node(&self) -> NodeView {
        self.node_info@
    }

    /// All nodes of the table, bucket after bucket.
    pub open spec fn entries(&self) -> Seq<NodeView> {
        self@.flatten()
    }

    /// The table's invariant: one bucket per index, no bucket over capacity,
    /// each node in the bucket its identifier maps to, and no identifier twice.
    pub open spec fn wf(&self) -> bool {
        &&& self@.len() == N_BUCKETS
        &&& self.self_node().id.len() == KEY_LEN
        &&& forall|b: int| 0 <= b < N_BUCKETS ==> #[trigger] bucket_ok(self@[b], self.self_node().id, b)
    }

    proof fn lemma_view_facts(&self)
        ensures
            self@.len() == self.buckets@.len(),
            forall|b: int|
                0 <= b < self.buckets@.len() ==> #[trigger] self@[b] == node_views(
                    self.buckets@[b]@,
                ),
    {
    }

    /// The buckets of the table.
    pub fn buckets(&self) -> (b: &Vec<Vec<Node>>)
        ensures
            b@.map_values(|v: Vec<Node>| node_views(v@)) == self@,
    {
        &self.buckets
    }

    fn lookup_bucket_index(&self, item: Key) -> (r: usize)
        ensures
            r == bucket_for(self.self_node().id, item@),
            r < N_BUCKETS,
    {
        self.node_info.id.dist(item).zeroes_in_prefix()
    }
}

/// Index of the first node of `bucket` whose identifier is `id`.
fn position_of_id(bucket: &Vec<Node>, id: &Key) -> (r: Option<usize>)
    ensures
        match r {
            Some(i) => i < bucket@.len() && bucket@[i as int]@.id == id@ && forall|k: int|
                0 <= k < i ==> (#[trigger] bucket@[k])@.id != id@,
            None => forall|k: int| 0 <= k < bucket@.len() ==> (#[trigger] bucket@[k])@.id != id@,
        },
{
    let n = bucket.len();
    for i in 0..n
        invariant
            n == bucket.len(),
            forall|k: int| 0 <= k < i ==> (#[trigger] bucket@[k])@.id != id@,
    {
        if bucket[i].id == *id {
            return Some(i);
        }
    }
    None
}

/// Index of the first node of `bucket` equal to `node` in every field.
fn position_of_node(bucket: &Vec<Node>, node: &Node) -> (r: Option<usize>)
    ensures
        match r {
            Some(i) => i < bucket@.len() && bucket@[i as int]@ == node@ && forall|k: int|
                0 <= k < i ==> (#[trigger] bucket@[k])@ != node@,
            None => forall|k: int| 0 <= k < bucket@.len() ==> (#[trigger] bucket@[k])@ != node@,
        },
{
    let n = bucket.len();
    for i in 0..n
        invariant
            n == bucket.len(),
            forall|k: int| 0 <= k < i ==> (#[trigger] bucket@[k])@ != node@,
    {
        if bucket[i] == *node {
            return Some(i);
        }
    }
    None
}

impl RoutingTable {
    /// Update the appropriate bucket with the new node's info: a node whose
    /// identifier the bucket already holds keeps its stored record, which
    /// moves to the tail; a new node is appended while the bucket has room,
    /// and is dropped when it is full.
    pub fn update(&mut self, node_info: Node)
        requires
            old(self).wf(),
        ensures
            final(self).wf(),
            final(self).self_node() == old(self).self_node(),
            final(self)@ == after_update(old(self)@, old(self).self_node().id, node_info@),
    {
        let bucket_index = self.lookup_bucket_index(node_info.id);
        let ghost b = bucket_index as int;
        let ghost old_table = self@;
        let ghost old_buckets = self.buckets@;
        let ghost old_bucket = self.buckets@[b]@;
        let ghost nv = node_info@;
        let ghost self_id = self.self_node().id;
        proof {
            self.lemma_view_facts();
            assert(bucket_ok(old_table[b], self_id, b));
        }
        let bucket = &mut self.buckets[bucket_index];
        let node_index = position_of_id(bucket, &node_info.id);
        match node_index {
            Some(i) => {
                let temp = bucket.remove(i);
                bucket.push(temp);
                proof {
                    let ob = node_views(old_bucket);
                    assert(ob[i as int].id == nv.id);
                    assert(holds_id(ob, nv.id));
                    let c = choose|c: int| 0 <= c < ob.len() && #[trigger] ob[c].id == nv.id;
                    if c != i {
                        assert(old_table[b][c].id == old_table[b][i as int].id);
                    }
                    assert(node_views(bucket@) =~= ob.remove(i as int).push(ob[i as int]));
                }
            },
            None => {
                if bucket.len() < K_ENTRIES_PER_BUCKET {
                    bucket.push(node_info);
                    proof {
                        assert(!holds_id(node_views(old_bucket), nv.id));
                        assert(node_views(bucket@) =~= node_views(old_bucket).push(nv));
                    }
                } else {
                    // go through bucket, pinging nodes, replace one
                    // that doesn't respond.
                    proof {
                        assert(!holds_id(node_views(old_bucket), nv.id));
                    }
                }
            },
        }
        proof {
            self.lemma_view_facts();
            assert(self.buckets@ == old_buckets.update(b, self.buckets@[b]));
            assert(self@ =~= old_table.update(b, updated_bucket(old_table[b], nv)));
            lemma_updated_bucket_ok(old_table[b], nv, self_id, b);
            assert forall|b2: int| 0 <= b2 < N_BUCKETS implies #[trigger] bucket_ok(
                self@[b2],
                self_id,
                b2,
            ) by {
                if b2 != b {
                    assert(self@[b2] == old_table[b2]);
                }
            }
        }
    }

    /// Remove the record equal to `node_info` from the table.
    pub fn remove(&mut self, node_info: &Node)
        requires
            old(self).wf(),
        ensures
            final(self).wf(),
            final(self).self_node() == old(self).self_node(),
            final(self)@ == after_remove(old(self)@, old(self).self_node().id, node_info@),
    {
        let bucket_index = self.lookup_bucket_index(node_info.id);
        let ghost b = bucket_index as int;
        let ghost old_table = self@;
        let ghost old_buckets = self.buckets@;
        let ghost old_bucket = self.buckets@[b]@;
        let ghost nv = node_info@;
        let ghost self_id = self.self_node().id;
        proof {
            self.lemma_view_facts();
            assert(bucket_ok(old_table[b], self_id, b));
        }
        if let Some(item_index) = position_of_node(&self.buckets[bucket_index], node_info) {
            self.buckets[bucket_index].remove(item_index);
            proof {
                let ob = node_views(old_bucket);
                assert(old_table[b] == ob);
                assert(ob[item_index as int] == nv);
                ob.index_of_first_ensures(nv);
                let c = ob.index_of_first(nv).unwrap();
                if c < item_index {
                    assert(ob[c] == old_bucket[c]@);
                }
                assert(c == item_index);
                assert(node_views(self.buckets@[b]@) =~= ob.remove(item_index as int));
                assert(old_table[b] == ob);
                assert(removed_from(ob, nv) == ob.remove(item_index as int));
            }
        } else {
            // The table holds no such record.
            proof {
                let ob = node_views(old_bucket);
                ob.index_of_first_ensures(nv);
                if ob.contains(nv) {
                    let c = choose|c: int| 0 <= c < ob.len() && ob[c] == nv;
                    assert(old_bucket[c]@ == nv);
                }
                assert(old_table[b] == ob);
                assert(removed_from(ob, nv) == ob);
                assert(self.buckets@ == old_buckets);
            }
        }
        proof {
            self.lemma_view_facts();
            assert(self.buckets@ == old_buckets.update(b, self.buckets@[b]));
            assert(self@ =~= old_table.update(b, removed_from(old_table[b], nv)));
            lemma_removed_bucket_ok(old_table[b], nv, self_id, b);
            assert forall|b2: int| 0 <= b2 < N_BUCKETS implies #[trigger] bucket_ok(
                self@[b2],
                self_id,
                b2,
            ) by {
                if b2 != b {
                    assert(self@[b2] == old_table[b2]);
                }
            }
        }
    }
}

/// Entries for every node of `ns`, in order, for the target `item`.
pub open spec fn known_list(ns: Seq<NodeView>, item: Seq<u8>) -> Seq<KnownNodeView> {
    ns.map_values(|n: NodeView| known_of(n, item))
}

/// Entries built for nodes of pairwise different identifiers, sorted by
/// distance and cut to `c` entries, are the `count` closest entries.
proof fn lemma_sorted_prefix_is_closest(
    all: Seq<KnownNode>,
    sorted: Seq<KnownNode>,
    entries: Seq<NodeView>,
    item: Seq<u8>,
    count: nat,
    c: int,
)
    requires
        known_views(all) == known_list(entries, item),
        item.len() == KEY_LEN,
        forall|k: int| 0 <= k < all.len() ==> (#[trigger] all[k])@.node.id.len() == KEY_LEN,
        forall|k1: int, k2: int|
            0 <= k1 < all.len() && 0 <= k2 < all.len() && k1 != k2 ==> (#[trigger] all[k1])@.node.id
                != (#[trigger] all[k2])@.node.id,
        sorted.len() == all.len(),
        forall|x: KnownNode| sorted.contains(x) <==> all.contains(x),
        all.no_duplicates() ==> sorted.no_duplicates(),
        ascending(sorted),
        c == (if count < all.len() { count as int } else { all.len() as int }),
    ensures
        closest_to(entries, item, count, known_views(sorted.take(c))),
{
    let r = known_views(sorted.take(c));
    assert(entries.len() == all.len()) by {
        assert(known_views(all).len() == all.len());
    }
    assert forall|k: int| 0 <= k < all.len() implies (#[trigger] all[k])@ == known_of(
        entries[k],
        item,
    ) by {
        assert(known_views(all)[k] == all[k]@);
    }
    assert(all.no_duplicates()) by {
        assert forall|k1: int, k2: int|
            0 <= k1 < all.len() && 0 <= k2 < all.len() && k1 != k2 implies all[k1] != all[k2] by {
            if all[k1] == all[k2] {
                assert(all[k1]@.node.id == all[k2]@.node.id);
            }
        }
    }
    // Each sorted entry is one of the built entries.
    assert forall|p: int| 0 <= p < sorted.len() implies exists|q: int|
        0 <= q < all.len() && #[trigger] all[q] == #[trigger] sorted[p] by {
        assert(sorted.contains(sorted[p]));
    }
    // Different sorted entries lie at different distances.
    assert forall|p1: int, p2: int|
        0 <= p1 < sorted.len() && 0 <= p2 < sorted.len() && p1 != p2 implies (
        #[trigger] sorted[p1]).rank() != (#[trigger] sorted[p2]).rank() && sorted[p1].rank().len()
        == KEY_LEN by {
        let q1 = choose|q: int| 0 <= q < all.len() && #[trigger] all[q] == sorted[p1];
        let q2 = choose|q: int| 0 <= q < all.len() && #[trigger] all[q] == sorted[p2];
        assert(sorted[p1] != sorted[p2]);
        assert(q1 != q2);
        assert(all[q1]@ == known_of(entries[q1], item));
        assert(all[q2]@ == known_of(entries[q2], item));
        if sorted[p1].rank() == sorted[p2].rank() {
            lemma_xor_injective(entries[q1].id, entries[q2].id, item);
        }
    }
    assert forall|i: int| 0 <= i < r.len() implies entries.contains(#[trigger] r[i].node)
        && r[i].distance == xor_bytes(r[i].node.id, item) by {
        let q = choose|q: int| 0 <= q < all.len() && #[trigger] all[q] == sorted[i];
        assert(r[i] == sorted[i]@);
        assert(all[q]@ == known_of(entries[q], item));
    }
    assert forall|i: int, j: int| 0 <= i < j < r.len() implies lex_lt(
        #[trigger] r[i].distance,
        #[trigger] r[j].distance,
    ) by {
        assert(r[i] == sorted[i]@);
        assert(r[j] == sorted[j]@);
        assert(!lex_lt(sorted[j].rank(), sorted[i].rank()));
        assert(sorted[i].rank() != sorted[j].rank());
        lemma_lex_total(sorted[i].rank(), sorted[j].rank());
    }
    assert forall|n: NodeView, i: int|
        entries.contains(n) && 0 <= i < r.len() && !lists_node(r, n) implies lex_lt(
        #[trigger] r[i].distance,
        xor_bytes(#[trigger] n.id, item),
    ) by {
        let p = choose|p: int| 0 <= p < entries.len() && entries[p] == n;
        assert(all[p]@ == known_of(n, item));
        assert(all.contains(all[p]));
        let q = choose|q: int| 0 <= q < sorted.len() && sorted[q] == all[p];
        if q < c {
            assert(r[q] == sorted[q]@);
            assert(r[q].node == n);
            assert(lists_node(r, n));
        }
        assert(r[i] == sorted[i]@);
        assert(q != i);
        assert(!lex_lt(sorted[q].rank(), sorted[i].rank()));
        assert(sorted[i].rank() != sorted[q].rank());
        lemma_lex_total(sorted[i].rank(), sorted[q].rank());
    }
}

impl RoutingTable {
    /// The buckets of a new table for `node`: the node's own record alone in
    /// its bucket.
    pub open spec fn fresh_buckets(node: NodeView) -> Seq<Seq<NodeView>> {
        Seq::new(
            N_BUCKETS as nat,
            |b: int|
                if b == bucket_for(node.id, node.id) {
                    seq![node]
                } else {
                    Seq::<NodeView>::empty()
                },
        )
    }

    pub fn new(node_info: Node) -> (t: RoutingTable)
        ensures
            t.wf(),
            t.self_node() == node_info@,
            t@ == Self::fresh_buckets(node_info@),
    {
        let mut buckets: Vec<Vec<Node>> = Vec::new();
        for i in 0..N_BUCKETS
            invariant
                buckets@.len() == i,
                forall|j: int| 0 <= j < i ==> (#[trigger] buckets@[j])@.len() == 0,
        {
            buckets.push(Vec::new());
        }
        let mut ret = RoutingTable { node_info: node_info.clone(), buckets: buckets };
        proof {
            ret.lemma_view_facts();
            assert forall|b: int| 0 <= b < N_BUCKETS implies #[trigger] ret@[b].len() == 0 by {
                assert(ret@[b] == node_views(ret.buckets@[b]@));
            }
        }
        ret.update(node_info.clone());
        proof {
            let b0 = bucket_for(node_info@.id, node_info@.id);
            assert(updated_bucket(Seq::<NodeView>::empty(), node_info@) =~= seq![node_info@]);
            assert forall|b: int| 0 <= b < N_BUCKETS implies #[trigger] ret@[b] == (if b == b0 {
                seq![node_info@]
            } else {
                Seq::<NodeView>::empty()
            }) by {
                if b != b0 {
                    assert(ret@[b] =~= Seq::<NodeView>::empty());
                }
            }
            assert(ret@ =~= Seq::new(
                N_BUCKETS as nat,
                |b: int|
                    if b == b0 {
                        seq![node_info@]
                    } else {
                        Seq::<NodeView>::empty()
                    },
            ));
        }
        ret
    }

    /// Lookup the nodes closest to item in this table
    ///
    /// NOTE: This method is a really stupid, linear time search. I can't find
    /// info on how to use the buckets effectively to solve this.
    pub fn closest_nodes(&self, item: Key, count: usize) -> (r: Vec<KnownNode>)
        requires
            self.wf(),
        ensures
            closest_to(self.entries(), item@, count as nat, known_views(r@)),
    {
        if count == 0 {
            return Vec::new();
        }
        let ghost table = self@;
        let ghost self_id = self.self_node().id;
        let mut ret: Vec<KnownNode> = Vec::new();
        let nb = self.buckets.len();
        proof {
            self.lemma_view_facts();
            assert(table.take(0).flatten() =~= Seq::<NodeView>::empty());
            assert(known_views(ret@) =~= known_list(table.take(0).flatten(), item@));
        }
        for b in 0..nb
            invariant
                nb == self.buckets@.len(),
                nb == N_BUCKETS,
                self.wf(),
                table == self@,
                self_id == self.self_node().id,
                known_views(ret@) == known_list(table.take(b as int).flatten(), item@),
                forall|k: int|
                    0 <= k < ret@.len() ==> (#[trigger] ret@[k])@.node.id.len() == KEY_LEN
                        && bucket_for(self_id, ret@[k]@.node.id) < b,
                forall|k1: int, k2: int|
                    0 <= k1 < ret@.len() && 0 <= k2 < ret@.len() && k1 != k2 ==> (
                    #[trigger] ret@[k1])@.node.id != (#[trigger] ret@[k2])@.node.id,
        {
            let bucket = &self.buckets[b];
            let ghost start = ret@.len();
            let ghost prefix = table.take(b as int).flatten();
            let nn = bucket.len();
            proof {
                self.lemma_view_facts();
                assert(table[b as int] == node_views(bucket@));
                assert(table[b as int].take(0) =~= Seq::<NodeView>::empty());
                assert(prefix + table[b as int].take(0) =~= prefix);
            }
            for i in 0..nn
                invariant
                    nn == bucket@.len(),
                    table[b as int] == node_views(bucket@),
                    b < N_BUCKETS,
                    self.wf(),
                    table == self@,
                    self_id == self.self_node().id,
                    ret@.len() == start + i,
                    known_views(ret@) == known_list(prefix + table[b as int].take(i as int), item@),
                    forall|k: int|
                        0 <= k < start ==> (#[trigger] ret@[k])@.node.id.len() == KEY_LEN
                            && bucket_for(self_id, ret@[k]@.node.id) < b,
                    forall|k: int|
                        start <= k < ret@.len() ==> (#[trigger] ret@[k])@.node == table[b as int][k
                            - start],
                    forall|k1: int, k2: int|
                        0 <= k1 < ret@.len() && 0 <= k2 < ret@.len() && k1 != k2 ==> (
                        #[trigger] ret@[k1])@.node.id != (#[trigger] ret@[k2])@.node.id,
            {
                let node_info = &bucket[i];
                let entry = KnownNode { node: node_info.clone(), distance: node_info.id.dist(item) };
                let ghost before = ret@;
                ret.push(entry);
                proof {
                    assert(bucket_ok(self@[b as int], self_id, b as int));
                    let nv = table[b as int][i as int];
                    assert(nv == node_info@);
                    assert(entry@ == known_of(nv, item@));
                    assert(table[b as int].take(i + 1) =~= table[b as int].take(i as int).push(nv));
                    assert(known_views(ret@) =~= known_views(before).push(entry@));
                    assert((prefix + table[b as int].take(i + 1)) =~= (prefix + table[b as int].take(
                        i as int,
                    )).push(nv));
                    assert(known_views(ret@) =~= known_list(
                        prefix + table[b as int].take(i + 1),
                        item@,
                    ));
                    assert forall|k1: int, k2: int|
                        0 <= k1 < ret@.len() && 0 <= k2 < ret@.len() && k1 != k2 implies (
                        #[trigger] ret@[k1])@.node.id != (#[trigger] ret@[k2])@.node.id by {
                        if k1 < before.len() && k2 < before.len() {
                            assert(ret@[k1] == before[k1]);
                            assert(ret@[k2] == before[k2]);
                        } else if k1 == before.len() {
                            assert(ret@[k2] == before[k2]);
                            if k2 >= start {
                                assert(before[k2]@.node == table[b as int][k2 - start]);
                            }
                        } else {
                            assert(ret@[k1] == before[k1]);
                            if k1 >= start {
                                assert(before[k1]@.node == table[b as int][k1 - start]);
                            }
                        }
                    }
                }
            }
            proof {
                assert(table[b as int].take(nn as int) =~= table[b as int]);
                assert(table.take(b + 1) =~= table.take(b as int).push(table[b as int]));
                table.take(b as int).lemma_flatten_push(table[b as int]);
                assert(bucket_ok(self@[b as int], self_id, b as int));
                assert forall|k: int| 0 <= k < ret@.len() implies (#[trigger] ret@[k])@.node.id.len()
                    == KEY_LEN && bucket_for(self_id, ret@[k]@.node.id) < b + 1 by {
                    if k >= start {
                        assert(ret@[k]@.node == table[b as int][k - start]);
                        assert(self@[b as int][k - start].id.len() == KEY_LEN);
                        assert(bucket_for(self_id, self@[b as int][k - start].id) == b);
                    }
                }
            }
        }
        proof {
            assert(table.take(nb as int) =~= table);
        }
        let ghost all = ret@;
        let mut sorted = sort_by_distance(ret);
        let ghost full = sorted@;
        sorted.truncate(count);
        proof {
            let c = if (count as int) < all.len() { count as int } else { all.len() as int };
            assert(sorted@ == full.take(c));
            lemma_sorted_prefix_is_closest(all, full, self.entries(), item@, count as nat, c);
        }
        sorted
    }
}

/// Seeing a node whose bucket has room, or already holds its identifier,
/// leaves a node of that identifier in the bucket.
pub proof fn law_update_records_node(t: Seq<Seq<NodeView>>, self_id: Seq<u8>, node: NodeView)
    requires
        0 <= bucket_for(self_id, node.id) < t.len(),
        holds_id(t[bucket_for(self_id, node.id)], node.id) || t[bucket_for(
            self_id,
            node.id,
        )].len() < K_ENTRIES_PER_BUCKET,
    ensures
        holds_id(after_update(t, self_id, node)[bucket_for(self_id, node.id)], node.id),
{
    let b = bucket_for(self_id, node.id);
    let ob = t[b];
    let nb = updated_bucket(ob, node);
    assert(after_update(t, self_id, node)[b] == nb);
    if holds_id(ob, node.id) {
        let i = choose|i: int| 0 <= i < ob.len() && #[trigger] ob[i].id == node.id;
        assert(nb[nb.len() - 1] == ob[i]);
    } else {
        assert(nb[nb.len() - 1] == node);
    }
}

/// Removing a node right after it was first seen (its bucket had room and did
/// not hold its identifier) gives back the table as it was.
pub proof fn law_remove_undoes_update(t: Seq<Seq<NodeView>>, self_id: Seq<u8>, node: NodeView)
    requires
        0 <= bucket_for(self_id, node.id) < t.len(),
        !holds_id(t[bucket_for(self_id, node.id)], node.id),
        t[bucket_for(self_id, node.id)].len() < K_ENTRIES_PER_BUCKET,
    ensures
        after_remove(after_update(t, self_id, node), self_id, node) == t,
{
    let b = bucket_for(self_id, node.id);
    let ob = t[b];
    let nb = ob.push(node);
    assert(updated_bucket(ob, node) == nb);
    nb.index_of_first_ensures(node);
    assert(nb[ob.len() as int] == node);
    let i = nb.index_of_first(node).unwrap();
    if i < ob.len() {
        assert(ob[i] == node);
        assert(ob[i].id == node.id);
    }
    assert(removed_from(nb, node) =~= ob);
    assert(after_remove(after_update(t, self_id, node), self_id, node) =~= t);
}

/// Seeing a node twice in a row changes the table no more than seeing it once
/// when the second sighting finds it at the tail of its bucket.
pub proof fn law_update_of_newest_is_stable(t: Seq<Seq<NodeView>>, self_id: Seq<u8>, node: NodeView)
    requires
        0 <= bucket_for(self_id, node.id) < t.len(),
        t[bucket_for(self_id, node.id)].len() > 0,
        t[bucket_for(self_id, node.id)].last().id == node.id,
        forall|i: int, j: int|
            0 <= i < t[bucket_for(self_id, node.id)].len() && 0 <= j < t[bucket_for(
                self_id,
                node.id,
            )].len() && i != j ==> (#[trigger] t[bucket_for(self_id, node.id)][i]).id != (
            #[trigger] t[bucket_for(self_id, node.id)][j]).id,
    ensures
        after_update(t, self_id, node) == t,
{
    let b = bucket_for(self_id, node.id);
    let ob = t[b];
    let last = ob.len() - 1;
    assert(ob[last].id == node.id);
    assert(holds_id(ob, node.id));
    let i = choose|i: int| 0 <= i < ob.len() && #[trigger] ob[i].id == node.id;
    if i != last {
        assert(ob[i].id == ob[last].id);
    }
    assert(ob.remove(last).push(ob[last]) =~= ob);
    assert(after_update(t, self_id, node) =~= t);
}

/// The nodes of the first `nb` buckets of a table whose buckets are all well
/// formed: identifiers of `KEY_LEN` bytes, each in a bucket below `nb`, none
/// twice.
proof fn lemma_prefix_entries(t: Seq<Seq<NodeView>>, self_id: Seq<u8>, nb: int)
    requires
        0 <= nb <= t.len(),
        forall|b: int| 0 <= b < t.len() ==> #[trigger] bucket_ok(t[b], self_id, b),
    ensures
        forall|i: int|
            0 <= i < t.take(nb).flatten().len() ==> (#[trigger] t.take(nb).flatten()[i]).id.len()
                == KEY_LEN && 0 <= bucket_for(self_id, t.take(nb).flatten()[i].id) < nb,
        forall|i: int, j: int|
            0 <= i < t.take(nb).flatten().len() && 0 <= j < t.take(nb).flatten().len() && i != j
                ==> (#[trigger] t.take(nb).flatten()[i]).id != (
            #[trigger] t.take(nb).flatten()[j]).id,
    decreases nb,
{
    if nb == 0 {
        assert(t.take(0) =~= Seq::<Seq<NodeView>>::empty());
        assert(t.take(0).flatten() =~= Seq::<NodeView>::empty());
    } else {
        lemma_prefix_entries(t, self_id, nb - 1);
        let p = t.take(nb - 1);
        assert(t.take(nb) =~= p.push(t[nb - 1]));
        p.lemma_flatten_push(t[nb - 1]);
        let f0 = p.flatten();
        let bk = t[nb - 1];
        let f = t.take(nb).flatten();
        assert(f =~= f0 + bk);
        assert(bucket_ok(bk, self_id, nb - 1));
        assert forall|i: int| 0 <= i < f.len() implies (#[trigger] f[i]).id.len() == KEY_LEN && 0
            <= bucket_for(self_id, f[i].id) < nb by {
            if i < f0.len() {
                assert(f[i] == f0[i]);
            } else {
                assert(f[i] == bk[i - f0.len()]);
            }
        }
        assert forall|i: int, j: int| 0 <= i < f.len() && 0 <= j < f.len() && i != j implies (
        #[trigger] f[i]).id != (#[trigger] f[j]).id by {
            if i < f0.len() && j < f0.len() {
                assert(f[i] == f0[i] && f[j] == f0[j]);
            } else if i >= f0.len() && j >= f0.len() {
                assert(f[i] == bk[i - f0.len()] && f[j] == bk[j - f0.len()]);
            } else if i < f0.len() {
                assert(f[i] == f0[i] && f[j] == bk[j - f0.len()]);
            } else {
                assert(f[j] == f0[j] && f[i] == bk[i - f0.len()]);
            }
        }
    }
}

/// Entries with the facts of a table's nodes: identifiers of `KEY_LEN`
/// bytes, and one node per identifier.
pub open spec fn distinct_ids(entries: Seq<NodeView>) -> bool {
    &&& forall|n: NodeView| entries.contains(n) ==> #[trigger] n.id.len() == KEY_LEN
    &&& forall|n1: NodeView, n2: NodeView|
        entries.contains(n1) && entries.contains(n2) && n1.id == n2.id ==> n1 == n2
}

/// Two answers of `closest_to` agree on every position below `i`, for the
/// step from `i` to `i + 1`.
proof fn lemma_closest_agree_at(
    entries: Seq<NodeView>,
    item: Seq<u8>,
    c1: nat,
    c2: nat,
    r1: Seq<KnownNodeView>,
    r2: Seq<KnownNodeView>,
    i: int,
)
    requires
        distinct_ids(entries),
        item.len() == KEY_LEN,
        c1 <= c2,
        closest_to(entries, item, c1, r1),
        closest_to(entries, item, c2, r2),
        0 <= i < r1.len(),
        forall|j: int| 0 <= j < i ==> r1[j] == r2[j],
    ensures
        r1[i] == r2[i],
{
    assert(r1.len() <= r2.len());
    let a = r1[i];
    let b = r2[i];
    assert(entries.contains(a.node));
    assert(entries.contains(b.node));
    assert(a.node.id.len() == KEY_LEN);
    assert(b.node.id.len() == KEY_LEN);
    assert(a.distance == xor_bytes(a.node.id, item));
    assert(b.distance == xor_bytes(b.node.id, item));
    if a.distance != b.distance {
        lemma_lex_total(a.distance, b.distance);
        if lex_lt(a.distance, b.distance) {
            if lists_node(r2, a.node) {
                let j = choose|j: int| 0 <= j < r2.len() && #[trigger] r2[j].node == a.node;
                assert(r2[j].distance == a.distance);
                if j < i {
                    assert(r1[j] == r2[j]);
                    assert(lex_lt(r1[j].distance, r1[i].distance));
                    lemma_lex_irreflexive(a.distance);
                } else if j == i {
                } else {
                    assert(lex_lt(r2[i].distance, r2[j].distance));
                    lemma_lex_asymmetric(a.distance, b.distance);
                }
            } else {
                assert(lex_lt(r2[i].distance, xor_bytes(a.node.id, item)));
                lemma_lex_asymmetric(a.distance, b.distance);
            }
        } else {
            if lists_node(r1, b.node) {
                let j = choose|j: int| 0 <= j < r1.len() && #[trigger] r1[j].node == b.node;
                assert(r1[j].distance == b.distance);
                if j < i {
                    assert(r1[j] == r2[j]);
                    assert(lex_lt(r2[j].distance, r2[i].distance));
                    lemma_lex_irreflexive(b.distance);
                } else if j == i {
                } else {
                    assert(lex_lt(r1[i].distance, r1[j].distance));
                    lemma_lex_asymmetric(b.distance, a.distance);
                }
            } else {
                assert(lex_lt(r1[i].distance, xor_bytes(b.node.id, item)));
                lemma_lex_asymmetric(b.distance, a.distance);
            }
        }
    }
    lemma_xor_injective(a.node.id, b.node.id, item);
}

proof fn lemma_closest_agree_below(
    entries: Seq<NodeView>,
    item: Seq<u8>,
    c1: nat,
    c2: nat,
    r1: Seq<KnownNodeView>,
    r2: Seq<KnownNodeView>,
    i: int,
)
    requires
        distinct_ids(entries),
        item.len() == KEY_LEN,
        c1 <= c2,
        closest_to(entries, item, c1, r1),
        closest_to(entries, item, c2, r2),
        0 <= i <= r1.len(),
    ensures
        forall|j: int| 0 <= j < i ==> r1[j] == r2[j],
    decreases i,
{
    if i > 0 {
        lemma_closest_agree_below(entries, item, c1, c2, r1, r2, i - 1);
        lemma_closest_agree_at(entries, item, c1, c2, r1, r2, i - 1);
    }
}

/// The closest entries of a list of nodes with distinct identifiers are one
/// list cut to length: the answer for a smaller count is a prefix of the
/// answer for a larger one.
pub proof fn law_closest_prefix(
    entries: Seq<NodeView>,
    item: Seq<u8>,
    c1: nat,
    c2: nat,
    r1: Seq<KnownNodeView>,
    r2: Seq<KnownNodeView>,
)
    requires
        distinct_ids(entries),
        item.len() == KEY_LEN,
        c1 <= c2,
        closest_to(entries, item, c1, r1),
        closest_to(entries, item, c2, r2),
    ensures
        r1.len() <= r2.len(),
        r1 == r2.take(r1.len() as int),
{
    lemma_closest_agree_below(entries, item, c1, c2, r1, r2, r1.len() as int);
    assert(r1 =~= r2.take(r1.len() as int));
}

/// The nodes of a well-formed table have `KEY_LEN`-byte identifiers, one node
/// per identifier, so `law_closest_prefix` applies to every table.
pub proof fn law_table_entries_distinct(t: RoutingTable)
    requires
        t.wf(),
    ensures
        distinct_ids(t.entries()),
{
    let v = t@;
    lemma_prefix_entries(v, t.self_node().id, v.len() as int);
    assert(v.take(v.len() as int) =~= v);
    let f = v.flatten();
    assert(t.entries() == f);
    assert forall|n: NodeView| f.contains(n) implies #[trigger] n.id.len() == KEY_LEN by {
        let i = choose|i: int| 0 <= i < f.len() && f[i] == n;
        assert(f[i].id.len() == KEY_LEN);
    }
    assert forall|n1: NodeView, n2: NodeView|
        f.contains(n1) && f.contains(n2) && n1.id == n2.id implies n1 == n2 by {
        let i = choose|i: int| 0 <= i < f.len() && f[i] == n1;
        let j = choose|j: int| 0 <= j < f.len() && f[j] == n2;
        if i != j {
            assert(f[i].id != f[j].id);
        }
    }
}

proof fn lemma_flatten_update_len<A>(t: Seq<Seq<A>>, b: int, nb: Seq<A>)
    requires
        0 <= b < t.len(),
    ensures
        t.update(b, nb).flatten().len() == t.flatten().len() - t[b].len() + nb.len(),
    decreases t.len(),
{
    let u = t.update(b, nb);
    if b == 0 {
        assert(u.drop_first() =~= t.drop_first());
    } else {
        assert(u.drop_first() =~= t.drop_first().update(b - 1, nb));
        lemma_flatten_update_len(t.drop_first(), b - 1, nb);
    }
}

/// Seeing a node keeps every bucket well formed (within capacity, in place,
/// no identifier twice), never drops a node, and adds at most one.
pub proof fn law_update_bounds(t: Seq<Seq<NodeView>>, self_id: Seq<u8>, node: NodeView)
    requires
        t.len() == N_BUCKETS,
        forall|b: int| 0 <= b < t.len() ==> #[trigger] bucket_ok(t[b], self_id, b),
        node.id.len() == KEY_LEN,
    ensures
        forall|b: int|
            0 <= b < t.len() ==> #[trigger] bucket_ok(after_update(t, self_id, node)[b], self_id, b),
        t.flatten().len() <= after_update(t, self_id, node).flatten().len(),
        after_update(t, self_id, node).flatten().len() <= t.flatten().len() + 1,
{
    let b0 = bucket_for(self_id, node.id);
    let ob = t[b0];
    let nb = updated_bucket(ob, node);
    assert(bucket_ok(ob, self_id, b0));
    lemma_updated_bucket_ok(ob, node, self_id, b0);
    assert forall|b: int| 0 <= b < t.len() implies #[trigger] bucket_ok(
        after_update(t, self_id, node)[b],
        self_id,
        b,
    ) by {
        if b != b0 {
            assert(after_update(t, self_id, node)[b] == t[b]);
        }
    }
    lemma_flatten_update_len(t, b0, nb);
    if holds_id(ob, node.id) {
        let i = choose|i: int| 0 <= i < ob.len() && #[trigger] ob[i].id == node.id;
        assert(nb.len() == ob.len());
    }
}

/// Removing a record takes out exactly that record: the bucket it belongs in
/// keeps every other record, in order, and the other buckets are untouched.
pub proof fn law_remove_takes_out_exactly(t: Seq<Seq<NodeView>>, self_id: Seq<u8>, n: NodeView)
    requires
        0 <= bucket_for(self_id, n.id) < t.len(),
        t[bucket_for(self_id, n.id)].no_duplicates(),
    ensures
        after_remove(t, self_id, n).len() == t.len(),
        forall|c: int|
            0 <= c < t.len() && c != bucket_for(self_id, n.id) ==> #[trigger] after_remove(
                t,
                self_id,
                n,
            )[c] == t[c],
        after_remove(t, self_id, n)[bucket_for(self_id, n.id)] == t[bucket_for(
            self_id,
            n.id,
        )].filter(|x: NodeView| x != n),
        t[bucket_for(self_id, n.id)].contains(n) ==> {
            &&& after_remove(t, self_id, n)[bucket_for(self_id, n.id)].len() + 1 == t[bucket_for(
                self_id,
                n.id,
            )].len()
            &&& after_remove(t, self_id, n)[bucket_for(self_id, n.id)].to_multiset() == t[bucket_for(
                self_id,
                n.id,
            )].to_multiset().remove(n)
        },
        !t[bucket_for(self_id, n.id)].contains(n) ==> after_remove(t, self_id, n) == t,
{
    let b = bucket_for(self_id, n.id);
    let ob = t[b];
    let p = |x: NodeView| x != n;
    ob.index_of_first_ensures(n);
    match ob.index_of_first(n) {
        Some(i) => {
            assert forall|j: int| 0 <= j < ob.len() && j != i implies p(#[trigger] ob[j]) by {
                assert(ob[j] != ob[i]);
            }
            lemma_filter_drops_one(ob, p, i);
            to_multiset_remove(ob, i);
            assert(removed_from(ob, n) == ob.remove(i));
        },
        None => {
            assert forall|j: int| 0 <= j < ob.len() implies p(#[trigger] ob[j]) by {
                if ob[j] == n {
                    assert(ob.contains(n));
                }
            }
            lemma_filter_keeps_all(ob, p);
            assert(removed_from(ob, n) == ob);
            assert(after_remove(t, self_id, n) =~= t);
        },
    }
}

/// Seeing a node changes only its bucket. A node whose identifier the
/// bucket holds keeps its stored record, which moves to the tail while the
/// other records keep their order; a new node is appended while the bucket
/// has room; a new node whose bucket is full leaves the table unchanged.
pub proof fn law_update_exactly(t: Seq<Seq<NodeView>>, self_id: Seq<u8>, node: NodeView)
    requires
        0 <= bucket_for(self_id, node.id) < t.len(),
        forall|i: int, j: int|
            0 <= i < t[bucket_for(self_id, node.id)].len() && 0 <= j < t[bucket_for(
                self_id,
                node.id,
            )].len() && i != j ==> (#[trigger] t[bucket_for(self_id, node.id)][i]).id != (
            #[trigger] t[bucket_for(self_id, node.id)][j]).id,
    ensures
        after_update(t, self_id, node).len() == t.len(),
        forall|c: int|
            0 <= c < t.len() && c != bucket_for(self_id, node.id) ==> #[trigger] after_update(
                t,
                self_id,
                node,
            )[c] == t[c],
        holds_id(t[bucket_for(self_id, node.id)], node.id) ==> {
            let ob = t[bucket_for(self_id, node.id)];
            let nb = after_update(t, self_id, node)[bucket_for(self_id, node.id)];
            &&& nb.len() == ob.len()
            &&& nb.last().id == node.id
            &&& ob.contains(nb.last())
            &&& nb.drop_last() == ob.filter(|x: NodeView| x.id != node.id)
            &&& nb.to_multiset() == ob.to_multiset()
        },
        !holds_id(t[bucket_for(self_id, node.id)], node.id) && t[bucket_for(
            self_id,
            node.id,
        )].len() < K_ENTRIES_PER_BUCKET ==> after_update(t, self_id, node)[bucket_for(
            self_id,
            node.id,
        )] == t[bucket_for(self_id, node.id)].push(node),
        !holds_id(t[bucket_for(self_id, node.id)], node.id) && t[bucket_for(
            self_id,
            node.id,
        )].len() >= K_ENTRIES_PER_BUCKET ==> after_update(t, self_id, node) == t,
{
    let b = bucket_for(self_id, node.id);
    let ob = t[b];
    if holds_id(ob, node.id) {
        let i = choose|i: int| 0 <= i < ob.len() && #[trigger] ob[i].id == node.id;
        let nb = after_update(t, self_id, node)[b];
        assert(nb == ob.remove(i).push(ob[i]));
        let p = |x: NodeView| x.id != node.id;
        assert forall|j: int| 0 <= j < ob.len() && j != i implies p(#[trigger] ob[j]) by {
            assert(ob[j].id != ob[i].id);
        }
        lemma_filter_drops_one(ob, p, i);
        assert(nb.drop_last() =~= ob.remove(i));
        assert(ob.contains(ob[i]));
        to_multiset_remove(ob, i);
        ob.remove(i).to_multiset_ensures();
        ob.to_multiset_ensures();
        assert(nb.to_multiset() =~= ob.to_multiset());
    } else if ob.len() >= K_ENTRIES_PER_BUCKET {
        assert(after_update(t, self_id, node) =~= t);
    }
}

} // verus!
