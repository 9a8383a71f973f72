use vstd::prelude::*;
use crate::key::{hashed_key, Key};
use crate::closeness::{ascending, index_of_closest, sort_by_distance, ByDistance};
use crate::key::lex_lt;
use crate::pairs::{
    has_key, keys_distinct, lemma_pairs_map_at, lemma_pairs_push, lemma_pairs_remove,
    lemma_pairs_replace, pairs_map,
};
use crate::routing::{
    after_remove, after_update, closest_to, known_views, KnownNode, KnownNodeView, Node, NodeView,
    RoutingTable, K_ENTRIES_PER_BUCKET,
};

verus! {

pub const A_CONCURRENT_REQUESTS: usize = 3;

/// A request from one node to another.
pub enum Request {
    Ping,
    Store(String, String),
    FindNode(Key),
    FindValue(String),
}

/// The answer to a `FindValue` request: the value, or the closest nodes known.
pub enum FindValueResult {
    Nodes(Vec<KnownNode>),
    Value(String),
}

/// The contents of a `FindValueResult`.
pub enum FindValueResultView {
    Nodes(Seq<KnownNodeView>),
    Value(Seq<char>),
}

impl View for FindValueResult {
    type V = FindValueResultView;

    open spec fn view(&self) -> FindValueResultView {
        match self {
            FindValueResult::Nodes(v) => FindValueResultView::Nodes(known_views(v@)),
            FindValueResult::Value(s) => FindValueResultView::Value(s@),
        }
    }
}

/// The reply to a `Request`.
pub enum Reply {
    Ping,
    FindNode(Vec<KnownNode>),
    FindValue(FindValueResult),
}

// ---------------------------------------------------------------------------
// The key-value store of a node.
// ---------------------------------------------------------------------------

/// The texts of a list of key-value pairs.
pub open spec fn pair_views(s: Seq<(String, String)>) -> Seq<(Seq<char>, Seq<char>)> {
    s.map_values(|p: (String, String)| (p.0@, p.1@))
}

/// The values a node stores, by key.
pub struct ValueStore {
    entries: Vec<(String, String)>,
}

impl View for ValueStore {
    type V = Map<Seq<char>, Seq<char>>;

    closed spec fn view(&self) -> Map<Seq<char>, Seq<char>> {
        pairs_map(pair_views(self.entries@))
    }
}

impl ValueStore {
    /// The store's invariant: no key is stored twice.
    pub closed spec fn wf(&self) -> bool {
        keys_distinct(pair_views(self.entries@))
    }

    pub fn new() -> (s: ValueStore)
        ensures
            s.wf(),
            s@ == Map::<Seq<char>, Seq<char>>::empty(),
    {
        let s = ValueStore { entries: Vec::new() };
        assert(s@ =~= Map::<Seq<char>, Seq<char>>::empty());
        s
    }

    fn index_of_key(&self, k: &String) -> (r: Option<usize>)
        ensures
            match r {
                Some(i) => i < self.entries@.len() && pair_views(self.entries@)[i as int].0 == k@,
                None => !has_key(pair_views(self.entries@), k@),
            },
    {
        let n = self.entries.len();
        for i in 0..n
            invariant
                n == self.entries@.len(),
                forall|j: int| 0 <= j < i ==> (#[trigger] pair_views(self.entries@)[j]).0 != k@,
        {
            if self.entries[i].0 == *k {
                return Some(i);
            }
        }
        None
    }

    /// Stores `v` under `k`, and returns the value `k` had before, if any.
    pub fn insert(&mut self, k: String, v: String) -> (r: Option<String>)
        requires
            old(self).wf(),
        ensures
            final(self).wf(),
            final(self)@ == old(self)@.insert(k@, v@),
            match r {
                Some(o) => old(self)@.contains_key(k@) && o@ == old(self)@[k@],
                None => !old(self)@.contains_key(k@),
            },
    {
        let ghost p = pair_views(self.entries@);
        let ghost kv = k@;
        let ghost vv = v@;
        match self.index_of_key(&k) {
            Some(i) => {
                let (_old_k, old_v) = self.entries.remove(i);
                self.entries.push((k, v));
                proof {
                    assert(pair_views(self.entries@) =~= p.remove(i as int).push((kv, vv)));
                    lemma_pairs_map_at(p, i as int);
                    lemma_pairs_replace(p, i as int, vv);
                }
                Some(old_v)
            },
            None => {
                self.entries.push((k, v));
                proof {
                    assert(pair_views(self.entries@) =~= p.push((kv, vv)));
                    lemma_pairs_push(p, kv, vv);
                }
                None
            },
        }
    }

    /// Takes the value stored under `k` out of the store.
    pub fn remove(&mut self, k: &String) -> (r: Option<String>)
        requires
            old(self).wf(),
        ensures
            final(self).wf(),
            final(self)@ == old(self)@.remove(k@),
            match r {
                Some(o) => old(self)@.contains_key(k@) && o@ == old(self)@[k@],
                None => !old(self)@.contains_key(k@),
            },
    {
        let ghost p = pair_views(self.entries@);
        let ghost kv = k@;
        match self.index_of_key(k) {
            Some(i) => {
                let (_old_k, old_v) = self.entries.remove(i);
                proof {
                    assert(pair_views(self.entries@) =~= p.remove(i as int));
                    lemma_pairs_map_at(p, i as int);
                    lemma_pairs_remove(p, i as int);
                }
                Some(old_v)
            },
            None => {
                proof {
                    assert(pairs_map(p).remove(kv) =~= pairs_map(p));
                }
                None
            },
        }
    }
}

// ---------------------------------------------------------------------------
// Serving requests and reading replies.
// ---------------------------------------------------------------------------

/// The store after serving `req`: `Store` writes the pair, `FindValue` takes
/// the value out (if there is one), other requests leave it as it was.
pub open spec fn store_effect(m: Map<Seq<char>, Seq<char>>, req: Request) -> Map<
    Seq<char>,
    Seq<char>,
> {
    match req {
        Request::Store(k, v) => m.insert(k@, v@),
        Request::FindValue(k) => m.remove(k@),
        _ => m,
    }
}

/// The value that a `FindValue` request finds in the store `m`, if any.
pub open spec fn found_value(m: Map<Seq<char>, Seq<char>>, req: Request) -> Option<Seq<char>> {
    match req {
        Request::FindValue(k) => if m.contains_key(k@) {
            Some(m[k@])
        } else {
            None
        },
        _ => None,
    }
}

/// The routing table a node starts with: its own record, then the bootstrap
/// node when one is given.
pub fn initial_routes(node_info: Node, bootstrap: Option<Node>) -> (t: RoutingTable)
    ensures
        t.wf(),
        t.self_node() == node_info@,
        ({
            let fresh = RoutingTable::fresh_buckets(node_info@);
            match bootstrap {
                Some(b) => t@ == after_update(fresh, node_info@.id, b@),
                None => t@ == fresh,
            }
        }),
{
    let mut routes = RoutingTable::new(node_info);
    if let Some(bootstrap) = bootstrap {
        routes.update(bootstrap);
    }
    routes
}

/// Serves a request that came from `src`: the sender is recorded in the
/// routing table first, then the request is answered from the store and the
/// table.
pub fn handle_req(
    routes: &mut RoutingTable,
    store: &mut ValueStore,
    req: Request,
    src: Node,
) -> (rep: Reply)
    requires
        old(routes).wf(),
        old(store).wf(),
    ensures
        final(routes).wf(),
        final(store).wf(),
        final(routes).self_node() == old(routes).self_node(),
        final(routes)@ == after_update(old(routes)@, old(routes).self_node().id, src@),
        final(store)@ == store_effect(old(store)@, req),
        match req {
            Request::Ping => rep is Ping,
            Request::Store(_, _) => rep is Ping,
            Request::FindNode(id) => rep matches Reply::FindNode(ns) && closest_to(
                final(routes).entries(),
                id@,
                K_ENTRIES_PER_BUCKET as nat,
                known_views(ns@),
            ),
            Request::FindValue(k) => match found_value(old(store)@, req) {
                Some(v) => rep matches Reply::FindValue(FindValueResult::Value(x)) && x@ == v,
                None => rep matches Reply::FindValue(FindValueResult::Nodes(ns)) && closest_to(
                    final(routes).entries(),
                    hashed_key(k@),
                    K_ENTRIES_PER_BUCKET as nat,
                    known_views(ns@),
                ),
            },
        },
{
    routes.update(src);
    match req {
        Request::Ping => Reply::Ping,
        Request::Store(k, v) => {
            store.insert(k, v);

            Reply::Ping
        },
        Request::FindNode(id) => { Reply::FindNode(routes.closest_nodes(id, K_ENTRIES_PER_BUCKET)) },
        Request::FindValue(k) => {
            let hash = Key::hash(k.clone());

            let lookup_res = store.remove(&k);

            match lookup_res {
                Some(v) => Reply::FindValue(FindValueResult::Value(v)),
                None => {
                    Reply::FindValue(
                        FindValueResult::Nodes(routes.closest_nodes(hash, K_ENTRIES_PER_BUCKET)),
                    )
                },
            }
        },
    }
}

/// Acts on the reply to a `Ping` sent to `dst`: a `Ping` reply records `dst`
/// in the table, anything else (or no reply) drops it.
pub fn record_ping_reply(routes: &mut RoutingTable, dst: Node, rep: Option<Reply>) -> (r: Option<
    (),
>)
    requires
        old(routes).wf(),
    ensures
        final(routes).wf(),
        final(routes).self_node() == old(routes).self_node(),
        if rep matches Some(Reply::Ping) {
            r is Some && final(routes)@ == after_update(
                old(routes)@,
                old(routes).self_node().id,
                dst@,
            )
        } else {
            r is None && final(routes)@ == after_remove(
                old(routes)@,
                old(routes).self_node().id,
                dst@,
            )
        },
{
    if let Some(Reply::Ping) = rep {
        routes.update(dst);
        Some(())
    } else {
        routes.remove(&dst);
        None
    }
}

/// Acts on the reply to a `Store` sent to `dst`: a `Ping` reply records `dst`
/// in the table, anything else (or no reply) drops it.
pub fn record_store_reply(routes: &mut RoutingTable, dst: Node, rep: Option<Reply>) -> (r: Option<
    (),
>)
    requires
        old(routes).wf(),
    ensures
        final(routes).wf(),
        final(routes).self_node() == old(routes).self_node(),
        if rep matches Some(Reply::Ping) {
            r is Some && final(routes)@ == after_update(
                old(routes)@,
                old(routes).self_node().id,
                dst@,
            )
        } else {
            r is None && final(routes)@ == after_remove(
                old(routes)@,
                old(routes).self_node().id,
                dst@,
            )
        },
{
    if let Some(Reply::Ping) = rep {
        routes.update(dst);
        Some(())
    } else {
        routes.remove(&dst);
        None
    }
}

/// Acts on the reply to a `FindNode` sent to `dst`: a `FindNode` reply records
/// `dst` and hands its entries back, anything else drops `dst`.
pub fn record_find_node_reply(
    routes: &mut RoutingTable,
    dst: Node,
    rep: Option<Reply>,
) -> (r: Option<Vec<KnownNode>>)
    requires
        old(routes).wf(),
    ensures
        final(routes).wf(),
        final(routes).self_node() == old(routes).self_node(),
        match rep {
            Some(Reply::FindNode(entries)) => r == Some(entries) && final(routes)@ == after_update(
                old(routes)@,
                old(routes).self_node().id,
                dst@,
            ),
            _ => r is None && final(routes)@ == after_remove(
                old(routes)@,
                old(routes).self_node().id,
                dst@,
            ),
        },
{
    if let Some(Reply::FindNode(entries)) = rep {
        routes.update(dst);
        Some(entries)
    } else {
        routes.remove(&dst);
        None
    }
}

/// Acts on the reply to a `FindValue` sent to `dst`: a `FindValue` reply
/// records `dst` and hands its result back, anything else drops `dst`.
pub fn record_find_value_reply(
    routes: &mut RoutingTable,
    dst: Node,
    rep: Option<Reply>,
) -> (r: Option<FindValueResult>)
    requires
        old(routes).wf(),
    ensures
        final(routes).wf(),
        final(routes).self_node() == old(routes).self_node(),
        match rep {
            Some(Reply::FindValue(res)) => r == Some(res) && final(routes)@ == after_update(
                old(routes)@,
                old(routes).self_node().id,
                dst@,
            ),
            _ => r is None && final(routes)@ == after_remove(
                old(routes)@,
                old(routes).self_node().id,
                dst@,
            ),
        },
{
    if let Some(Reply::FindValue(res)) = rep {
        routes.update(dst);
        Some(res)
    } else {
        routes.remove(&dst);
        None
    }
}

/// The node where a value that a lookup found is cached: the last node of the
/// lookup's result, or the node itself when the result is empty.
pub fn cache_target(mut nodes: Vec<KnownNode>, self_info: &Node) -> (t: Node)
    ensures
        nodes@.len() > 0 ==> t@ == nodes@.last()@.node,
        nodes@.len() == 0 ==> t@ == self_info@,
{
    if let Some(KnownNode { node: store_target, .. }) = nodes.pop() {
        store_target
    } else {
        self_info.clone()
    }
}

// ---------------------------------------------------------------------------
// Iterative lookups.
// ---------------------------------------------------------------------------

/// The state of an iterative lookup for a key: the entries still to be
/// queried (closest first), every entry ever queued, and the entries whose
/// query was answered.
pub struct Lookup {
    to_query: Vec<KnownNode>,
    queried: Vec<KnownNode>,
    found: Vec<KnownNode>,
}

/// The contents of a `Lookup`.
pub struct LookupView {
    pub to_query: Seq<KnownNodeView>,
    pub queried: Seq<KnownNodeView>,
    pub found: Seq<KnownNodeView>,
}

impl View for Lookup {
    type V = LookupView;

    closed spec fn view(&self) -> LookupView {
        LookupView {
            to_query: known_views(self.to_query@),
            queried: known_views(self.queried@),
            found: known_views(self.found@),
        }
    }
}

/// The lookup after the node of entry `query` answered with `entries`: the
/// query counts as found, and each entry not queued before is queued once,
/// in the order of the answer.
pub open spec fn absorbed(s: LookupView, query: KnownNodeView, entries: Seq<KnownNodeView>) -> LookupView {
    LookupView {
        to_query: s.to_query + entries.remove_duplicates(s.queried).skip(s.queried.len() as int),
        queried: entries.remove_duplicates(s.queried),
        found: seq![query].remove_duplicates(s.found),
    }
}

/// The answers to `FindNode` queries, as entry lists.
pub open spec fn node_reply_views(rs: Seq<Option<Vec<KnownNode>>>) -> Seq<Option<Seq<KnownNodeView>>> {
    rs.map_values(
        |o: Option<Vec<KnownNode>>|
            match o {
                Some(v) => Some(known_views(v@)),
                None => None,
            },
    )
}

/// The answers to `FindValue` queries.
pub open spec fn value_reply_views(rs: Seq<Option<FindValueResult>>) -> Seq<Option<FindValueResultView>> {
    rs.map_values(
        |o: Option<FindValueResult>|
            match o {
                Some(v) => Some(v@),
                None => None,
            },
    )
}

/// The lookup after the first `n` answers to `FindNode` queries (a missing
/// answer changes nothing).
pub open spec fn after_node_replies(
    s: LookupView,
    qs: Seq<KnownNodeView>,
    rs: Seq<Option<Seq<KnownNodeView>>>,
    n: nat,
) -> LookupView
    decreases n,
{
    if n == 0 {
        s
    } else {
        let p = after_node_replies(s, qs, rs, (n - 1) as nat);
        match rs[n - 1] {
            Some(es) => absorbed(p, qs[n - 1], es),
            None => p,
        }
    }
}

/// The lookup after the first `n` answers to `FindValue` queries, none of
/// which is a value (only node lists change it).
pub open spec fn after_value_replies(
    s: LookupView,
    qs: Seq<KnownNodeView>,
    rs: Seq<Option<FindValueResultView>>,
    n: nat,
) -> LookupView
    decreases n,
{
    if n == 0 {
        s
    } else {
        let p = after_value_replies(s, qs, rs, (n - 1) as nat);
        match rs[n - 1] {
            Some(FindValueResultView::Nodes(es)) => absorbed(p, qs[n - 1], es),
            _ => p,
        }
    }
}

/// Index of the first answer in `i..n` that is a value (`n` if none is).
pub open spec fn first_value(rs: Seq<Option<FindValueResultView>>, i: int, n: int) -> int
    decreases n - i,
{
    if i >= n {
        n
    } else if rs[i] matches Some(FindValueResultView::Value(_)) {
        i
    } else {
        first_value(rs, i + 1, n)
    }
}

proof fn lemma_first_value_skip(rs: Seq<Option<FindValueResultView>>, j: int, i: int, n: int)
    requires
        0 <= j <= i <= n,
        forall|k: int| j <= k < i ==> !(#[trigger] rs[k] matches Some(FindValueResultView::Value(_))),
    ensures
        first_value(rs, j, n) == first_value(rs, i, n),
    decreases i - j,
{
    if j < i {
        lemma_first_value_skip(rs, j + 1, i, n);
    }
}

/// Adds `e` to a list used as a set of entries; returns whether it was new.
fn insert_entry(set: &mut Vec<KnownNode>, e: &KnownNode) -> (fresh: bool)
    ensures
        fresh == !known_views(old(set)@).contains(e@),
        known_views(final(set)@) == if fresh {
            known_views(old(set)@).push(e@)
        } else {
            known_views(old(set)@)
        },
{
    let n = set.len();
    for i in 0..n
        invariant
            n == set@.len(),
            set@ == old(set)@,
            forall|j: int| 0 <= j < i ==> (#[trigger] set@[j])@ != e@,
    {
        if set[i].same_entry(e) {
            proof {
                assert(known_views(set@)[i as int] == e@);
            }
            return false;
        }
    }
    proof {
        assert forall|j: int| 0 <= j < known_views(set@).len() implies #[trigger] known_views(
            set@,
        )[j] != e@ by {
            assert(known_views(set@)[j] == set@[j]@);
        }
    }
    let ghost before = set@;
    set.push(e.clone());
    proof {
        assert(known_views(set@) =~= known_views(before).push(e@));
    }
    true
}

/// Adding a value to a list through `remove_duplicates` appends it exactly
/// when the list does not hold it.
proof fn lemma_remove_duplicates_step<A>(s: Seq<A>, seen: Seq<A>, x: A)
    ensures
        s.remove_duplicates(seen).contains(x) ==> (s + seq![x]).remove_duplicates(seen)
            == s.remove_duplicates(seen),
        !s.remove_duplicates(seen).contains(x) ==> (s + seq![x]).remove_duplicates(seen)
            == s.remove_duplicates(seen) + seq![x],
{
    s.lemma_remove_duplicates_properties(seen);
    s.lemma_remove_duplicates_append(x, seen);
}

impl Lookup {
    /// The lookup's invariant: nothing is queued or found twice, and every
    /// entry waiting to be queried was queued.
    pub open spec fn wf(&self) -> bool {
        &&& self@.queried.no_duplicates()
        &&& self@.found.no_duplicates()
        &&& forall|i: int|
            0 <= i < self@.to_query.len() ==> self@.queried.contains(#[trigger] self@.to_query[i])
    }

    /// A lookup that starts from the given entries.
    pub fn new(start: Vec<KnownNode>) -> (l: Lookup)
        ensures
            l.wf(),
            l@.to_query == known_views(start@),
            l@.queried == known_views(start@).remove_duplicates(Seq::empty()),
            l@.found == Seq::<KnownNodeView>::empty(),
    {
        let to_query = start;
        let mut queried: Vec<KnownNode> = Vec::new();
        let ghost tq = known_views(to_query@);
        let n = to_query.len();
        proof {
            assert(tq.take(0) =~= Seq::<KnownNodeView>::empty());
            assert(known_views(queried@) =~= tq.take(0).remove_duplicates(Seq::empty()));
        }
        for i in 0..n
            invariant
                n == to_query@.len(),
                tq == known_views(to_query@),
                known_views(queried@) == tq.take(i as int).remove_duplicates(Seq::empty()),
                known_views(queried@).no_duplicates(),
                forall|j: int| 0 <= j < i ==> known_views(queried@).contains(#[trigger] tq[j]),
        {
            let ghost before = known_views(queried@);
            let _ = insert_entry(&mut queried, &to_query[i]);
            proof {
                let x = tq[i as int];
                assert(to_query@[i as int]@ == x);
                assert(tq.take(i + 1) =~= tq.take(i as int) + seq![x]);
                lemma_remove_duplicates_step(tq.take(i as int), Seq::empty(), x);
                assert forall|j: int| 0 <= j < i + 1 implies known_views(queried@).contains(
                    #[trigger] tq[j],
                ) by {
                    if j < i {
                        let k = choose|k: int| 0 <= k < before.len() && before[k] == tq[j];
                        assert(known_views(queried@)[k] == tq[j]);
                    } else if before.contains(x) {
                    } else {
                        assert(known_views(queried@)[before.len() as int] == x);
                    }
                }
            }
        }
        proof {
            assert(tq.take(n as int) =~= tq);
        }
        Lookup { to_query, queried, found: Vec::new() }
    }

    /// Whether no entry is left to query.
    pub fn is_done(&self) -> (r: bool)
        ensures
            r == (self@.to_query.len() == 0),
    {
        self.to_query.len() == 0
    }

    /// Takes the next entries to query: up to `A_CONCURRENT_REQUESTS`
    /// entries, closest first, such that no entry left behind is closer.
    pub fn next_queries(&mut self) -> (batch: Vec<KnownNode>)
        requires
            old(self).wf(),
        ensures
            final(self).wf(),
            final(self)@.queried == old(self)@.queried,
            final(self)@.found == old(self)@.found,
            batch@.len() == if old(self)@.to_query.len() < A_CONCURRENT_REQUESTS {
                old(self)@.to_query.len()
            } else {
                A_CONCURRENT_REQUESTS as nat
            },
            (known_views(batch@) + final(self)@.to_query).to_multiset()
                == old(self)@.to_query.to_multiset(),
            ascending(batch@),
            forall|i: int, k: int|
                0 <= i < batch@.len() && 0 <= k < final(self)@.to_query.len() ==> !lex_lt(
                    (#[trigger] final(self)@.to_query[k]).distance,
                    (#[trigger] batch@[i])@.distance,
                ),
    {
        broadcast use vstd::seq_lib::group_to_multiset_ensures;

        let ghost orig = self@.to_query;
        let mut queries: Vec<KnownNode> = Vec::new();
        let mut n: usize = 0;
        proof {
            assert(known_views(queries@) + self@.to_query =~= orig);
        }
        while n < A_CONCURRENT_REQUESTS && self.to_query.len() > 0
            invariant
                n <= A_CONCURRENT_REQUESTS,
                queries@.len() == n,
                n + self@.to_query.len() == orig.len(),
                self@.queried == old(self)@.queried,
                self@.found == old(self)@.found,
                self.wf(),
                (known_views(queries@) + self@.to_query).to_multiset() == orig.to_multiset(),
                ascending(queries@),
                forall|i: int, k: int|
                    0 <= i < queries@.len() && 0 <= k < self@.to_query.len() ==> !lex_lt(
                        (#[trigger] self@.to_query[k]).distance,
                        (#[trigger] queries@[i])@.distance,
                    ),
            decreases A_CONCURRENT_REQUESTS - n,
        {
            let m = index_of_closest(&self.to_query);
            let ghost before_q = queries@;
            let ghost before_t = self.to_query@;
            let entry = self.to_query.remove(m);
            queries.push(entry);
            n = n + 1;
            proof {
                let tv = known_views(before_t);
                assert(known_views(self.to_query@) =~= tv.remove(m as int));
                assert(known_views(queries@) =~= known_views(before_q).push(entry@));
                assert(entry@ == tv[m as int]);
                assert((known_views(queries@) + self@.to_query).to_multiset() =~= orig.to_multiset())
                    by {
                    broadcast use vstd::multiset::group_multiset_axioms;

                    vstd::seq_lib::lemma_multiset_commutative(
                        known_views(queries@),
                        self@.to_query,
                    );
                    vstd::seq_lib::lemma_multiset_commutative(known_views(before_q), tv);
                    vstd::seq_lib::to_multiset_build(known_views(before_q), entry@);
                    vstd::seq_lib::to_multiset_remove(tv, m as int);
                    vstd::seq_lib::to_multiset_contains(tv, entry@);
                    assert(tv.contains(entry@));
                }
                assert forall|k: int| 0 <= k < self@.to_query.len() implies !lex_lt(
                    (#[trigger] self@.to_query[k]).distance,
                    entry@.distance,
                ) by {
                    if k < m {
                        assert(self@.to_query[k] == tv[k]);
                        assert(before_t[k]@ == tv[k]);
                        assert(!lex_lt(before_t[k].rank(), before_t[m as int].rank()));
                    } else {
                        assert(self@.to_query[k] == tv[k + 1]);
                        assert(before_t[k + 1]@ == tv[k + 1]);
                        assert(!lex_lt(before_t[k + 1].rank(), before_t[m as int].rank()));
                    }
                }
                assert forall|i: int, k: int|
                    0 <= i < queries@.len() && 0 <= k < self@.to_query.len() implies !lex_lt(
                    (#[trigger] self@.to_query[k]).distance,
                    (#[trigger] queries@[i])@.distance,
                ) by {
                    if i < before_q.len() {
                        assert(queries@[i] == before_q[i]);
                        if k < m {
                            assert(self@.to_query[k] == tv[k]);
                        } else {
                            assert(self@.to_query[k] == tv[k + 1]);
                        }
                    }
                }
                assert forall|i: int, j: int| 0 <= i < j < queries@.len() implies !lex_lt(
                    (#[trigger] queries@[j]).rank(),
                    (#[trigger] queries@[i]).rank(),
                ) by {
                    assert(queries@[i] == before_q[i] || i == before_q.len());
                    if j < before_q.len() {
                        assert(queries@[i] == before_q[i]);
                        assert(queries@[j] == before_q[j]);
                    } else {
                        assert(queries@[i] == before_q[i]);
                        assert(tv[m as int] == entry@);
                    }
                }
                assert forall|i: int| 0 <= i < self@.to_query.len() implies self@.queried.contains(
                    #[trigger] self@.to_query[i],
                ) by {
                    if i < m {
                        assert(self@.to_query[i] == tv[i]);
                    } else {
                        assert(self@.to_query[i] == tv[i + 1]);
                    }
                }
            }
        }
        queries
    }
}

impl Lookup {
    /// Takes in the answer `entries` of the node of entry `query`.
    fn absorb(&mut self, query: &KnownNode, entries: &Vec<KnownNode>)
        requires
            old(self).wf(),
        ensures
            final(self).wf(),
            final(self)@ == absorbed(old(self)@, query@, known_views(entries@)),
    {
        let ghost s0 = self@;
        let ghost ev = known_views(entries@);
        let ghost q0 = s0.queried;
        let _ = insert_entry(&mut self.found, query);
        proof {
            lemma_remove_duplicates_step(Seq::<KnownNodeView>::empty(), s0.found, query@);
            assert(Seq::<KnownNodeView>::empty().remove_duplicates(s0.found) == s0.found);
            assert(Seq::<KnownNodeView>::empty() + seq![query@] =~= seq![query@]);
            assert(self@.found == seq![query@].remove_duplicates(s0.found));
            assert(self@.found.no_duplicates()) by {
                if !s0.found.contains(query@) {
                    assert forall|a: int, b: int|
                        0 <= a < self@.found.len() && 0 <= b < self@.found.len() && a != b implies
                        self@.found[a] != self@.found[b] by {
                        if a < s0.found.len() && b < s0.found.len() {
                        } else if a < s0.found.len() {
                            assert(s0.found[a] == self@.found[a]);
                        } else {
                            assert(s0.found[b] == self@.found[b]);
                        }
                    }
                }
            }
            assert(ev.take(0) =~= Seq::<KnownNodeView>::empty());
        }
        let n = entries.len();
        for i in 0..n
            invariant
                n == entries@.len(),
                ev == known_views(entries@),
                self@.found == seq![query@].remove_duplicates(s0.found),
                self@.found.no_duplicates(),
                self@.queried == ev.take(i as int).remove_duplicates(q0),
                self@.queried.no_duplicates(),
                self@.queried.len() >= q0.len(),
                self@.queried.take(q0.len() as int) == q0,
                self@.to_query == s0.to_query + self@.queried.skip(q0.len() as int),
                forall|j: int| 0 <= j < s0.to_query.len() ==> q0.contains(#[trigger] s0.to_query[j]),
        {
            let ghost bq = self@.queried;
            let ghost bt = self@.to_query;
            let entry = &entries[i];
            proof {
                assert(entry@ == ev[i as int]);
                assert(ev.take(i + 1) =~= ev.take(i as int) + seq![entry@]);
                lemma_remove_duplicates_step(ev.take(i as int), q0, entry@);
            }
            if insert_entry(&mut self.queried, entry) {
                self.to_query.push(entry.clone());
                proof {
                    assert(self@.queried =~= bq.push(entry@));
                    assert(self@.queried.take(q0.len() as int) =~= bq.take(q0.len() as int));
                    assert(self@.queried.skip(q0.len() as int) =~= bq.skip(q0.len() as int).push(
                        entry@,
                    ));
                    assert(self@.to_query =~= bt.push(entry@));
                    assert forall|a: int, b: int|
                        0 <= a < self@.queried.len() && 0 <= b < self@.queried.len() && a != b implies
                        self@.queried[a] != self@.queried[b] by {
                        if a < bq.len() && b < bq.len() {
                        } else if a < bq.len() {
                            assert(bq[a] == self@.queried[a]);
                        } else {
                            assert(bq[b] == self@.queried[b]);
                        }
                    }
                }
            }
        }
        proof {
            assert(ev.take(n as int) =~= ev);
            assert forall|i: int| 0 <= i < self@.to_query.len() implies self@.queried.contains(
                #[trigger] self@.to_query[i],
            ) by {
                let qn = self@.queried;
                if i < s0.to_query.len() {
                    assert(self@.to_query[i] == s0.to_query[i]);
                    let k = choose|k: int| 0 <= k < q0.len() && q0[k] == s0.to_query[i];
                    assert(qn.take(q0.len() as int)[k] == qn[k]);
                } else {
                    let k = i - s0.to_query.len();
                    assert(self@.to_query[i] == qn.skip(q0.len() as int)[k]);
                    assert(qn[q0.len() + k] == self@.to_query[i]);
                }
            }
        }
    }

    /// Takes in the answers to the `FindNode` queries just sent: answer `i`
    /// belongs to query `i` (a missing answer changes nothing).
    pub fn record_nodes(&mut self, queries: Vec<KnownNode>, results: Vec<Option<Vec<KnownNode>>>)
        requires
            old(self).wf(),
        ensures
            final(self).wf(),
            final(self)@ == after_node_replies(
                old(self)@,
                known_views(queries@),
                node_reply_views(results@),
                if queries@.len() < results@.len() {
                    queries@.len()
                } else {
                    results@.len()
                },
            ),
    {
        let ghost s0 = self@;
        let ghost qs = known_views(queries@);
        let ghost rs = node_reply_views(results@);
        let n = if queries.len() < results.len() { queries.len() } else { results.len() };
        for i in 0..n
            invariant
                n <= queries@.len(),
                n <= results@.len(),
                qs == known_views(queries@),
                rs == node_reply_views(results@),
                self.wf(),
                self@ == after_node_replies(s0, qs, rs, i as nat),
        {
            proof {
                assert(qs[i as int] == queries@[i as int]@);
                assert(rs[i as int] == match results@[i as int] {
                    Some(v) => Some(known_views(v@)),
                    None => None,
                });
            }
            match &results[i] {
                Some(entries) => {
                    self.absorb(&queries[i], entries);
                },
                None => {},
            }
        }
    }

    /// Takes in the answers to the `FindValue` queries just sent, up to the
    /// first answer that is a value, and returns that value.
    pub fn record_values(
        &mut self,
        queries: Vec<KnownNode>,
        results: Vec<Option<FindValueResult>>,
    ) -> (v: Option<String>)
        requires
            old(self).wf(),
        ensures
            final(self).wf(),
            ({
                let qs = known_views(queries@);
                let rs = value_reply_views(results@);
                let n = if queries@.len() < results@.len() {
                    queries@.len() as int
                } else {
                    results@.len() as int
                };
                let m = first_value(rs, 0, n);
                &&& final(self)@ == after_value_replies(old(self)@, qs, rs, m as nat)
                &&& if m < n {
                    v matches Some(x) && rs[m] == Some(FindValueResultView::Value(x@))
                } else {
                    v is None
                }
            }),
    {
        let ghost s0 = self@;
        let ghost qs = known_views(queries@);
        let ghost rs = value_reply_views(results@);
        let n = if queries.len() < results.len() { queries.len() } else { results.len() };
        let mut value: Option<String> = None;
        let mut i: usize = 0;
        while i < n && value.is_none()
            invariant
                n <= queries@.len(),
                n <= results@.len(),
                i <= n,
                qs == known_views(queries@),
                rs == value_reply_views(results@),
                self.wf(),
                value is None ==> self@ == after_value_replies(s0, qs, rs, i as nat),
                value is None ==> forall|k: int|
                    0 <= k < i ==> !(#[trigger] rs[k] matches Some(FindValueResultView::Value(_))),
                value matches Some(x) ==> i > 0 && first_value(rs, 0, n as int) == i - 1
                    && rs[i - 1] == Some(FindValueResultView::Value(x@)) && self@
                    == after_value_replies(s0, qs, rs, (i - 1) as nat),
            decreases n - i,
        {
            proof {
                assert(qs[i as int] == queries@[i as int]@);
                assert(rs[i as int] == match results@[i as int] {
                    Some(v) => Some(v@),
                    None => None,
                });
            }
            match &results[i] {
                Some(FindValueResult::Nodes(entries)) => {
                    self.absorb(&queries[i], entries);
                },
                Some(FindValueResult::Value(val)) => {
                    let x = val.clone();
                    proof {
                        lemma_first_value_skip(rs, 0, i as int, n as int);
                        assert(rs[i as int] == Some(FindValueResultView::Value(val@)));
                        assert(first_value(rs, i as int, n as int) == i);
                    }
                    value = Some(x);
                },
                None => {},
            }
            i = i + 1;
        }
        proof {
            if value is None {
                lemma_first_value_skip(rs, 0, n as int, n as int);
                assert(first_value(rs, n as int, n as int) == n);
            }
        }
        value
    }

    /// The result of the lookup: the `K_ENTRIES_PER_BUCKET` closest of the
    /// entries whose query was answered, closest first.
    pub fn finish(&self) -> (r: Vec<KnownNode>)
        requires
            self.wf(),
        ensures
            r@.len() == if self@.found.len() < K_ENTRIES_PER_BUCKET {
                self@.found.len()
            } else {
                K_ENTRIES_PER_BUCKET as nat
            },
            known_views(r@).no_duplicates(),
            forall|i: int| 0 <= i < r@.len() ==> self@.found.contains(#[trigger] r@[i]@),
            ascending(r@),
            forall|x: KnownNodeView, i: int|
                self@.found.contains(x) && !known_views(r@).contains(x) && 0 <= i < r@.len()
                    ==> !lex_lt(#[trigger] x.distance, (#[trigger] r@[i])@.distance),
    {
        let ghost fv = self@.found;
        let mut all: Vec<KnownNode> = Vec::new();
        let n = self.found.len();
        for i in 0..n
            invariant
                n == self.found@.len(),
                fv == known_views(self.found@),
                all@.len() == i,
                forall|j: int| 0 <= j < i ==> (#[trigger] all@[j])@ == fv[j],
        {
            all.push(self.found[i].clone());
        }
        let ghost a = all@;
        let mut sorted = sort_by_distance(all);
        let ghost full = sorted@;
        sorted.truncate(K_ENTRIES_PER_BUCKET);
        proof {
            let c = if n < K_ENTRIES_PER_BUCKET { n as int } else { K_ENTRIES_PER_BUCKET as int };
            assert(sorted@ == full.take(c));
            assert(a.no_duplicates()) by {
                assert forall|p: int, q: int|
                    0 <= p < a.len() && 0 <= q < a.len() && p != q implies a[p] != a[q] by {
                    assert(a[p]@ == fv[p]);
                    assert(a[q]@ == fv[q]);
                }
            }
            assert forall|p: int| 0 <= p < full.len() implies exists|q: int|
                0 <= q < a.len() && #[trigger] a[q] == #[trigger] full[p] by {
                assert(full.contains(full[p]));
            }
            assert forall|i: int, j: int|
                0 <= i < known_views(sorted@).len() && 0 <= j < known_views(sorted@).len() && i
                    != j implies known_views(sorted@)[i] != known_views(sorted@)[j] by {
                let qi = choose|q: int| 0 <= q < a.len() && #[trigger] a[q] == full[i];
                let qj = choose|q: int| 0 <= q < a.len() && #[trigger] a[q] == full[j];
                assert(full[i] != full[j]);
                assert(known_views(sorted@)[i] == a[qi]@);
                assert(known_views(sorted@)[j] == a[qj]@);
                assert(a[qi]@ == fv[qi]);
                assert(a[qj]@ == fv[qj]);
            }
            assert forall|i: int| 0 <= i < sorted@.len() implies fv.contains(#[trigger] sorted@[i]@) by {
                let q = choose|q: int| 0 <= q < a.len() && #[trigger] a[q] == full[i];
                assert(a[q]@ == fv[q]);
            }
            assert forall|x: KnownNodeView, i: int|
                fv.contains(x) && !known_views(sorted@).contains(x) && 0 <= i < sorted@.len()
                    implies !lex_lt(#[trigger] x.distance, (#[trigger] sorted@[i])@.distance) by {
                let p = choose|p: int| 0 <= p < fv.len() && fv[p] == x;
                assert(a[p]@ == x);
                assert(a.contains(a[p]));
                let q = choose|q: int| 0 <= q < full.len() && full[q] == a[p];
                if q < c {
                    assert(known_views(sorted@)[q] == x);
                }
                assert(sorted@[i] == full[i]);
                assert(!lex_lt(full[q].rank(), full[i].rank()));
            }
        }
        sorted
    }
}

// ---------------------------------------------------------------------------
// Laws.
// ---------------------------------------------------------------------------

/// The store after serving `reqs` in their order of arrival.
pub open spec fn store_replay(m: Map<Seq<char>, Seq<char>>, reqs: Seq<Request>) -> Map<
    Seq<char>,
    Seq<char>,
>
    decreases reqs.len(),
{
    if reqs.len() == 0 {
        m
    } else {
        store_effect(store_replay(m, reqs.drop_last()), reqs.last())
    }
}

/// Whether `req` writes or takes the value under key `k`.
pub open spec fn touches(req: Request, k: Seq<char>) -> bool {
    match req {
        Request::Store(k2, _) => k2@ == k,
        Request::FindValue(k2) => k2@ == k,
        _ => false,
    }
}

/// A run of `handle_req` calls replays its requests: when each store is the
/// one before it after `store_effect` of its request (as `handle_req`
/// ensures), the store after `i` requests is `store_replay` of the first `i`.
pub proof fn law_run_replays(ms: Seq<Map<Seq<char>, Seq<char>>>, reqs: Seq<Request>)
    requires
        ms.len() == reqs.len() + 1,
        forall|i: int| 0 <= i < reqs.len() ==> #[trigger] ms[i + 1] == store_effect(ms[i], reqs[i]),
    ensures
        forall|i: int| 0 <= i < ms.len() ==> #[trigger] ms[i] == store_replay(ms[0], reqs.take(i)),
    decreases reqs.len(),
{
    if reqs.len() > 0 {
        let n = reqs.len() - 1;
        law_run_replays(ms.take(n + 1), reqs.take(n));
        assert forall|i: int| 0 <= i < ms.len() implies #[trigger] ms[i] == store_replay(
            ms[0],
            reqs.take(i),
        ) by {
            if i <= n {
                assert(ms.take(n + 1)[i] == ms[i]);
                assert(reqs.take(n).take(i) =~= reqs.take(i));
            } else {
                assert(ms.take(n + 1)[n] == ms[n]);
                assert(reqs.take(n).take(n) =~= reqs.take(n));
                assert(reqs.take(i).drop_last() =~= reqs.take(n));
                assert(reqs.take(i).last() == reqs[n]);
                assert(ms[n + 1] == store_effect(ms[n], reqs[n]));
            }
        }
    }
}

/// Requests that do not touch key `k` leave what is stored under it alone.
proof fn lemma_untouched_run(m: Map<Seq<char>, Seq<char>>, reqs: Seq<Request>, k: Seq<char>)
    requires
        forall|i: int| 0 <= i < reqs.len() ==> !touches(#[trigger] reqs[i], k),
    ensures
        store_replay(m, reqs).contains_key(k) == m.contains_key(k),
        m.contains_key(k) ==> store_replay(m, reqs)[k] == m[k],
    decreases reqs.len(),
{
    if reqs.len() > 0 {
        let r0 = reqs.drop_last();
        lemma_untouched_run(m, r0, k);
        assert(!touches(reqs[reqs.len() - 1], k));
    }
}

/// Served in order of arrival, a `FindValue` for a key finds the value of the
/// latest `Store` under it when no request in between touched the key, and a
/// second `FindValue` right after finds nothing.
pub proof fn law_find_value_after_store_in_run(
    m: Map<Seq<char>, Seq<char>>,
    before: Seq<Request>,
    k: String,
    v: String,
    between: Seq<Request>,
    probe: String,
)
    requires
        probe@ == k@,
        forall|i: int| 0 <= i < between.len() ==> !touches(#[trigger] between[i], k@),
    ensures
        found_value(
            store_replay(m, before.push(Request::Store(k, v)) + between),
            Request::FindValue(probe),
        ) == Some(v@),
        found_value(
            store_replay(
                m,
                before.push(Request::Store(k, v)) + between + seq![Request::FindValue(probe)],
            ),
            Request::FindValue(probe),
        ) is None,
{
    let s = before.push(Request::Store(k, v));
    assert(s.drop_last() =~= before);
    let m1 = store_replay(m, s);
    lemma_untouched_run(m1, between, k@);
    lemma_replay_concat(m, s, between);
    let run = s + between;
    let run2 = run + seq![Request::FindValue(probe)];
    assert(run2.drop_last() =~= run);
}

proof fn lemma_replay_concat(m: Map<Seq<char>, Seq<char>>, a: Seq<Request>, b: Seq<Request>)
    ensures
        store_replay(m, a + b) == store_replay(store_replay(m, a), b),
    decreases b.len(),
{
    if b.len() == 0 {
        assert(a + b =~= a);
    } else {
        lemma_replay_concat(m, a, b.drop_last());
        assert((a + b).drop_last() =~= a + b.drop_last());
        assert((a + b).last() == b.last());
    }
}

/// A value stored under a key is what a following `FindValue` for that key
/// finds.
pub proof fn law_find_value_after_store(
    m: Map<Seq<char>, Seq<char>>,
    k: String,
    v: String,
    probe: String,
)
    requires
        probe@ == k@,
    ensures
        found_value(store_effect(m, Request::Store(k, v)), Request::FindValue(probe)) == Some(v@),
{
}

/// The last of two values stored under one key is the one found.
pub proof fn law_later_store_wins(
    m: Map<Seq<char>, Seq<char>>,
    k1: String,
    v1: String,
    k2: String,
    v2: String,
    probe: String,
)
    requires
        k1@ == k2@,
        probe@ == k2@,
    ensures
        found_value(
            store_effect(store_effect(m, Request::Store(k1, v1)), Request::Store(k2, v2)),
            Request::FindValue(probe),
        ) == Some(v2@),
{
}

/// A value is handed out once: after a `FindValue` for a key, a second
/// `FindValue` for it finds nothing.
pub proof fn law_find_value_takes_value(m: Map<Seq<char>, Seq<char>>, k: String, probe: String)
    requires
        probe@ == k@,
    ensures
        found_value(store_effect(m, Request::FindValue(k)), Request::FindValue(probe)) is None,
{
}

/// Requests other than `Store` and `FindValue` leave the store as it was,
/// and storing under one key leaves what is found under another key alone.
pub proof fn law_store_is_local(
    m: Map<Seq<char>, Seq<char>>,
    k: String,
    v: String,
    probe: String,
    id: Key,
)
    requires
        probe@ != k@,
    ensures
        store_effect(m, Request::Ping) == m,
        store_effect(m, Request::FindNode(id)) == m,
        found_value(store_effect(m, Request::Store(k, v)), Request::FindValue(probe))
            == found_value(m, Request::FindValue(probe)),
{
    assert(store_effect(m, Request::Ping) =~= m);
    assert(store_effect(m, Request::FindNode(id)) =~= m);
}

proof fn lemma_remove_duplicates_grows<A>(es: Seq<A>, seen: Seq<A>)
    ensures
        es.remove_duplicates(seen).len() >= seen.len(),
        es.remove_duplicates(seen).take(seen.len() as int) == seen,
        seen.no_duplicates() ==> es.remove_duplicates(seen).no_duplicates(),
        forall|i: int|
            seen.len() <= i < es.remove_duplicates(seen).len() ==> !seen.contains(
                #[trigger] es.remove_duplicates(seen)[i],
            ),
    decreases es.len(),
{
    if es.len() == 0 {
        assert(seen.take(seen.len() as int) =~= seen);
    } else if seen.contains(es[0]) {
        lemma_remove_duplicates_grows(es.skip(1), seen);
    } else {
        let seen2 = seen + seq![es[0]];
        lemma_remove_duplicates_grows(es.skip(1), seen2);
        let r = es.remove_duplicates(seen);
        assert(r == es.skip(1).remove_duplicates(seen2));
        assert(r.take(seen.len() as int) =~= seen2.take(seen.len() as int));
        assert(seen2.take(seen.len() as int) =~= seen);
        if seen.no_duplicates() {
            assert(seen2.no_duplicates()) by {
                assert forall|a: int, b: int|
                    0 <= a < seen2.len() && 0 <= b < seen2.len() && a != b implies seen2[a]
                    != seen2[b] by {
                    if a == seen.len() {
                        assert(seen2[b] == seen[b]);
                    } else if b == seen.len() {
                        assert(seen2[a] == seen[a]);
                    }
                }
            }
        }
        assert forall|i: int| seen.len() <= i < r.len() implies !seen.contains(#[trigger] r[i]) by {
            if i == seen.len() {
                assert(r[i] == r.take(seen2.len() as int)[i]);
                assert(r[i] == es[0]);
            } else {
                assert(!seen2.contains(r[i]));
                if seen.contains(r[i]) {
                    let j = choose|j: int| 0 <= j < seen.len() && seen[j] == r[i];
                    assert(seen2[j] == r[i]);
                }
            }
        }
    }
}

/// Taking in an answer never forgets a queued entry, queues only entries
/// never queued before (each once), and keeps every waiting entry among the
/// queued ones: no node is queried twice in one lookup.
pub proof fn law_absorb_queues_only_new(
    s: LookupView,
    query: KnownNodeView,
    entries: Seq<KnownNodeView>,
)
    requires
        s.queried.no_duplicates(),
        forall|i: int| 0 <= i < s.to_query.len() ==> s.queried.contains(#[trigger] s.to_query[i]),
    ensures
        absorbed(s, query, entries).queried.take(s.queried.len() as int) == s.queried,
        absorbed(s, query, entries).queried.no_duplicates(),
        absorbed(s, query, entries).to_query.take(s.to_query.len() as int) == s.to_query,
        forall|i: int|
            s.to_query.len() <= i < absorbed(s, query, entries).to_query.len() ==> !s.queried.contains(
                #[trigger] absorbed(s, query, entries).to_query[i],
            ),
        forall|i: int|
            0 <= i < absorbed(s, query, entries).to_query.len() ==> absorbed(
                s,
                query,
                entries,
            ).queried.contains(#[trigger] absorbed(s, query, entries).to_query[i]),
{
    let a = absorbed(s, query, entries);
    let q2 = entries.remove_duplicates(s.queried);
    lemma_remove_duplicates_grows(entries, s.queried);
    let fresh = q2.skip(s.queried.len() as int);
    assert(a.to_query == s.to_query + fresh);
    assert(a.to_query.take(s.to_query.len() as int) =~= s.to_query);
    assert forall|i: int| s.to_query.len() <= i < a.to_query.len() implies !s.queried.contains(
        #[trigger] a.to_query[i],
    ) by {
        let k = i - s.to_query.len();
        assert(a.to_query[i] == q2[s.queried.len() + k]);
    }
    assert forall|i: int| 0 <= i < a.to_query.len() implies a.queried.contains(
        #[trigger] a.to_query[i],
    ) by {
        if i < s.to_query.len() {
            let j = choose|j: int| 0 <= j < s.queried.len() && s.queried[j] == s.to_query[i];
            assert(q2.take(s.queried.len() as int)[j] == q2[j]);
            assert(q2[j] == a.to_query[i]);
        } else {
            let k = i - s.to_query.len();
            assert(a.to_query[i] == q2[s.queried.len() + k]);
        }
    }
}

/// Taking in an answer queues every entry it names: an entry is queued
/// afterwards exactly when it was queued before or the answer names it; each
/// named entry that was not queued before now waits to be queried; and the
/// query that answered counts as found, next to those found before.
pub proof fn law_absorb_queues_every_named_entry(
    s: LookupView,
    query: KnownNodeView,
    entries: Seq<KnownNodeView>,
)
    ensures
        forall|x: KnownNodeView|
            #[trigger] absorbed(s, query, entries).queried.contains(x) <==> (s.queried.contains(x)
                || entries.contains(x)),
        forall|x: KnownNodeView|
            entries.contains(x) && !s.queried.contains(x) ==> #[trigger] absorbed(
                s,
                query,
                entries,
            ).to_query.contains(x),
        forall|x: KnownNodeView|
            #[trigger] absorbed(s, query, entries).found.contains(x) <==> (s.found.contains(x) || x
                == query),
{
    let a = absorbed(s, query, entries);
    let q2 = entries.remove_duplicates(s.queried);
    entries.lemma_remove_duplicates_properties(s.queried);
    seq![query].lemma_remove_duplicates_properties(s.found);
    lemma_remove_duplicates_grows(entries, s.queried);
    assert forall|x: KnownNodeView| #[trigger] a.queried.contains(x) <==> (s.queried.contains(x)
        || entries.contains(x)) by {
        assert((entries + s.queried).contains(x) <==> (entries.contains(x) || s.queried.contains(
            x,
        ))) by {
            if entries.contains(x) {
                let k = choose|k: int| 0 <= k < entries.len() && entries[k] == x;
                assert((entries + s.queried)[k] == x);
            }
            if s.queried.contains(x) {
                let k = choose|k: int| 0 <= k < s.queried.len() && s.queried[k] == x;
                assert((entries + s.queried)[entries.len() + k] == x);
            }
        }
    }
    assert forall|x: KnownNodeView|
        entries.contains(x) && !s.queried.contains(x) implies #[trigger] a.to_query.contains(x) by {
        assert(a.queried.contains(x));
        let k = choose|k: int| 0 <= k < q2.len() && q2[k] == x;
        if k < s.queried.len() {
            assert(q2.take(s.queried.len() as int)[k] == x);
        }
        let fresh = q2.skip(s.queried.len() as int);
        assert(fresh[k - s.queried.len()] == x);
        assert(a.to_query[s.to_query.len() + k - s.queried.len()] == x);
    }
    assert forall|x: KnownNodeView| #[trigger] a.found.contains(x) <==> (s.found.contains(x) || x
        == query) by {
        assert((seq![query] + s.found).contains(x) <==> (x == query || s.found.contains(x))) by {
            if x == query {
                assert((seq![query] + s.found)[0] == x);
            }
            if s.found.contains(x) {
                let k = choose|k: int| 0 <= k < s.found.len() && s.found[k] == x;
                assert((seq![query] + s.found)[1 + k] == x);
            }
        }
    }
}

/// The entries found after `n` answers to `FindNode` queries are those found
/// before and the queries that got an answer: a missing answer adds nothing.
pub proof fn law_node_replies_found(
    s: LookupView,
    qs: Seq<KnownNodeView>,
    rs: Seq<Option<Seq<KnownNodeView>>>,
    n: nat,
)
    requires
        n <= qs.len(),
        n <= rs.len(),
    ensures
        forall|x: KnownNodeView|
            #[trigger] after_node_replies(s, qs, rs, n).found.contains(x) <==> (s.found.contains(x)
                || exists|j: int| 0 <= j < n && rs[j] is Some && qs[j] == x),
    decreases n,
{
    if n > 0 {
        let m = (n - 1) as nat;
        law_node_replies_found(s, qs, rs, m);
        let p = after_node_replies(s, qs, rs, m);
        match rs[m as int] {
            Some(es) => {
                law_absorb_queues_every_named_entry(p, qs[m as int], es);
            },
            None => {},
        }
        assert forall|x: KnownNodeView|
            #[trigger] after_node_replies(s, qs, rs, n).found.contains(x) <==> (s.found.contains(x)
                || exists|j: int| 0 <= j < n && rs[j] is Some && qs[j] == x) by {
            if exists|j: int| 0 <= j < n && rs[j] is Some && qs[j] == x {
                let j = choose|j: int| 0 <= j < n && rs[j] is Some && qs[j] == x;
                if j < m {
                    assert(exists|j: int| 0 <= j < m && rs[j] is Some && qs[j] == x);
                }
            }
            if exists|j: int| 0 <= j < m && rs[j] is Some && qs[j] == x {
                let j = choose|j: int| 0 <= j < m && rs[j] is Some && qs[j] == x;
                assert(0 <= j < n && rs[j] is Some && qs[j] == x);
            }
            if rs[m as int] is Some && qs[m as int] == x {
                assert(0 <= m < n && rs[m as int] is Some && qs[m as int] == x);
            }
        }
    }
}

/// Whether an answer to a `FindValue` query is a list of nodes.
pub open spec fn answered_with_nodes(r: Option<FindValueResultView>) -> bool {
    r matches Some(FindValueResultView::Nodes(_))
}

/// The entries found after `n` answers to `FindValue` queries are those
/// found before and the queries answered with nodes: a missing answer adds
/// nothing.
pub proof fn law_value_replies_found(
    s: LookupView,
    qs: Seq<KnownNodeView>,
    rs: Seq<Option<FindValueResultView>>,
    n: nat,
)
    requires
        n <= qs.len(),
        n <= rs.len(),
    ensures
        forall|x: KnownNodeView|
            #[trigger] after_value_replies(s, qs, rs, n).found.contains(x) <==> (s.found.contains(x)
                || exists|j: int|
                0 <= j < n && answered_with_nodes(rs[j]) && qs[j] == x),
    decreases n,
{
    if n > 0 {
        let m = (n - 1) as nat;
        law_value_replies_found(s, qs, rs, m);
        let p = after_value_replies(s, qs, rs, m);
        match rs[m as int] {
            Some(FindValueResultView::Nodes(es)) => {
                law_absorb_queues_every_named_entry(p, qs[m as int], es);
            },
            _ => {},
        }
        assert forall|x: KnownNodeView|
            #[trigger] after_value_replies(s, qs, rs, n).found.contains(x) <==> (s.found.contains(x)
                || exists|j: int|
                0 <= j < n && answered_with_nodes(rs[j]) && qs[j] == x) by {
            if exists|j: int|
                0 <= j < n && answered_with_nodes(rs[j]) && qs[j] == x {
                let j = choose|j: int|
                    0 <= j < n && answered_with_nodes(rs[j]) && qs[j] == x;
                if j < m {
                    assert(exists|j: int|
                        0 <= j < m && answered_with_nodes(rs[j]) && qs[j]
                            == x);
                }
            }
            if exists|j: int|
                0 <= j < m && answered_with_nodes(rs[j]) && qs[j] == x {
                let j = choose|j: int|
                    0 <= j < m && answered_with_nodes(rs[j]) && qs[j] == x;
                assert(0 <= j < n && answered_with_nodes(rs[j]) && qs[j]
                    == x);
            }
            if answered_with_nodes(rs[m as int]) && qs[m as int] == x {
                assert(0 <= m < n && answered_with_nodes(rs[m as int])
                    && qs[m as int] == x);
            }
        }
    }
}

} // verus!
