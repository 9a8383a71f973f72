use vstd::prelude::*;
use crate::kad2::ROUTER_ANSWER_LEN;
use crate::key::Key;
use crate::rout2::{after_update, closest_to, known_views, KnownNode, Node, RoutingTable};
use crate::pairs::{
    has_key, keys_distinct, lemma_pairs_map_at, lemma_pairs_push, lemma_pairs_replace, pairs_map,
};

verus! {

/// The state of a node: a key-value store and a router, each kept by a task of
/// its own.
pub struct State {}

/// Errors of the state tasks.
#[derive(Debug, Clone, Copy, PartialEq, Eq, Structural)]
pub enum StateErr {
    RouterSendErr,
    KvSendErr,
    RecvErr,
    Unknown,
}

/// The key bytes and value texts of a list of key-value pairs.
pub open spec fn kv_views(s: Seq<(Key, String)>) -> Seq<(Seq<u8>, Seq<char>)> {
    s.map_values(|p: (Key, String)| (p.0@, p.1@))
}

/// Key-value store: the values stored by this node, by key.
pub struct KvMap {
    entries: Vec<(Key, String)>,
}

impl View for KvMap {
    type V = Map<Seq<u8>, Seq<char>>;

    closed spec fn view(&self) -> Map<Seq<u8>, Seq<char>> {
        pairs_map(kv_views(self.entries@))
    }
}

impl KvMap {
    /// The store's invariant: no key is stored twice.
    pub closed spec fn wf(&self) -> bool {
        keys_distinct(kv_views(self.entries@))
    }

    pub fn new() -> (s: KvMap)
        ensures
            s.wf(),
            s@ == Map::<Seq<u8>, Seq<char>>::empty(),
    {
        let s = KvMap { entries: Vec::new() };
        assert(s@ =~= Map::<Seq<u8>, Seq<char>>::empty());
        s
    }

    fn index_of_key(&self, k: &Key) -> (r: Option<usize>)
        ensures
            match r {
                Some(i) => i < self.entries@.len() && kv_views(self.entries@)[i as int].0 == k@,
                None => !has_key(kv_views(self.entries@), k@),
            },
    {
        let n = self.entries.len();
        for i in 0..n
            invariant
                n == self.entries@.len(),
                forall|j: int| 0 <= j < i ==> (#[trigger] kv_views(self.entries@)[j]).0 != k@,
        {
            if self.entries[i].0 == *k {
                return Some(i);
            }
        }
        None
    }

    /// A copy of the value stored under `key`, if any.
    pub fn get(&self, key: &Key) -> (r: Option<String>)
        requires
            self.wf(),
        ensures
            match r {
                Some(v) => self@.contains_key(key@) && v@ == self@[key@],
                None => !self@.contains_key(key@),
            },
    {
        match self.index_of_key(key) {
            Some(i) => {
                proof {
                    lemma_pairs_map_at(kv_views(self.entries@), i as int);
                }
                Some(self.entries[i].1.clone())
            },
            None => None,
        }
    }

    /// Stores `val` under `key` (replacing what was stored there).
    pub fn set(&mut self, key: Key, val: String)
        requires
            old(self).wf(),
        ensures
            final(self).wf(),
            final(self)@ == old(self)@.insert(key@, val@),
    {
        let ghost p = kv_views(self.entries@);
        let ghost kv = key@;
        let ghost vv = val@;
        match self.index_of_key(&key) {
            Some(i) => {
                let _ = self.entries.remove(i);
                self.entries.push((key, val));
                proof {
                    assert(kv_views(self.entries@) =~= p.remove(i as int).push((kv, vv)));
                    lemma_pairs_replace(p, i as int, vv);
                }
            },
            None => {
                self.entries.push((key, val));
                proof {
                    assert(kv_views(self.entries@) =~= p.push((kv, vv)));
                    lemma_pairs_push(p, kv, vv);
                }
            },
        }
    }
}

/// A command for the key-value store task.
pub enum KvOp {
    GetValue(Key),
    SetValue(Key, String),
}

/// The contents of a `KvOp`.
pub enum KvOpView {
    GetValue(Seq<u8>),
    SetValue(Seq<u8>, Seq<char>),
}

impl View for KvOp {
    type V = KvOpView;

    open spec fn view(&self) -> KvOpView {
        match self {
            KvOp::GetValue(k) => KvOpView::GetValue(k@),
            KvOp::SetValue(k, v) => KvOpView::SetValue(k@, v@),
        }
    }
}

/// What the key-value store task answers to a command.
pub enum KvAnswer {
    /// The value found by a `GetValue`, if any.
    Value(Option<String>),
    /// A `SetValue` was carried out.
    Done,
}

/// The store after serving `op`: a `SetValue` writes, a `GetValue` changes
/// nothing.
pub open spec fn kv_apply(m: Map<Seq<u8>, Seq<char>>, op: KvOpView) -> Map<Seq<u8>, Seq<char>> {
    match op {
        KvOpView::SetValue(k, v) => m.insert(k, v),
        KvOpView::GetValue(_) => m,
    }
}

/// The store after serving `ops` in their order of arrival.
pub open spec fn kv_replay(m: Map<Seq<u8>, Seq<char>>, ops: Seq<KvOpView>) -> Map<
    Seq<u8>,
    Seq<char>,
>
    decreases ops.len(),
{
    if ops.len() == 0 {
        m
    } else {
        kv_apply(kv_replay(m, ops.drop_last()), ops.last())
    }
}

impl KvMap {
    /// Serves one command of the key-value store task: a `GetValue` answers the
    /// value stored under its key, a `SetValue` stores its value.
    pub fn serve(&mut self, op: KvOp) -> (a: KvAnswer)
        requires
            old(self).wf(),
        ensures
            final(self).wf(),
            final(self)@ == kv_apply(old(self)@, op@),
            match op {
                KvOp::GetValue(k) => a matches KvAnswer::Value(r) && match r {
                    Some(v) => old(self)@.contains_key(k@) && v@ == old(self)@[k@],
                    None => !old(self)@.contains_key(k@),
                },
                KvOp::SetValue(_, _) => a is Done,
            },
    {
        match op {
            KvOp::GetValue(key) => KvAnswer::Value(self.get(&key)),
            KvOp::SetValue(key, val) => {
                self.set(key, val);
                KvAnswer::Done
            },
        }
    }
}

/// A command for the router task.
pub enum RouterOp {
    GetClosestNodes(Key),
    Update(Node),
}

/// What the router task answers to a command.
pub enum RouterAnswer {
    /// The nodes closest to the key of a `GetClosestNodes`.
    Nodes(Vec<KnownNode>),
    /// An `Update` was carried out.
    Done,
}

/// Serves one command of the router task: `GetClosestNodes` answers the
/// `ROUTER_ANSWER_LEN` closest nodes, `Update` records the node.
pub fn serve_router(router: &mut RoutingTable, op: RouterOp) -> (a: RouterAnswer)
    requires
        old(router).wf(),
    ensures
        final(router).wf(),
        final(router).self_node() == old(router).self_node(),
        match op {
            RouterOp::GetClosestNodes(key) => {
                &&& final(router)@ == old(router)@
                &&& a matches RouterAnswer::Nodes(ns) && closest_to(
                    old(router).entries(),
                    key@,
                    ROUTER_ANSWER_LEN as nat,
                    known_views(ns@),
                )
            },
            RouterOp::Update(n) => a is Done && final(router)@ == after_update(
                old(router)@,
                old(router).self_node().id,
                n@,
            ),
        },
{
    match op {
        RouterOp::GetClosestNodes(key) => RouterAnswer::Nodes(
            router.closest_nodes(key, ROUTER_ANSWER_LEN),
        ),
        RouterOp::Update(new_node) => {
            router.update(new_node);
            RouterAnswer::Done
        },
    }
}

/// A run of `KvMap::serve` calls replays its commands: when each map is the
/// one before it after `kv_apply` of its command (as `serve` ensures), the
/// map after `i` commands is `kv_replay` of the first `i`, and so a
/// `GetValue` at step `i` answers from `kv_replay` of the commands before it.
pub proof fn law_serving_replays(ms: Seq<Map<Seq<u8>, Seq<char>>>, ops: Seq<KvOpView>)
    requires
        ms.len() == ops.len() + 1,
        forall|i: int| 0 <= i < ops.len() ==> #[trigger] ms[i + 1] == kv_apply(ms[i], ops[i]),
    ensures
        forall|i: int| 0 <= i < ms.len() ==> #[trigger] ms[i] == kv_replay(ms[0], ops.take(i)),
    decreases ops.len(),
{
    if ops.len() > 0 {
        let n = ops.len() - 1;
        law_serving_replays(ms.take(n + 1), ops.take(n));
        assert forall|i: int| 0 <= i < ms.len() implies #[trigger] ms[i] == kv_replay(
            ms[0],
            ops.take(i),
        ) by {
            if i <= n {
                assert(ms.take(n + 1)[i] == ms[i]);
                assert(ops.take(n).take(i) =~= ops.take(i));
            } else {
                assert(ms.take(n + 1)[n] == ms[n]);
                assert(ops.take(n).take(n) =~= ops.take(n));
                assert(ops.take(i).drop_last() =~= ops.take(n));
                assert(ops.take(i).last() == ops[n]);
                assert(ms[n + 1] == kv_apply(ms[n], ops[n]));
            }
        }
    }
}

/// A key that no command of a run sets, and that the store did not hold,
/// is not found after the run.
pub proof fn law_unset_key_absent(m: Map<Seq<u8>, Seq<char>>, ops: Seq<KvOpView>, k: Seq<u8>)
    requires
        !m.contains_key(k),
        forall|i: int| 0 <= i < ops.len() ==> !(#[trigger] ops[i] matches KvOpView::SetValue(
            k2,
            _,
        ) && k2 == k),
    ensures
        !kv_replay(m, ops).contains_key(k),
    decreases ops.len(),
{
    if ops.len() > 0 {
        law_unset_key_absent(m, ops.drop_last(), k);
        assert(ops.last() == ops[ops.len() - 1]);
    }
}

/// Served in order of arrival, a `GetValue` sees the value of the latest `SetValue` of
/// its key before it: later commands that set no value under that key change
/// nothing of it.
pub proof fn law_get_sees_latest_set(
    m: Map<Seq<u8>, Seq<char>>,
    before: Seq<KvOpView>,
    k: Seq<u8>,
    v: Seq<char>,
    after: Seq<KvOpView>,
)
    requires
        forall|i: int| 0 <= i < after.len() ==> !(#[trigger] after[i] matches KvOpView::SetValue(
            k2,
            _,
        ) && k2 == k),
    ensures
        kv_replay(m, before.push(KvOpView::SetValue(k, v)) + after).contains_key(k),
        kv_replay(m, before.push(KvOpView::SetValue(k, v)) + after)[k] == v,
    decreases after.len(),
{
    let s = before.push(KvOpView::SetValue(k, v));
    if after.len() == 0 {
        assert(s + after =~= s);
        assert(s.drop_last() =~= before);
    } else {
        let a0 = after.drop_last();
        law_get_sees_latest_set(m, before, k, v, a0);
        assert((s + after).drop_last() =~= s + a0);
        assert((s + after).last() == after[after.len() - 1]);
    }
}

/// A value set under a key is what a following get of that key returns.
pub proof fn law_get_after_set(m: Map<Seq<u8>, Seq<char>>, k: Seq<u8>, v: Seq<char>)
    ensures
        m.insert(k, v).contains_key(k),
        m.insert(k, v)[k] == v,
{
}

} // verus!
