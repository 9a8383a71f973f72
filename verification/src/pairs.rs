use vstd::prelude::*;

verus! {

/// Whether a list of pairs has a pair for key `k`.
pub open spec fn has_key<K, V>(s: Seq<(K, V)>, k: K) -> bool {
    exists|i: int| 0 <= i < s.len() && #[trigger] s[i].0 == k
}

/// No key occurs in two pairs.
pub open spec fn keys_distinct<K, V>(s: Seq<(K, V)>) -> bool {
    forall|i: int, j: int|
        0 <= i < s.len() && 0 <= j < s.len() && i != j ==> #[trigger] s[i].0 != #[trigger] s[j].0
}

/// The map that a list of pairs with distinct keys spells.
pub open spec fn pairs_map<K, V>(s: Seq<(K, V)>) -> Map<K, V> {
    Map::new(
        |k: K| has_key(s, k),
        |k: K| s[choose|i: int| 0 <= i < s.len() && #[trigger] s[i].0 == k].1,
    )
}

/// In a list of pairs with distinct keys, the map gives each key the value of its pair.
pub proof fn lemma_pairs_map_at<K, V>(s: Seq<(K, V)>, i: int)
    requires
        keys_distinct(s),
        0 <= i < s.len(),
    ensures
        pairs_map(s).contains_key(s[i].0),
        pairs_map(s)[s[i].0] == s[i].1,
{
    let k = s[i].0;
    assert(has_key(s, k));
    let j = choose|j: int| 0 <= j < s.len() && #[trigger] s[j].0 == k;
    if j != i {
        assert(s[j].0 == s[i].0);
    }
}

/// A map with the keys of a list of pairs (with distinct keys) that gives
/// each key the value of its pair is the map the list spells.
pub proof fn lemma_pairs_map_ext<K, V>(t: Seq<(K, V)>, m: Map<K, V>)
    requires
        keys_distinct(t),
        forall|k: K| m.contains_key(k) <==> has_key(t, k),
        forall|i: int| 0 <= i < t.len() ==> m[#[trigger] t[i].0] == t[i].1,
    ensures
        pairs_map(t) == m,
{
    assert forall|k: K| #[trigger] pairs_map(t).contains_key(k) implies pairs_map(t)[k] == m[k] by {
        let i = choose|i: int| 0 <= i < t.len() && #[trigger] t[i].0 == k;
        lemma_pairs_map_at(t, i);
    }
    assert(pairs_map(t) =~= m);
}

/// Appending a pair for a new key adds that key to the map.
pub proof fn lemma_pairs_push<K, V>(p: Seq<(K, V)>, k: K, v: V)
    requires
        keys_distinct(p),
        !has_key(p, k),
    ensures
        keys_distinct(p.push((k, v))),
        pairs_map(p.push((k, v))) == pairs_map(p).insert(k, v),
{
    let t = p.push((k, v));
    let m = pairs_map(p).insert(k, v);
    assert forall|x: K| m.contains_key(x) <==> has_key(t, x) by {
        if x == k {
            assert(t[t.len() - 1].0 == k);
        } else if has_key(t, x) {
            let a = choose|a: int| 0 <= a < t.len() && #[trigger] t[a].0 == x;
            assert(t[a] == p[a]);
        } else if pairs_map(p).contains_key(x) {
            let a = choose|a: int| 0 <= a < p.len() && #[trigger] p[a].0 == x;
            assert(t[a] == p[a]);
        }
    }
    assert forall|a: int| 0 <= a < t.len() implies m[#[trigger] t[a].0] == t[a].1 by {
        if a < t.len() - 1 {
            assert(t[a] == p[a]);
            lemma_pairs_map_at(p, a);
        }
    }
    assert forall|a: int, b: int|
        0 <= a < t.len() && 0 <= b < t.len() && a != b implies #[trigger] t[a].0 != #[trigger] t[b].0 by {
        if a < t.len() - 1 && b < t.len() - 1 {
            assert(t[a] == p[a]);
            assert(t[b] == p[b]);
        } else if a == t.len() - 1 {
            assert(t[b] == p[b]);
        } else {
            assert(t[a] == p[a]);
        }
    }
    lemma_pairs_map_ext(t, m);
}

/// Taking out the pair at `i` removes its key from the map.
pub proof fn lemma_pairs_remove<K, V>(p: Seq<(K, V)>, i: int)
    requires
        keys_distinct(p),
        0 <= i < p.len(),
    ensures
        keys_distinct(p.remove(i)),
        pairs_map(p.remove(i)) == pairs_map(p).remove(p[i].0),
{
    let t = p.remove(i);
    let kv = p[i].0;
    lemma_pairs_map_at(p, i);
    assert forall|a: int, b: int|
        0 <= a < t.len() && 0 <= b < t.len() && a != b implies #[trigger] t[a].0 != #[trigger] t[b].0 by {
        let a0 = if a < i { a } else { a + 1 };
        let b0 = if b < i { b } else { b + 1 };
        assert(t[a] == p[a0]);
        assert(t[b] == p[b0]);
    }
    let m = pairs_map(p).remove(kv);
    assert forall|x: K| m.contains_key(x) <==> has_key(t, x) by {
        if has_key(t, x) {
            let a = choose|a: int| 0 <= a < t.len() && #[trigger] t[a].0 == x;
            let a0 = if a < i { a } else { a + 1 };
            assert(t[a] == p[a0]);
            lemma_pairs_map_at(p, a0);
        } else if m.contains_key(x) {
            let a0 = choose|a: int| 0 <= a < p.len() && #[trigger] p[a].0 == x;
            assert(a0 != i);
            let a = if a0 < i { a0 } else { a0 - 1 };
            assert(t[a] == p[a0]);
        }
    }
    assert forall|a: int| 0 <= a < t.len() implies m[#[trigger] t[a].0] == t[a].1 by {
        let a0 = if a < i { a } else { a + 1 };
        assert(t[a] == p[a0]);
        lemma_pairs_map_at(p, a0);
    }
    lemma_pairs_map_ext(t, m);
}

/// Replacing the pair at `i` by a pair for the same key with value `v`
/// (moved to the end) gives that key the value `v`.
pub proof fn lemma_pairs_replace<K, V>(p: Seq<(K, V)>, i: int, v: V)
    requires
        keys_distinct(p),
        0 <= i < p.len(),
    ensures
        keys_distinct(p.remove(i).push((p[i].0, v))),
        pairs_map(p.remove(i).push((p[i].0, v))) == pairs_map(p).insert(p[i].0, v),
{
    let k = p[i].0;
    lemma_pairs_remove(p, i);
    let r = p.remove(i);
    if has_key(r, k) {
        let a = choose|a: int| 0 <= a < r.len() && #[trigger] r[a].0 == k;
        lemma_pairs_map_at(r, a);
    }
    lemma_pairs_push(r, k, v);
    assert(pairs_map(p).remove(k).insert(k, v) =~= pairs_map(p).insert(k, v));
}

/// Keeping the items that satisfy `p`, when all do, keeps the sequence.
pub proof fn lemma_filter_keeps_all<A>(s: Seq<A>, p: spec_fn(A) -> bool)
    requires
        forall|i: int| 0 <= i < s.len() ==> p(#[trigger] s[i]),
    ensures
        s.filter(p) == s,
    decreases s.len(),
{
    if s.len() > 0 {
        let q = s.drop_last();
        lemma_filter_keeps_all(q, p);
        q.lemma_filter_push(s.last(), p);
        assert(q.push(s.last()) =~= s);
    }
}

/// Keeping the items that satisfy `p`, when all but the one at `i` do, is
/// taking out the item at `i`.
pub proof fn lemma_filter_drops_one<A>(s: Seq<A>, p: spec_fn(A) -> bool, i: int)
    requires
        0 <= i < s.len(),
        !p(s[i]),
        forall|j: int| 0 <= j < s.len() && j != i ==> p(#[trigger] s[j]),
    ensures
        s.filter(p) == s.remove(i),
    decreases s.len(),
{
    let q = s.drop_last();
    assert(q.push(s.last()) =~= s);
    q.lemma_filter_push(s.last(), p);
    if i == s.len() - 1 {
        assert forall|j: int| 0 <= j < q.len() implies p(#[trigger] q[j]) by {
            assert(q[j] == s[j]);
        }
        lemma_filter_keeps_all(q, p);
        assert(s.remove(i) =~= q);
    } else {
        assert forall|j: int| 0 <= j < q.len() && j != i implies p(#[trigger] q[j]) by {
            assert(q[j] == s[j]);
        }
        lemma_filter_drops_one(q, p, i);
        assert(p(s[s.len() - 1]));
        assert(s.remove(i) =~= q.remove(i).push(s.last()));
    }
}

} // verus!
