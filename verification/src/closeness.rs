use vstd::prelude::*;
use crate::key::{lex_lt, lemma_lex_irreflexive, lemma_lex_transitive};

verus! {

/// Entries that are ranked by their distance to some target: the distance
/// bytes, compared lexicographically, decide which entry comes first.
pub trait ByDistance: Sized {
    /// The distance bytes of the entry.
    spec fn rank(&self) -> Seq<u8>;

    /// Whether this entry is strictly closer than `other`.
    fn precedes(&self, other: &Self) -> (r: bool)
        ensures
            r == lex_lt(self.rank(), other.rank()),
    ;
}

/// Entries listed in order of distance: no entry is strictly closer than one
/// listed before it (entries at equal distance may come in any order).
pub open spec fn ascending<T: ByDistance>(s: Seq<T>) -> bool {
    forall|i: int, j: int|
        0 <= i < j < s.len() ==> !lex_lt(#[trigger] s[j].rank(), #[trigger] s[i].rank())
}

/// Index of an entry of `v` that no entry of `v` is strictly closer than
/// (the first such entry).
pub fn index_of_closest<T: ByDistance>(v: &Vec<T>) -> (m: usize)
    requires
        v.len() > 0,
    ensures
        m < v.len(),
        forall|k: int| 0 <= k < v.len() ==> !lex_lt(#[trigger] v@[k].rank(), v@[m as int].rank()),
{
    let mut m: usize = 0;
    let n = v.len();
    proof {
        lemma_lex_irreflexive(v@[0].rank());
    }
    for i in 1..n
        invariant
            n == v.len(),
            m < i <= n,
            forall|k: int| 0 <= k < i ==> !lex_lt(#[trigger] v@[k].rank(), v@[m as int].rank()),
    {
        if v[i].precedes(&v[m]) {
            proof {
                let old_m = m as int;
                assert forall|k: int| 0 <= k < i + 1 implies !lex_lt(
                    #[trigger] v@[k].rank(),
                    v@[i as int].rank(),
                ) by {
                    if k == i {
                        lemma_lex_irreflexive(v@[i as int].rank());
                    } else if lex_lt(v@[k].rank(), v@[i as int].rank()) {
                        lemma_lex_transitive(v@[k].rank(), v@[i as int].rank(), v@[old_m].rank());
                    }
                }
            }
            m = i;
        }
    }
    m
}

/// Sorts entries by distance, closest first (a selection sort: the closest
/// remaining entry is moved out until none is left).
pub fn sort_by_distance<T: ByDistance>(v: Vec<T>) -> (r: Vec<T>)
    ensures
        r@.to_multiset() == v@.to_multiset(),
        r@.len() == v@.len(),
        forall|x: T| r@.contains(x) <==> v@.contains(x),
        v@.no_duplicates() ==> r@.no_duplicates(),
        ascending(r@),
{
    broadcast use vstd::seq_lib::group_to_multiset_ensures;

    let ghost orig = v@;
    let mut rest = v;
    let mut out: Vec<T> = Vec::new();
    while rest.len() > 0
        invariant
            (out@ + rest@).to_multiset() == orig.to_multiset(),
            ascending(out@),
            forall|i: int, k: int|
                0 <= i < out@.len() && 0 <= k < rest@.len() ==> !lex_lt(
                    #[trigger] rest@[k].rank(),
                    #[trigger] out@[i].rank(),
                ),
        decreases rest.len(),
    {
        let m = index_of_closest(&rest);
        let ghost before_out = out@;
        let ghost before_rest = rest@;
        let x = rest.remove(m);
        out.push(x);
        proof {
            assert(rest@ == before_rest.remove(m as int));
            vstd::seq_lib::lemma_seq_union_to_multiset_commutative(before_out, before_rest);
            assert((out@ + rest@).to_multiset() =~= orig.to_multiset()) by {
                broadcast use vstd::multiset::group_multiset_axioms;
                vstd::seq_lib::lemma_multiset_commutative(out@, rest@);
                vstd::seq_lib::lemma_multiset_commutative(before_out, before_rest);
                assert(out@ == before_out.push(x));
                assert(x == before_rest[m as int]);
                vstd::seq_lib::to_multiset_build(before_out, x);
                vstd::seq_lib::to_multiset_remove(before_rest, m as int);
                assert(out@.to_multiset() =~= before_out.to_multiset().insert(x));
                assert(rest@.to_multiset() =~= before_rest.to_multiset().remove(x));
                vstd::seq_lib::to_multiset_contains(before_rest, x);
                assert(before_rest.contains(x));
                assert(before_rest.to_multiset().count(x) > 0);
            }
            assert forall|k: int| 0 <= k < rest@.len() implies !lex_lt(
                #[trigger] rest@[k].rank(),
                x.rank(),
            ) by {
                if k < m {
                    assert(rest@[k] == before_rest[k]);
                } else {
                    assert(rest@[k] == before_rest[k + 1]);
                }
            }
            assert forall|i: int, k: int|
                0 <= i < out@.len() && 0 <= k < rest@.len() implies !lex_lt(
                #[trigger] rest@[k].rank(),
                #[trigger] out@[i].rank(),
            ) by {
                if i < before_out.len() {
                    assert(out@[i] == before_out[i]);
                    if k < m {
                        assert(rest@[k] == before_rest[k]);
                    } else {
                        assert(rest@[k] == before_rest[k + 1]);
                    }
                }
            }
            assert forall|i: int, j: int| 0 <= i < j < out@.len() implies !lex_lt(
                #[trigger] out@[j].rank(),
                #[trigger] out@[i].rank(),
            ) by {
                if j < before_out.len() {
                    assert(out@[i] == before_out[i]);
                    assert(out@[j] == before_out[j]);
                } else {
                    assert(out@[i] == before_out[i]);
                    assert(out@[j] == before_rest[m as int]);
                }
            }
        }
    }
    proof {
        assert(out@ + rest@ =~= out@);
        lemma_permutation_facts(out@, orig);
    }
    out
}

/// Two sequences that are permutations of each other have the same length and
/// the same elements, and one repeats an element only if the other does.
pub proof fn lemma_permutation_facts<T>(a: Seq<T>, b: Seq<T>)
    requires
        a.to_multiset() == b.to_multiset(),
    ensures
        a.len() == b.len(),
        forall|x: T| a.contains(x) <==> b.contains(x),
        b.no_duplicates() ==> a.no_duplicates(),
{
    broadcast use vstd::seq_lib::group_to_multiset_ensures;
    broadcast use vstd::multiset::group_multiset_axioms;

    assert(a.len() == a.to_multiset().len());
    assert(b.len() == b.to_multiset().len());
    assert forall|x: T| a.contains(x) <==> b.contains(x) by {
        vstd::seq_lib::to_multiset_contains(a, x);
        vstd::seq_lib::to_multiset_contains(b, x);
        assert(a.to_multiset().count(x) == b.to_multiset().count(x));
    }
    if b.no_duplicates() {
        b.lemma_multiset_has_no_duplicates();
        a.lemma_multiset_has_no_duplicates_conv();
    }
}

} // verus!
