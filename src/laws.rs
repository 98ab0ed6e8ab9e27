use crate::fold::{functional, lemma_folded_unique};
use crate::node::Node;
use crate::records::{
    dedup, keyed_seq, keys, lemma_dedup_bounds, lemma_last_kept_sorted, lemma_multiset_map,
    position_of, AnnData,
};
use crate::tree::{built, leaf_ok, ProofTree};
use vstd::relations::{sorted_by, total_ordering};
use vstd::seq_lib::lemma_sorted_unique;
use vstd::prelude::*;

verus! {

/// The key before index `i`, or zero before the first.
pub open spec fn prev_key(ks: Seq<u64>, i: int) -> u64 {
    if i == 0 {
        0
    } else {
        ks[i - 1]
    }
}

/// How many keys do not exceed the key before them.
pub open spec fn dup_count(ks: Seq<u64>) -> nat
    decreases ks.len(),
{
    if ks.len() == 0 {
        0
    } else {
        dup_count(ks.drop_last()) + if ks.last() > prev_key(ks, ks.len() - 1) {
            0nat
        } else {
            1nat
        }
    }
}

/// `reset` on a consistent tree leaves it consistent, without a root, with
/// its buffer and capacity, which is all that `compute` asks to run again.
pub proof fn lemma_reset_allows_compute(t: ProofTree)
    requires
        t.wf(),
    ensures
        t.after_reset().wf(),
        t.after_reset().root_hash.is_none(),
        t.after_reset().ann_data == t.ann_data,
        t.after_reset().capacity == t.capacity,
{
}

/// `compute` after `reset` builds what `compute` builds on any other tree
/// that holds the same records: nothing of the earlier tree carries over.
pub proof fn lemma_reset_then_compute<L: Fn(u32) -> [u8; 32], C: Fn(Node, Node) -> Node>(
    t: ProofTree,
    b1: ProofTree,
    u: ProofTree,
    b2: ProofTree,
    count: int,
    lookup: L,
    combine: C,
)
    requires
        t.wf(),
        u.wf(),
        0 <= count <= t.capacity,
        count <= u.capacity,
        keyed_seq(t.ann_data@.take(count)).to_multiset() == keyed_seq(
            u.ann_data@.take(count),
        ).to_multiset(),
        lookup_functional(lookup),
        functional(combine),
        built(t.after_reset(), b1, count, lookup, combine),
        built(u, b2, count, lookup, combine),
    ensures
        b1.nodes@ == b2.nodes@,
        b1.root_hash == b2.root_hash,
        b1.size == b2.size,
{
    lemma_reset_allows_compute(t);
    lemma_compute_deterministic(t.after_reset(), b1, u, b2, count, lookup, combine);
}

proof fn lemma_dup_count_sorted(ks: Seq<u64>)
    requires
        forall|i: int, j: int| 0 <= i < j < ks.len() ==> ks[i] <= ks[j],
    ensures
        dedup(ks).len() + dup_count(ks) == ks.len(),
    decreases ks.len(),
{
    if ks.len() > 0 {
        let p = ks.drop_last();
        lemma_dup_count_sorted(p);
        if p.len() > 0 {
            lemma_last_kept_sorted(p);
        } else {
            assert(dedup(p) =~= Seq::<int>::empty());
        }
    }
}

/// On keys in ascending order, a record is kept exactly when its key exceeds
/// the one before it, so of each run of equal keys only the first record is
/// kept, and the unique count is the record count less the duplicates.
pub proof fn lemma_dedup_sorted(ks: Seq<u64>)
    requires
        forall|i: int, j: int| 0 <= i < j < ks.len() ==> ks[i] <= ks[j],
        ks.len() <= u32::MAX,
    ensures
        dedup(ks).len() == ks.len() - dup_count(ks),
        forall|i: int|
            0 <= i < ks.len() ==> (#[trigger] position_of(ks, i) != 0 <==> ks[i] > prev_key(ks, i)),
{
    lemma_dup_count_sorted(ks);
    assert forall|i: int| 0 <= i < ks.len() implies (#[trigger] position_of(ks, i) != 0 <==> ks[i]
        > prev_key(ks, i)) by {
        let p = ks.take(i);
        lemma_dedup_bounds(p);
        if i > 0 {
            lemma_last_kept_sorted(p);
        } else {
            assert(dedup(p) =~= Seq::<int>::empty());
        }
    }
}

/// Deduplication in `compute`: each record of the batch keeps a nonzero
/// position exactly when its key exceeds the key before it in sorted order,
/// so duplicates collapse onto the first of their run, whose location the
/// index table holds; the unique count is the count less the duplicates.
pub proof fn lemma_compute_dedup<L: Fn(u32) -> [u8; 32], C: Fn(Node, Node) -> Node>(
    a: ProofTree,
    b: ProofTree,
    count: int,
    lookup: L,
    combine: C,
)
    requires
        a.wf(),
        0 <= count <= a.capacity,
        built(a, b, count, lookup, combine),
    ensures
        ({
            let s = b.ann_data@.take(count);
            let ks = keys(s);
            &&& b.size == count - dup_count(ks)
            &&& forall|i: int|
                0 <= i < count ==> ((#[trigger] s[i]).index != 0 <==> s[i].hash_pfx > prev_key(ks, i))
            &&& forall|p: int|
                0 <= p < b.size ==> #[trigger] b.index_table@[p] == s[dedup(ks)[p]].mloc
        }),
{
    let s = b.ann_data@.take(count);
    let ks = keys(s);
    assert forall|i: int, j: int| 0 <= i < j < ks.len() implies ks[i] <= ks[j] by {
        assert(s[i].hash_pfx <= s[j].hash_pfx);
    }
    lemma_dedup_sorted(ks);
    assert forall|i: int| 0 <= i < count implies ((#[trigger] s[i]).index != 0 <==> s[i].hash_pfx
        > prev_key(ks, i)) by {
        assert(position_of(ks, i) != 0 <==> ks[i] > prev_key(ks, i));
    }
}

/// The lookup gives one hash for each position.
pub open spec fn lookup_functional<L: Fn(u32) -> [u8; 32]>(lookup: L) -> bool {
    forall|p: u32, h1: [u8; 32], h2: [u8; 32]|
        call_ensures(lookup, (p,), h1) && call_ensures(lookup, (p,), h2) ==> h1 == h2
}

/// Determinism: `compute` over the same records in any order, with a lookup
/// and a pairing primitive that each give one result for each input, builds
/// the same nodes and commits the same root hash and unique count.
pub proof fn lemma_compute_deterministic<L: Fn(u32) -> [u8; 32], C: Fn(Node, Node) -> Node>(
    a1: ProofTree,
    b1: ProofTree,
    a2: ProofTree,
    b2: ProofTree,
    count: int,
    lookup: L,
    combine: C,
)
    requires
        a1.wf(),
        a2.wf(),
        0 <= count <= a1.capacity,
        count <= a2.capacity,
        keyed_seq(a1.ann_data@.take(count)).to_multiset() == keyed_seq(
            a2.ann_data@.take(count),
        ).to_multiset(),
        lookup_functional(lookup),
        functional(combine),
        built(a1, b1, count, lookup, combine),
        built(a2, b2, count, lookup, combine),
    ensures
        b1.nodes@ == b2.nodes@,
        b1.root_hash == b2.root_hash,
        b1.size == b2.size,
{
    let s1 = b1.ann_data@.take(count);
    let s2 = b2.ann_data@.take(count);
    let f = |x: (u64, u32)| x.0;
    lemma_multiset_map(keyed_seq(s1), keyed_seq(s2), f);
    assert(keyed_seq(s1).map_values(f) =~= keys(s1));
    assert(keyed_seq(s2).map_values(f) =~= keys(s2));
    let leq = |x: u64, y: u64| x <= y;
    assert(sorted_by(keys(s1), leq)) by {
        assert forall|i: int, j: int| 0 <= i < j < keys(s1).len() implies #[trigger] leq(
            keys(s1)[i],
            keys(s1)[j],
        ) by {
            assert(s1[i].hash_pfx <= s1[j].hash_pfx);
        }
    }
    assert(sorted_by(keys(s2), leq)) by {
        assert forall|i: int, j: int| 0 <= i < j < keys(s2).len() implies #[trigger] leq(
            keys(s2)[i],
            keys(s2)[j],
        ) by {
            assert(s2[i].hash_pfx <= s2[j].hash_pfx);
        }
    }
    assert(total_ordering(leq));
    lemma_sorted_unique(keys(s1), keys(s2), leq);
    let ks = keys(s1);
    let kept = dedup(ks);
    let total: int = kept.len() + 1int;
    assert forall|i: int| 0 <= i < total implies b1.nodes@[i] == b2.nodes@[i] by {
        if i > 0 {
            assert(leaf_ok(lookup, b1.nodes@, i, ks[kept[i - 1]]));
            assert(leaf_ok(lookup, b2.nodes@, i, ks[kept[i - 1]]));
        }
    }
    lemma_folded_unique(combine, b1.nodes@, b2.nodes@, total);
}

proof fn lemma_dedup_all_kept(ks: Seq<u64>)
    requires
        forall|i: int| 0 <= i < ks.len() ==> ks[i] > #[trigger] prev_key(ks, i),
    ensures
        dedup(ks) =~= Seq::new(ks.len(), |i: int| i),
    decreases ks.len(),
{
    if ks.len() > 0 {
        let p = ks.drop_last();
        assert forall|i: int| 0 <= i < p.len() implies p[i] > #[trigger] prev_key(p, i) by {
            assert(ks[i] > prev_key(ks, i));
        }
        lemma_dedup_all_kept(p);
        assert(ks.last() > prev_key(ks, ks.len() - 1));
    }
}

proof fn lemma_equal_pair_count(ks: Seq<u64>, i: int, j: int)
    requires
        0 <= i < ks.len(),
        0 <= j < ks.len(),
        i != j,
        ks[i] == ks[j],
    ensures
        ks.to_multiset().count(ks[i]) >= 2,
{
    broadcast use vstd::multiset::group_multiset_axioms;

    let r = ks.remove(i);
    vstd::seq_lib::to_multiset_remove(ks, i);
    let j2 = if j < i {
        j
    } else {
        j - 1
    };
    assert(r[j2] == ks[j]);
    vstd::seq_lib::to_multiset_contains(r, ks[i]);
}

/// With no key repeated among the records and none of them zero, every
/// record is kept: the unique count is the record count, each record's
/// position is one past its rank by key, and the index table lists the
/// locations, in ascending order of key, of the records given.
pub proof fn lemma_distinct_keys_all_kept<L: Fn(u32) -> [u8; 32], C: Fn(Node, Node) -> Node>(
    a: ProofTree,
    b: ProofTree,
    count: int,
    lookup: L,
    combine: C,
)
    requires
        a.wf(),
        0 <= count <= a.capacity,
        forall|k: u64| keys(a.ann_data@.take(count)).to_multiset().count(k) <= 1,
        keys(a.ann_data@.take(count)).to_multiset().count(0) == 0,
        built(a, b, count, lookup, combine),
    ensures
        ({
            let s = b.ann_data@.take(count);
            &&& b.size == count
            &&& b.index_table@ == s.map_values(|r: AnnData| r.mloc)
            &&& keyed_seq(s).to_multiset() == keyed_seq(a.ann_data@.take(count)).to_multiset()
            &&& forall|i: int, j: int| 0 <= i < j < count ==> s[i].hash_pfx < s[j].hash_pfx
            &&& forall|i: int| 0 <= i < count ==> (#[trigger] s[i]).index == i + 1
        }),
{
    let s = b.ann_data@.take(count);
    let ks = keys(s);
    let f = |x: (u64, u32)| x.0;
    lemma_multiset_map(keyed_seq(s), keyed_seq(a.ann_data@.take(count)), f);
    assert(keyed_seq(s).map_values(f) =~= ks);
    assert(keyed_seq(a.ann_data@.take(count)).map_values(f) =~= keys(a.ann_data@.take(count)));
    assert forall|i: int, j: int| 0 <= i < j < count implies s[i].hash_pfx < s[j].hash_pfx by {
        assert(s[i].hash_pfx <= s[j].hash_pfx);
        if ks[i] == ks[j] {
            lemma_equal_pair_count(ks, i, j);
        }
    }
    assert forall|i: int| 0 <= i < ks.len() implies ks[i] > #[trigger] prev_key(ks, i) by {
        if i == 0 {
            vstd::seq_lib::to_multiset_contains(ks, 0);
            if ks[0] == 0 {
                assert(ks.contains(0u64));
            }
        } else {
            assert(s[i - 1].hash_pfx < s[i].hash_pfx);
        }
    }
    lemma_dedup_all_kept(ks);
    assert(b.index_table@ =~= s.map_values(|r: AnnData| r.mloc));
    assert forall|i: int| 0 <= i < count implies (#[trigger] s[i]).index == i + 1 by {
        let p = ks.take(i);
        assert forall|x: int| 0 <= x < p.len() implies p[x] > #[trigger] prev_key(p, x) by {
            assert(ks[x] > prev_key(ks, x));
        }
        lemma_dedup_all_kept(p);
        assert(ks[i] > prev_key(ks, i));
    }
}

} // verus!
