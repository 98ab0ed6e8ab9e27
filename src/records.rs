use rayon::slice::ParallelSliceMut;
use vstd::prelude::*;

verus! {

/// One announcement of a batch: its sort key, where it is stored, and the
/// leaf position that deduplication gives it (zero for a dropped duplicate).
#[derive(Clone, Copy, Debug, Default)]
pub struct AnnData {
    pub hash_pfx: u64,
    pub mloc: u32,
    pub index: u32,
}

/// The first `n` records are in ascending order of key.
pub open spec fn sorted_prefix(s: Seq<AnnData>, n: int) -> bool {
    forall|i: int, j: int| 0 <= i < j < n ==> #[trigger] s[i].hash_pfx <= #[trigger] s[j].hash_pfx
}

/// Relies on rayon's ParallelSliceMut::par_sort_by: the first `count` records
/// are put in ascending order of key, as a permutation of themselves; the
/// others are not touched.
#[verifier::external_body]
pub(crate) fn sort_prefix_by_key(data: &mut Vec<AnnData>, count: usize)
    requires
        count <= old(data).len(),
    ensures
        final(data)@.len() == old(data)@.len(),
        final(data)@.take(count as int).to_multiset() == old(data)@.take(count as int).to_multiset(),
        final(data)@.skip(count as int) == old(data)@.skip(count as int),
        sorted_prefix(final(data)@, count as int),
{
    data[..count].par_sort_by(|a, b| a.hash_pfx.cmp(&b.hash_pfx))
}

/// The keys of the records, in order.
pub open spec fn keys(s: Seq<AnnData>) -> Seq<u64> {
    s.map_values(|r: AnnData| r.hash_pfx)
}

/// A record's key and location: what deduplication reads of it.
pub open spec fn keyed(r: AnnData) -> (u64, u32) {
    (r.hash_pfx, r.mloc)
}

/// The key at the last kept index, or zero when none is kept yet.
pub open spec fn last_kept(ks: Seq<u64>, kept: Seq<int>) -> u64 {
    if kept.len() == 0 {
        0
    } else {
        ks[kept.last()]
    }
}

/// The indices that a front-to-back pass over `ks` keeps: each one whose
/// key exceeds the key of the last one kept (starting from zero).
pub open spec fn dedup(ks: Seq<u64>) -> Seq<int>
    decreases ks.len(),
{
    if ks.len() == 0 {
        Seq::empty()
    } else {
        let p = ks.drop_last();
        let kept = dedup(p);
        if ks.last() > last_kept(p, kept) {
            kept.push(ks.len() - 1)
        } else {
            kept
        }
    }
}

/// The leaf position that the pass gives index `i`: one past the number
/// kept before it if it is kept, else zero.
pub open spec fn position_of(ks: Seq<u64>, i: int) -> u32 {
    let p = ks.take(i);
    let kept = dedup(p);
    if ks[i] > last_kept(p, kept) {
        (kept.len() + 1) as u32
    } else {
        0
    }
}

/// The kept indices are in range and strictly increasing, and no more than
/// the keys seen.
pub proof fn lemma_dedup_bounds(ks: Seq<u64>)
    ensures
        dedup(ks).len() <= ks.len(),
        forall|j: int| 0 <= j < dedup(ks).len() ==> 0 <= #[trigger] dedup(ks)[j] < ks.len(),
        forall|a: int, b: int|
            0 <= a < b < dedup(ks).len() ==> #[trigger] dedup(ks)[a] < #[trigger] dedup(ks)[b],
    decreases ks.len(),
{
    if ks.len() > 0 {
        lemma_dedup_bounds(ks.drop_last());
    }
}

/// On keys in ascending order, the last key kept is the last key seen.
pub proof fn lemma_last_kept_sorted(ks: Seq<u64>)
    requires
        forall|i: int, j: int| 0 <= i < j < ks.len() ==> ks[i] <= ks[j],
        ks.len() > 0,
    ensures
        last_kept(ks, dedup(ks)) == ks.last(),
    decreases ks.len(),
{
    let p = ks.drop_last();
    lemma_dedup_bounds(p);
    if p.len() > 0 {
        lemma_last_kept_sorted(p);
        assert(ks[p.len() - 1] <= ks[ks.len() - 1]);
    } else {
        assert(dedup(p) =~= Seq::<int>::empty());
    }
}

/// Records with their keys and locations.
pub open spec fn keyed_seq(s: Seq<AnnData>) -> Seq<(u64, u32)> {
    s.map_values(|r: AnnData| keyed(r))
}

/// Two sequences that hold the same elements still do after each element
/// is mapped by `f`.
pub proof fn lemma_multiset_map<A, B>(a: Seq<A>, b: Seq<A>, f: spec_fn(A) -> B)
    requires
        a.to_multiset() == b.to_multiset(),
    ensures
        a.map_values(f).to_multiset() == b.map_values(f).to_multiset(),
    decreases a.len(),
{
    broadcast use vstd::seq_lib::group_to_multiset_ensures;
    broadcast use vstd::multiset::group_multiset_axioms;

    vstd::seq_lib::to_multiset_len(a);
    vstd::seq_lib::to_multiset_len(b);
    if a.len() == 0 {
        assert(b.len() == 0);
        assert(a.map_values(f) =~= b.map_values(f));
    } else {
        let x = a.last();
        vstd::seq_lib::to_multiset_contains(a, x);
        vstd::seq_lib::to_multiset_contains(b, x);
        assert(a.contains(x)) by {
            assert(a[a.len() - 1] == x);
        }
        assert(b.contains(x));
        let i = choose|i: int| 0 <= i < b.len() && b[i] == x;
        let a2 = a.drop_last();
        let b2 = b.remove(i);
        assert(a2 =~= a.remove(a.len() - 1));
        assert(a2.to_multiset() == a.to_multiset().remove(x));
        assert(b2.to_multiset() == b.to_multiset().remove(x));
        lemma_multiset_map(a2, b2, f);
        assert(a.map_values(f) =~= a2.map_values(f).push(f(x)));
        assert(b.map_values(f) =~= b2.map_values(f).insert(i, f(x)));
        assert(a2.map_values(f).push(f(x)) =~= a2.map_values(f).insert(a2.len() as int, f(x)));
    }
}

} // verus!
