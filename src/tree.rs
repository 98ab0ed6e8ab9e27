use crate::buffer::{
    buf_contents, buf_put_slice, buf_put_u32_le, buf_put_u64_le, buf_with_capacity, le32, le64,
};
use crate::fold::{fold_layers, folded};
use crate::node::{fff_entry, sentinel, Node};
use crate::records::{
    dedup, keyed, keyed_seq, keys, lemma_dedup_bounds, lemma_last_kept_sorted, lemma_multiset_map,
    position_of, sort_prefix_by_key, sorted_prefix, AnnData,
};
use vstd::prelude::*;

verus! {

/// Why a request on the tree was refused.
#[derive(Clone, Copy, Debug, PartialEq, Eq, Structural)]
pub enum TreeError {
    /// `compute` on a tree that holds a root; `reset` first.
    AlreadyComputed,
    /// `compute` on no records.
    EmptyInput,
    /// `compute` on more records than the tree was made for.
    CapacityExceeded,
    /// A commitment or a proof asked of a tree that holds no root.
    NotComputed,
    /// A proof asked for a leaf at or past the number of unique records.
    IndexOutOfRange,
}

/// The length of a commitment in bytes.
pub const COMMIT_LEN: usize = 48;

/// The four bytes that open every commitment.
pub const COMMIT_TAG: [u8; 4] = [0x09, 0xf9, 0x11, 0x02];

/// A commitment tree over a reusable buffer of announcement records.
pub struct ProofTree {
    /// The most records one `compute` takes.
    pub capacity: u32,
    /// The number of unique records of the last `compute`, zero when none stands.
    pub size: u32,
    /// Every node of the last tree built: the leaves from position zero, then
    /// each layer above them, the root last.
    pub nodes: Vec<Node>,
    /// The root's hash, present exactly when the tree is computed.
    pub root_hash: Option<[u8; 32]>,
    /// The record buffer: `compute(count)` works on its first `count` entries.
    pub ann_data: Vec<AnnData>,
    /// The location of each unique record, entry `i` for leaf position `i + 1`.
    pub index_table: Vec<u32>,
}

/// The commitment: the tag, the work parameter, the root hash and
/// the number of unique records, integers little-endian.
pub open spec fn commit_bytes(ann_min_work: u32, root: [u8; 32], size: u32) -> Seq<u8> {
    seq![0x09u8, 0xf9u8, 0x11u8, 0x02u8] + le32(ann_min_work) + root@ + le64(size as u64)
}

/// Leaf `p` holds the hash that the lookup gave for `p`, and `key`.
pub open spec fn leaf_ok<L: Fn(u32) -> [u8; 32]>(lookup: L, nodes: Seq<Node>, p: int, key: u64) -> bool {
    &&& call_ensures(lookup, (p as u32,), nodes[p].hash)
    &&& nodes[p].start == key
    &&& nodes[p].end == 0
}

/// The first nodes are the sentinel and then one leaf for each record that
/// deduplication of `s` keeps, in order.
pub open spec fn leaves_ok<L: Fn(u32) -> [u8; 32]>(lookup: L, nodes: Seq<Node>, s: Seq<AnnData>) -> bool {
    let ks = keys(s);
    let kept = dedup(ks);
    &&& nodes.len() > kept.len()
    &&& nodes[0] == sentinel()
    &&& forall|p: int| 1 <= p <= kept.len() ==> #[trigger] leaf_ok(lookup, nodes, p, ks[kept[p - 1]])
}

/// `after` is what a successful `compute(count)` makes of `before`: the first `count`
/// records are sorted by key (a permutation of what they were), each carries
/// its leaf position, the index table lists the kept locations, and the
/// nodes are the leaves folded into a tree whose root hash is committed.
pub open spec fn built<L: Fn(u32) -> [u8; 32], C: Fn(Node, Node) -> Node>(
    before: ProofTree,
    after: ProofTree,
    count: int,
    lookup: L,
    combine: C,
) -> bool {
    let s = after.ann_data@.take(count);
    let ks = keys(s);
    let kept = dedup(ks);
    &&& after.capacity == before.capacity
    &&& after.ann_data@.len() == before.ann_data@.len()
    &&& after.ann_data@.skip(count) == before.ann_data@.skip(count)
    &&& keyed_seq(s).to_multiset() == keyed_seq(before.ann_data@.take(count)).to_multiset()
    &&& sorted_prefix(s, count)
    &&& forall|i: int| 0 <= i < count ==> (#[trigger] s[i]).index == position_of(ks, i)
    &&& after.index_table@ == kept.map_values(|j: int| s[j].mloc)
    &&& after.size == kept.len()
    &&& leaves_ok(lookup, after.nodes@, s)
    &&& folded(combine, after.nodes@, kept.len() + 1int)
    &&& after.root_hash == Some(after.nodes@.last().hash)
}

impl ProofTree {
    /// The tree's state is consistent: the buffer has room for `capacity`
    /// records, and a root stands exactly with its size and nodes.
    pub open spec fn wf(&self) -> bool {
        &&& self.ann_data@.len() == self.capacity
        &&& self.capacity < usize::MAX / 4
        &&& self.root_hash.is_none() ==> self.size == 0
        &&& self.root_hash.is_some() ==> {
            &&& self.size == self.index_table@.len()
            &&& self.nodes@.len() >= 1
            &&& self.root_hash == Some(self.nodes@.last().hash)
        }
    }

    /// The tree as `reset` leaves it.
    pub open spec fn after_reset(self) -> ProofTree {
        ProofTree { size: 0, root_hash: None, ..self }
    }

    /// A tree for batches of up to `max_anns` records, not computed.
    pub fn new(max_anns: u32) -> (r: ProofTree)
        requires
            max_anns < usize::MAX / 4,
        ensures
            r.wf(),
            r.capacity == max_anns,
            r.size == 0,
            r.root_hash.is_none(),
            r.index_table@.len() == 0,
            r.nodes@.len() == 0,
            forall|i: int| 0 <= i < max_anns ==> #[trigger] r.ann_data@[i] == (AnnData { hash_pfx: 0, mloc: 0, index: 0 }),
    {
        let mut ann_data: Vec<AnnData> = Vec::new();
        let mut i: u32 = 0;
        while i < max_anns
            invariant
                i <= max_anns,
                ann_data@.len() == i,
                forall|j: int| 0 <= j < i ==> #[trigger] ann_data@[j] == (AnnData { hash_pfx: 0, mloc: 0, index: 0 }),
            decreases max_anns - i,
        {
            ann_data.push(AnnData { hash_pfx: 0, mloc: 0, index: 0 });
            i = i + 1;
        }
        ProofTree {
            capacity: max_anns,
            size: 0,
            nodes: Vec::new(),
            root_hash: None,
            ann_data,
            index_table: Vec::with_capacity(max_anns as usize),
        }
    }

    /// Drops the committed root so that `compute` may run again.
    pub fn reset(&mut self)
        requires
            old(self).wf(),
        ensures
            *final(self) == old(self).after_reset(),
            final(self).wf(),
    {
        self.size = 0;
        self.root_hash = None;
    }

    /// Deduplicates the first `count` records, which are in order of key:
    /// each is given its leaf position, the index table lists the kept
    /// locations, and the returned nodes are the sentinel and the leaves.
    fn place_records<L: Fn(u32) -> [u8; 32]>(&mut self, count: usize, lookup: &L) -> (nodes: Vec<Node>)
        requires
            0 < count <= old(self).capacity,
            old(self).ann_data@.len() == old(self).capacity,
            sorted_prefix(old(self).ann_data@, count as int),
            forall|p: u32| lookup.requires((p,)),
        ensures
            ({
                let sorted = old(self).ann_data@;
                let ks = keys(sorted.take(count as int));
                let kept = dedup(ks);
                &&& final(self).capacity == old(self).capacity
                &&& final(self).root_hash == old(self).root_hash
                &&& final(self).size == old(self).size
                &&& final(self).nodes == old(self).nodes
                &&& final(self).ann_data@.len() == sorted.len()
                &&& forall|j: int|
                    0 <= j < count ==> #[trigger] final(self).ann_data@[j] == (AnnData {
                        index: position_of(ks, j),
                        ..sorted[j]
                    })
                &&& forall|j: int| count <= j < sorted.len() ==> #[trigger] final(self).ann_data@[j] == sorted[j]
                &&& kept.len() <= count
                &&& final(self).index_table@ == kept.map_values(|j: int| sorted[j].mloc)
                &&& nodes@.len() == kept.len() + 1
                &&& nodes@[0] == sentinel()
                &&& forall|p: int| 1 <= p <= kept.len() ==> #[trigger] leaf_ok(*lookup, nodes@, p, ks[kept[p - 1]])
            }),
    {
        let ghost sorted = self.ann_data@;
        let ghost ks = keys(sorted.take(count as int));
        self.index_table.clear();
        let mut nodes: Vec<Node> = Vec::new();
        nodes.push(fff_entry());
        let mut last_pfx: u64 = 0;
        let mut i: usize = 0;
        while i < count
            invariant
                self.capacity == old(self).capacity,
                self.root_hash == old(self).root_hash,
                self.size == old(self).size,
                self.nodes == old(self).nodes,
                0 < count <= self.capacity,
                self.ann_data@.len() == sorted.len(),
                sorted.len() == self.capacity,
                sorted_prefix(sorted, count as int),
                ks == keys(sorted.take(count as int)),
                i <= count,
                forall|p: u32| lookup.requires((p,)),
                forall|j: int|
                    0 <= j < i ==> #[trigger] self.ann_data@[j] == (AnnData {
                        index: position_of(ks, j),
                        ..sorted[j]
                    }),
                forall|j: int| i <= j < sorted.len() ==> #[trigger] self.ann_data@[j] == sorted[j],
                dedup(ks.take(i as int)).len() <= i,
                self.index_table@ == dedup(ks.take(i as int)).map_values(|j: int| sorted[j].mloc),
                nodes@.len() == dedup(ks.take(i as int)).len() + 1,
                nodes@[0] == sentinel(),
                forall|p: int|
                    1 <= p <= dedup(ks.take(i as int)).len() ==> #[trigger] leaf_ok(
                        *lookup,
                        nodes@,
                        p,
                        ks[dedup(ks.take(i as int))[p - 1]],
                    ),
                last_pfx == (if i == 0 {
                    0
                } else {
                    ks[i - 1]
                }),
            decreases count - i,
        {
            let ghost pre = ks.take(i as int);
            let ghost kept = dedup(pre);
            let ghost prev_nodes = nodes@;
            proof {
                assert(ks.take(i + 1).drop_last() =~= pre);
                assert(ks.take(i + 1).last() == ks[i as int]);
                lemma_dedup_bounds(pre);
                if i > 0 {
                    assert forall|a: int, b: int| 0 <= a < b < pre.len() implies pre[a] <= pre[b] by {
                        assert(sorted[a].hash_pfx <= sorted[b].hash_pfx);
                    }
                    lemma_last_kept_sorted(pre);
                    assert(sorted[i - 1].hash_pfx <= sorted[i as int].hash_pfx);
                } else {
                    assert(kept =~= Seq::<int>::empty());
                }
                assert(ks[i as int] == sorted[i as int].hash_pfx);
            }
            let d = self.ann_data[i];
            if d.hash_pfx > last_pfx {
                self.index_table.push(d.mloc);
                let pos = self.index_table.len() as u32;
                self.ann_data.set(i, AnnData { hash_pfx: d.hash_pfx, mloc: d.mloc, index: pos });
                let h = lookup(pos);
                nodes.push(Node { hash: h, start: d.hash_pfx, end: 0 });
                last_pfx = d.hash_pfx;
                proof {
                    assert(dedup(ks.take(i + 1)) == kept.push(i as int));
                    assert forall|p: int|
                        1 <= p <= dedup(ks.take(i + 1)).len() implies #[trigger] leaf_ok(
                        *lookup,
                        nodes@,
                        p,
                        ks[dedup(ks.take(i + 1))[p - 1]],
                    ) by {
                        if p <= kept.len() {
                            assert(leaf_ok(*lookup, prev_nodes, p, ks[kept[p - 1]]));
                        }
                    }
                    assert(self.index_table@ =~= dedup(ks.take(i + 1)).map_values(|j: int| sorted[j].mloc));
                }
            } else {
                self.ann_data.set(i, AnnData { hash_pfx: d.hash_pfx, mloc: d.mloc, index: 0 });
                proof {
                    assert(dedup(ks.take(i + 1)) == kept);
                }
            }
            i = i + 1;
        }
        proof {
            assert(ks.take(count as int) =~= ks);
        }
        nodes
    }

    /// Sorts and deduplicates the first `count` records, builds the tree over
    /// the unique ones and commits its root. `lookup` gives the hash of the
    /// leaf at a position; `combine` pairs two sibling nodes into their parent.
    pub fn compute<L: Fn(u32) -> [u8; 32], C: Fn(Node, Node) -> Node>(
        &mut self,
        count: usize,
        lookup: L,
        combine: C,
    ) -> (r: Result<(), TreeError>)
        requires
            old(self).wf(),
            forall|p: u32| lookup.requires((p,)),
            forall|a: Node, b: Node| combine.requires((a, b)),
        ensures
            final(self).wf(),
            old(self).root_hash.is_some() ==> r == Err::<(), TreeError>(TreeError::AlreadyComputed),
            old(self).root_hash.is_none() && count == 0 ==> r == Err::<(), TreeError>(TreeError::EmptyInput),
            old(self).root_hash.is_none() && count > old(self).capacity ==> r == Err::<(), TreeError>(
                TreeError::CapacityExceeded,
            ),
            r.is_err() ==> *final(self) == *old(self),
            old(self).root_hash.is_none() && 0 < count <= old(self).capacity ==> {
                &&& r == Ok::<(), TreeError>(())
                &&& built(*old(self), *final(self), count as int, lookup, combine)
            },
    {
        if self.root_hash.is_some() {
            return Err(TreeError::AlreadyComputed);
        }
        if count == 0 {
            return Err(TreeError::EmptyInput);
        }
        if count > self.capacity as usize {
            return Err(TreeError::CapacityExceeded);
        }
        let ghost start = *self;
        sort_prefix_by_key(&mut self.ann_data, count);
        let ghost sorted = self.ann_data@;
        let ghost ks = keys(sorted.take(count as int));
        let mut nodes = self.place_records(count, &lookup);
        let total: usize = self.index_table.len() + 1;
        let ghost leaves = nodes@;
        fold_layers(&mut nodes, total, combine);
        let root = nodes[nodes.len() - 1].hash;
        self.nodes = nodes;
        self.root_hash = Some(root);
        self.size = self.index_table.len() as u32;
        proof {
            let s = self.ann_data@.take(count as int);
            lemma_dedup_bounds(ks);
            assert(keys(s) =~= ks);
            assert forall|j: int| 0 <= j < count implies s[j].mloc == sorted[j].mloc && s[j].hash_pfx
                == sorted[j].hash_pfx by {}
            assert(self.index_table@ =~= dedup(ks).map_values(|j: int| s[j].mloc));
            assert forall|p: int| 1 <= p <= dedup(ks).len() implies #[trigger] leaf_ok(
                lookup,
                self.nodes@,
                p,
                ks[dedup(ks)[p - 1]],
            ) by {
                assert(leaf_ok(lookup, leaves, p, ks[dedup(ks)[p - 1]]));
                assert(self.nodes@.take(total as int)[p] == self.nodes@[p]);
            }
            assert(self.nodes@.take(total as int)[0] == self.nodes@[0]);
            assert(self.ann_data@.skip(count as int) =~= start.ann_data@.skip(count as int)) by {
                assert(sorted.skip(count as int) == start.ann_data@.skip(count as int));
                assert forall|j: int| 0 <= j < sorted.len() - count implies self.ann_data@.skip(count as int)[j]
                    == sorted.skip(count as int)[j] by {
                    assert(self.ann_data@[count + j] == sorted[count + j]);
                }
            }
            assert(keyed_seq(s) =~= keyed_seq(sorted.take(count as int)));
            lemma_multiset_map(
                sorted.take(count as int),
                start.ann_data@.take(count as int),
                |r: AnnData| keyed(r),
            );
        }
        Ok(())
    }

    /// The commitment to the computed tree, carrying `ann_min_work`.
    pub fn get_commit(&self, ann_min_work: u32) -> (r: Result<bytes::BytesMut, TreeError>)
        ensures
            self.root_hash.is_none() ==> r.is_err() && r->Err_0 == TreeError::NotComputed,
            self.root_hash.is_some() ==> r.is_ok() && buf_contents(r->Ok_0) == commit_bytes(
                ann_min_work,
                self.root_hash->Some_0,
                self.size,
            ),
            r.is_ok() ==> buf_contents(r->Ok_0).len() == COMMIT_LEN,
    {
        let hash = match &self.root_hash {
            Some(h) => h,
            None => {
                return Err(TreeError::NotComputed);
            },
        };
        let mut out = buf_with_capacity(COMMIT_LEN);
        let tag = COMMIT_TAG;
        buf_put_slice(&mut out, tag.as_slice());
        buf_put_u32_le(&mut out, ann_min_work);
        buf_put_slice(&mut out, hash.as_slice());
        buf_put_u64_le(&mut out, self.size as u64);
        proof {
            assert(tag@ =~= seq![0x09u8, 0xf9u8, 0x11u8, 0x02u8]);
        }
        Ok(out)
    }

    /// An inclusion proof for four leaves, numbered from zero among the
    /// unique records: `prove` is handed the tree's nodes and the numbers,
    /// and the bytes it gives are returned as they are.
    pub fn mk_proof<P: Fn(&Vec<Node>, &[u64; 4]) -> Vec<u8>>(
        &mut self,
        ann_nums: &[u64; 4],
        prove: P,
    ) -> (r: Result<bytes::BytesMut, TreeError>)
        requires
            forall|t: &Vec<Node>, a: &[u64; 4]| prove.requires((t, a)),
        ensures
            *final(self) == *old(self),
            old(self).root_hash.is_none() ==> r.is_err() && r->Err_0 == TreeError::NotComputed,
            old(self).root_hash.is_some() && (exists|i: int| 0 <= i < 4 && ann_nums[i] >= old(self).size)
                ==> r.is_err() && r->Err_0 == TreeError::IndexOutOfRange,
            old(self).root_hash.is_some() && (forall|i: int| 0 <= i < 4 ==> ann_nums[i] < old(self).size)
                ==> r.is_ok() && exists|v: Vec<u8>|
                call_ensures(prove, (&old(self).nodes, ann_nums), v) && buf_contents(r->Ok_0) == v@,
    {
        if self.root_hash.is_none() {
            return Err(TreeError::NotComputed);
        }
        let mut i: usize = 0;
        while i < 4
            invariant
                i <= 4,
                self.root_hash.is_some(),
                forall|j: int| 0 <= j < i ==> ann_nums[j] < self.size,
            decreases 4 - i,
        {
            if ann_nums[i] >= self.size as u64 {
                return Err(TreeError::IndexOutOfRange);
            }
            i = i + 1;
        }
        let bytes = prove(&self.nodes, ann_nums);
        let mut out = buf_with_capacity(0);
        buf_put_slice(&mut out, bytes.as_slice());
        Ok(out)
    }
}

} // verus!
