use crate::node::{fff_entry, sentinel, Node};
use vstd::prelude::*;

verus! {

/// A layer's size once an odd layer has taken its padding node.
pub open spec fn padded(s: int) -> int {
    if s % 2 == 1 {
        s + 1
    } else {
        s
    }
}

/// The number of nodes in layer `k`, the leaves being layer zero.
pub open spec fn layer_size(total: int, k: nat) -> int
    decreases k,
{
    if k == 0 {
        total
    } else {
        padded(layer_size(total, (k - 1) as nat)) / 2
    }
}

/// The position of the first node of layer `k`.
pub open spec fn layer_start(total: int, k: nat) -> int
    decreases k,
{
    if k == 0 {
        0
    } else {
        layer_start(total, (k - 1) as nat) + padded(layer_size(total, (k - 1) as nat))
    }
}

/// How many pairing passes a layer of `s` nodes needs before one node is left.
pub open spec fn layer_count(s: int) -> nat
    decreases s,
{
    if s <= 1 {
        0
    } else {
        1 + layer_count(padded(s) / 2)
    }
}

/// Node `write + j` is what the pairing primitive gave for the pair at
/// `read + 2j` and `read + 2j + 1`.
pub open spec fn parent_ok<C: Fn(Node, Node) -> Node>(
    combine: C,
    nodes: Seq<Node>,
    read: int,
    write: int,
    j: int,
) -> bool {
    call_ensures(combine, (nodes[read + 2 * j], nodes[read + 2 * j + 1]), nodes[write + j])
}

/// The layer of `s` nodes at `read` was padded when odd, and each of its
/// pairs has its parent in the layer that follows it.
pub open spec fn layer_ok<C: Fn(Node, Node) -> Node>(
    combine: C,
    nodes: Seq<Node>,
    read: int,
    s: int,
) -> bool {
    let p = padded(s);
    &&& 0 <= read
    &&& 1 <= s
    &&& read + p + p / 2 <= nodes.len()
    &&& (s % 2 == 1 ==> nodes[read + s] == sentinel())
    &&& forall|j: int| 0 <= j < p / 2 ==> #[trigger] parent_ok(combine, nodes, read, read + p, j)
}

/// `nodes` is the whole tree folded from its first `total` nodes: every
/// layer is paired, and the root is the last node.
pub open spec fn folded<C: Fn(Node, Node) -> Node>(combine: C, nodes: Seq<Node>, total: int) -> bool {
    let n = layer_count(total);
    &&& nodes.len() == layer_start(total, n) + 1
    &&& forall|k: nat|
        k < n ==> #[trigger] layer_ok(combine, nodes, layer_start(total, k), layer_size(total, k))
}

proof fn lemma_layer_count_step(total: int, k: nat)
    requires
        total >= 1,
        k <= layer_count(total),
    ensures
        layer_size(total, k) >= 1,
        layer_count(layer_size(total, k)) == layer_count(total) - k,
    decreases k,
{
    if k > 0 {
        lemma_layer_count_step(total, (k - 1) as nat);
    }
}

proof fn lemma_layer_ok_extend<C: Fn(Node, Node) -> Node>(
    combine: C,
    a: Seq<Node>,
    b: Seq<Node>,
    read: int,
    s: int,
)
    requires
        layer_ok(combine, a, read, s),
        a.len() <= b.len(),
        b.take(a.len() as int) == a,
    ensures
        layer_ok(combine, b, read, s),
{
    let p = padded(s);
    assert forall|i: int| 0 <= i < a.len() implies b[i] == a[i] by {
        assert(b.take(a.len() as int)[i] == b[i]);
    }
    assert forall|j: int| 0 <= j < p / 2 implies #[trigger] parent_ok(combine, b, read, read + p, j) by {
        assert(parent_ok(combine, a, read, read + p, j));
    }
    if s % 2 == 1 {
        assert(b[read + s] == a[read + s]);
    }
}

/// Folds the layer of `total` nodes at the front of `nodes` into a tree:
/// an odd layer is padded with the sentinel, each pair is combined into the
/// next layer, until one node, the root, is left at the end.
pub fn fold_layers<C: Fn(Node, Node) -> Node>(nodes: &mut Vec<Node>, total: usize, combine: C)
    requires
        old(nodes)@.len() == total,
        1 <= total <= usize::MAX / 4,
        forall|a: Node, b: Node| combine.requires((a, b)),
    ensures
        final(nodes)@.len() >= total,
        final(nodes)@.take(total as int) == old(nodes)@,
        folded(combine, final(nodes)@, total as int),
{
    let ghost leaves = nodes@;
    let mut idx: usize = 0;
    let mut cnt: usize = total;
    let ghost mut k: nat = 0;
    proof {
        lemma_layer_count_step(total as int, 0);
    }
    while cnt > 1
        invariant
            1 <= total <= usize::MAX / 4,
            forall|a: Node, b: Node| combine.requires((a, b)),
            nodes@.len() == idx + cnt,
            idx == layer_start(total as int, k),
            cnt == layer_size(total as int, k),
            cnt >= 1,
            k <= layer_count(total as int),
            layer_count(cnt as int) == layer_count(total as int) - k,
            idx + 2 * cnt <= 2 * total + 2 * k,
            cnt + k <= total,
            nodes@.len() >= total,
            nodes@.take(total as int) == leaves,
            forall|k2: nat|
                k2 < k ==> #[trigger] layer_ok(
                    combine,
                    nodes@,
                    layer_start(total as int, k2),
                    layer_size(total as int, k2),
                ),
        decreases cnt,
    {
        let ghost start = nodes@;
        let mut p: usize = cnt;
        if cnt % 2 == 1 {
            nodes.push(fff_entry());
            p = cnt + 1;
        }
        let ghost padded_nodes = nodes@;
        let half: usize = p / 2;
        let mut j: usize = 0;
        while j < half
            invariant
                forall|a: Node, b: Node| combine.requires((a, b)),
                p == padded(cnt as int),
                half == p / 2,
                j <= half,
                idx + 2 * cnt <= 2 * total + 2 * k,
                cnt + k <= total,
                total <= usize::MAX / 4,
                padded_nodes.len() == idx + p,
                nodes@.len() == idx + p + j,
                nodes@.take(idx + p) == padded_nodes,
                forall|j2: int| 0 <= j2 < j ==> #[trigger] parent_ok(combine, nodes@, idx as int, idx + p, j2),
            decreases half - j,
        {
            let ghost prev = nodes@;
            assert(nodes@.take(idx + p)[idx + 2 * j] == nodes@[idx + 2 * j]);
            assert(nodes@.take(idx + p)[idx + 2 * j + 1] == nodes@[idx + 2 * j + 1]);
            let a = nodes[idx + 2 * j];
            let b = nodes[idx + 2 * j + 1];
            let parent = combine(a, b);
            nodes.push(parent);
            assert forall|j2: int| 0 <= j2 < j + 1 implies #[trigger] parent_ok(
                combine,
                nodes@,
                idx as int,
                idx + p,
                j2,
            ) by {
                if j2 < j {
                    assert(parent_ok(combine, prev, idx as int, idx + p, j2));
                }
            }
            assert(nodes@.take(idx + p) =~= padded_nodes);
            j = j + 1;
        }
        proof {
            assert(nodes@.take(start.len() as int) =~= start);
            assert forall|k2: nat| k2 < k + 1 implies #[trigger] layer_ok(
                combine,
                nodes@,
                layer_start(total as int, k2),
                layer_size(total as int, k2),
            ) by {
                if k2 < k {
                    lemma_layer_ok_extend(
                        combine,
                        start,
                        nodes@,
                        layer_start(total as int, k2),
                        layer_size(total as int, k2),
                    );
                } else {
                    if cnt % 2 == 1 {
                        assert(padded_nodes[idx + cnt] == sentinel());
                        assert(nodes@.take(idx + p)[idx + cnt] == nodes@[idx + cnt]);
                    }
                }
            }
            assert(nodes@.take(total as int) =~= leaves) by {
                assert forall|i: int| 0 <= i < total implies nodes@[i] == start[i] by {
                    assert(nodes@.take(start.len() as int)[i] == nodes@[i]);
                }
            }
            lemma_layer_count_step(total as int, k + 1);
        }
        idx = idx + p;
        cnt = half;
        proof {
            k = k + 1;
        }
    }
}

/// The pairing primitive gives one parent for each pair of nodes.
pub open spec fn functional<C: Fn(Node, Node) -> Node>(combine: C) -> bool {
    forall|x: Node, y: Node, n1: Node, n2: Node|
        call_ensures(combine, (x, y), n1) && call_ensures(combine, (x, y), n2) ==> n1 == n2
}

proof fn lemma_folded_prefix<C: Fn(Node, Node) -> Node>(
    combine: C,
    n1: Seq<Node>,
    n2: Seq<Node>,
    total: int,
    k: nat,
)
    requires
        total >= 1,
        k <= layer_count(total),
        folded(combine, n1, total),
        folded(combine, n2, total),
        functional(combine),
        n1.len() >= total,
        n2.len() >= total,
        forall|i: int| 0 <= i < total ==> n1[i] == n2[i],
    ensures
        forall|i: int|
            0 <= i < layer_start(total, k) + layer_size(total, k) && i < n1.len() ==> n1[i] == n2[i],
    decreases k,
{
    if k > 0 {
        let k0 = (k - 1) as nat;
        lemma_folded_prefix(combine, n1, n2, total, k0);
        lemma_layer_count_step(total, k0);
        let r = layer_start(total, k0);
        let s = layer_size(total, k0);
        let p = padded(s);
        assert(layer_ok(combine, n1, r, s));
        assert(layer_ok(combine, n2, r, s));
        assert forall|i: int| 0 <= i < r + p implies n1[i] == n2[i] by {
            if i >= r + s {
                assert(i == r + s);
            }
        }
        assert forall|i: int|
            0 <= i < layer_start(total, k) + layer_size(total, k) && i < n1.len() implies n1[i]
            == n2[i] by {
            if i >= r + p {
                let j = i - (r + p);
                assert(parent_ok(combine, n1, r, r + p, j));
                assert(parent_ok(combine, n2, r, r + p, j));
            }
        }
    }
}

/// Folding is deterministic: with a pairing primitive that gives one parent
/// for each pair, two trees folded from the same leaves are the same.
pub proof fn lemma_folded_unique<C: Fn(Node, Node) -> Node>(
    combine: C,
    n1: Seq<Node>,
    n2: Seq<Node>,
    total: int,
)
    requires
        total >= 1,
        folded(combine, n1, total),
        folded(combine, n2, total),
        functional(combine),
        n1.len() >= total,
        n2.len() >= total,
        forall|i: int| 0 <= i < total ==> n1[i] == n2[i],
    ensures
        n1 == n2,
{
    let n = layer_count(total);
    lemma_layer_count_step(total, n);
    lemma_folded_prefix(combine, n1, n2, total, n);
    assert(n1 =~= n2);
}

} // verus!
