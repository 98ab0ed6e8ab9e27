use prooftree::node::{fff_entry, Node};
use prooftree::records::AnnData;
use prooftree::tree::{ProofTree, TreeError};

fn lookup(p: u32) -> [u8; 32] {
    let mut h = [0u8; 32];
    h[0] = p as u8;
    h[1] = (p >> 8) as u8;
    h[31] = 0x5a;
    h
}

fn combine(a: Node, b: Node) -> Node {
    let mut hash = [0u8; 32];
    for i in 0..32 {
        hash[i] = a.hash[i].wrapping_mul(3).wrapping_add(b.hash[(i + 1) % 32]).wrapping_add(i as u8);
    }
    Node { hash, start: a.start, end: b.start }
}

fn rec(hash_pfx: u64, mloc: u32) -> AnnData {
    AnnData { hash_pfx, mloc, index: 0 }
}

fn load(tree: &mut ProofTree, recs: &[AnnData]) {
    for (i, r) in recs.iter().enumerate() {
        tree.ann_data[i] = *r;
    }
}

fn built(capacity: u32, recs: &[AnnData]) -> ProofTree {
    let mut tree = ProofTree::new(capacity);
    load(&mut tree, recs);
    assert_eq!(tree.compute(recs.len(), lookup, combine), Ok(()));
    tree
}

fn leaf(p: u32, key: u64) -> Node {
    Node { hash: lookup(p), start: key, end: 0 }
}

#[test]
fn three_records_with_one_duplicate() {
    let (a, b, c) = (100, 200, 300);
    let tree = built(10, &[rec(5, a), rec(3, b), rec(5, c)]);
    assert_eq!(tree.size, 2);
    assert_eq!(tree.index_table, vec![b, a]);
    let commit = tree.get_commit(7).unwrap();
    assert_eq!(commit.len(), 48);
    assert_eq!(&commit[40..48], &[2, 0, 0, 0, 0, 0, 0, 0]);
}

#[test]
fn duplicate_gets_position_zero() {
    let tree = built(10, &[rec(5, 100), rec(3, 200), rec(5, 300)]);
    let placed: Vec<(u64, u32)> = tree.ann_data[..3].iter().map(|d| (d.hash_pfx, d.index)).collect();
    assert_eq!(placed, vec![(3, 1), (5, 2), (5, 0)]);
}

#[test]
fn commitment_layout() {
    let tree = built(4, &[rec(9, 1), rec(4, 2)]);
    let root = tree.root_hash.unwrap();
    let commit = tree.get_commit(0x0403_0201).unwrap();
    let mut expected = vec![0x09, 0xf9, 0x11, 0x02, 0x01, 0x02, 0x03, 0x04];
    expected.extend_from_slice(&root);
    expected.extend_from_slice(&[2, 0, 0, 0, 0, 0, 0, 0]);
    assert_eq!(&commit[..], &expected[..]);
}

#[test]
fn commit_before_compute_fails() {
    let tree = ProofTree::new(4);
    assert_eq!(tree.get_commit(1).unwrap_err(), TreeError::NotComputed);
}

#[test]
fn proof_before_compute_fails() {
    let mut tree = ProofTree::new(4);
    let r = tree.mk_proof(&[0, 0, 0, 0], |_t: &Vec<Node>, _a: &[u64; 4]| vec![1u8]);
    assert_eq!(r.unwrap_err(), TreeError::NotComputed);
}

#[test]
fn proof_index_equal_to_size_fails() {
    let mut tree = built(10, &[rec(5, 1), rec(3, 2), rec(5, 3)]);
    let r = tree.mk_proof(&[0, 1, 2, 0], |_t: &Vec<Node>, _a: &[u64; 4]| vec![1u8]);
    assert_eq!(r.unwrap_err(), TreeError::IndexOutOfRange);
}

#[test]
fn proof_bytes_pass_through() {
    let mut tree = built(10, &[rec(5, 1), rec(3, 2), rec(8, 3)]);
    let r = tree.mk_proof(&[0, 1, 2, 1], |t: &Vec<Node>, a: &[u64; 4]| {
        vec![t.len() as u8, a[0] as u8, a[1] as u8, a[2] as u8, a[3] as u8, 0xee]
    });
    let out = r.unwrap();
    assert_eq!(&out[..], &[tree.nodes.len() as u8, 0, 1, 2, 1, 0xee]);
}

#[test]
fn empty_input_fails() {
    let mut tree = ProofTree::new(4);
    assert_eq!(tree.compute(0, lookup, combine), Err(TreeError::EmptyInput));
    assert!(tree.root_hash.is_none());
}

#[test]
fn exactly_capacity_succeeds() {
    let tree = built(3, &[rec(1, 1), rec(2, 2), rec(3, 3)]);
    assert_eq!(tree.size, 3);
}

#[test]
fn over_capacity_fails() {
    let mut tree = ProofTree::new(3);
    load(&mut tree, &[rec(1, 1), rec(2, 2), rec(3, 3)]);
    assert_eq!(tree.compute(4, lookup, combine), Err(TreeError::CapacityExceeded));
    assert!(tree.root_hash.is_none());
}

#[test]
fn second_compute_needs_reset() {
    let mut tree = built(4, &[rec(1, 1), rec(2, 2)]);
    let root = tree.root_hash;
    assert_eq!(tree.compute(2, lookup, combine), Err(TreeError::AlreadyComputed));
    assert_eq!(tree.root_hash, root);
}

#[test]
fn reset_then_compute_other_records() {
    let mut tree = built(4, &[rec(1, 1), rec(2, 2), rec(3, 3)]);
    tree.reset();
    assert!(tree.root_hash.is_none());
    assert_eq!(tree.size, 0);
    assert_eq!(tree.get_commit(0).unwrap_err(), TreeError::NotComputed);
    load(&mut tree, &[rec(7, 9), rec(6, 8)]);
    assert_eq!(tree.compute(2, lookup, combine), Ok(()));
    let fresh = built(4, &[rec(7, 9), rec(6, 8)]);
    assert_eq!(tree.root_hash, fresh.root_hash);
    assert_eq!(tree.size, 2);
    assert_eq!(tree.index_table, vec![8, 9]);
}

#[test]
fn order_of_records_does_not_change_root() {
    let one = built(8, &[rec(4, 1), rec(9, 2), rec(2, 3), rec(9, 2), rec(7, 5)]);
    let two = built(8, &[rec(9, 2), rec(7, 5), rec(9, 2), rec(4, 1), rec(2, 3)]);
    assert_eq!(one.root_hash, two.root_hash);
    assert_eq!(one.size, two.size);
    assert_eq!(one.get_commit(3).unwrap()[..], two.get_commit(3).unwrap()[..]);
}

#[test]
fn distinct_keys_all_kept_in_key_order() {
    let tree = built(8, &[rec(40, 4), rec(10, 1), rec(30, 3), rec(20, 2)]);
    assert_eq!(tree.size, 4);
    assert_eq!(tree.index_table, vec![1, 2, 3, 4]);
}

#[test]
fn duplicates_reduce_unique_count() {
    let tree = built(8, &[rec(6, 1), rec(6, 2), rec(6, 3), rec(2, 4), rec(2, 5)]);
    assert_eq!(tree.size, 2);
    assert_eq!(tree.index_table.len(), 2);
    assert_eq!(tree.index_table[0] == 4 || tree.index_table[0] == 5, true);
}

#[test]
fn zero_key_is_dropped() {
    let tree = built(4, &[rec(0, 1), rec(5, 2)]);
    assert_eq!(tree.size, 1);
    assert_eq!(tree.index_table, vec![2]);
}

#[test]
fn sentinel_node() {
    let n = fff_entry();
    assert_eq!(n.hash, [0xff; 32]);
    assert_eq!(n.start, u64::MAX);
    assert_eq!(n.end, u64::MAX);
}

#[test]
fn tree_of_three_leaves_is_padded() {
    // Two unique records and the sentinel: three leaves, one padding node.
    let tree = built(4, &[rec(8, 1), rec(3, 2)]);
    let s = fff_entry();
    let l1 = leaf(1, 3);
    let l2 = leaf(2, 8);
    let left = combine(s, l1);
    let right = combine(l2, s);
    let root = combine(left, right);
    assert_eq!(tree.nodes, vec![s, l1, l2, s, left, right, root]);
    assert_eq!(tree.root_hash, Some(root.hash));
}

#[test]
fn tree_of_four_leaves_needs_no_padding() {
    let tree = built(4, &[rec(8, 1), rec(3, 2), rec(5, 3)]);
    let s = fff_entry();
    let (l1, l2, l3) = (leaf(1, 3), leaf(2, 5), leaf(3, 8));
    let left = combine(s, l1);
    let right = combine(l2, l3);
    let root = combine(left, right);
    assert_eq!(tree.nodes, vec![s, l1, l2, l3, left, right, root]);
}

#[test]
fn single_record_tree() {
    // The sentinel and one leaf fold into one root.
    let tree = built(1, &[rec(5, 1)]);
    let root = combine(fff_entry(), leaf(1, 5));
    assert_eq!(tree.nodes.len(), 3);
    assert_eq!(tree.root_hash, Some(root.hash));
}
