use vstd::prelude::*;

verus! {

/// One node of the tree: a 32-byte hash and the key interval it covers.
/// A leaf holds its record's sort key in `start` and zero in `end`.
#[derive(Clone, Copy, Debug, PartialEq, Eq)]
pub struct Node {
    pub hash: [u8; 32],
    pub start: u64,
    pub end: u64,
}

pub const SENTINEL_BYTE: u8 = 0xff;

/// The reserved node: all hash bytes 0xff, both bounds `u64::MAX`.
pub open spec fn sentinel() -> Node {
    Node {
        hash: vstd::array::spec_array_fill_for_copy_type::<u8, 32>(SENTINEL_BYTE),
        start: u64::MAX,
        end: u64::MAX,
    }
}

/// The node that stands at position zero and pads every odd layer.
pub fn fff_entry() -> (r: Node)
    ensures
        r == sentinel(),
{
    Node { hash: [SENTINEL_BYTE; 32], start: u64::MAX, end: u64::MAX }
}

} // verus!
