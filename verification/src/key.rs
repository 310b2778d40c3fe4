//! Keys of the changeset cache.
use crate::foreign::same_hash;
use alloy_primitives::B256;
use vstd::prelude::*;

verus! {

/// Cache key for one contiguous range of canonical trie changesets.
///
/// The end block hash disambiguates canonical rewrites where the same block
/// numbers later refer to a different chain. For a single block, `start_block ==
/// end_block` and `end_block_hash` is that block's hash.
#[derive(Debug, Clone, Copy, Eq, PartialOrd, Ord, Hash)]
pub struct ChangesetRangeKey {
    pub start_block: u64,
    pub end_block: u64,
    pub end_block_hash: B256,
}

/// The key of the blocks `start_block..=end_block` that end in the given hash.
pub open spec fn range_key(start_block: u64, end_block: u64, end_block_hash: B256) -> ChangesetRangeKey {
    ChangesetRangeKey { start_block, end_block, end_block_hash }
}

/// The key of one block.
pub open spec fn block_key(block_number: u64, block_hash: B256) -> ChangesetRangeKey {
    range_key(block_number, block_number, block_hash)
}

impl ChangesetRangeKey {
    /// The key of the blocks `start_block..=end_block`.
    pub fn new(start_block: u64, end_block: u64, end_block_hash: B256) -> (key: Self)
        ensures
            key == range_key(start_block, end_block, end_block_hash),
            key.start_block == start_block,
            key.end_block == end_block,
            key.end_block_hash == end_block_hash,
    {
        Self { start_block, end_block, end_block_hash }
    }

    /// The key of one block.
    pub fn single(block_number: u64, block_hash: B256) -> (key: Self)
        ensures
            key == block_key(block_number, block_hash),
            key.start_block == block_number,
            key.end_block == block_number,
            key.end_block_hash == block_hash,
    {
        Self::new(block_number, block_number, block_hash)
    }
}

impl PartialEq for ChangesetRangeKey {
    fn eq(&self, other: &Self) -> (same: bool) {
        self.start_block == other.start_block && self.end_block == other.end_block && same_hash(
            &self.end_block_hash,
            &other.end_block_hash,
        )
    }
}

impl vstd::std_specs::cmp::PartialEqSpecImpl for ChangesetRangeKey {
    open spec fn obeys_eq_spec() -> bool {
        true
    }

    open spec fn eq_spec(&self, other: &Self) -> bool {
        *self == *other
    }
}

} // verus!
