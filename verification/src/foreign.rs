//! Types and functions of outside crates that the cache works with.
//!
//! Everything in this module is taken on trust: each contract repeats what the
//! outside crate's own source shows, and nothing here is proved.
use alloy_primitives::map::{B256Map, FbBuildHasher};
use alloy_primitives::{FixedBytes, B256};
use alloy_trie::BranchNodeCompact;
use vstd::prelude::*;

verus! {

/// `alloy_primitives::FixedBytes`, of which `B256` is the 32 byte case. Block
/// hashes and hashed addresses are carried through unread.
#[verifier::external_type_specification]
#[verifier::external_body]
pub struct ExFixedBytes<const N: usize>(FixedBytes<N>);

/// `alloy_primitives::map::FbBuildHasher`, the hasher of a `B256Map`.
#[verifier::external_type_specification]
#[verifier::external_body]
pub struct ExFbBuildHasher<const N: usize>(FbBuildHasher<N>);

/// `alloy_trie::BranchNodeCompact`, a stored trie node. Nodes are carried
/// through unread.
#[verifier::external_type_specification]
#[verifier::external_body]
pub struct ExBranchNodeCompact(BranchNodeCompact);

/// Calls `==` on two `B256`. The impl is derived on the 32 bytes, so it answers
/// whether the two are the same value.
#[verifier::external_body]
pub(crate) fn same_hash(left: &B256, right: &B256) -> (same: bool)
    ensures
        same == (*left == *right),
{
    left == right
}

/// Calls `BranchNodeCompact::clone`. The impl is derived, and every field's own
/// clone is equal to the field, so the copy is the same value.
#[verifier::external_body]
pub(crate) fn clone_node(node: &BranchNodeCompact) -> (copy: BranchNodeCompact)
    ensures
        copy == *node,
{
    node.clone()
}

/// Calls `insert` on a `B256Map`: the key then maps to the value, and every
/// other key is as it was. The former value is dropped.
#[verifier::external_body]
pub(crate) fn b256_map_insert<V>(map: &mut B256Map<V>, key: B256, value: V)
    ensures
        final(map)@ == old(map)@.insert(key, value),
{
    map.insert(key, value);
}

/// Calls `get` on a `B256Map`: the value that the key maps to, if there is one.
#[verifier::external_body]
pub(crate) fn b256_map_get<'a, V>(map: &'a B256Map<V>, key: &B256) -> (value: Option<&'a V>)
    ensures
        match value {
            Some(v) => map@.contains_key(*key) && *v == map@[*key],
            None => !map@.contains_key(*key),
        },
{
    map.get(key)
}

/// Calls `keys` on a `B256Map` and collects them: every key once, in no
/// particular order.
#[verifier::external_body]
pub(crate) fn b256_map_keys<V>(map: &B256Map<V>) -> (keys: Vec<B256>)
    ensures
        keys@.no_duplicates(),
        keys@.to_set() == map@.dom(),
{
    map.keys().copied().collect()
}

} // verus!
