//! What trie updates do to the tries, and what merged reverts restore.
use crate::updates::{merged, NodesView, StorageTrieView, TrieUpdatesView};
use alloy_primitives::B256;
use alloy_trie::BranchNodeCompact;
use vstd::prelude::*;

verus! {

/// The nodes of one trie, by path.
pub type Trie = Map<Seq<u8>, BranchNodeCompact>;

/// The account trie and the storage tries, by hashed address.
#[verifier::ext_equal]
pub struct TrieState {
    pub accounts: Trie,
    pub storages: spec_fn(B256) -> Trie,
}

/// The node that stands at a path, if one does.
pub open spec fn node_at(trie: Trie, path: Seq<u8>) -> Option<BranchNodeCompact> {
    if trie.contains_key(path) {
        Some(trie[path])
    } else {
        None
    }
}

/// A trie after the given nodes have been written to it or removed from it.
pub open spec fn patched(trie: Trie, nodes: NodesView) -> Trie {
    Map::new(
        |path: Seq<u8>|
            if nodes.contains_key(path) {
                nodes[path] is Some
            } else {
                trie.contains_key(path)
            },
        |path: Seq<u8>|
            if nodes.contains_key(path) {
                nodes[path]->0
            } else {
                trie[path]
            },
    )
}

impl StorageTrieView {
    /// A storage trie after these updates.
    pub open spec fn apply(self, trie: Trie) -> Trie {
        if self.is_deleted {
            patched(Map::empty(), self.nodes)
        } else {
            patched(trie, self.nodes)
        }
    }
}

impl TrieUpdatesView {
    /// The tries after these updates.
    pub open spec fn apply(self, state: TrieState) -> TrieState {
        TrieState {
            accounts: patched(state.accounts, self.account_nodes),
            storages: |address: B256|
                if self.storage_tries.contains_key(address) {
                    self.storage_tries[address].apply((state.storages)(address))
                } else {
                    (state.storages)(address)
                },
        }
    }
}

/// The tries after the reverts of several blocks, given the oldest first, have been
/// applied one by one from the newest to the oldest.
pub open spec fn reverted(items: Seq<TrieUpdatesView>, state: TrieState) -> TrieState
    decreases items.len(),
{
    if items.len() == 0 {
        state
    } else {
        reverted(items.drop_last(), items.last().apply(state))
    }
}

/// Whether none of the updates deletes a whole storage trie.
pub open spec fn keep_storage(items: Seq<TrieUpdatesView>) -> bool {
    forall|i: int| 0 <= i < items.len() ==> !(#[trigger] items[i]).wipes_storage()
}

proof fn lemma_patched_twice(trie: Trie, newer: NodesView, older: NodesView)
    ensures
        patched(patched(trie, newer), older) == patched(trie, newer.union_prefer_right(older)),
{
    assert(patched(patched(trie, newer), older) =~= patched(
        trie,
        newer.union_prefer_right(older),
    ));
}

/// Updates that delete no storage trie, taken at once, do what they do one after the other.
proof fn lemma_apply_over(older: TrieUpdatesView, newer: TrieUpdatesView, state: TrieState)
    requires
        !older.wipes_storage(),
        !newer.wipes_storage(),
    ensures
        older.over(newer).apply(state) == older.apply(newer.apply(state)),
        !older.over(newer).wipes_storage(),
{
    let both = older.over(newer);
    let left = both.apply(state);
    let right = older.apply(newer.apply(state));
    lemma_patched_twice(state.accounts, newer.account_nodes, older.account_nodes);
    assert forall|address: B256| #[trigger] (left.storages)(address) == (right.storages)(address) by {
        let trie = (state.storages)(address);
        if older.storage_tries.contains_key(address) {
            assert(!older.storage_tries[address].is_deleted);
        }
        if newer.storage_tries.contains_key(address) {
            assert(!newer.storage_tries[address].is_deleted);
        }
        if older.storage_tries.contains_key(address) && newer.storage_tries.contains_key(address) {
            lemma_patched_twice(
                trie,
                newer.storage_tries[address].nodes,
                older.storage_tries[address].nodes,
            );
        }
    }
    assert(left.storages =~= right.storages);
    assert forall|address: B256| #[trigger]
        both.storage_tries.contains_key(address) implies !both.storage_tries[address].is_deleted by {
        if older.storage_tries.contains_key(address) {
            assert(!older.storage_tries[address].is_deleted);
        }
        if newer.storage_tries.contains_key(address) {
            assert(!newer.storage_tries[address].is_deleted);
        }
    }
}

proof fn lemma_merged_applies(items: Seq<TrieUpdatesView>, state: TrieState)
    requires
        keep_storage(items),
    ensures
        merged(items).apply(state) == reverted(items, state),
        !merged(items).wipes_storage(),
    decreases items.len(),
{
    if items.len() == 0 {
        assert(patched(state.accounts, Map::empty()) =~= state.accounts);
        assert(merged(items).apply(state).storages =~= state.storages);
    } else {
        let rest = items.drop_last();
        assert forall|i: int| 0 <= i < rest.len() implies !(#[trigger] rest[i]).wipes_storage() by {
            assert(rest[i] == items[i]);
        }
        assert(!items[items.len() - 1].wipes_storage());
        lemma_merged_applies(rest, items.last().apply(state));
        lemma_apply_over(merged(rest), items.last(), state);
    }
}

proof fn lemma_merged_one(item: TrieUpdatesView)
    ensures
        merged(seq![item]) == item,
{
    reveal_with_fuel(merged, 2);
    assert(seq![item].drop_last() =~= Seq::<TrieUpdatesView>::empty());
    let all = merged(seq![item]);
    assert(all.account_nodes =~= item.account_nodes);
    assert(all.storage_tries =~= item.storage_tries);
}

/// The merged reverts of several blocks do at once what the reverts of each block do one
/// by one, from the newest block to the oldest. With more than one block, none of them may
/// delete a storage trie.
pub proof fn law_merged_reverts_undo_each_block(items: Seq<TrieUpdatesView>, state: TrieState)
    requires
        items.len() == 1 || keep_storage(items),
    ensures
        merged(items).apply(state) == reverted(items, state),
{
    if items.len() == 1 {
        assert(items =~= seq![items[0]]);
        lemma_merged_one(items[0]);
        reveal_with_fuel(reverted, 2);
    } else {
        lemma_merged_applies(items, state);
    }
}

/// The merged reverts of a range restore the state before it: if the reverts of each
/// block lead from the state after the block to the state before it, then the merged ones
/// lead from the state after the last block to the state before the first.
pub proof fn law_merged_reverts_restore(items: Seq<TrieUpdatesView>, states: Seq<TrieState>)
    requires
        items.len() == 1 || keep_storage(items),
        states.len() == items.len() + 1,
        forall|i: int|
            0 <= i < items.len() ==> (#[trigger] items[i]).apply(states[i + 1]) == states[i],
    ensures
        merged(items).apply(states.last()) == states.first(),
{
    law_merged_reverts_undo_each_block(items, states.last());
    lemma_reverted(items, states);
}

proof fn lemma_reverted(items: Seq<TrieUpdatesView>, states: Seq<TrieState>)
    requires
        states.len() == items.len() + 1,
        forall|i: int|
            0 <= i < items.len() ==> (#[trigger] items[i]).apply(states[i + 1]) == states[i],
    ensures
        reverted(items, states.last()) == states.first(),
    decreases items.len(),
{
    if items.len() > 0 {
        let rest = items.drop_last();
        let before = states.drop_last();
        assert(items[items.len() - 1].apply(states.last()) == before.last());
        assert forall|i: int| 0 <= i < rest.len() implies (#[trigger] rest[i]).apply(before[i + 1])
            == before[i] by {
            assert(rest[i] == items[i]);
        }
        lemma_reverted(rest, before);
    }
}

/// Whether two sets of updates say the same of every node that both speak of.
pub open spec fn agree(left: TrieUpdatesView, right: TrieUpdatesView) -> bool {
    &&& forall|path: Seq<u8>|
        left.account_nodes.contains_key(path) && right.account_nodes.contains_key(path)
            ==> #[trigger] left.account_nodes[path] == right.account_nodes[path]
    &&& forall|address: B256, path: Seq<u8>|
        left.storage_tries.contains_key(address) && right.storage_tries.contains_key(address)
            && left.storage_tries[address].nodes.contains_key(path)
            && right.storage_tries[address].nodes.contains_key(path)
            ==> #[trigger] left.storage_tries[address].nodes[path]
            == right.storage_tries[address].nodes[path]
}

/// Whether two sets of updates speak of the same nodes, and delete the same storage tries.
pub open spec fn same_extent(left: TrieUpdatesView, right: TrieUpdatesView) -> bool {
    &&& left.account_nodes.dom() == right.account_nodes.dom()
    &&& left.storage_tries.dom() == right.storage_tries.dom()
    &&& forall|address: B256| #[trigger]
        left.storage_tries.contains_key(address) ==> left.storage_tries[address].is_deleted
            == right.storage_tries[address].is_deleted
            && left.storage_tries[address].nodes.dom() == right.storage_tries[address].nodes.dom()
}

/// A node that updates speak of is afterwards as they say. So it is as any other updates
/// leave it that lead to the same state, even if these do not speak of it.
pub proof fn law_updates_show_what_they_lead_to(
    updates: TrieUpdatesView,
    state: TrieState,
    address: B256,
    path: Seq<u8>,
)
    ensures
        updates.account_nodes.contains_key(path) ==> updates.account_nodes[path] == node_at(
            updates.apply(state).accounts,
            path,
        ),
        updates.storage_tries.contains_key(address)
            && updates.storage_tries[address].nodes.contains_key(path)
            ==> updates.storage_tries[address].nodes[path] == node_at(
            (updates.apply(state).storages)(address),
            path,
        ),
{
}

/// Updates that lead from one state to the same other state agree on every node that both
/// speak of. If they also speak of the same nodes and delete the same storage tries, they
/// are equal.
pub proof fn law_updates_to_one_state_agree(
    left: TrieUpdatesView,
    right: TrieUpdatesView,
    state: TrieState,
)
    requires
        left.apply(state) == right.apply(state),
    ensures
        agree(left, right),
        same_extent(left, right) ==> left == right,
{
    assert forall|path: Seq<u8>|
        left.account_nodes.contains_key(path) && right.account_nodes.contains_key(
            path,
        ) implies #[trigger] left.account_nodes[path] == right.account_nodes[path] by {
        law_updates_show_what_they_lead_to(left, state, arbitrary(), path);
        law_updates_show_what_they_lead_to(right, state, arbitrary(), path);
    }
    assert forall|address: B256, path: Seq<u8>|
        left.storage_tries.contains_key(address) && right.storage_tries.contains_key(address)
            && left.storage_tries[address].nodes.contains_key(path)
            && right.storage_tries[address].nodes.contains_key(
            path,
        ) implies #[trigger] left.storage_tries[address].nodes[path]
        == right.storage_tries[address].nodes[path] by {
        law_updates_show_what_they_lead_to(left, state, address, path);
        law_updates_show_what_they_lead_to(right, state, address, path);
    }
    if same_extent(left, right) {
        assert(left.account_nodes =~= right.account_nodes);
        assert forall|address: B256| #[trigger]
            left.storage_tries.contains_key(address) implies left.storage_tries[address]
            == right.storage_tries[address] by {
            assert(right.storage_tries.dom().contains(address));
            assert(left.storage_tries[address].nodes =~= right.storage_tries[address].nodes);
        }
        assert(left.storage_tries =~= right.storage_tries);
    }
}

} // verus!
