//! The trie updates of a block, and the tries they describe.
use alloy_primitives::map::B256Map;
use alloy_primitives::B256;
use alloy_trie::BranchNodeCompact;
use changeset_cache::block_updates::{collect_block_trie_updates, CollectStep};
use changeset_cache::nibbles::{Nibbles, PathOrder};
use changeset_cache::updates::{StorageTrieUpdatesSorted, TrieUpdatesSorted};
use std::collections::BTreeMap;
use std::sync::Arc;

type Trie = BTreeMap<Vec<u8>, BranchNodeCompact>;

#[derive(Clone, Debug, Default, PartialEq)]
struct Tries {
    accounts: Trie,
    storages: BTreeMap<B256, Trie>,
}

fn node(mask: u16) -> BranchNodeCompact {
    BranchNodeCompact::new(mask, 0, 0, vec![], None)
}

fn path(nibbles: &[u8]) -> Nibbles {
    Nibbles::from_nibbles(nibbles.to_vec())
}

fn apply_nodes(trie: &mut Trie, nodes: &[(Nibbles, Option<BranchNodeCompact>)]) {
    for (path, node) in nodes {
        match node {
            Some(node) => {
                trie.insert(path.as_slice().to_vec(), node.clone());
            }
            None => {
                trie.remove(path.as_slice());
            }
        }
    }
}

fn apply(tries: &mut Tries, updates: &TrieUpdatesSorted) {
    apply_nodes(&mut tries.accounts, updates.account_nodes_ref());
    for (address, trie) in updates.storage_tries_ref() {
        let storage = tries.storages.entry(*address).or_default();
        if trie.is_deleted() {
            storage.clear();
        }
        apply_nodes(storage, trie.storage_nodes_ref());
    }
}

/// Collects updates, and counts the storage tries that were opened.
fn collect(changesets: &Arc<TrieUpdatesSorted>, tries: &Tries) -> (TrieUpdatesSorted, usize) {
    let mut open: Option<B256> = None;
    let mut opened = 0;
    let mut step = collect_block_trie_updates(Arc::clone(changesets));
    loop {
        step = match step {
            CollectStep::AccountNode(needed) => {
                let found = tries.accounts.get(needed.path().as_slice()).cloned();
                needed.found(found)
            }
            CollectStep::StorageTrie(needed) => {
                open = Some(needed.address());
                opened += 1;
                needed.opened()
            }
            CollectStep::StorageNode(needed) => {
                let trie = tries.storages.get(&open.unwrap());
                let found = trie.and_then(|trie| trie.get(needed.path().as_slice())).cloned();
                needed.found(found)
            }
            CollectStep::Done(updates) => return (updates, opened),
        };
    }
}

fn fixture() -> (Arc<TrieUpdatesSorted>, Tries) {
    let first = B256::with_last_byte(1);
    let second = B256::with_last_byte(2);
    let third = B256::with_last_byte(3);
    let mut after = Tries::default();
    after.accounts.insert(vec![1], node(0b0001));
    after.accounts.insert(vec![2], node(0b0010));
    after.accounts.insert(vec![9], node(0b1001));
    after.storages.entry(first).or_default().insert(vec![4, 4], node(0b0100));
    after.storages.entry(first).or_default().insert(vec![5], node(0b0101));
    after.storages.entry(second).or_default().insert(vec![6], node(0b0110));
    after.storages.entry(third).or_default();

    let mut changed: B256Map<StorageTrieUpdatesSorted> = B256Map::default();
    changed.insert(
        first,
        StorageTrieUpdatesSorted::new(
            false,
            vec![(path(&[4]), Some(node(0b1111))), (path(&[4, 4]), None)],
        ),
    );
    changed.insert(second, StorageTrieUpdatesSorted::new(false, vec![]));
    changed.insert(
        third,
        StorageTrieUpdatesSorted::new(false, vec![(path(&[7]), Some(node(0b0111)))]),
    );
    let changesets = TrieUpdatesSorted::new(
        vec![(path(&[1]), Some(node(0b1000))), (path(&[2]), None), (path(&[3]), Some(node(0b0011)))],
        changed,
    );
    (Arc::new(changesets), after)
}

#[test]
fn updates_hold_the_nodes_after_the_block() {
    let (changesets, after) = fixture();
    let (updates, opened) = collect(&changesets, &after);
    assert_eq!(opened, 3);
    assert_eq!(
        updates.account_nodes_ref(),
        &[
            (path(&[1]), Some(node(0b0001))),
            (path(&[2]), Some(node(0b0010))),
            (path(&[3]), None),
        ]
    );
    let tries = updates.storage_tries_ref();
    assert_eq!(tries.len(), 3);
    assert_eq!(
        tries[&B256::with_last_byte(1)].storage_nodes_ref(),
        &[(path(&[4]), None), (path(&[4, 4]), Some(node(0b0100)))]
    );
    assert!(tries[&B256::with_last_byte(2)].storage_nodes_ref().is_empty());
    assert_eq!(tries[&B256::with_last_byte(3)].storage_nodes_ref(), &[(path(&[7]), None)]);
}

#[test]
fn updates_redo_what_the_changesets_undo() {
    let (changesets, after) = fixture();
    let mut state = after.clone();
    apply(&mut state, &changesets);
    assert_ne!(state, after);
    let (updates, _) = collect(&changesets, &after);
    apply(&mut state, &updates);
    assert_eq!(state, after);
}

#[test]
fn updates_delete_the_tries_that_the_changesets_delete() {
    let address = B256::with_last_byte(1);
    let mut changed: B256Map<StorageTrieUpdatesSorted> = B256Map::default();
    changed.insert(
        address,
        StorageTrieUpdatesSorted::new(true, vec![(path(&[1]), Some(node(0b0001)))]),
    );
    let changesets = Arc::new(TrieUpdatesSorted::new(vec![], changed));
    assert!(changesets.wipes_storage());
    let (updates, _) = collect(&changesets, &Tries::default());
    assert!(updates.wipes_storage());
    assert!(updates.storage_tries_ref()[&address].is_deleted());
    assert_eq!(
        updates.storage_tries_ref()[&address].storage_nodes_ref(),
        &[(path(&[1]), None)]
    );
}

#[test]
fn a_deleted_trie_is_redone_as_far_as_the_changesets_name_its_nodes() {
    let address = B256::with_last_byte(1);
    let mut after = Tries::default();
    after.storages.entry(address).or_default().insert(vec![1], node(0b0001));
    let mut changed: B256Map<StorageTrieUpdatesSorted> = B256Map::default();
    changed.insert(address, StorageTrieUpdatesSorted::new(true, vec![(path(&[1]), None)]));
    let changesets = Arc::new(TrieUpdatesSorted::new(vec![], changed));

    let mut state = after.clone();
    apply(&mut state, &changesets);
    assert!(state.storages[&address].is_empty());
    apply(&mut state, &collect(&changesets, &after).0);
    assert_eq!(state, after);

    // A node that they do not name is lost.
    after.storages.entry(address).or_default().insert(vec![2], node(0b0010));
    let mut state = after.clone();
    apply(&mut state, &changesets);
    apply(&mut state, &collect(&changesets, &after).0);
    assert!(state.storages[&address].contains_key(&vec![1]));
    assert!(!state.storages[&address].contains_key(&vec![2]));
}

#[test]
fn no_changesets_give_no_updates() {
    let changesets = Arc::new(TrieUpdatesSorted::default());
    let (updates, opened) = collect(&changesets, &fixture().1);
    assert_eq!(opened, 0);
    assert_eq!(updates, TrieUpdatesSorted::default());
    assert!(!updates.wipes_storage());
}

#[test]
fn paths_are_in_lexicographic_order() {
    assert_eq!(path(&[]).order(&path(&[])), PathOrder::Same);
    assert_eq!(path(&[]).order(&path(&[0])), PathOrder::Before);
    assert_eq!(path(&[1, 2]).order(&path(&[1])), PathOrder::After);
    assert_eq!(path(&[1, 2]).order(&path(&[1, 3])), PathOrder::Before);
    assert_eq!(path(&[2]).order(&path(&[1, 0xf])), PathOrder::After);
    assert_eq!(path(&[0xa, 0xb]).order(&path(&[0xa, 0xb])), PathOrder::Same);
    assert_eq!(path(&[0xf; 64]).clone(), path(&[0xf; 64]));
    assert_eq!(path(&[0xa, 0xb]).as_slice(), &[0xa, 0xb]);
}
