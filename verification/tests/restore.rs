//! Reverts that the cache gives lead back along a chain.
use alloy_primitives::map::B256Map;
use alloy_primitives::B256;
use alloy_trie::BranchNodeCompact;
use changeset_cache::block_request::{compute_block_trie_updates, BlockUpdatesStep};
use changeset_cache::block_updates::CollectStep;
use changeset_cache::cache::ChangesetCacheInner;
use changeset_cache::key::ChangesetRangeKey;
use changeset_cache::nibbles::Nibbles;
use changeset_cache::range::{get_or_compute_range, RangeError, RangeStep};
use changeset_cache::updates::{StorageTrieUpdatesSorted, TrieUpdatesSorted};
use std::collections::{BTreeMap, BTreeSet};
use std::sync::Arc;

type Trie = BTreeMap<Vec<u8>, BranchNodeCompact>;

#[derive(Clone, Debug, Default, PartialEq)]
struct Tries {
    accounts: Trie,
    storages: BTreeMap<u8, Trie>,
}

fn node(mask: u16) -> BranchNodeCompact {
    BranchNodeCompact::new(mask, 0, 0, vec![], None)
}

/// The nodes that lead from one trie to another.
fn difference(from: &Trie, to: &Trie) -> Vec<(Nibbles, Option<BranchNodeCompact>)> {
    let paths: BTreeSet<&Vec<u8>> = from.keys().chain(to.keys()).collect();
    paths
        .into_iter()
        .filter(|path| from.get(*path) != to.get(*path))
        .map(|path| (Nibbles::from_nibbles(path.clone()), to.get(path).cloned()))
        .collect()
}

fn reverts(after: &Tries, before: &Tries) -> TrieUpdatesSorted {
    let mut tries: B256Map<StorageTrieUpdatesSorted> = B256Map::default();
    for address in 0..3u8 {
        let none = Trie::new();
        let from = after.storages.get(&address).unwrap_or(&none);
        let to = before.storages.get(&address).unwrap_or(&none);
        if from != to {
            tries.insert(
                B256::with_last_byte(address),
                StorageTrieUpdatesSorted::new(false, difference(from, to)),
            );
        }
    }
    TrieUpdatesSorted::new(difference(&after.accounts, &before.accounts), tries)
}

fn apply_nodes(trie: &mut Trie, nodes: &[(Nibbles, Option<BranchNodeCompact>)]) {
    for (path, node) in nodes {
        match node {
            Some(node) => {
                trie.insert(path.as_slice().to_vec(), node.clone());
            }
            None => {
                trie.remove(path.as_slice());
            }
        }
    }
}

fn apply(tries: &mut Tries, updates: &TrieUpdatesSorted) {
    apply_nodes(&mut tries.accounts, updates.account_nodes_ref());
    for address in 0..3u8 {
        if let Some(trie) = updates.storage_tries_ref().get(&B256::with_last_byte(address)) {
            apply_nodes(tries.storages.entry(address).or_default(), trie.storage_nodes_ref());
        }
    }
    tries.storages.retain(|_, trie| !trie.is_empty());
}

/// The states before blocks `0..blocks` and after the last.
fn chain(blocks: usize) -> Vec<Tries> {
    let mut seed: u32 = 7;
    let mut draw = |below: u32| {
        seed = seed.wrapping_mul(1664525).wrapping_add(1013904223);
        (seed >> 16) % below
    };
    let mut states = vec![Tries::default()];
    for _ in 0..blocks {
        let mut state = states.last().unwrap().clone();
        for _ in 0..6 {
            let path: Vec<u8> = (0..1 + draw(2)).map(|_| draw(3) as u8).collect();
            let which = draw(4) as u8;
            let trie = if which == 3 {
                &mut state.accounts
            } else {
                state.storages.entry(which).or_default()
            };
            if draw(3) == 0 {
                trie.remove(&path);
            } else {
                trie.insert(path, node(1 + draw(200) as u16));
            }
        }
        state.storages.retain(|_, trie| !trie.is_empty());
        states.push(state);
    }
    states
}

/// Asks for a range, and counts the steps.
fn ask(
    cache: &mut ChangesetCacheInner<u8>,
    start: u64,
    end: u64,
    tip: u64,
) -> (Arc<TrieUpdatesSorted>, usize) {
    drive(cache, get_or_compute_range(start, end, tip))
}

/// Runs a request to its end, and counts the steps.
fn drive(
    cache: &mut ChangesetCacheInner<u8>,
    mut step: RangeStep<u8>,
) -> (Arc<TrieUpdatesSorted>, usize) {
    let mut steps = 0;
    loop {
        steps += 1;
        step = match step {
            RangeStep::EndHash(needed) => {
                let hash = B256::with_last_byte(needed.block_number() as u8);
                needed.fetched(Some(hash))
            }
            RangeStep::RangeEntry(needed) => {
                let cached = cache.get(&needed.key());
                needed.looked_up(cached)
            }
            RangeStep::BlockHash(needed) => {
                let hash = B256::with_last_byte(needed.block_number() as u8);
                needed.fetched(Some(hash))
            }
            RangeStep::BlockEntry(needed) => {
                let found = cache.look_up(&needed.key());
                needed.looked_up(found)
            }
            RangeStep::Store(needed) => return (needed.store(cache), steps),
            RangeStep::Done(reverts) => return (reverts, steps),
            _ => panic!("every block is cached"),
        };
    }
}

#[test]
fn merged_reverts_restore_the_state_before_the_range() {
    let blocks = 12;
    let states = chain(blocks);
    let mut cache = ChangesetCacheInner::new();
    for number in 0..blocks {
        cache.insert(
            ChangesetRangeKey::single(number as u64, B256::with_last_byte(number as u8)),
            Arc::new(reverts(&states[number + 1], &states[number])),
        );
    }
    let tip = (blocks - 1) as u64;
    for start in 0..blocks {
        for end in start..blocks {
            let (merged, steps) = ask(&mut cache, start as u64, end as u64, tip);
            let mut state = states[end + 1].clone();
            apply(&mut state, &merged);
            assert_eq!(state, states[start]);
            // A request ends.
            assert!(steps <= 3 * (end - start) + 6);
            // What it stored answers the next one.
            let (again, steps) = ask(&mut cache, start as u64, end as u64, tip);
            assert!(Arc::ptr_eq(&again, &merged));
            assert_eq!(steps, 3);
        }
    }
}

#[test]
fn merged_reverts_do_what_each_block_does_from_the_newest_to_the_oldest() {
    let states = chain(4);
    let mut cache = ChangesetCacheInner::new();
    let mut one_by_one = states[4].clone();
    for number in (0..4u8).rev() {
        let revert = reverts(&states[number as usize + 1], &states[number as usize]);
        apply(&mut one_by_one, &revert);
        cache.insert(
            ChangesetRangeKey::single(number as u64, B256::with_last_byte(number)),
            Arc::new(revert),
        );
    }
    let (merged, _) = ask(&mut cache, 0, 3, 3);
    let mut at_once = states[4].clone();
    apply(&mut at_once, &merged);
    assert_eq!(at_once, one_by_one);
    // The merged nodes are sorted, and each path occurs once.
    let paths: Vec<&[u8]> =
        merged.account_nodes_ref().iter().map(|(path, _)| path.as_slice()).collect();
    assert!(paths.windows(2).all(|pair| pair[0] < pair[1]));
}

/// Runs a request for a range to its end.
fn finish(
    cache: &mut ChangesetCacheInner<u8>,
    step: RangeStep<u8>,
) -> Result<Arc<TrieUpdatesSorted>, RangeError> {
    match step {
        RangeStep::Failed(error) => Err(error),
        step => Ok(drive(cache, step).0),
    }
}

#[test]
fn the_updates_of_a_block_lead_from_the_state_before_it_to_the_state_after_it() {
    let blocks = 6;
    let states = chain(blocks);
    let tip = (blocks - 1) as u64;
    let mut cache = ChangesetCacheInner::new();
    for number in 0..blocks {
        cache.insert(
            ChangesetRangeKey::single(number as u64, B256::with_last_byte(number as u8)),
            Arc::new(reverts(&states[number + 1], &states[number])),
        );
    }
    for number in 0..blocks {
        let needed = compute_block_trie_updates(number as u64).fetched(tip);
        let changesets = finish(&mut cache, needed.request());
        let BlockUpdatesStep::Reverts(needed) = needed.answered(changesets) else {
            panic!("the changesets are cached")
        };
        let later = finish(&mut cache, needed.request());
        let BlockUpdatesStep::Collect { reverts: later, mut step } = needed.answered(later) else {
            panic!("the reverts are cached")
        };
        let mut after = states[blocks].clone();
        apply(&mut after, &later);
        assert_eq!(after, states[number + 1]);

        let mut address = 0;
        let updates = loop {
            step = match step {
                CollectStep::AccountNode(needed) => {
                    let found = after.accounts.get(needed.path().as_slice()).cloned();
                    needed.found(found)
                }
                CollectStep::StorageTrie(needed) => {
                    address = needed.address()[31];
                    needed.opened()
                }
                CollectStep::StorageNode(needed) => {
                    let trie = after.storages.get(&address);
                    let found = trie.and_then(|trie| trie.get(needed.path().as_slice()));
                    needed.found(found.cloned())
                }
                CollectStep::Done(updates) => break updates,
            };
        };
        let mut state = states[number].clone();
        apply(&mut state, &updates);
        assert_eq!(state, states[number + 1]);
    }
}

#[test]
fn a_block_that_cannot_be_served_has_no_updates() {
    let mut cache: ChangesetCacheInner<u8> = ChangesetCacheInner::new();
    let needed = compute_block_trie_updates(7).fetched(6);
    let refused = finish(&mut cache, needed.request());
    assert!(matches!(
        needed.answered(refused),
        BlockUpdatesStep::Failed(RangeError::InsufficientChangesets { requested: 7, available: 6 })
    ));
    // Also the last block number of all.
    let needed = compute_block_trie_updates(u64::MAX).fetched(6);
    let refused = finish(&mut cache, needed.request());
    assert!(matches!(
        needed.answered(refused),
        BlockUpdatesStep::Failed(RangeError::InsufficientChangesets { .. })
    ));
    // A later block that has no hash ends the request too.
    let needed = compute_block_trie_updates(5).fetched(6);
    let changesets = Ok(Arc::new(TrieUpdatesSorted::default()));
    let BlockUpdatesStep::Reverts(needed) = needed.answered(changesets) else {
        panic!("the changesets are at hand")
    };
    let unknown = RangeError::BlockHashNotFound { block_number: 6 };
    assert!(matches!(
        needed.answered(Err(unknown)),
        BlockUpdatesStep::Failed(error) if error == unknown
    ));
}

#[test]
fn merged_and_computed_reverts_agree() {
    let states = chain(5);
    let mut cache = ChangesetCacheInner::new();
    for number in 0..5u8 {
        cache.insert(
            ChangesetRangeKey::single(number as u64, B256::with_last_byte(number)),
            Arc::new(reverts(&states[number as usize + 1], &states[number as usize])),
        );
    }
    let (merged, _) = ask(&mut cache, 0, 4, 4);
    // Reverts of the whole range at once, which speak of what differs only.
    let computed = reverts(&states[5], &states[0]);
    let mut common = 0;
    for (path, node) in computed.account_nodes_ref() {
        for (other_path, other) in merged.account_nodes_ref() {
            if path == other_path {
                assert_eq!(node, other);
                common += 1;
            }
        }
    }
    assert_eq!(common, computed.account_nodes_ref().len());
    // A node that only the merged ones speak of keeps its value.
    for (path, node) in merged.account_nodes_ref() {
        assert_eq!(states[0].accounts.get(path.as_slice()), node.as_ref());
    }
}
