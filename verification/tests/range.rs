//! Requests for the reverts of a range of blocks.
use alloy_primitives::map::B256Map;
use alloy_primitives::B256;
use alloy_trie::BranchNodeCompact;
use changeset_cache::cache::{BlockLookup, ChangesetCacheInner, PendingChangesetGuard};
use changeset_cache::key::ChangesetRangeKey;
use changeset_cache::nibbles::Nibbles;
use changeset_cache::range::{
    get_or_compute, get_or_compute_range, reverts_after, RangeError, RangeStep,
};
use changeset_cache::updates::{StorageTrieUpdatesSorted, TrieUpdatesSorted};
use std::sync::{Arc, OnceLock};

type Cell = Arc<OnceLock<Option<Arc<TrieUpdatesSorted>>>>;

/// A chain whose blocks `0..=tip` have their number as hash.
struct Chain {
    tip: u64,
    aggregate: Arc<TrieUpdatesSorted>,
    computed: Vec<ChangesetRangeKey>,
    hashes_fetched: Vec<u64>,
    waited_for: Vec<u64>,
    stored: usize,
}

impl Chain {
    fn new(tip: u64) -> Self {
        Chain {
            tip,
            aggregate: one_node(&[0xf], 0xffff),
            computed: Vec::new(),
            hashes_fetched: Vec::new(),
            waited_for: Vec::new(),
            stored: 0,
        }
    }

    fn block_hash(&mut self, number: u64) -> Option<B256> {
        self.hashes_fetched.push(number);
        if number <= self.tip {
            Some(B256::with_last_byte(number as u8))
        } else {
            None
        }
    }

    fn run(
        &mut self,
        cache: &mut ChangesetCacheInner<Cell>,
        mut step: RangeStep<Cell>,
    ) -> Result<Arc<TrieUpdatesSorted>, RangeError> {
        loop {
            step = match step {
                RangeStep::EndHash(needed) => {
                    let hash = self.block_hash(needed.block_number());
                    needed.fetched(hash)
                }
                RangeStep::RangeEntry(needed) => {
                    let cached = cache.get(&needed.key());
                    needed.looked_up(cached)
                }
                RangeStep::BlockHash(needed) => {
                    let hash = self.block_hash(needed.block_number());
                    needed.fetched(hash)
                }
                RangeStep::BlockEntry(needed) => {
                    let found = cache.look_up(&needed.key());
                    needed.looked_up(found)
                }
                RangeStep::Await(needed, cell) => {
                    self.waited_for.push(needed.block_number());
                    needed.awaited(cell.get().expect("somebody finishes").clone())
                }
                RangeStep::Aggregate(needed) => {
                    self.computed.push(needed.key());
                    needed.computed(Arc::clone(&self.aggregate))
                }
                RangeStep::Store(needed) => {
                    self.stored += 1;
                    return Ok(needed.store(cache));
                }
                RangeStep::Done(reverts) => return Ok(reverts),
                RangeStep::Failed(error) => return Err(error),
            };
        }
    }

    fn range(
        &mut self,
        cache: &mut ChangesetCacheInner<Cell>,
        start: u64,
        end: u64,
    ) -> Result<Arc<TrieUpdatesSorted>, RangeError> {
        let tip = self.tip;
        self.run(cache, get_or_compute_range(start, end, tip))
    }
}

fn node(mask: u16) -> BranchNodeCompact {
    BranchNodeCompact::new(mask, 0, 0, vec![], None)
}

fn path(nibbles: &[u8]) -> Nibbles {
    Nibbles::from_nibbles(nibbles.to_vec())
}

fn one_node(nibbles: &[u8], mask: u16) -> Arc<TrieUpdatesSorted> {
    Arc::new(TrieUpdatesSorted::new(vec![(path(nibbles), Some(node(mask)))], B256Map::default()))
}

fn wiping(address: u8) -> Arc<TrieUpdatesSorted> {
    let mut tries: B256Map<StorageTrieUpdatesSorted> = B256Map::default();
    tries.insert(B256::with_last_byte(address), StorageTrieUpdatesSorted::new(true, vec![]));
    Arc::new(TrieUpdatesSorted::new(vec![], tries))
}

fn block_key(number: u64) -> ChangesetRangeKey {
    ChangesetRangeKey::single(number, B256::with_last_byte(number as u8))
}

fn range_key(start: u64, end: u64) -> ChangesetRangeKey {
    ChangesetRangeKey::new(start, end, B256::with_last_byte(end as u8))
}

fn announce(
    cache: &mut ChangesetCacheInner<Cell>,
    number: u64,
) -> (PendingChangesetGuard, Cell) {
    let cell: Cell = Arc::new(OnceLock::new());
    let hash = B256::with_last_byte(number as u8);
    (cache.register_pending(number, hash, Arc::clone(&cell)), cell)
}

#[test]
fn cached_range_merge_keeps_oldest_revert_values() {
    let mut chain = Chain::new(2);
    let mut cache = ChangesetCacheInner::new();
    let path = Nibbles::from_nibbles(vec![0x1, 0x2]);
    let older_node = BranchNodeCompact::new(0b0001, 0, 0, vec![], None);
    let newer_node = BranchNodeCompact::new(0b0010, 0, 0, vec![], None);

    cache.insert(
        ChangesetRangeKey::single(1, B256::with_last_byte(1)),
        Arc::new(TrieUpdatesSorted::new(
            vec![(path.clone(), Some(older_node.clone()))],
            B256Map::default(),
        )),
    );
    cache.insert(
        ChangesetRangeKey::single(2, B256::with_last_byte(2)),
        Arc::new(TrieUpdatesSorted::new(
            vec![(path.clone(), Some(newer_node))],
            B256Map::default(),
        )),
    );

    let accumulated = chain.range(&mut cache, 1, 2).unwrap();
    assert_eq!(accumulated.account_nodes_ref(), &[(path, Some(older_node))]);
    assert!(chain.computed.is_empty());
}

#[test]
fn aggregate_range_reverts_to_pre_range_state() {
    let mut chain = Chain::new(3);
    let hashed_address = B256::with_last_byte(1);
    let actual = wiping(1);
    let mut cache = ChangesetCacheInner::new();
    chain.aggregate = Arc::clone(&actual);
    let from_cache_api = chain.range(&mut cache, 1, 3).unwrap();
    let storage_revert = from_cache_api
        .storage_tries_ref()
        .get(&hashed_address)
        .expect("created account storage trie should be deleted by range revert");
    assert!(storage_revert.is_deleted());
    assert!(storage_revert.storage_nodes_ref().is_empty());
    assert_eq!(*from_cache_api, *actual);
    assert_eq!(cache.len(), 1);

    let block_2 = one_node(&[2], 0b0010);
    chain.aggregate = Arc::clone(&block_2);
    let block_changesets = chain.run(&mut cache, get_or_compute(2, 3)).unwrap();
    assert_eq!(*block_changesets, *block_2);
    assert_eq!(cache.len(), 2);

    // Each was computed once, and the entry of the range is kept.
    assert_eq!(chain.computed, vec![range_key(1, 3), range_key(2, 2)]);
    assert_eq!(cache.get(&range_key(1, 3)).unwrap(), actual);
}

/// A reader who waits on a registration that another one has superseded is woken when its
/// own guard resolves, and goes on with the result.
#[test]
fn readers_of_a_superseded_registration_are_woken() {
    let mut chain = Chain::new(3);
    let mut cache: ChangesetCacheInner<Cell> = ChangesetCacheInner::new();
    let (first, first_cell) = announce(&mut cache, 3);
    let handle = match cache.look_up(&block_key(3)) {
        BlockLookup::InFlight(handle) => handle,
        _ => panic!("the block is announced"),
    };
    assert!(Arc::ptr_eq(&handle, &first_cell));
    let (_second, second_cell) = announce(&mut cache, 3);

    let changesets = one_node(&[1], 0b0001);
    let woken = first.resolve(&mut cache, Arc::clone(&changesets));
    assert_eq!(woken.len(), 2);
    for cell in woken {
        cell.set(Some(Arc::clone(&changesets))).unwrap();
    }
    assert_eq!(handle.get().unwrap().as_ref(), Some(&changesets));
    assert_eq!(second_cell.get().unwrap().as_ref(), Some(&changesets));
    assert_eq!(chain.range(&mut cache, 3, 3).unwrap(), changesets);
}

/// A reader who waits on a registration that another one has superseded is released when
/// its own guard is given up, and computes.
#[test]
fn readers_of_a_superseded_registration_are_released() {
    let mut cache: ChangesetCacheInner<Cell> = ChangesetCacheInner::new();
    let (first, first_cell) = announce(&mut cache, 3);
    let (_second, second_cell) = announce(&mut cache, 3);
    let released = first.abandon(&mut cache).unwrap();
    assert!(Arc::ptr_eq(&released, &first_cell));
    released.set(None).unwrap();
    assert_eq!(first_cell.get(), Some(&None));
    assert!(second_cell.get().is_none());
}

/// A range whose oldest block has already been evicted must fall back, not answer from the
/// partially populated cache.
#[test]
fn partially_evicted_range_falls_back_and_still_matches_db() {
    let mut chain = Chain::new(3);
    let expected = Arc::clone(&chain.aggregate);
    let mut cache = ChangesetCacheInner::new();
    for (number, changesets) in [(2, one_node(&[1], 0b0001)), (3, one_node(&[2], 0b0010))] {
        let (guard, _) = announce(&mut cache, number);
        assert_eq!(guard.resolve(&mut cache, changesets).len(), 1);
    }

    // Drop block 2's entry, leaving block 3 cached.
    cache.evict(3);
    assert!(
        cache.get(&ChangesetRangeKey::single(2, B256::with_last_byte(2))).is_none(),
        "block 2 must be evicted for this to test the retention edge"
    );

    let actual = chain.range(&mut cache, 2, 3).unwrap();
    assert_eq!(actual, expected);
    assert_eq!(chain.computed, vec![range_key(2, 3)]);
}

/// A reader that arrives while the producer is still computing must wait for it rather than
/// run the aggregate computation.
#[test]
fn pending_changeset_is_awaited_instead_of_db_fallback() {
    let mut chain = Chain::new(3);
    let path = Nibbles::from_nibbles(vec![0xa, 0xb]);
    let sentinel_node = BranchNodeCompact::new(0b0100, 0, 0, vec![], None);
    let sentinel = Arc::new(TrieUpdatesSorted::new(
        vec![(path.clone(), Some(sentinel_node.clone()))],
        B256Map::default(),
    ));

    let mut cache: ChangesetCacheInner<Cell> = ChangesetCacheInner::new();
    let cell: Cell = Arc::new(OnceLock::new());
    let guard = cache.register_pending(3, B256::with_last_byte(3), Arc::clone(&cell));

    // The reader gets as far as the wait.
    let mut step: RangeStep<Cell> = get_or_compute_range(3, 3, 3);
    let needed = loop {
        step = match step {
            RangeStep::EndHash(needed) => {
                assert_eq!(needed.block_number(), 3);
                needed.fetched(chain.block_hash(3))
            }
            RangeStep::RangeEntry(needed) => {
                let cached = cache.get(&needed.key());
                needed.looked_up(cached)
            }
            RangeStep::BlockEntry(needed) => {
                let found = cache.look_up(&needed.key());
                needed.looked_up(found)
            }
            RangeStep::Await(needed, handle) => {
                assert!(Arc::ptr_eq(&handle, &cell));
                assert!(handle.get().is_none());
                break needed;
            }
            _ => panic!("the reader waits for the producer"),
        };
    };

    // The producer finishes.
    for waiter in guard.resolve(&mut cache, Arc::clone(&sentinel)) {
        waiter.set(Some(Arc::clone(&sentinel))).unwrap();
    }

    // The reader goes on.
    let resolved = cell.get().unwrap().clone();
    let reader = chain.run(&mut cache, needed.awaited(resolved)).unwrap();
    assert_eq!(reader.account_nodes_ref(), &[(path, Some(sentinel_node))]);
    assert!(chain.computed.is_empty());
}

/// If the producer dies its guard is abandoned. Readers must then be released to the
/// aggregate computation.
#[test]
fn cancelled_pending_changeset_falls_back_to_db() {
    let mut chain = Chain::new(3);
    let expected = Arc::clone(&chain.aggregate);
    let mut cache: ChangesetCacheInner<Cell> = ChangesetCacheInner::new();
    let (guard, cell) = announce(&mut cache, 3);
    let waiter = guard.abandon(&mut cache).unwrap();
    assert!(Arc::ptr_eq(&waiter, &cell));

    let actual = chain.range(&mut cache, 3, 3).unwrap();
    assert_eq!(actual, expected);
    assert_eq!(chain.computed, vec![range_key(3, 3)]);
}

#[test]
fn a_reader_that_waits_for_a_cancelled_computation_computes() {
    let mut chain = Chain::new(3);
    let mut cache: ChangesetCacheInner<Cell> = ChangesetCacheInner::new();
    cache.insert(block_key(3), one_node(&[1], 0b0001));
    let (_guard, cell) = announce(&mut cache, 2);
    cell.set(None).unwrap();
    let actual = chain.range(&mut cache, 1, 3).unwrap();
    assert_eq!(actual, chain.aggregate);
    assert_eq!(chain.waited_for, vec![2]);
    assert_eq!(chain.computed, vec![range_key(1, 3)]);
    // Block 1 was not looked at.
    assert_eq!(chain.hashes_fetched, vec![3, 2]);
    assert_eq!(cache.get(&range_key(1, 3)).unwrap(), chain.aggregate);
}

#[test]
fn cached_and_awaited_blocks_merge() {
    let mut chain = Chain::new(4);
    let mut cache: ChangesetCacheInner<Cell> = ChangesetCacheInner::new();
    cache.insert(block_key(2), one_node(&[1], 0b0001));
    let (_guard, cell) = announce(&mut cache, 3);
    cell.set(Some(one_node(&[1], 0b0010))).unwrap();
    cache.insert(block_key(4), one_node(&[2], 0b0100));
    let merged = chain.range(&mut cache, 2, 4).unwrap();
    assert_eq!(
        merged.account_nodes_ref(),
        &[(path(&[1]), Some(node(0b0001))), (path(&[2]), Some(node(0b0100)))]
    );
    assert_eq!(chain.waited_for, vec![3]);
    assert!(chain.computed.is_empty());
    assert_eq!(chain.stored, 1);
    assert_eq!(chain.hashes_fetched, vec![4, 3, 2]);
}

#[test]
fn a_range_beyond_the_last_block_is_refused() {
    let mut chain = Chain::new(5);
    let mut cache = ChangesetCacheInner::new();
    assert_eq!(
        chain.range(&mut cache, 3, 6),
        Err(RangeError::InsufficientChangesets { requested: 6, available: 5 })
    );
    // Also an empty one.
    assert_eq!(
        chain.range(&mut cache, 9, 6),
        Err(RangeError::InsufficientChangesets { requested: 6, available: 5 })
    );
    assert!(chain.hashes_fetched.is_empty());
    assert_eq!(cache.len(), 0);
}

#[test]
fn an_empty_range_changes_nothing() {
    let mut chain = Chain::new(5);
    let mut cache = ChangesetCacheInner::new();
    assert_eq!(*chain.range(&mut cache, 4, 3).unwrap(), TrieUpdatesSorted::default());
    assert!(chain.hashes_fetched.is_empty());
    assert_eq!(cache.len(), 0);
}

#[test]
fn a_last_block_without_a_hash_is_refused() {
    let mut chain = Chain::new(5);
    let mut cache = ChangesetCacheInner::new();
    let step = get_or_compute_range(2, 7, 9);
    assert_eq!(
        chain.run(&mut cache, step),
        Err(RangeError::BlockHashNotFound { block_number: 7 })
    );
}

#[test]
fn a_block_without_a_hash_is_refused() {
    let mut cache: ChangesetCacheInner<Cell> = ChangesetCacheInner::new();
    cache.insert(block_key(3), one_node(&[1], 0b0001));
    let step: RangeStep<Cell> = get_or_compute_range(1, 3, 3);
    let RangeStep::EndHash(needed) = step else { panic!("the hash of block 3") };
    let RangeStep::RangeEntry(needed) =
        needed.fetched::<Cell>(Some(B256::with_last_byte(3))) else { panic!("the range") };
    let RangeStep::BlockEntry(needed) = needed.looked_up::<Cell>(None) else { panic!("block 3") };
    assert_eq!(needed.key(), block_key(3));
    let found = cache.look_up(&needed.key());
    let RangeStep::BlockHash(needed) = needed.looked_up(found) else { panic!("its hash") };
    assert_eq!(needed.block_number(), 2);
    match needed.fetched::<Cell>(None) {
        RangeStep::Failed(error) => {
            assert_eq!(error, RangeError::BlockHashNotFound { block_number: 2 })
        }
        _ => panic!("block 2 has no hash"),
    }
}

#[test]
fn a_cached_range_is_returned_as_it_is() {
    let mut chain = Chain::new(5);
    let mut cache = ChangesetCacheInner::new();
    let reverts = one_node(&[3], 0b1000);
    cache.insert(range_key(2, 4), Arc::clone(&reverts));
    // Blocks that would merge to something else make no difference.
    for number in 2..=4 {
        cache.insert(block_key(number), one_node(&[1], 0b0001));
    }
    let found = chain.range(&mut cache, 2, 4).unwrap();
    assert!(Arc::ptr_eq(&found, &reverts));
    assert_eq!(chain.stored, 0);
    assert_eq!(chain.hashes_fetched, vec![4]);
}

#[test]
fn a_request_is_answered_from_what_an_earlier_one_stored() {
    let mut chain = Chain::new(5);
    let mut cache = ChangesetCacheInner::new();
    let first = chain.range(&mut cache, 2, 4).unwrap();
    assert_eq!(chain.computed.len(), 1);
    let second = chain.range(&mut cache, 2, 4).unwrap();
    assert!(Arc::ptr_eq(&first, &second));
    assert_eq!(chain.computed.len(), 1);
    // Until it is evicted.
    cache.evict(3);
    chain.range(&mut cache, 2, 4).unwrap();
    assert_eq!(chain.computed.len(), 2);
}

#[test]
fn what_is_cached_for_another_chain_is_ignored() {
    let mut chain = Chain::new(5);
    let mut cache = ChangesetCacheInner::new();
    let other = B256::with_last_byte(99);
    cache.insert(ChangesetRangeKey::new(2, 4, other), one_node(&[1], 0b0001));
    cache.insert(ChangesetRangeKey::single(4, other), one_node(&[1], 0b0001));
    assert_eq!(chain.range(&mut cache, 2, 4).unwrap(), chain.aggregate);
    assert_eq!(chain.computed, vec![range_key(2, 4)]);
}

#[test]
fn several_blocks_with_a_storage_wipe_are_computed_at_once() {
    let mut chain = Chain::new(5);
    let mut cache = ChangesetCacheInner::new();
    cache.insert(block_key(2), one_node(&[1], 0b0001));
    cache.insert(block_key(3), wiping(7));
    assert_eq!(chain.range(&mut cache, 2, 3).unwrap(), chain.aggregate);
    assert_eq!(chain.computed, vec![range_key(2, 3)]);
    assert_eq!(cache.get(&range_key(2, 3)).unwrap(), chain.aggregate);
}

#[test]
fn one_block_with_a_storage_wipe_is_taken_from_the_cache() {
    let mut chain = Chain::new(5);
    let mut cache: ChangesetCacheInner<Cell> = ChangesetCacheInner::new();
    // Awaited, so that the block goes through the merge.
    let (_guard, cell) = announce(&mut cache, 3);
    cell.set(Some(wiping(7))).unwrap();
    assert_eq!(chain.range(&mut cache, 3, 3).unwrap(), wiping(7));
    assert!(chain.computed.is_empty());
    assert_eq!(cache.get(&block_key(3)).unwrap(), wiping(7));
}

#[test]
fn a_single_block_is_a_range_of_one() {
    let mut chain = Chain::new(5);
    let mut cache = ChangesetCacheInner::new();
    cache.insert(block_key(4), one_node(&[1], 0b0001));
    assert_eq!(chain.run(&mut cache, get_or_compute(4, 5)).unwrap(), one_node(&[1], 0b0001));
    assert_eq!(chain.run(&mut cache, get_or_compute(5, 5)).unwrap(), chain.aggregate);
    assert_eq!(
        chain.run(&mut cache, get_or_compute(6, 5)),
        Err(RangeError::InsufficientChangesets { requested: 6, available: 5 })
    );
}

#[test]
fn the_reverts_after_a_block_are_those_of_every_later_block() {
    let mut chain = Chain::new(5);
    let mut cache = ChangesetCacheInner::new();
    chain.run(&mut cache, reverts_after(2, 5)).unwrap();
    assert_eq!(chain.computed, vec![range_key(3, 5)]);
    // After the last block there is nothing to revert.
    assert_eq!(
        *chain.run(&mut cache, reverts_after(5, 5)).unwrap(),
        TrieUpdatesSorted::default()
    );
}

#[test]
fn the_first_block_of_all_can_be_part_of_a_range() {
    let mut chain = Chain::new(1);
    let mut cache = ChangesetCacheInner::new();
    cache.insert(block_key(0), one_node(&[1], 0b0001));
    cache.insert(block_key(1), one_node(&[1, 2], 0b0010));
    let merged = chain.range(&mut cache, 0, 1).unwrap();
    assert_eq!(
        merged.account_nodes_ref(),
        &[(path(&[1]), Some(node(0b0001))), (path(&[1, 2]), Some(node(0b0010)))]
    );
}

#[test]
fn merging_keeps_the_oldest_storage_values() {
    let address = B256::with_last_byte(0xaa);
    let other = B256::with_last_byte(0xbb);
    let storage = |nodes: Vec<(Nibbles, Option<BranchNodeCompact>)>| {
        StorageTrieUpdatesSorted::new(false, nodes)
    };
    let mut old_tries: B256Map<StorageTrieUpdatesSorted> = B256Map::default();
    old_tries.insert(
        address,
        storage(vec![(path(&[1]), None), (path(&[3]), Some(node(0b0001)))]),
    );
    let mut new_tries: B256Map<StorageTrieUpdatesSorted> = B256Map::default();
    new_tries.insert(
        address,
        storage(vec![
            (path(&[1]), Some(node(0b0010))),
            (path(&[2]), Some(node(0b0100))),
            (path(&[3]), None),
        ]),
    );
    new_tries.insert(other, storage(vec![(path(&[5]), Some(node(0b1000)))]));

    let mut chain = Chain::new(2);
    let mut cache = ChangesetCacheInner::new();
    cache.insert(block_key(1), Arc::new(TrieUpdatesSorted::new(vec![], old_tries)));
    cache.insert(block_key(2), Arc::new(TrieUpdatesSorted::new(vec![], new_tries)));
    let merged = chain.range(&mut cache, 1, 2).unwrap();
    assert!(chain.computed.is_empty());
    let tries = merged.storage_tries_ref();
    assert_eq!(tries.len(), 2);
    assert_eq!(
        tries[&address].storage_nodes_ref(),
        &[
            (path(&[1]), None),
            (path(&[2]), Some(node(0b0100))),
            (path(&[3]), Some(node(0b0001))),
        ]
    );
    assert!(!tries[&address].is_deleted());
    assert_eq!(tries[&other].storage_nodes_ref(), &[(path(&[5]), Some(node(0b1000)))]);
}

/// A guard that is given up while another one's readers are being woken releases nobody.
#[test]
fn nobody_is_released_who_is_being_woken() {
    let mut cache: ChangesetCacheInner<Cell> = ChangesetCacheInner::new();
    let (first, _) = announce(&mut cache, 3);
    let (second, cell) = announce(&mut cache, 3);
    let changesets = one_node(&[1], 0b0001);
    let woken = first.resolve(&mut cache, Arc::clone(&changesets));
    // The second guard goes between the resolution and the waking.
    assert!(second.abandon(&mut cache).is_none());
    for waiter in woken {
        waiter.set(Some(Arc::clone(&changesets))).unwrap();
    }
    assert_eq!(cell.get().unwrap().as_ref(), Some(&changesets));
}

/// The cache changes while a request waits.
#[test]
fn a_request_goes_on_while_the_cache_changes() {
    let mut chain = Chain::new(3);
    let mut cache: ChangesetCacheInner<Cell> = ChangesetCacheInner::new();
    cache.insert(block_key(2), one_node(&[1], 0b0001));
    let (guard, cell) = announce(&mut cache, 3);
    let RangeStep::EndHash(needed) = get_or_compute_range::<Cell>(2, 3, 3) else {
        panic!("the hash of block 3")
    };
    let RangeStep::RangeEntry(needed) = needed.fetched::<Cell>(chain.block_hash(3)) else {
        panic!("the range")
    };
    let cached = cache.get(&range_key(2, 3));
    let RangeStep::BlockEntry(needed) = needed.looked_up::<Cell>(cached) else {
        panic!("block 3")
    };
    let RangeStep::Await(needed, handle) = needed.looked_up(cache.look_up(&block_key(3))) else {
        panic!("block 3 is announced")
    };
    // Meanwhile block 3 is resolved, and block 2 is evicted and comes back.
    let newest = one_node(&[1], 0b0010);
    for waiter in guard.resolve(&mut cache, Arc::clone(&newest)) {
        waiter.set(Some(Arc::clone(&newest))).unwrap();
    }
    cache.evict(3);
    cache.insert(block_key(2), one_node(&[1], 0b0001));
    assert!(Arc::ptr_eq(&handle, &cell));
    let step = needed.awaited(handle.get().unwrap().clone());
    assert_eq!(chain.run(&mut cache, step).unwrap(), one_node(&[1], 0b0001));
    assert!(chain.computed.is_empty());
}
