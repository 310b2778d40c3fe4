//! The cache by itself: insertion, eviction and announced computations.
use alloy_primitives::map::{B256Map, HashMap};
use alloy_primitives::B256;
use alloy_trie::BranchNodeCompact;
use changeset_cache::cache::{BlockLookup, ChangesetCacheInner};
use changeset_cache::key::ChangesetRangeKey;
use changeset_cache::nibbles::Nibbles;
use changeset_cache::updates::TrieUpdatesSorted;
use std::sync::Arc;

// Helper function to create empty TrieUpdatesSorted for testing
fn create_test_changesets() -> Arc<TrieUpdatesSorted> {
    Arc::new(TrieUpdatesSorted::new(vec![], B256Map::default()))
}

fn insert_test_changesets(
    cache: &mut ChangesetCacheInner<u8>,
    block_hash: B256,
    block_number: u64,
    changesets: Arc<TrieUpdatesSorted>,
) {
    cache.insert(ChangesetRangeKey::single(block_number, block_hash), changesets);
}

fn get_test_changesets(
    cache: &ChangesetCacheInner<u8>,
    block_hash: B256,
    block_number: u64,
) -> Option<Arc<TrieUpdatesSorted>> {
    cache.get(&ChangesetRangeKey::single(block_number, block_hash))
}

fn node(mask: u16) -> BranchNodeCompact {
    BranchNodeCompact::new(mask, 0, 0, vec![], None)
}

fn one_node(path: &[u8], mask: u16) -> Arc<TrieUpdatesSorted> {
    Arc::new(TrieUpdatesSorted::new(
        vec![(Nibbles::from_nibbles(path.to_vec()), Some(node(mask)))],
        B256Map::default(),
    ))
}

#[test]
fn test_insert_and_retrieve_single_entry() {
    let mut cache = ChangesetCacheInner::new();
    let hash = B256::random();
    let changesets = create_test_changesets();

    insert_test_changesets(&mut cache, hash, 100, Arc::clone(&changesets));

    // Should be able to retrieve it
    let retrieved = get_test_changesets(&cache, hash, 100);
    assert!(retrieved.is_some());
    assert_eq!(cache.len(), 1);
}

#[test]
fn test_insert_multiple_entries() {
    let mut cache = ChangesetCacheInner::new();

    // Insert 10 blocks
    let mut hashes = Vec::new();
    for i in 0..10 {
        let hash = B256::random();
        insert_test_changesets(&mut cache, hash, 100 + i, create_test_changesets());
        hashes.push((100 + i, hash));
    }

    // Should be able to retrieve all
    assert_eq!(cache.len(), 10);
    for (block_number, hash) in hashes {
        assert!(get_test_changesets(&cache, hash, block_number).is_some());
    }
}

#[test]
fn test_eviction_when_explicitly_called() {
    let mut cache = ChangesetCacheInner::new();

    // Insert 15 blocks (0-14)
    let mut hashes = Vec::new();
    for i in 0..15 {
        let hash = B256::random();
        insert_test_changesets(&mut cache, hash, i, create_test_changesets());
        hashes.push((i, hash));
    }

    // All blocks should be present (no automatic eviction)
    assert_eq!(cache.len(), 15);

    // Explicitly evict blocks < 4
    assert_eq!(cache.evict(4), 4);

    // Blocks 0-3 should be evicted
    assert_eq!(cache.len(), 11); // blocks 4-14 = 11 blocks

    // Verify blocks 0-3 are evicted
    for i in 0..4 {
        assert!(
            get_test_changesets(&cache, hashes[i as usize].1, i).is_none(),
            "Block {} should be evicted",
            i
        );
    }

    // Verify blocks 4-14 are still present
    for i in 4..15 {
        assert!(
            get_test_changesets(&cache, hashes[i as usize].1, i).is_some(),
            "Block {} should be present",
            i
        );
    }
}

#[test]
fn test_eviction_with_persistence_watermark() {
    let mut cache = ChangesetCacheInner::new();

    // Insert blocks 100-165
    let mut hashes: HashMap<u64, B256> = HashMap::default();
    for i in 100..=165 {
        let hash = B256::random();
        insert_test_changesets(&mut cache, hash, i, create_test_changesets());
        hashes.insert(i, hash);
    }

    // All blocks should be present (no automatic eviction)
    assert_eq!(cache.len(), 66);

    // Simulate persistence up to block 164, with 64-block retention window
    // Eviction threshold = 164 - 64 = 100
    assert_eq!(cache.evict(100), 0);

    // Blocks 100-165 should remain (66 blocks)
    assert_eq!(cache.len(), 66);

    // Simulate persistence up to block 165
    // Eviction threshold = 165 - 64 = 101
    assert_eq!(cache.evict(101), 1);

    // Blocks 101-165 should remain (65 blocks)
    assert_eq!(cache.len(), 65);
    assert!(get_test_changesets(&cache, hashes[&100], 100).is_none());
    assert!(get_test_changesets(&cache, hashes[&101], 101).is_some());
}

#[test]
fn test_out_of_order_inserts_with_explicit_eviction() {
    let mut cache = ChangesetCacheInner::new();

    // Insert blocks in random order
    let hash_10 = B256::random();
    insert_test_changesets(&mut cache, hash_10, 10, create_test_changesets());

    let hash_5 = B256::random();
    insert_test_changesets(&mut cache, hash_5, 5, create_test_changesets());

    let hash_15 = B256::random();
    insert_test_changesets(&mut cache, hash_15, 15, create_test_changesets());

    let hash_3 = B256::random();
    insert_test_changesets(&mut cache, hash_3, 3, create_test_changesets());

    // All blocks should be present (no automatic eviction)
    assert_eq!(cache.len(), 4);

    // Explicitly evict blocks < 5
    cache.evict(5);

    assert!(get_test_changesets(&cache, hash_3, 3).is_none(), "Block 3 should be evicted");
    assert!(get_test_changesets(&cache, hash_5, 5).is_some(), "Block 5 should be present");
    assert!(get_test_changesets(&cache, hash_10, 10).is_some(), "Block 10 should be present");
    assert!(get_test_changesets(&cache, hash_15, 15).is_some(), "Block 15 should be present");
}

#[test]
fn test_multiple_blocks_same_number() {
    let mut cache = ChangesetCacheInner::new();

    // Insert multiple blocks with same number (side chains)
    let hash_1a = B256::random();
    let hash_1b = B256::random();
    insert_test_changesets(&mut cache, hash_1a, 100, create_test_changesets());
    insert_test_changesets(&mut cache, hash_1b, 100, create_test_changesets());

    // Both should be retrievable
    assert!(get_test_changesets(&cache, hash_1a, 100).is_some());
    assert!(get_test_changesets(&cache, hash_1b, 100).is_some());
    assert_eq!(cache.len(), 2);
}

#[test]
fn test_ranges_with_same_numbers_and_different_end_hashes_are_distinct() {
    let mut cache: ChangesetCacheInner<u8> = ChangesetCacheInner::new();
    let path = Nibbles::from_nibbles(vec![0x01]);
    let hash_a = B256::with_last_byte(1);
    let hash_b = B256::with_last_byte(2);
    let key_a = ChangesetRangeKey::new(10, 20, hash_a);
    let key_b = ChangesetRangeKey::new(10, 20, hash_b);
    let changesets_a = Arc::new(TrieUpdatesSorted::new(
        vec![(path.clone(), Some(BranchNodeCompact::new(0b0001, 0, 0, vec![], None)))],
        B256Map::default(),
    ));
    let changesets_b = Arc::new(TrieUpdatesSorted::new(
        vec![(path, Some(BranchNodeCompact::new(0b0010, 0, 0, vec![], None)))],
        B256Map::default(),
    ));

    cache.insert(key_a, Arc::clone(&changesets_a));
    cache.insert(key_b, Arc::clone(&changesets_b));

    assert_eq!(cache.len(), 2);
    assert_eq!(cache.get(&key_a).unwrap().account_nodes_ref(), changesets_a.account_nodes_ref());
    assert_eq!(cache.get(&key_b).unwrap().account_nodes_ref(), changesets_b.account_nodes_ref());

    cache.evict(11);
    assert!(cache.get(&key_a).is_none());
    assert!(cache.get(&key_b).is_none());
}

#[test]
fn test_eviction_removes_all_side_chains() {
    let mut cache = ChangesetCacheInner::new();

    // Insert multiple blocks at same height (side chains)
    let hash_10a = B256::random();
    let hash_10b = B256::random();
    let hash_10c = B256::random();
    insert_test_changesets(&mut cache, hash_10a, 10, create_test_changesets());
    insert_test_changesets(&mut cache, hash_10b, 10, create_test_changesets());
    insert_test_changesets(&mut cache, hash_10c, 10, create_test_changesets());

    let hash_20 = B256::random();
    insert_test_changesets(&mut cache, hash_20, 20, create_test_changesets());

    assert_eq!(cache.len(), 4);

    // Evict blocks < 15 - should remove all three side chains at height 10
    cache.evict(15);

    assert_eq!(cache.len(), 1);
    assert!(get_test_changesets(&cache, hash_10a, 10).is_none());
    assert!(get_test_changesets(&cache, hash_10b, 10).is_none());
    assert!(get_test_changesets(&cache, hash_10c, 10).is_none());
    assert!(get_test_changesets(&cache, hash_20, 20).is_some());
}

#[test]
fn keys_are_equal_when_all_parts_are() {
    let hash = B256::with_last_byte(7);
    let key = ChangesetRangeKey::single(3, hash);
    assert_eq!(key, ChangesetRangeKey::new(3, 3, hash));
    assert_ne!(key, ChangesetRangeKey::new(2, 3, hash));
    assert_ne!(key, ChangesetRangeKey::new(3, 4, hash));
    assert_ne!(key, ChangesetRangeKey::single(3, B256::with_last_byte(8)));
}

#[test]
fn a_new_cache_is_empty() {
    let cache: ChangesetCacheInner<u8> = ChangesetCacheInner::default();
    assert_eq!(cache.len(), 0);
    assert!(cache.can_register());
    assert!(get_test_changesets(&cache, B256::ZERO, 0).is_none());
}

#[test]
fn an_insertion_replaces_the_value_of_its_key_only() {
    let mut cache = ChangesetCacheInner::new();
    let hash = B256::with_last_byte(1);
    let other = B256::with_last_byte(2);
    insert_test_changesets(&mut cache, hash, 1, one_node(&[1], 0b0001));
    insert_test_changesets(&mut cache, other, 1, one_node(&[1], 0b0010));
    insert_test_changesets(&mut cache, hash, 1, one_node(&[1], 0b0100));
    assert_eq!(cache.len(), 2);
    assert_eq!(get_test_changesets(&cache, hash, 1).unwrap(), one_node(&[1], 0b0100));
    assert_eq!(get_test_changesets(&cache, other, 1).unwrap(), one_node(&[1], 0b0010));
    // An entry that was replaced is evicted once.
    assert_eq!(cache.evict(2), 2);
    assert_eq!(cache.len(), 0);
}

#[test]
fn a_range_is_evicted_by_its_first_block() {
    let mut cache: ChangesetCacheInner<u8> = ChangesetCacheInner::new();
    let hash = B256::with_last_byte(9);
    let long = ChangesetRangeKey::new(1, 9, hash);
    let short = ChangesetRangeKey::new(5, 9, hash);
    cache.insert(long, create_test_changesets());
    cache.insert(short, create_test_changesets());
    assert_eq!(cache.evict(5), 1);
    assert!(cache.get(&long).is_none());
    assert!(cache.get(&short).is_some());
}

#[test]
fn the_higher_of_two_evictions_counts() {
    let mut cache = ChangesetCacheInner::new();
    for i in 0..6 {
        insert_test_changesets(&mut cache, B256::with_last_byte(i), i as u64, create_test_changesets());
    }
    assert_eq!(cache.evict(4), 4);
    assert_eq!(cache.evict(2), 0);
    assert_eq!(cache.evict(4), 0);
    assert_eq!(cache.len(), 2);
    // What was evicted can come back.
    insert_test_changesets(&mut cache, B256::with_last_byte(1), 1, create_test_changesets());
    assert_eq!(cache.len(), 3);
    assert_eq!(cache.evict(u64::MAX), 3);
}

#[test]
fn readers_wait_for_what_is_announced_and_find_what_is_resolved() {
    let mut cache: ChangesetCacheInner<u8> = ChangesetCacheInner::new();
    let hash = B256::with_last_byte(3);
    let key = ChangesetRangeKey::single(3, hash);
    assert!(matches!(cache.look_up(&key), BlockLookup::Absent));

    let guard = cache.register_pending(3, hash, 41);
    assert!(matches!(cache.look_up(&key), BlockLookup::InFlight(41)));
    assert!(cache.get(&key).is_none());

    assert_eq!(guard.resolve(&mut cache, one_node(&[1], 0b0001)), vec![41]);
    match cache.look_up(&key) {
        BlockLookup::Cached(changesets) => assert_eq!(changesets, one_node(&[1], 0b0001)),
        _ => panic!("the changesets are cached"),
    }
    assert_eq!(cache.len(), 1);
}

#[test]
fn a_withdrawn_computation_is_forgotten() {
    let mut cache: ChangesetCacheInner<u8> = ChangesetCacheInner::new();
    let hash = B256::with_last_byte(3);
    let guard = cache.register_pending(3, hash, 41);
    assert_eq!(guard.abandon(&mut cache), Some(41));
    assert!(matches!(cache.look_up(&ChangesetRangeKey::single(3, hash)), BlockLookup::Absent));
    assert_eq!(cache.len(), 0);
}

#[test]
fn an_earlier_guard_does_not_withdraw_a_later_announcement() {
    let mut cache: ChangesetCacheInner<u8> = ChangesetCacheInner::new();
    let hash = B256::with_last_byte(3);
    let key = ChangesetRangeKey::single(3, hash);
    let earlier = cache.register_pending(3, hash, 1);
    let later = cache.register_pending(3, hash, 2);
    // The readers of the earlier one are released all the same.
    assert_eq!(earlier.abandon(&mut cache), Some(1));
    assert!(matches!(cache.look_up(&key), BlockLookup::InFlight(2)));
    assert_eq!(later.abandon(&mut cache), Some(2));
    assert!(matches!(cache.look_up(&key), BlockLookup::Absent));
}

#[test]
fn an_earlier_guard_resolves_for_all_readers() {
    let mut cache: ChangesetCacheInner<u8> = ChangesetCacheInner::new();
    let hash = B256::with_last_byte(3);
    let earlier = cache.register_pending(3, hash, 1);
    let later = cache.register_pending(3, hash, 2);
    assert_eq!(earlier.resolve(&mut cache, one_node(&[1], 0b0001)), vec![1, 2]);
    // Nobody is released who is being woken, and the entry stays.
    assert_eq!(later.abandon(&mut cache), None);
    assert_eq!(cache.len(), 1);
}

#[test]
fn a_later_guard_resolves_for_all_readers() {
    let mut cache: ChangesetCacheInner<u8> = ChangesetCacheInner::new();
    let hash = B256::with_last_byte(3);
    let earlier = cache.register_pending(3, hash, 1);
    let later = cache.register_pending(3, hash, 2);
    assert_eq!(later.resolve(&mut cache, one_node(&[1], 0b0001)), vec![1, 2]);
    // Nobody is left when the earlier one comes with its own result.
    assert!(earlier.resolve(&mut cache, one_node(&[1], 0b0010)).is_empty());
    assert_eq!(get_test_changesets(&cache, hash, 3).unwrap(), one_node(&[1], 0b0010));
}

#[test]
fn readers_of_every_unfinished_registration_are_woken() {
    let mut cache: ChangesetCacheInner<u8> = ChangesetCacheInner::new();
    let hash = B256::with_last_byte(3);
    let first = cache.register_pending(3, hash, 1);
    let second = cache.register_pending(3, hash, 2);
    let _third = cache.register_pending(3, hash, 3);
    let fourth = cache.register_pending(3, hash, 4);
    let other = cache.register_pending(4, B256::with_last_byte(4), 9);
    // The second one is given up before, and is not woken.
    assert_eq!(second.abandon(&mut cache), Some(2));
    assert_eq!(first.resolve(&mut cache, create_test_changesets()), vec![1, 3, 4]);
    assert_eq!(fourth.abandon(&mut cache), None);
    assert_eq!(other.abandon(&mut cache), Some(9));
}

#[test]
fn readers_of_an_earlier_registration_are_woken_after_the_latest_is_withdrawn() {
    let mut cache: ChangesetCacheInner<u8> = ChangesetCacheInner::new();
    let hash = B256::with_last_byte(3);
    let key = ChangesetRangeKey::single(3, hash);
    let _first = cache.register_pending(3, hash, 1);
    let second = cache.register_pending(3, hash, 2);
    let third = cache.register_pending(3, hash, 3);
    assert_eq!(third.abandon(&mut cache), Some(3));
    assert!(matches!(cache.look_up(&key), BlockLookup::Absent));
    let fourth = cache.register_pending(3, hash, 4);
    assert!(matches!(cache.look_up(&key), BlockLookup::InFlight(4)));
    assert_eq!(second.resolve(&mut cache, create_test_changesets()), vec![1, 2, 4]);
    assert!(fourth.resolve(&mut cache, create_test_changesets()).is_empty());
}

#[test]
fn an_eviction_keeps_what_is_announced() {
    let mut cache: ChangesetCacheInner<u8> = ChangesetCacheInner::new();
    let hash = B256::with_last_byte(3);
    let guard = cache.register_pending(3, hash, 7);
    assert_eq!(cache.evict(100), 0);
    assert!(matches!(
        cache.look_up(&ChangesetRangeKey::single(3, hash)),
        BlockLookup::InFlight(7)
    ));
    assert_eq!(guard.resolve(&mut cache, create_test_changesets()), vec![7]);
}

#[test]
fn announcements_of_other_blocks_are_left_alone() {
    let mut cache: ChangesetCacheInner<u8> = ChangesetCacheInner::new();
    let first = cache.register_pending(3, B256::with_last_byte(3), 3);
    let second = cache.register_pending(4, B256::with_last_byte(4), 4);
    assert_eq!(first.abandon(&mut cache), Some(3));
    assert_eq!(second.resolve(&mut cache, create_test_changesets()), vec![4]);
}

#[test]
fn many_ranges_of_one_block_number_are_found_and_evicted() {
    let mut cache: ChangesetCacheInner<u8> = ChangesetCacheInner::new();
    for end in 0..40u64 {
        for chain in 0..5u8 {
            let key = ChangesetRangeKey::new(end % 4, end, B256::with_last_byte(chain));
            cache.insert(key, one_node(&[chain], end as u16));
        }
    }
    assert_eq!(cache.len(), 200);
    for end in 0..40u64 {
        for chain in 0..5u8 {
            let key = ChangesetRangeKey::new(end % 4, end, B256::with_last_byte(chain));
            assert_eq!(cache.get(&key).unwrap(), one_node(&[chain], end as u16));
        }
    }
    assert_eq!(cache.evict(1), 50);
    assert_eq!(cache.evict(3), 100);
    assert_eq!(cache.len(), 50);
    let kept = ChangesetRangeKey::new(3, 39, B256::with_last_byte(4));
    assert_eq!(cache.get(&kept).unwrap(), one_node(&[4], 39));
}
