//! What a request for the reverts of a range comes to.
//!
//! The laws follow a request from its beginning to its end, in surroundings that do not
//! change meanwhile.
use crate::cache::{BlockLookup, CacheView};
use crate::key::{block_key, range_key, ChangesetRangeKey};
use crate::range::{
    any_wipes, awaited, begin, block_hash_fetched, block_looked_up, end_hash_fetched,
    range_looked_up, RangeError, RangeStep, StepView, WalkView,
};
use crate::updates::{merged, views, TrieUpdatesSorted, TrieUpdatesView};
use crate::updates_laws::{law_a_wipe_is_a_deleted_trie, law_merging_one_changes_nothing};
use alloy_primitives::B256;
use std::sync::Arc;
use vstd::prelude::*;

verus! {

/// Everything that the course of a request depends on.
#[verifier::reject_recursive_types(W)]
pub struct World<W> {
    /// The hashes of the canonical blocks.
    pub block_hashes: Map<u64, B256>,
    /// What the cache holds.
    pub cache: CacheView<W>,
    /// What waiting on something comes to: the changesets, or none if the computation is
    /// cancelled.
    pub resolved: spec_fn(W) -> Option<Arc<TrieUpdatesSorted>>,
    /// The reverts of a whole range, computed at once.
    pub aggregate: spec_fn(ChangesetRangeKey) -> TrieUpdatesView,
}

impl<W> World<W> {
    /// The hash of a block.
    pub open spec fn block_hash(self, block: u64) -> Option<B256> {
        if self.block_hashes.contains_key(block) {
            Some(self.block_hashes[block])
        } else {
            None
        }
    }

    /// The cached changesets of a key.
    pub open spec fn cached(self, key: ChangesetRangeKey) -> Option<Arc<TrieUpdatesSorted>> {
        if self.cache.entries.contains_key(key) {
            Some(self.cache.entries[key])
        } else {
            None
        }
    }

    /// What the cache knows about a key.
    pub open spec fn look_up(self, key: ChangesetRangeKey) -> BlockLookup<W> {
        if self.cache.entries.contains_key(key) {
            BlockLookup::Cached(self.cache.entries[key])
        } else if self.cache.pending.contains_key(key) {
            BlockLookup::InFlight(self.cache.pending[key].waiter)
        } else {
            BlockLookup::Absent
        }
    }

    /// What the announced computation of a key comes to.
    pub open spec fn resolution(self, key: ChangesetRangeKey) -> Option<Arc<TrieUpdatesSorted>> {
        if self.cache.pending.contains_key(key) {
            (self.resolved)(self.cache.pending[key].waiter)
        } else {
            None
        }
    }

    /// The key of a canonical block.
    pub open spec fn canonical(self, block: u64) -> ChangesetRangeKey {
        block_key(block, self.block_hashes[block])
    }

    /// The reverts of one block that can be had without computing them: the cached
    /// ones, or those that an announced computation comes to.
    pub open spec fn available(self, block: u64) -> Option<Arc<TrieUpdatesSorted>> {
        let key = self.canonical(block);
        if self.cache.entries.contains_key(key) {
            Some(self.cache.entries[key])
        } else if self.cache.pending.contains_key(key) {
            self.resolution(key)
        } else {
            None
        }
    }

    /// The available reverts of the blocks `start_block..=end_block`, the oldest first.
    pub open spec fn reverts(self, start_block: u64, end_block: u64) -> Seq<
        Arc<TrieUpdatesSorted>,
    > {
        Seq::new(
            (end_block - start_block + 1) as nat,
            |i: int| self.available((start_block + i) as u64)->0,
        )
    }

    /// The step after the given one.
    pub open spec fn next(self, step: StepView<W>) -> StepView<W> {
        match step {
            StepView::EndHash { start_block, end_block } => end_hash_fetched(
                start_block,
                end_block,
                self.block_hash(end_block),
            ),
            StepView::RangeEntry { start_block, end_block, end_block_hash } => range_looked_up(
                start_block,
                end_block,
                end_block_hash,
                self.cached(range_key(start_block, end_block, end_block_hash)),
            ),
            StepView::BlockHash(walk) => block_hash_fetched(walk, self.block_hash(walk.block)),
            StepView::BlockEntry(walk, hash) => block_looked_up(
                walk,
                self.look_up(block_key(walk.block, hash)),
            ),
            StepView::Await(walk, waiter) => awaited(walk, (self.resolved)(waiter)),
            StepView::Aggregate { start_block, end_block, end_block_hash } => {
                let key = range_key(start_block, end_block, end_block_hash);
                StepView::Store { key, reverts: (self.aggregate)(key) }
            },
            StepView::Store { .. } | StepView::Done(_) | StepView::Failed(_) => step,
        }
    }

    /// The last step of a request that stands at the given one.
    pub open spec fn run(self, step: StepView<W>) -> StepView<W>
        decreases steps_left(step),
    {
        if is_last(step) {
            step
        } else {
            proof {
                lemma_next(self, step);
            }
            self.run(self.next(step))
        }
    }

    /// What a request for the blocks `start_block..=end_block` comes to.
    pub open spec fn answer(self, start_block: u64, end_block: u64, finish_number: u64) -> StepView<
        W,
    > {
        self.run(begin(start_block, end_block, finish_number))
    }
}

/// Whether a request ends with this step.
pub open spec fn is_last<W>(step: StepView<W>) -> bool {
    step is Store || step is Done || step is Failed
}

/// How many blocks before the current one are still to be looked at.
pub open spec fn blocks_left(walk: WalkView) -> nat {
    if walk.block > walk.start_block {
        (walk.block - walk.start_block) as nat
    } else {
        0
    }
}

/// A bound on the number of steps that follow.
pub open spec fn steps_left<W>(step: StepView<W>) -> nat {
    match step {
        StepView::EndHash { start_block, end_block }
        | StepView::RangeEntry { start_block, end_block, .. } => {
            let blocks: nat = if end_block > start_block {
                (end_block - start_block) as nat
            } else {
                0
            };
            3 * blocks + (if step is EndHash { 5 } else { 4nat })
        },
        StepView::BlockHash(walk) => 3 * blocks_left(walk) + 4,
        StepView::BlockEntry(walk, _) => 3 * blocks_left(walk) + 3,
        StepView::Await(walk, _) => 3 * blocks_left(walk) + 2,
        StepView::Aggregate { .. } => 1,
        StepView::Store { .. } | StepView::Done(_) | StepView::Failed(_) => 0,
    }
}

/// Every step of a request but the last brings the end nearer.
pub proof fn lemma_next<W>(world: World<W>, step: StepView<W>)
    ensures
        !is_last(step) ==> steps_left(world.next(step)) < steps_left(step),
{
}

/// A request ends, whatever comes back: each answer to a step leaves fewer steps.
pub proof fn law_request_ends<W>(
    start_block: u64,
    end_block: u64,
    walk: WalkView,
    hash: Option<B256>,
    end_block_hash: B256,
    changesets: Option<Arc<TrieUpdatesSorted>>,
    found: BlockLookup<W>,
    waiter: W,
)
    ensures
        steps_left(end_hash_fetched::<W>(start_block, end_block, hash)) < steps_left(
            StepView::<W>::EndHash { start_block, end_block },
        ),
        steps_left(range_looked_up::<W>(start_block, end_block, end_block_hash, changesets))
            < steps_left(StepView::<W>::RangeEntry { start_block, end_block, end_block_hash }),
        steps_left(block_hash_fetched::<W>(walk, hash)) < steps_left(
            StepView::<W>::BlockHash(walk),
        ),
        steps_left(block_looked_up::<W>(walk, found)) < steps_left(
            StepView::<W>::BlockEntry(walk, end_block_hash),
        ),
        steps_left(awaited::<W>(walk, changesets)) < steps_left(StepView::Await(walk, waiter)),
{
}

/// A range that ends beyond the last block is refused.
pub proof fn law_beyond_last_block<W>(
    world: World<W>,
    start_block: u64,
    end_block: u64,
    finish_number: u64,
)
    requires
        end_block > finish_number,
    ensures
        world.answer(start_block, end_block, finish_number) == StepView::<W>::Failed(
            RangeError::InsufficientChangesets { requested: end_block, available: finish_number },
        ),
{
}

/// The reverts of an empty range change nothing, and are not cached.
pub proof fn law_empty_range<W>(
    world: World<W>,
    start_block: u64,
    end_block: u64,
    finish_number: u64,
)
    requires
        start_block > end_block,
        end_block <= finish_number,
    ensures
        world.answer(start_block, end_block, finish_number) == StepView::<W>::Done(
            TrieUpdatesView::empty(),
        ),
{
}

/// A range whose last block has no hash is refused.
pub proof fn law_unknown_last_block<W>(
    world: World<W>,
    start_block: u64,
    end_block: u64,
    finish_number: u64,
)
    requires
        start_block <= end_block <= finish_number,
        !world.block_hashes.contains_key(end_block),
    ensures
        world.answer(start_block, end_block, finish_number) == StepView::<W>::Failed(
            RangeError::BlockHashNotFound { block_number: end_block },
        ),
{
    reveal_with_fuel(World::run, 3);
}

/// A cached range is returned as it is.
pub proof fn law_cached_range<W>(
    world: World<W>,
    start_block: u64,
    end_block: u64,
    finish_number: u64,
)
    requires
        start_block <= end_block <= finish_number,
        world.block_hashes.contains_key(end_block),
        world.cache.entries.contains_key(
            range_key(start_block, end_block, world.block_hashes[end_block]),
        ),
    ensures
        world.answer(start_block, end_block, finish_number) == StepView::<W>::Done(
            world.cache.entries[range_key(
                start_block,
                end_block,
                world.block_hashes[end_block],
            )]@,
        ),
{
    reveal_with_fuel(World::run, 4);
}

impl<W> World<W> {
    /// Whether every block of a range has a hash.
    pub open spec fn all_known(self, start_block: u64, end_block: u64) -> bool {
        forall|n: u64|
            start_block <= n <= end_block ==> #[trigger] self.block_hashes.contains_key(n)
    }

    /// Whether the reverts of every block of a range can be had without computing them.
    pub open spec fn all_available(self, start_block: u64, end_block: u64) -> bool {
        forall|n: u64| start_block <= n <= end_block ==> #[trigger] self.available(n) is Some
    }

    /// Whether a range is cached as a whole.
    pub open spec fn is_cached(self, start_block: u64, end_block: u64) -> bool {
        self.cache.entries.contains_key(
            range_key(start_block, end_block, self.block_hashes[end_block]),
        )
    }
}

/// The request caches and returns the given reverts of a range.
pub open spec fn stores<W>(
    world: World<W>,
    start_block: u64,
    end_block: u64,
    reverts: TrieUpdatesView,
) -> StepView<W> {
    StepView::Store {
        key: range_key(start_block, end_block, world.block_hashes[end_block]),
        reverts,
    }
}

/// The reverts of a range, computed at once.
pub open spec fn aggregated<W>(world: World<W>, start_block: u64, end_block: u64) -> TrieUpdatesView {
    (world.aggregate)(range_key(start_block, end_block, world.block_hashes[end_block]))
}

proof fn lemma_any_wipes_reverse(items: Seq<Arc<TrieUpdatesSorted>>)
    ensures
        any_wipes(items.reverse()) == any_wipes(items),
{
    let back = items.reverse();
    if any_wipes(items) {
        let i = choose|i: int| 0 <= i < items.len() && (#[trigger] items[i])@.wipes_storage();
        assert(back[items.len() - 1 - i]@.wipes_storage());
    }
    if any_wipes(back) {
        let i = choose|i: int| 0 <= i < back.len() && (#[trigger] back[i])@.wipes_storage();
        assert(items[items.len() - 1 - i]@.wipes_storage());
    }
}

/// What comes of a walk that has found the reverts of every newer block.
proof fn lemma_walk<W>(world: World<W>, walk: WalkView)
    requires
        walk.start_block <= walk.block <= walk.end_block,
        walk.end_block_hash == world.block_hashes[walk.end_block],
        world.all_known(walk.start_block, walk.block),
        walk.newer.len() == walk.end_block - walk.block,
        forall|i: int|
            0 <= i < walk.newer.len() ==> #[trigger] walk.newer[i] == world.available(
                (walk.end_block - i) as u64,
            )->0,
    ensures
        ({
            let start_block = walk.start_block;
            let end_block = walk.end_block;
            let reverts = world.reverts(start_block, end_block);
            world.run(StepView::BlockEntry(walk, world.block_hashes[walk.block])) == (if (
            world.all_available(start_block, walk.block) && (start_block == end_block || !any_wipes(
                reverts,
            ))) {
                stores(world, start_block, end_block, merged(views(reverts)))
            } else {
                stores(world, start_block, end_block, aggregated(world, start_block, end_block))
            })
        }),
    decreases walk.block - walk.start_block,
{
    reveal_with_fuel(World::run, 5);
    let block = walk.block;
    let start_block = walk.start_block;
    let end_block = walk.end_block;
    let entry = StepView::<W>::BlockEntry(walk, world.block_hashes[block]);
    if world.available(block) is Some {
        let found = world.available(block)->0;
        let newer = walk.newer.push(found);
        assert(world.run(entry) == world.run(walk.found::<W>(found)));
        if block > start_block {
            let rest = WalkView { block: (block - 1) as u64, newer, ..walk };
            assert(world.block_hashes.contains_key(rest.block));
            lemma_walk(world, rest);
            assert(world.run(entry) == world.run(
                StepView::BlockEntry(rest, world.block_hashes[rest.block]),
            ));
            assert(world.all_available(start_block, block) == world.all_available(
                start_block,
                rest.block,
            )) by {
                if world.all_available(start_block, rest.block) {
                    assert forall|n: u64| start_block <= n <= block implies #[trigger] world.available(
                        n,
                    ) is Some by {
                        if n != block {
                            assert(n <= rest.block);
                        }
                    }
                }
            }
        } else {
            let reverts = world.reverts(start_block, end_block);
            assert(reverts =~= newer.reverse());
            lemma_any_wipes_reverse(newer);
            assert(world.all_available(start_block, block));
        }
    } else {
        assert(!world.all_available(start_block, block));
    }
}

/// A range of which every block is cached or being computed, and of which no revert
/// deletes a storage trie, is merged from the reverts of its blocks. Where several blocks
/// changed a node, the oldest block is right. The result is cached for the range.
pub proof fn law_merged_range<W>(
    world: World<W>,
    start_block: u64,
    end_block: u64,
    finish_number: u64,
)
    requires
        start_block <= end_block <= finish_number,
        world.all_known(start_block, end_block),
        !world.is_cached(start_block, end_block),
        world.all_available(start_block, end_block),
        start_block == end_block || !any_wipes(world.reverts(start_block, end_block)),
    ensures
        world.answer(start_block, end_block, finish_number) == stores(
            world,
            start_block,
            end_block,
            merged(views(world.reverts(start_block, end_block))),
        ),
{
    lemma_to_walk(world, start_block, end_block, finish_number);
}

/// A range of several blocks, one of whose reverts deletes a storage trie, is computed at
/// once: the reverts of its blocks do not merge.
pub proof fn law_wiped_range<W>(
    world: World<W>,
    start_block: u64,
    end_block: u64,
    finish_number: u64,
)
    requires
        start_block < end_block <= finish_number,
        world.all_known(start_block, end_block),
        !world.is_cached(start_block, end_block),
        any_wipes(world.reverts(start_block, end_block)),
    ensures
        world.answer(start_block, end_block, finish_number) == stores(
            world,
            start_block,
            end_block,
            aggregated(world, start_block, end_block),
        ),
{
    lemma_to_walk(world, start_block, end_block, finish_number);
}

/// What comes of a walk that meets a block whose reverts are not available.
proof fn lemma_walk_to_missing<W>(world: World<W>, walk: WalkView, block: u64)
    requires
        walk.start_block <= block <= walk.block <= walk.end_block,
        walk.end_block_hash == world.block_hashes[walk.end_block],
        world.all_known(block, walk.block),
        world.available(block) is None,
    ensures
        world.run(StepView::<W>::BlockEntry(walk, world.block_hashes[walk.block])) == stores(
            world,
            walk.start_block,
            walk.end_block,
            aggregated(world, walk.start_block, walk.end_block),
        ),
    decreases walk.block - block,
{
    reveal_with_fuel(World::run, 5);
    let entry = StepView::<W>::BlockEntry(walk, world.block_hashes[walk.block]);
    if world.available(walk.block) is Some {
        let found = world.available(walk.block)->0;
        assert(world.run(entry) == world.run(walk.found::<W>(found)));
        let rest = WalkView {
            block: (walk.block - 1) as u64,
            newer: walk.newer.push(found),
            ..walk
        };
        assert(world.block_hashes.contains_key(rest.block));
        lemma_walk_to_missing(world, rest, block);
    }
}

/// A range of which some block is neither cached nor being computed, or whose computation
/// is cancelled, is computed at once. Of its blocks only that one and later ones need have
/// a hash.
pub proof fn law_missing_block<W>(
    world: World<W>,
    start_block: u64,
    end_block: u64,
    finish_number: u64,
    block: u64,
)
    requires
        start_block <= block <= end_block <= finish_number,
        world.all_known(block, end_block),
        !world.is_cached(start_block, end_block),
        world.available(block) is None,
    ensures
        world.answer(start_block, end_block, finish_number) == stores(
            world,
            start_block,
            end_block,
            aggregated(world, start_block, end_block),
        ),
{
    reveal_with_fuel(World::run, 4);
    assert(world.block_hashes.contains_key(end_block));
    let walk = WalkView::first(start_block, end_block, world.block_hashes[end_block]);
    lemma_walk_to_missing(world, walk, block);
}

proof fn lemma_to_walk<W>(
    world: World<W>,
    start_block: u64,
    end_block: u64,
    finish_number: u64,
)
    requires
        start_block <= end_block <= finish_number,
        world.all_known(start_block, end_block),
        !world.is_cached(start_block, end_block),
    ensures
        ({
            let reverts = world.reverts(start_block, end_block);
            world.answer(start_block, end_block, finish_number) == (if world.all_available(
                start_block,
                end_block,
            ) && (start_block == end_block || !any_wipes(reverts)) {
                stores(world, start_block, end_block, merged(views(reverts)))
            } else {
                stores(world, start_block, end_block, aggregated(world, start_block, end_block))
            })
        }),
{
    reveal_with_fuel(World::run, 4);
    assert(world.block_hashes.contains_key(end_block));
    let walk = WalkView::first(start_block, end_block, world.block_hashes[end_block]);
    lemma_walk(world, walk);
    assert(world.answer(start_block, end_block, finish_number) == world.run(
        StepView::BlockEntry(walk, walk.end_block_hash),
    ));
}

/// What comes of a walk that meets a block without a hash.
proof fn lemma_walk_to_unknown<W>(world: World<W>, walk: WalkView, block: u64)
    requires
        walk.start_block <= block < walk.block <= walk.end_block,
        world.all_known((block + 1) as u64, walk.block),
        world.all_available((block + 1) as u64, walk.block),
        !world.block_hashes.contains_key(block),
    ensures
        world.run(StepView::<W>::BlockEntry(walk, world.block_hashes[walk.block]))
            == StepView::<W>::Failed(RangeError::BlockHashNotFound { block_number: block }),
    decreases walk.block - block,
{
    reveal_with_fuel(World::run, 5);
    assert(world.available(walk.block) is Some);
    let found = world.available(walk.block)->0;
    let entry = StepView::<W>::BlockEntry(walk, world.block_hashes[walk.block]);
    assert(world.run(entry) == world.run(walk.found::<W>(found)));
    let rest = WalkView {
        block: (walk.block - 1) as u64,
        newer: walk.newer.push(found),
        ..walk
    };
    if rest.block > block {
        assert(world.block_hashes.contains_key(rest.block));
        lemma_walk_to_unknown(world, rest, block);
    }
}

/// A range with a block that has no hash is refused, if the reverts of every later block
/// of the range can be had without computing them.
pub proof fn law_unknown_block<W>(
    world: World<W>,
    start_block: u64,
    end_block: u64,
    finish_number: u64,
    block: u64,
)
    requires
        start_block <= block < end_block <= finish_number,
        world.all_known((block + 1) as u64, end_block),
        world.all_available((block + 1) as u64, end_block),
        !world.is_cached(start_block, end_block),
        !world.block_hashes.contains_key(block),
    ensures
        world.answer(start_block, end_block, finish_number) == StepView::<W>::Failed(
            RangeError::BlockHashNotFound { block_number: block },
        ),
{
    reveal_with_fuel(World::run, 4);
    assert(world.block_hashes.contains_key(end_block));
    let walk = WalkView::first(start_block, end_block, world.block_hashes[end_block]);
    lemma_walk_to_unknown(world, walk, block);
}

impl<W> World<W> {
    /// The same surroundings with another cache.
    pub open spec fn with_cache(self, cache: CacheView<W>) -> Self {
        World { cache, ..self }
    }
}

/// Once the reverts of a range are cached, the same request returns them.
pub proof fn law_stored_range_is_found<W>(
    world: World<W>,
    start_block: u64,
    end_block: u64,
    finish_number: u64,
    reverts: Arc<TrieUpdatesSorted>,
)
    requires
        start_block <= end_block <= finish_number,
        world.block_hashes.contains_key(end_block),
    ensures
        ({
            let key = range_key(start_block, end_block, world.block_hashes[end_block]);
            world.with_cache(world.cache.insert(key, reverts)).answer(
                start_block,
                end_block,
                finish_number,
            ) == StepView::<W>::Done(reverts@)
        }),
{
    let key = range_key(start_block, end_block, world.block_hashes[end_block]);
    law_cached_range(
        world.with_cache(world.cache.insert(key, reverts)),
        start_block,
        end_block,
        finish_number,
    );
}

/// A range that reaches below what has been evicted is computed at once, unless its first
/// block is being computed.
pub proof fn law_evicted_range_is_computed<W>(
    world: World<W>,
    start_block: u64,
    end_block: u64,
    finish_number: u64,
    up_to_block: u64,
)
    requires
        start_block <= end_block <= finish_number,
        start_block < up_to_block,
        world.all_known(start_block, end_block),
        !world.cache.pending.contains_key(world.canonical(start_block)),
    ensures
        world.with_cache(world.cache.evict(up_to_block)).answer(
            start_block,
            end_block,
            finish_number,
        ) == stores(world, start_block, end_block, aggregated(world, start_block, end_block)),
{
    law_missing_block(
        world.with_cache(world.cache.evict(up_to_block)),
        start_block,
        end_block,
        finish_number,
        start_block,
    );
}

/// Whether a step belongs to a request for the given range.
spec fn belongs<W>(world: World<W>, step: StepView<W>, start_block: u64, end_block: u64) -> bool {
    let within = |walk: WalkView| walk.start_block == start_block && start_block <= walk.block
        <= end_block;
    match step {
        StepView::EndHash { start_block: s, end_block: e } => s == start_block && e == end_block,
        StepView::RangeEntry { start_block: s, end_block: e, end_block_hash } => {
            s == start_block && e == end_block && world.block_hash(end_block) == Some(
                end_block_hash,
            )
        },
        StepView::BlockHash(walk) => within(walk),
        StepView::BlockEntry(walk, hash) => within(walk) && world.block_hash(walk.block) == Some(
            hash,
        ),
        StepView::Await(walk, _) => within(walk),
        _ => true,
    }
}

proof fn lemma_other_chain<W>(
    world: World<W>,
    step: StepView<W>,
    start_block: u64,
    end_block: u64,
    key: ChangesetRangeKey,
    changesets: Arc<TrieUpdatesSorted>,
)
    requires
        start_block <= end_block,
        belongs(world, step, start_block, end_block),
        key != range_key(start_block, end_block, world.block_hashes[end_block]),
        forall|n: u64| start_block <= n <= end_block ==> key != #[trigger] world.canonical(n),
    ensures
        world.with_cache(world.cache.insert(key, changesets)).run(step) == world.run(step),
    decreases steps_left(step),
{
    let other = world.with_cache(world.cache.insert(key, changesets));
    if !is_last(step) {
        if let StepView::BlockEntry(walk, hash) = step {
            assert(world.canonical(walk.block) == block_key(walk.block, hash));
        }
        assert(other.next(step) == world.next(step));
        lemma_next(world, step);
        lemma_other_chain(world, world.next(step), start_block, end_block, key, changesets);
    }
}

/// What is cached for other blocks, or for the same block numbers on another chain, makes
/// no difference to a request.
pub proof fn law_other_chain_is_ignored<W>(
    world: World<W>,
    start_block: u64,
    end_block: u64,
    finish_number: u64,
    key: ChangesetRangeKey,
    changesets: Arc<TrieUpdatesSorted>,
)
    requires
        key != range_key(start_block, end_block, world.block_hashes[end_block]),
        forall|n: u64| start_block <= n <= end_block ==> key != #[trigger] world.canonical(n),
    ensures
        world.with_cache(world.cache.insert(key, changesets)).answer(
            start_block,
            end_block,
            finish_number,
        ) == world.answer(start_block, end_block, finish_number),
{
    let step = begin::<W>(start_block, end_block, finish_number);
    if start_block <= end_block <= finish_number {
        lemma_other_chain(world, step, start_block, end_block, key, changesets);
    }
}

/// Whether one of the storage tries that updates hold is marked as deleted.
pub open spec fn deletes_a_trie(updates: TrieUpdatesSorted) -> bool {
    exists|address: B256|
        updates.tries().contains_key(address) && (#[trigger] updates.tries()[address]).deleted()
}

/// Reverts do not merge exactly if one of them holds a storage trie that is marked as
/// deleted, however many there are.
pub proof fn law_wipes_are_deleted_tries(items: Seq<Arc<TrieUpdatesSorted>>)
    ensures
        any_wipes(items) <==> exists|i: int|
            0 <= i < items.len() && deletes_a_trie(*#[trigger] items[i]),
{
    assert forall|i: int| 0 <= i < items.len() implies (#[trigger] items[i])@.wipes_storage()
        == deletes_a_trie(*items[i]) by {
        law_a_wipe_is_a_deleted_trie(*items[i]);
    }
    if any_wipes(items) {
        let i = choose|i: int| 0 <= i < items.len() && (#[trigger] items[i])@.wipes_storage();
        assert(deletes_a_trie(*items[i]));
    }
    if exists|i: int| 0 <= i < items.len() && deletes_a_trie(*#[trigger] items[i]) {
        let i = choose|i: int| 0 <= i < items.len() && deletes_a_trie(*#[trigger] items[i]);
        assert(items[i]@.wipes_storage());
    }
}

/// The key of a range of the canonical chain.
pub open spec fn canonical_range<W>(
    world: World<W>,
    start_block: u64,
    end_block: u64,
) -> ChangesetRangeKey {
    ChangesetRangeKey { start_block, end_block, end_block_hash: world.block_hashes[end_block] }
}

/// A range of known blocks that are all available, none of whose reverts holds a storage trie
/// that is marked as deleted, is answered with the merged reverts of its blocks, however long
/// it is, and nothing is computed. They are cached for the range.
pub proof fn law_available_range_is_merged<W>(
    world: World<W>,
    start_block: u64,
    end_block: u64,
    finish_number: u64,
)
    requires
        start_block <= end_block <= finish_number,
        forall|n: u64|
            start_block <= n <= end_block ==> #[trigger] world.block_hashes.contains_key(n),
        forall|n: u64| start_block <= n <= end_block ==> #[trigger] world.available(n) is Some,
        forall|n: u64|
            start_block <= n <= end_block ==> !deletes_a_trie(*(#[trigger] world.available(n))->0),
        !world.cache.entries.contains_key(canonical_range(world, start_block, end_block)),
    ensures
        world.answer(start_block, end_block, finish_number) matches StepView::Store { key, reverts }
            && key == canonical_range(world, start_block, end_block) && reverts == merged(
            views(world.reverts(start_block, end_block)),
        ),
{
    let items = world.reverts(start_block, end_block);
    law_wipes_are_deleted_tries(items);
    if any_wipes(items) {
        let i = choose|i: int| 0 <= i < items.len() && deletes_a_trie(*#[trigger] items[i]);
        let n = (start_block + i) as u64;
        assert(items[i] == world.available(n)->0);
        assert(!deletes_a_trie(*world.available(n)->0));
    }
    law_merged_range(world, start_block, end_block, finish_number);
}

/// A known block that is available is answered with its reverts as they are, also if they
/// delete a storage trie, and nothing is computed.
pub proof fn law_available_block_is_returned<W>(
    world: World<W>,
    block: u64,
    finish_number: u64,
)
    requires
        block <= finish_number,
        world.block_hashes.contains_key(block),
        world.available(block) is Some,
    ensures
        match world.answer(block, block, finish_number) {
            StepView::Store { key, reverts } => {
                &&& key == canonical_range(world, block, block)
                &&& reverts == world.available(block)->0@
            },
            StepView::Done(reverts) => reverts == world.available(block)->0@,
            _ => false,
        },
{
    if world.is_cached(block, block) {
        law_cached_range(world, block, block, finish_number);
    } else {
        law_merged_range(world, block, block, finish_number);
        let item = world.available(block)->0;
        assert(views(world.reverts(block, block)) =~= seq![item@]);
        law_merging_one_changes_nothing(item@);
    }
}

/// A range of several known blocks, one of whose available reverts holds a storage trie that
/// is marked as deleted, is computed at once.
pub proof fn law_range_with_a_deleted_trie_is_computed<W>(
    world: World<W>,
    start_block: u64,
    end_block: u64,
    finish_number: u64,
    block: u64,
)
    requires
        start_block < end_block <= finish_number,
        start_block <= block <= end_block,
        forall|n: u64|
            start_block <= n <= end_block ==> #[trigger] world.block_hashes.contains_key(n),
        world.available(block) is Some,
        deletes_a_trie(*world.available(block)->0),
        !world.cache.entries.contains_key(canonical_range(world, start_block, end_block)),
    ensures
        world.answer(start_block, end_block, finish_number) matches StepView::Store { key, reverts }
            && key == canonical_range(world, start_block, end_block) && reverts == (
        world.aggregate)(canonical_range(world, start_block, end_block)),
{
    let items = world.reverts(start_block, end_block);
    law_wipes_are_deleted_tries(items);
    assert(items[block - start_block] == world.available(block)->0);
    assert(any_wipes(items));
    law_wiped_range(world, start_block, end_block, finish_number);
}

/// A block is available if its changesets are cached under its number and its hash, or, if
/// they are not, if they are announced there and what is waited on comes to changesets.
pub proof fn law_available_is_cached_or_awaited<W>(
    world: World<W>,
    block: u64,
    changesets: Arc<TrieUpdatesSorted>,
)
    ensures
        ({
            let key = ChangesetRangeKey {
                start_block: block,
                end_block: block,
                end_block_hash: world.block_hashes[block],
            };
            world.available(block) == Some(changesets) <==> (world.cache.entries.contains_key(key)
                && world.cache.entries[key] == changesets) || (!world.cache.entries.contains_key(
                key,
            ) && world.cache.pending.contains_key(key) && (world.resolved)(
                world.cache.pending[key].waiter,
            ) == Some(changesets))
        }),
{
}

/// What a cache tells about a key is what a request is answered in surroundings with that
/// cache, up to the copy of what is waited on.
pub proof fn law_look_up_is_what_the_world_shows<W: Clone>(
    world: World<W>,
    key: ChangesetRangeKey,
    found: BlockLookup<W>,
)
    requires
        found.answers(world.cache, key),
    ensures
        match world.look_up(key) {
            BlockLookup::Cached(changesets) => found == BlockLookup::<W>::Cached(changesets),
            BlockLookup::InFlight(waiter) => found matches BlockLookup::InFlight(handle) && cloned::<
                W,
            >(waiter, handle),
            BlockLookup::Absent => found is Absent,
        },
{
}

/// Where a walk goes with the reverts of its current block: to the block before, or, at the
/// start of the range, to the merged reverts, unless there are several blocks and one of
/// their reverts holds a storage trie that is marked as deleted; then the range is computed at
/// once.
pub proof fn law_found_goes_on<W>(walk: WalkView, found: Arc<TrieUpdatesSorted>)
    ensures
        ({
            let newer = walk.newer.push(found);
            let deleted = exists|i: int|
                0 <= i < newer.len() && deletes_a_trie(*#[trigger] newer[i]);
            let key = ChangesetRangeKey {
                start_block: walk.start_block,
                end_block: walk.end_block,
                end_block_hash: walk.end_block_hash,
            };
            match walk.found::<W>(found) {
                StepView::BlockHash(rest) => {
                    &&& walk.block > walk.start_block
                    &&& rest.block == walk.block - 1
                    &&& rest.newer == newer
                    &&& rest.start_block == walk.start_block
                    &&& rest.end_block == walk.end_block
                    &&& rest.end_block_hash == walk.end_block_hash
                },
                StepView::Aggregate { start_block, end_block, end_block_hash } => {
                    &&& walk.block <= walk.start_block
                    &&& walk.start_block != walk.end_block && deleted
                    &&& start_block == walk.start_block
                    &&& end_block == walk.end_block
                    &&& end_block_hash == walk.end_block_hash
                },
                StepView::Store { key: stored, reverts } => {
                    &&& walk.block <= walk.start_block
                    &&& walk.start_block == walk.end_block || !deleted
                    &&& stored == key
                    &&& reverts == merged(views(newer.reverse()))
                },
                _ => false,
            }
        }),
{
    law_wipes_are_deleted_tries(walk.newer.push(found));
}

/// What each answer to a step leads to. Cached reverts and reverts that were waited for are
/// treated alike, and so are a block that is not at hand and a computation that was
/// cancelled.
pub proof fn law_answers_lead_on<W>(
    start_block: u64,
    end_block: u64,
    hash: B256,
    walk: WalkView,
    reverts: Arc<TrieUpdatesSorted>,
    waiter: W,
)
    ensures
        end_hash_fetched::<W>(start_block, end_block, Some(hash)) == (StepView::<W>::RangeEntry {
            start_block,
            end_block,
            end_block_hash: hash,
        }),
        range_looked_up::<W>(start_block, end_block, hash, Some(reverts)) == StepView::<W>::Done(
            reverts@,
        ),
        range_looked_up::<W>(start_block, end_block, hash, None) matches StepView::BlockEntry(
            first,
            first_hash,
        ) && first_hash == hash && first.start_block == start_block && first.end_block == end_block
            && first.end_block_hash == hash && first.block == end_block && first.newer.len() == 0,
        block_hash_fetched::<W>(walk, Some(hash)) == StepView::<W>::BlockEntry(walk, hash),
        block_looked_up(walk, BlockLookup::<W>::Cached(reverts)) == walk.found::<W>(reverts),
        block_looked_up(walk, BlockLookup::InFlight(waiter)) == StepView::Await(walk, waiter),
        block_looked_up::<W>(walk, BlockLookup::Absent) == awaited::<W>(walk, None),
        awaited::<W>(walk, Some(reverts)) == walk.found::<W>(reverts),
        awaited::<W>(walk, None) matches StepView::Aggregate {
            start_block: s,
            end_block: e,
            end_block_hash: h,
        } && s == walk.start_block && e == walk.end_block && h == walk.end_block_hash,
{
}

/// A step is seen as what it is.
pub proof fn law_steps_are_seen_as_they_are<W>(step: RangeStep<W>)
    ensures
        match step {
            RangeStep::EndHash(needed) => step@ == (StepView::<W>::EndHash {
                start_block: needed.range().0,
                end_block: needed.range().1,
            }),
            RangeStep::RangeEntry(needed) => step@ == (StepView::<W>::RangeEntry {
                start_block: needed.spec_key().start_block,
                end_block: needed.spec_key().end_block,
                end_block_hash: needed.spec_key().end_block_hash,
            }),
            RangeStep::BlockHash(needed) => step@ == StepView::<W>::BlockHash(needed.walk()),
            RangeStep::BlockEntry(needed) => step@ == StepView::<W>::BlockEntry(
                needed.walk(),
                needed.block_hash(),
            ),
            RangeStep::Await(needed, waiter) => step@ == StepView::Await(needed.walk(), waiter),
            RangeStep::Aggregate(needed) => step@ == (StepView::<W>::Aggregate {
                start_block: needed.spec_key().start_block,
                end_block: needed.spec_key().end_block,
                end_block_hash: needed.spec_key().end_block_hash,
            }),
            RangeStep::Store(needed) => step@ == (StepView::<W>::Store {
                key: needed.spec_key(),
                reverts: needed.spec_reverts()@,
            }),
            RangeStep::Done(reverts) => step@ == StepView::<W>::Done(reverts@),
            RangeStep::Failed(error) => step@ == StepView::<W>::Failed(error),
        },
{
}

} // verus!
