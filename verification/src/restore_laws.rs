//! The answers of the cache restore the state before a range.
//!
//! A chain has a state of the tries before each block. The laws say that a cache whose
//! entries lead back along the chain gives answers that lead back along the chain, and
//! that it stays such a cache.
use crate::block_laws::{
    law_updates_redo_the_block, law_updates_show_the_state, names_what_it_deletes, run, snapshot,
};
use crate::block_updates::{CollectStepView, CollectView};
use crate::cache::CacheView;
use crate::key::{block_key, range_key, ChangesetRangeKey};
use crate::range::{any_wipes, begin, RangeError, StepView, WalkView};
use crate::range_laws::{
    aggregated, is_last, law_empty_range, law_missing_block, law_wiped_range, lemma_next,
    steps_left, stores, World,
};
use crate::trie_state::{
    agree, law_merged_reverts_restore, law_updates_to_one_state_agree, same_extent, TrieState,
};
use crate::updates::{merged, views, TrieUpdatesSorted, TrieUpdatesView};
use alloy_primitives::B256;
use std::sync::Arc;
use vstd::prelude::*;

verus! {

/// Whether updates lead from the state after the blocks `start_block..=end_block` to the
/// state before them. `before` gives the state before each block.
pub open spec fn restores(
    before: spec_fn(int) -> TrieState,
    updates: TrieUpdatesView,
    start_block: u64,
    end_block: u64,
) -> bool {
    updates.apply(before(end_block + 1)) == before(start_block as int)
}

/// Whether waiting on `waiter` comes to nothing, or to reverts that restore the blocks of
/// `key`.
pub open spec fn comes_to_reverts<W>(
    before: spec_fn(int) -> TrieState,
    resolved: spec_fn(W) -> Option<Arc<TrieUpdatesSorted>>,
    waiter: W,
    key: ChangesetRangeKey,
) -> bool {
    resolved(waiter) matches Some(reverts) ==> restores(
        before,
        reverts@,
        key.start_block,
        key.end_block,
    )
}

impl<W> World<W> {
    /// Whether a key stands for a range of the canonical chain.
    pub open spec fn is_canonical(self, key: ChangesetRangeKey) -> bool {
        &&& key.start_block <= key.end_block
        &&& self.block_hash(key.end_block) == Some(key.end_block_hash)
    }

    /// Whether everything that is cached, being computed or computed at once for a range of
    /// the canonical chain restores the state before it.
    pub open spec fn is_faithful(self, before: spec_fn(int) -> TrieState) -> bool {
        &&& forall|key: ChangesetRangeKey| #[trigger]
            self.cache.entries.contains_key(key) && self.is_canonical(key) ==> restores(
                before,
                self.cache.entries[key]@,
                key.start_block,
                key.end_block,
            )
        &&& forall|key: ChangesetRangeKey| #[trigger]
            self.cache.pending.contains_key(key) && self.is_canonical(key) ==> comes_to_reverts(
                before,
                self.resolved,
                self.cache.pending[key].waiter,
                key,
            )
        &&& forall|key: ChangesetRangeKey|
            self.is_canonical(key) ==> restores(
                before,
                #[trigger] (self.aggregate)(key),
                key.start_block,
                key.end_block,
            )
    }
}

/// Whether the reverts that a walk has found lead back along the chain.
pub open spec fn leads_back(before: spec_fn(int) -> TrieState, walk: WalkView) -> bool {
    &&& walk.start_block <= walk.block <= walk.end_block
    &&& walk.newer.len() == walk.end_block - walk.block
    &&& forall|i: int|
        0 <= i < walk.newer.len() ==> (#[trigger] walk.newer[i])@.apply(
            before(walk.end_block - i + 1),
        ) == before(walk.end_block - i)
}

/// The reverts of a range that were found block by block, the newest first, merge to
/// reverts of the range.
proof fn lemma_found_restore(
    before: spec_fn(int) -> TrieState,
    start_block: u64,
    end_block: u64,
    newer: Seq<Arc<TrieUpdatesSorted>>,
)
    requires
        start_block <= end_block,
        newer.len() == end_block - start_block + 1,
        start_block == end_block || !any_wipes(newer),
        forall|i: int|
            0 <= i < newer.len() ==> (#[trigger] newer[i])@.apply(before(end_block - i + 1))
                == before(end_block - i),
    ensures
        restores(before, merged(views(newer.reverse())), start_block, end_block),
{
    let items = views(newer.reverse());
    let states = Seq::new(items.len() + 1, |i: int| before(start_block + i));
    assert forall|i: int| 0 <= i < items.len() implies (#[trigger] items[i]).apply(states[i + 1])
        == states[i] && (start_block == end_block || !items[i].wipes_storage()) by {
        let back = newer.len() - 1 - i;
        assert(items[i] == newer[back]@);
        assert(end_block - back == start_block + i);
    }
    law_merged_reverts_restore(items, states);
    assert(states.last() == before(end_block + 1));
}

/// Reverts of a block that were cached or waited for take a walk that leads back one block
/// further, or, at the start of the range, to reverts that restore the range. Where they do
/// not merge, the range is computed at once.
pub proof fn law_found_leads_back<W>(
    before: spec_fn(int) -> TrieState,
    walk: WalkView,
    found: Arc<TrieUpdatesSorted>,
)
    requires
        leads_back(before, walk),
        restores(before, found@, walk.block, walk.block),
    ensures
        match walk.found::<W>(found) {
            StepView::BlockHash(rest) => {
                &&& rest.block == walk.block - 1
                &&& rest.key() == walk.key()
                &&& leads_back(before, rest)
            },
            StepView::Store { key, reverts } => {
                &&& key == walk.key()
                &&& restores(before, reverts, walk.start_block, walk.end_block)
            },
            step => step == walk.missing::<W>(),
        },
{
    let newer = walk.newer.push(found);
    if walk.block == walk.start_block && (walk.start_block == walk.end_block || !any_wipes(
        newer,
    )) {
        lemma_found_restore(before, walk.start_block, walk.end_block, newer);
    }
}

/// Whether a request for a range ended as it should: with reverts that restore the state
/// before the range, or with the complaint that a block of the range has no hash.
pub open spec fn is_right<W>(
    block_hashes: Map<u64, B256>,
    before: spec_fn(int) -> TrieState,
    start_block: u64,
    end_block: u64,
    last: StepView<W>,
) -> bool {
    match last {
        StepView::Store { key, reverts } => {
            &&& key == range_key(start_block, end_block, block_hashes[end_block])
            &&& restores(before, reverts, start_block, end_block)
        },
        StepView::Done(reverts) => restores(before, reverts, start_block, end_block),
        StepView::Failed(RangeError::BlockHashNotFound { block_number }) => {
            &&& start_block <= block_number <= end_block
            &&& !block_hashes.contains_key(block_number)
        },
        _ => false,
    }
}

/// Whether a request for a range is on its way to the right end: what it has found leads
/// back along the chain, the keys that it asks for are canonical, and it waits for the block
/// that it is at.
pub open spec fn is_on_course<W>(
    resolved: spec_fn(W) -> Option<Arc<TrieUpdatesSorted>>,
    block_hashes: Map<u64, B256>,
    before: spec_fn(int) -> TrieState,
    start_block: u64,
    end_block: u64,
    step: StepView<W>,
) -> bool {
    let walks = |walk: WalkView|
        {
            &&& leads_back(before, walk)
            &&& block_hashes.contains_key(end_block)
            &&& walk.key() == range_key(start_block, end_block, block_hashes[end_block])
        };
    match step {
        StepView::EndHash { start_block: s, end_block: e } => s == start_block && e == end_block,
        StepView::RangeEntry { start_block: s, end_block: e, end_block_hash }
        | StepView::Aggregate { start_block: s, end_block: e, end_block_hash } => {
            &&& s == start_block && e == end_block
            &&& block_hashes.contains_key(end_block) && end_block_hash == block_hashes[end_block]
        },
        StepView::BlockHash(walk) => walks(walk),
        StepView::BlockEntry(walk, hash) => {
            &&& walks(walk)
            &&& block_hashes.contains_key(walk.block) && hash == block_hashes[walk.block]
        },
        StepView::Await(walk, waiter) => {
            &&& walks(walk)
            &&& block_hashes.contains_key(walk.block)
            &&& comes_to_reverts(
                before,
                resolved,
                waiter,
                block_key(walk.block, block_hashes[walk.block]),
            )
        },
        StepView::Store { .. } | StepView::Done(_) | StepView::Failed(_) => is_right(
            block_hashes,
            before,
            start_block,
            end_block,
            step,
        ),
    }
}

/// Whether each computation that is announced for a range of the canonical chain comes to
/// nothing, or to reverts that restore the range.
pub open spec fn come_to_reverts<W>(
    world: World<W>,
    before: spec_fn(int) -> TrieState,
    resolved: spec_fn(W) -> Option<Arc<TrieUpdatesSorted>>,
) -> bool {
    forall|key: ChangesetRangeKey| #[trigger]
        world.cache.pending.contains_key(key) && world.is_canonical(key) ==> comes_to_reverts(
            before,
            resolved,
            world.cache.pending[key].waiter,
            key,
        )
}

proof fn lemma_step_stays_on_course<W>(
    world: World<W>,
    later: spec_fn(W) -> Option<Arc<TrieUpdatesSorted>>,
    before: spec_fn(int) -> TrieState,
    start_block: u64,
    end_block: u64,
    step: StepView<W>,
)
    requires
        start_block <= end_block,
        world.is_faithful(before),
        come_to_reverts(world, before, later),
        !is_last(step),
        is_on_course(world.resolved, world.block_hashes, before, start_block, end_block, step),
    ensures
        is_on_course(
            later,
            world.block_hashes,
            before,
            start_block,
            end_block,
            world.next(step),
        ),
{
    let key = range_key(start_block, end_block, world.block_hashes[end_block]);
    match step {
        StepView::EndHash { .. } => {},
        StepView::RangeEntry { .. } => {
            assert(world.is_canonical(key));
            if world.cache.entries.contains_key(key) {
                assert(restores(before, world.cache.entries[key]@, start_block, end_block));
            }
        },
        StepView::BlockHash(_) => {},
        StepView::BlockEntry(walk, hash) => {
            let block = world.canonical(walk.block);
            assert(world.is_canonical(block));
            if world.cache.entries.contains_key(block) {
                assert(restores(before, world.cache.entries[block]@, walk.block, walk.block));
                law_found_leads_back::<W>(before, walk, world.cache.entries[block]);
            } else if world.cache.pending.contains_key(block) {
                assert(comes_to_reverts(before, later, world.cache.pending[block].waiter, block));
            }
        },
        StepView::Await(walk, waiter) => {
            if let Some(reverts) = (world.resolved)(waiter) {
                law_found_leads_back::<W>(before, walk, reverts);
            }
        },
        StepView::Aggregate { .. } => {
            assert(world.is_canonical(key));
            assert(restores(before, (world.aggregate)(key), start_block, end_block));
        },
        StepView::Store { .. } | StepView::Done(_) | StepView::Failed(_) => {},
    }
}

/// A request that is on its way to the right end stays so with each step, in whatever
/// faithful surroundings the step is taken.
pub proof fn law_step_stays_on_course<W>(
    world: World<W>,
    before: spec_fn(int) -> TrieState,
    start_block: u64,
    end_block: u64,
    step: StepView<W>,
)
    requires
        start_block <= end_block,
        world.is_faithful(before),
        is_on_course(world.resolved, world.block_hashes, before, start_block, end_block, step),
    ensures
        is_on_course(
            world.resolved,
            world.block_hashes,
            before,
            start_block,
            end_block,
            world.next(step),
        ),
{
    if !is_last(step) {
        lemma_step_stays_on_course(world, world.resolved, before, start_block, end_block, step);
    }
}

/// The last step of a request whose surroundings change: `worlds` gives those in which each
/// step is taken, from step number `count` on.
pub open spec fn run_through<W>(
    worlds: spec_fn(nat) -> World<W>,
    count: nat,
    step: StepView<W>,
) -> StepView<W>
    decreases steps_left(step),
{
    if is_last(step) {
        step
    } else {
        proof {
            lemma_next(worlds(count), step);
        }
        run_through(worlds, count + 1, worlds(count).next(step))
    }
}

/// Whether what is announced in the surroundings of a step still comes to nothing, or to
/// reverts that restore the range, in those of every later step.
pub open spec fn keep_coming_to_reverts<W>(
    worlds: spec_fn(nat) -> World<W>,
    before: spec_fn(int) -> TrieState,
) -> bool {
    forall|i: nat, j: nat|
        #![trigger worlds(i), worlds(j)]
        i <= j ==> come_to_reverts(worlds(i), before, worlds(j).resolved)
}

proof fn lemma_run_through<W>(
    worlds: spec_fn(nat) -> World<W>,
    block_hashes: Map<u64, B256>,
    before: spec_fn(int) -> TrieState,
    start_block: u64,
    end_block: u64,
    count: nat,
    step: StepView<W>,
)
    requires
        start_block <= end_block,
        forall|i: nat| (#[trigger] worlds(i)).is_faithful(before),
        keep_coming_to_reverts(worlds, before),
        forall|i: nat| (#[trigger] worlds(i)).block_hashes == block_hashes,
        forall|j: nat|
            count <= j ==> is_on_course(
                (#[trigger] worlds(j)).resolved,
                block_hashes,
                before,
                start_block,
                end_block,
                step,
            ),
    ensures
        is_right(block_hashes, before, start_block, end_block, run_through(worlds, count, step)),
    decreases steps_left(step),
{
    let world = worlds(count);
    if !is_last(step) {
        assert forall|j: nat| count + 1 <= j implies is_on_course(
            (#[trigger] worlds(j)).resolved,
            block_hashes,
            before,
            start_block,
            end_block,
            world.next(step),
        ) by {
            lemma_step_stays_on_course(
                world,
                worlds(j).resolved,
                before,
                start_block,
                end_block,
                step,
            );
        }
        lemma_next(world, step);
        lemma_run_through(
            worlds,
            block_hashes,
            before,
            start_block,
            end_block,
            count + 1,
            world.next(step),
        );
    }
}

/// The answer to a request for a range restores the state before the range, also when the
/// cache and the announced computations change between its steps. There is no answer only
/// where a block of the range has no hash.
pub proof fn law_answer_restores_meanwhile<W>(
    worlds: spec_fn(nat) -> World<W>,
    block_hashes: Map<u64, B256>,
    before: spec_fn(int) -> TrieState,
    start_block: u64,
    end_block: u64,
    finish_number: u64,
)
    requires
        start_block <= end_block <= finish_number,
        forall|i: nat| (#[trigger] worlds(i)).is_faithful(before),
        keep_coming_to_reverts(worlds, before),
        forall|i: nat| (#[trigger] worlds(i)).block_hashes == block_hashes,
    ensures
        is_right(
            block_hashes,
            before,
            start_block,
            end_block,
            run_through(worlds, 0, begin(start_block, end_block, finish_number)),
        ),
{
    lemma_run_through(
        worlds,
        block_hashes,
        before,
        start_block,
        end_block,
        0,
        begin(start_block, end_block, finish_number),
    );
}

proof fn lemma_run_through_one<W>(
    worlds: spec_fn(nat) -> World<W>,
    world: World<W>,
    count: nat,
    step: StepView<W>,
)
    requires
        forall|i: nat| #[trigger] worlds(i) == world,
    ensures
        run_through(worlds, count, step) == world.run(step),
    decreases steps_left(step),
{
    if !is_last(step) {
        lemma_next(world, step);
        assert(worlds(count) == world);
        lemma_run_through_one(worlds, world, count + 1, world.next(step));
    }
}

/// The answer to a request for a range restores the state before the range. There is no
/// answer only where a block of the range has no hash.
pub proof fn law_answer_restores<W>(
    world: World<W>,
    before: spec_fn(int) -> TrieState,
    start_block: u64,
    end_block: u64,
    finish_number: u64,
)
    requires
        start_block <= end_block <= finish_number,
        world.is_faithful(before),
    ensures
        is_right(
            world.block_hashes,
            before,
            start_block,
            end_block,
            world.answer(start_block, end_block, finish_number),
        ),
{
    let worlds = |i: nat| world;
    law_answer_restores_meanwhile(
        worlds,
        world.block_hashes,
        before,
        start_block,
        end_block,
        finish_number,
    );
    lemma_run_through_one(worlds, world, 0, begin(start_block, end_block, finish_number));
}

/// The answer that a cache gives for a range agrees with the reverts that are computed for
/// it with an empty cache: they lead to the same state, they say the same of every node that
/// both speak of, and they are equal where they speak of the same nodes and delete the same
/// storage tries. Where the range is not cached as a whole and a revert of several blocks
/// deletes a storage trie, the two answers are one.
pub proof fn law_cached_agrees_with_computed<W>(
    world: World<W>,
    before: spec_fn(int) -> TrieState,
    start_block: u64,
    end_block: u64,
    finish_number: u64,
)
    requires
        start_block <= end_block <= finish_number,
        world.all_known(start_block, end_block),
        world.is_faithful(before),
    ensures
        ({
            let computed = aggregated(world, start_block, end_block);
            let answer = world.answer(start_block, end_block, finish_number);
            &&& world.with_cache(CacheView::empty()).answer(start_block, end_block, finish_number)
                == stores(world, start_block, end_block, computed)
            &&& match answer {
                StepView::Store { reverts, .. } | StepView::Done(reverts) => {
                    &&& reverts.apply(before(end_block + 1)) == computed.apply(
                        before(end_block + 1),
                    )
                    &&& agree(reverts, computed)
                    &&& same_extent(reverts, computed) ==> reverts == computed
                },
                _ => false,
            }
            &&& !world.is_cached(start_block, end_block) && start_block < end_block && any_wipes(
                world.reverts(start_block, end_block),
            ) ==> answer == stores(world, start_block, end_block, computed)
        }),
{
    let computed = aggregated(world, start_block, end_block);
    assert(world.block_hashes.contains_key(end_block));
    law_missing_block(
        world.with_cache(CacheView::empty()),
        start_block,
        end_block,
        finish_number,
        end_block,
    );
    let key = range_key(start_block, end_block, world.block_hashes[end_block]);
    assert(world.is_canonical(key));
    assert(restores(before, (world.aggregate)(key), start_block, end_block));
    law_answer_restores(world, before, start_block, end_block, finish_number);
    match world.answer(start_block, end_block, finish_number) {
        StepView::Store { reverts, .. } | StepView::Done(reverts) => {
            law_updates_to_one_state_agree(reverts, computed, before(end_block + 1));
        },
        _ => {},
    }
    if !world.is_cached(start_block, end_block) && start_block < end_block && any_wipes(
        world.reverts(start_block, end_block),
    ) {
        law_wiped_range(world, start_block, end_block, finish_number);
    }
}

/// A cache stays faithful when the answer to a request is cached, when a computation is
/// announced, resolved with the right changesets or withdrawn, and when it is evicted.
pub proof fn law_cache_stays_faithful<W>(
    world: World<W>,
    before: spec_fn(int) -> TrieState,
    key: ChangesetRangeKey,
    changesets: Arc<TrieUpdatesSorted>,
    waiter: W,
    registration: u64,
    up_to_block: u64,
)
    requires
        world.is_faithful(before),
        world.is_canonical(key) ==> restores(
            before,
            changesets@,
            key.start_block,
            key.end_block,
        ),
        world.is_canonical(key) ==> comes_to_reverts(before, world.resolved, waiter, key),
    ensures
        world.with_cache(world.cache.insert(key, changesets)).is_faithful(before),
        world.with_cache(world.cache.insert_resolved(key, changesets)).is_faithful(before),
        world.with_cache(world.cache.register(key, waiter)).is_faithful(before),
        world.with_cache(world.cache.abandon(key, registration)).is_faithful(before),
        world.with_cache(world.cache.evict(up_to_block)).is_faithful(before),
{
    assert forall|k: ChangesetRangeKey| #[trigger]
        world.cache.register(key, waiter).pending.contains_key(k) && world.is_canonical(
            k,
        ) implies comes_to_reverts(
        before,
        world.resolved,
        world.cache.register(key, waiter).pending[k].waiter,
        k,
    ) by {
        if k != key {
            assert(world.cache.pending.contains_key(k));
        }
    }
    assert forall|k: ChangesetRangeKey| #[trigger]
        world.cache.abandon(key, registration).pending.contains_key(k) && world.is_canonical(
            k,
        ) implies comes_to_reverts(
        before,
        world.resolved,
        world.cache.abandon(key, registration).pending[k].waiter,
        k,
    ) by {
        assert(world.cache.pending.contains_key(k));
    }
    assert forall|k: ChangesetRangeKey| #[trigger]
        world.cache.evict(up_to_block).pending.contains_key(k) && world.is_canonical(
            k,
        ) implies comes_to_reverts(
        before,
        world.resolved,
        world.cache.evict(up_to_block).pending[k].waiter,
        k,
    ) by {
        assert(world.cache.pending.contains_key(k));
    }
    lemma_same_entries_stay_faithful(world, before, world.cache.register(key, waiter));
    lemma_same_entries_stay_faithful(world, before, world.cache.abandon(key, registration));
    lemma_same_entries_stay_faithful(world, before, world.cache.evict(up_to_block));
    let inserted = world.with_cache(world.cache.insert(key, changesets));
    assert forall|k: ChangesetRangeKey| #[trigger]
        inserted.cache.entries.contains_key(k) && inserted.is_canonical(k) implies restores(
        before,
        inserted.cache.entries[k]@,
        k.start_block,
        k.end_block,
    ) by {
        assert(world.is_canonical(k));
        if k != key {
            assert(world.cache.entries.contains_key(k));
        }
    }
    assert forall|k: ChangesetRangeKey| #[trigger]
        inserted.cache.pending.contains_key(k) && inserted.is_canonical(k) implies comes_to_reverts(
        before,
        inserted.resolved,
        inserted.cache.pending[k].waiter,
        k,
    ) by {
        assert(world.cache.pending.contains_key(k) && world.is_canonical(k));
    }
    lemma_rest_stays_faithful(world, before, inserted);
    assert forall|k: ChangesetRangeKey| #[trigger]
        world.cache.insert_resolved(key, changesets).pending.contains_key(k)
            && inserted.is_canonical(k) implies comes_to_reverts(
        before,
        inserted.resolved,
        world.cache.insert_resolved(key, changesets).pending[k].waiter,
        k,
    ) by {
        assert(inserted.cache.pending.contains_key(k));
    }
    lemma_same_entries_stay_faithful(
        inserted,
        before,
        world.cache.insert_resolved(key, changesets),
    );
    assert(inserted.with_cache(world.cache.insert_resolved(key, changesets)) == world.with_cache(
        world.cache.insert_resolved(key, changesets),
    ));
}

proof fn lemma_rest_stays_faithful<W>(
    world: World<W>,
    before: spec_fn(int) -> TrieState,
    other: World<W>,
)
    requires
        world.is_faithful(before),
        other == world.with_cache(other.cache),
        forall|key: ChangesetRangeKey| #[trigger]
            other.cache.entries.contains_key(key) && other.is_canonical(key) ==> restores(
                before,
                other.cache.entries[key]@,
                key.start_block,
                key.end_block,
            ),
        forall|key: ChangesetRangeKey| #[trigger]
            other.cache.pending.contains_key(key) && other.is_canonical(key) ==> comes_to_reverts(
                before,
                other.resolved,
                other.cache.pending[key].waiter,
                key,
            ),
    ensures
        other.is_faithful(before),
{
    assert forall|key: ChangesetRangeKey| other.is_canonical(key) implies restores(
        before,
        #[trigger] (other.aggregate)(key),
        key.start_block,
        key.end_block,
    ) by {
        assert(world.is_canonical(key));
        assert((world.aggregate)(key) == (other.aggregate)(key));
    }
}

proof fn lemma_same_entries_stay_faithful<W>(
    world: World<W>,
    before: spec_fn(int) -> TrieState,
    cache: CacheView<W>,
)
    requires
        world.is_faithful(before),
        cache.entries.submap_of(world.cache.entries),
        forall|key: ChangesetRangeKey| #[trigger]
            cache.pending.contains_key(key) && world.is_canonical(key) ==> comes_to_reverts(
                before,
                world.resolved,
                cache.pending[key].waiter,
                key,
            ),
    ensures
        world.with_cache(cache).is_faithful(before),
{
    let other = world.with_cache(cache);
    assert forall|key: ChangesetRangeKey| #[trigger]
        other.cache.entries.contains_key(key) && other.is_canonical(key) implies restores(
        before,
        other.cache.entries[key]@,
        key.start_block,
        key.end_block,
    ) by {
        assert(cache.entries.dom().contains(key));
        assert(world.cache.entries.dom().contains(key));
        assert(world.cache.entries.contains_key(key) && world.is_canonical(key));
    }
    assert forall|key: ChangesetRangeKey| #[trigger]
        other.cache.pending.contains_key(key) && other.is_canonical(
            key,
        ) implies comes_to_reverts(
        before,
        other.resolved,
        other.cache.pending[key].waiter,
        key,
    ) by {
        assert(world.is_canonical(key));
    }
    lemma_rest_stays_faithful(world, before, other);
}

proof fn lemma_empty_changes_nothing(state: TrieState)
    ensures
        TrieUpdatesView::empty().apply(state) == state,
{
    let after = TrieUpdatesView::empty().apply(state);
    assert(after.accounts =~= state.accounts);
    assert(after.storages =~= state.storages);
}

/// What the trie updates of a block come to, once the reverts of every later block have
/// been requested and have come to `last`: every node that the changesets speak of gets the
/// value that it has after the block. The updates lead from the state before the block to
/// the state after it, so long as the changesets delete no storage trie with nodes that they
/// do not speak of. If the request failed, a later block has no hash.
pub open spec fn updates_are_right<W>(
    block_hashes: Map<u64, B256>,
    before: spec_fn(int) -> TrieState,
    changesets: TrieUpdatesSorted,
    order: Seq<B256>,
    block_number: u64,
    finish_number: u64,
    last: StepView<W>,
) -> bool {
    match last {
        StepView::Store { reverts, .. } | StepView::Done(reverts) => {
            let state = reverts.apply(before(finish_number + 1));
            let updates = snapshot(changesets@, before(block_number + 1));
            &&& run(state, None, CollectView::start(changesets, order).step())
                == CollectStepView::Done(updates)
            &&& names_what_it_deletes(changesets@, before(block_number + 1)) ==> updates.apply(
                before(block_number as int),
            ) == before(block_number + 1)
        },
        StepView::Failed(RangeError::BlockHashNotFound { block_number: unknown }) => {
            &&& block_number < unknown <= finish_number
            &&& !block_hashes.contains_key(unknown)
        },
        _ => false,
    }
}

/// The trie updates of a block, looked up with the reverts that the cache gives for every
/// later block, hold the nodes that the block changed as they are after the block, and lead
/// from the state before the block to the state after it. Later blocks may delete storage
/// tries.
pub proof fn law_block_updates_lead_forward<W>(
    world: World<W>,
    before: spec_fn(int) -> TrieState,
    changesets: TrieUpdatesSorted,
    order: Seq<B256>,
    block_number: u64,
    finish_number: u64,
)
    requires
        block_number < u64::MAX,
        block_number <= finish_number,
        world.is_faithful(before),
        changesets.all_sorted(),
        restores(before, changesets@, block_number, block_number),
        order.no_duplicates(),
        order.to_set() == changesets.tries().dom(),
    ensures
        updates_are_right(
            world.block_hashes,
            before,
            changesets,
            order,
            block_number,
            finish_number,
            world.answer((block_number + 1) as u64, finish_number, finish_number),
        ),
{
    let start_block = (block_number + 1) as u64;
    if block_number < finish_number {
        law_answer_restores(world, before, start_block, finish_number, finish_number);
    } else {
        law_empty_range(world, start_block, finish_number, finish_number);
    }
    lemma_updates_are_right(
        world.block_hashes,
        before,
        changesets,
        order,
        block_number,
        finish_number,
        world.answer(start_block, finish_number, finish_number),
    );
}

proof fn lemma_updates_are_right<W>(
    block_hashes: Map<u64, B256>,
    before: spec_fn(int) -> TrieState,
    changesets: TrieUpdatesSorted,
    order: Seq<B256>,
    block_number: u64,
    finish_number: u64,
    last: StepView<W>,
)
    requires
        block_number < u64::MAX,
        block_number <= finish_number,
        changesets.all_sorted(),
        restores(before, changesets@, block_number, block_number),
        order.no_duplicates(),
        order.to_set() == changesets.tries().dom(),
        block_number < finish_number ==> is_right(
            block_hashes,
            before,
            (block_number + 1) as u64,
            finish_number,
            last,
        ),
        block_number == finish_number ==> last == StepView::<W>::Done(TrieUpdatesView::empty()),
    ensures
        updates_are_right(
            block_hashes,
            before,
            changesets,
            order,
            block_number,
            finish_number,
            last,
        ),
{
    let after = before(block_number + 1);
    lemma_empty_changes_nothing(after);
    law_updates_show_the_state(changesets, order, None, after);
    if names_what_it_deletes(changesets@, after) {
        law_updates_redo_the_block(changesets@, after);
    }
}

/// A whole request for the trie updates of a block, with its two requests for ranges, holds
/// the nodes that the block changed as they are after the block, and leads from the state
/// before the block to the state after it, also when the cache and the announced
/// computations change meanwhile. `first` gives the surroundings of the request for the
/// block's own changesets, and `second` those of the request for the later reverts.
pub proof fn law_requested_updates_lead_forward<W>(
    first: spec_fn(nat) -> World<W>,
    second: spec_fn(nat) -> World<W>,
    block_hashes: Map<u64, B256>,
    before: spec_fn(int) -> TrieState,
    changesets: TrieUpdatesSorted,
    order: Seq<B256>,
    block_number: u64,
    finish_number: u64,
)
    requires
        block_number < u64::MAX,
        block_number <= finish_number,
        forall|i: nat| (#[trigger] first(i)).is_faithful(before),
        keep_coming_to_reverts(first, before),
        forall|i: nat| (#[trigger] first(i)).block_hashes == block_hashes,
        forall|i: nat| (#[trigger] second(i)).is_faithful(before),
        keep_coming_to_reverts(second, before),
        forall|i: nat| (#[trigger] second(i)).block_hashes == block_hashes,
        changesets.all_sorted(),
        answers(
            run_through(first, 0, begin(block_number, block_number, finish_number)),
            changesets@,
        ),
        order.no_duplicates(),
        order.to_set() == changesets.tries().dom(),
    ensures
        updates_are_right(
            block_hashes,
            before,
            changesets,
            order,
            block_number,
            finish_number,
            run_through(second, 0, begin((block_number + 1) as u64, finish_number, finish_number)),
        ),
{
    let start_block = (block_number + 1) as u64;
    law_answer_restores_meanwhile(
        first,
        block_hashes,
        before,
        block_number,
        block_number,
        finish_number,
    );
    if block_number < finish_number {
        law_answer_restores_meanwhile(
            second,
            block_hashes,
            before,
            start_block,
            finish_number,
            finish_number,
        );
    }
    lemma_updates_are_right(
        block_hashes,
        before,
        changesets,
        order,
        block_number,
        finish_number,
        run_through(second, 0, begin(start_block, finish_number, finish_number)),
    );
}

/// Whether a request for a range ended with the given reverts.
pub open spec fn answers<W>(last: StepView<W>, reverts: TrieUpdatesView) -> bool {
    match last {
        StepView::Store { reverts: r, .. } => r == reverts,
        StepView::Done(r) => r == reverts,
        _ => false,
    }
}

} // verus!
