//! Accumulated trie reverts for a range of blocks, from the cache or computed.
//!
//! A request advances step by step. Each step names one thing that has to be
//! fetched, looked up, awaited, computed or stored, and what comes of it leads to the
//! next step. A request ends in the reverts or in an error.
use crate::cache::{BlockLookup, ChangesetCacheInner};
use crate::key::{block_key, range_key, ChangesetRangeKey};
use crate::updates::{merged, views, TrieUpdatesSorted, TrieUpdatesView};
use alloy_primitives::B256;
use std::sync::Arc;
use vstd::prelude::*;

verus! {

/// Why there are no reverts for a range.
#[derive(Debug, Clone, Copy, PartialEq, Eq)]
pub enum RangeError {
    /// The range ends beyond the last block, `available`.
    InsufficientChangesets { requested: u64, available: u64 },
    /// A block of the range has no hash.
    BlockHashNotFound { block_number: u64 },
}

/// A range of which the newest blocks have been found in the cache.
#[verifier::ext_equal]
pub struct WalkView {
    pub start_block: u64,
    pub end_block: u64,
    pub end_block_hash: B256,
    /// The newest block that has not been looked at.
    pub block: u64,
    /// The reverts of the blocks after it, the newest first.
    pub newer: Seq<Arc<TrieUpdatesSorted>>,
}

/// Where a request stands.
#[verifier::ext_equal]
#[verifier::reject_recursive_types(W)]
pub enum StepView<W> {
    EndHash { start_block: u64, end_block: u64 },
    RangeEntry { start_block: u64, end_block: u64, end_block_hash: B256 },
    BlockHash(WalkView),
    BlockEntry(WalkView, B256),
    Await(WalkView, W),
    Aggregate { start_block: u64, end_block: u64, end_block_hash: B256 },
    Store { key: ChangesetRangeKey, reverts: TrieUpdatesView },
    Done(TrieUpdatesView),
    Failed(RangeError),
}

/// Whether one of the changesets deletes a whole storage trie.
pub open spec fn any_wipes(items: Seq<Arc<TrieUpdatesSorted>>) -> bool {
    exists|i: int| 0 <= i < items.len() && (#[trigger] items[i])@.wipes_storage()
}

impl WalkView {
    /// A range of which nothing has been looked at.
    pub open spec fn first(start_block: u64, end_block: u64, end_block_hash: B256) -> Self {
        WalkView {
            start_block,
            end_block,
            end_block_hash,
            block: end_block,
            newer: Seq::empty(),
        }
    }

    /// The key of the whole range.
    pub open spec fn key(self) -> ChangesetRangeKey {
        range_key(self.start_block, self.end_block, self.end_block_hash)
    }

    /// What follows when the reverts of the current block are known: the block before
    /// it, or, at the start of the range, the merged reverts. Reverts of several blocks
    /// that delete a storage trie do not merge.
    pub open spec fn found<W>(self, reverts: Arc<TrieUpdatesSorted>) -> StepView<W> {
        let newer = self.newer.push(reverts);
        if self.block > self.start_block {
            StepView::BlockHash(WalkView { block: (self.block - 1) as u64, newer, ..self })
        } else if self.start_block != self.end_block && any_wipes(newer) {
            self.missing()
        } else {
            StepView::Store { key: self.key(), reverts: merged(views(newer.reverse())) }
        }
    }

    /// What follows when the reverts of the current block are not to be had.
    pub open spec fn missing<W>(self) -> StepView<W> {
        StepView::Aggregate {
            start_block: self.start_block,
            end_block: self.end_block,
            end_block_hash: self.end_block_hash,
        }
    }
}

/// How a request for the blocks `start_block..=end_block` begins, where the last block
/// is `finish_number`.
pub open spec fn begin<W>(start_block: u64, end_block: u64, finish_number: u64) -> StepView<W> {
    if end_block > finish_number {
        StepView::Failed(
            RangeError::InsufficientChangesets { requested: end_block, available: finish_number },
        )
    } else if start_block > end_block {
        StepView::Done(TrieUpdatesView::empty())
    } else {
        StepView::EndHash { start_block, end_block }
    }
}

/// What follows when the hash of the last block of the range is known or missing.
pub open spec fn end_hash_fetched<W>(
    start_block: u64,
    end_block: u64,
    hash: Option<B256>,
) -> StepView<W> {
    match hash {
        Some(end_block_hash) => StepView::RangeEntry { start_block, end_block, end_block_hash },
        None => StepView::Failed(RangeError::BlockHashNotFound { block_number: end_block }),
    }
}

/// What follows when the whole range is cached or not.
pub open spec fn range_looked_up<W>(
    start_block: u64,
    end_block: u64,
    end_block_hash: B256,
    cached: Option<Arc<TrieUpdatesSorted>>,
) -> StepView<W> {
    match cached {
        Some(reverts) => StepView::Done(reverts@),
        None => StepView::BlockEntry(
            WalkView::first(start_block, end_block, end_block_hash),
            end_block_hash,
        ),
    }
}

/// What follows when the hash of the current block is known or missing.
pub open spec fn block_hash_fetched<W>(walk: WalkView, hash: Option<B256>) -> StepView<W> {
    match hash {
        Some(hash) => StepView::BlockEntry(walk, hash),
        None => StepView::Failed(RangeError::BlockHashNotFound { block_number: walk.block }),
    }
}

/// What follows when the current block has been looked up.
pub open spec fn block_looked_up<W>(walk: WalkView, found: BlockLookup<W>) -> StepView<W> {
    match found {
        BlockLookup::Cached(reverts) => walk.found(reverts),
        BlockLookup::InFlight(waiter) => StepView::Await(walk, waiter),
        BlockLookup::Absent => walk.missing(),
    }
}

/// What follows when a computation that was waited for is resolved or cancelled.
pub open spec fn awaited<W>(walk: WalkView, resolved: Option<Arc<TrieUpdatesSorted>>) -> StepView<
    W,
> {
    match resolved {
        Some(reverts) => walk.found(reverts),
        None => walk.missing(),
    }
}

/// One step of a request for the reverts of a range.
#[verifier::reject_recursive_types(W)]
#[derive(Debug)]
pub enum RangeStep<W> {
    /// The hash of the last block has to be fetched.
    EndHash(EndHashNeeded),
    /// The whole range has to be looked up in the cache.
    RangeEntry(RangeEntryNeeded),
    /// The hash of a block has to be fetched.
    BlockHash(BlockHashNeeded),
    /// A block has to be looked up in the cache.
    BlockEntry(BlockEntryNeeded),
    /// A computation has to be waited for.
    Await(AwaitNeeded, W),
    /// The reverts of the whole range have to be computed at once.
    Aggregate(AggregateNeeded),
    /// The reverts have to be cached.
    Store(StoreNeeded),
    /// The reverts.
    Done(Arc<TrieUpdatesSorted>),
    /// There are no reverts.
    Failed(RangeError),
}

/// The hash of the last block of a range is needed.
#[derive(Debug)]
pub struct EndHashNeeded {
    start_block: u64,
    end_block: u64,
}

/// The cache entry of a whole range is needed.
#[derive(Debug)]
pub struct RangeEntryNeeded {
    key: ChangesetRangeKey,
}

/// A range of which the newest blocks have been found in the cache.
#[derive(Debug)]
struct Walk {
    key: ChangesetRangeKey,
    block: u64,
    newer: Vec<Arc<TrieUpdatesSorted>>,
}

/// The hash of a block is needed.
#[derive(Debug)]
pub struct BlockHashNeeded {
    walk: Walk,
}

/// The cache entry of a block is needed.
#[derive(Debug)]
pub struct BlockEntryNeeded {
    walk: Walk,
    block_hash: B256,
}

/// The result of a pending computation is needed.
#[derive(Debug)]
pub struct AwaitNeeded {
    walk: Walk,
}

/// Reverts that are computed for a whole range at once are needed.
#[derive(Debug)]
pub struct AggregateNeeded {
    key: ChangesetRangeKey,
}

/// Reverts that have to be cached.
#[derive(Debug)]
pub struct StoreNeeded {
    key: ChangesetRangeKey,
    reverts: Arc<TrieUpdatesSorted>,
}

impl View for Walk {
    type V = WalkView;

    closed spec fn view(&self) -> WalkView {
        WalkView {
            start_block: self.key.start_block,
            end_block: self.key.end_block,
            end_block_hash: self.key.end_block_hash,
            block: self.block,
            newer: self.newer@,
        }
    }
}

impl<W> View for RangeStep<W> {
    type V = StepView<W>;

    open spec fn view(&self) -> StepView<W> {
        match *self {
            RangeStep::EndHash(needed) => StepView::EndHash {
                start_block: needed.range().0,
                end_block: needed.range().1,
            },
            RangeStep::RangeEntry(needed) => StepView::RangeEntry {
                start_block: needed.spec_key().start_block,
                end_block: needed.spec_key().end_block,
                end_block_hash: needed.spec_key().end_block_hash,
            },
            RangeStep::BlockHash(needed) => StepView::BlockHash(needed.walk()),
            RangeStep::BlockEntry(needed) => StepView::BlockEntry(
                needed.walk(),
                needed.block_hash(),
            ),
            RangeStep::Await(needed, waiter) => StepView::Await(needed.walk(), waiter),
            RangeStep::Aggregate(needed) => StepView::Aggregate {
                start_block: needed.spec_key().start_block,
                end_block: needed.spec_key().end_block,
                end_block_hash: needed.spec_key().end_block_hash,
            },
            RangeStep::Store(needed) => StepView::Store {
                key: needed.spec_key(),
                reverts: needed.spec_reverts()@,
            },
            RangeStep::Done(reverts) => StepView::Done(reverts@),
            RangeStep::Failed(error) => StepView::Failed(error),
        }
    }
}

/// Gets or computes trie reverts for the blocks `start_block..=end_block`, where the
/// last block is `finish_number`.
///
/// If all blocks in the range are cached, their reverts are merged, and older values
/// take precedence. If any is missing, the reverts of the whole range are computed at
/// once. Either way they are cached as a range.
pub fn get_or_compute_range<W>(start_block: u64, end_block: u64, finish_number: u64) -> (step:
    RangeStep<W>)
    ensures
        step@ == begin::<W>(start_block, end_block, finish_number),
{
    if end_block > finish_number {
        return RangeStep::Failed(
            RangeError::InsufficientChangesets { requested: end_block, available: finish_number },
        );
    }
    if start_block > end_block {
        return RangeStep::Done(Arc::new(TrieUpdatesSorted::default()));
    }
    RangeStep::EndHash(EndHashNeeded { start_block, end_block })
}

/// Gets the changesets of one block from the cache, or computes them if missing.
pub fn get_or_compute<W>(block_number: u64, finish_number: u64) -> (step: RangeStep<W>)
    ensures
        step@ == begin::<W>(block_number, block_number, finish_number),
{
    get_or_compute_range(block_number, block_number, finish_number)
}

/// Gets or computes the trie reverts that lead back to the state after the given block:
/// those of every later block.
pub fn reverts_after<W>(block_number: u64, finish_number: u64) -> (step: RangeStep<W>)
    requires
        block_number < u64::MAX,
    ensures
        step@ == begin::<W>((block_number + 1) as u64, finish_number, finish_number),
{
    get_or_compute_range(block_number + 1, finish_number, finish_number)
}

impl EndHashNeeded {
    #[verifier::type_invariant]
    spec fn well_formed(self) -> bool {
        self.start_block <= self.end_block
    }

    /// The first and the last block of the range.
    pub closed spec fn range(self) -> (u64, u64) {
        (self.start_block, self.end_block)
    }

    /// The block whose hash has to be fetched.
    pub fn block_number(&self) -> (number: u64)
        ensures
            number == self.range().1,
    {
        self.end_block
    }

    /// Goes on with the hash of the block, if it has one.
    pub fn fetched<W>(self, hash: Option<B256>) -> (step: RangeStep<W>)
        ensures
            step@ == end_hash_fetched::<W>(self.range().0, self.range().1, hash),
    {
        proof {
            use_type_invariant(&self);
        }
        match hash {
            Some(hash) => {
                let key = ChangesetRangeKey::new(self.start_block, self.end_block, hash);
                RangeStep::RangeEntry(RangeEntryNeeded { key })
            },
            None => RangeStep::Failed(
                RangeError::BlockHashNotFound { block_number: self.end_block },
            ),
        }
    }
}

impl RangeEntryNeeded {
    #[verifier::type_invariant]
    spec fn well_formed(self) -> bool {
        self.key.start_block <= self.key.end_block
    }

    /// The key of the range.
    pub closed spec fn spec_key(self) -> ChangesetRangeKey {
        self.key
    }

    /// The key that has to be looked up.
    pub fn key(&self) -> (key: ChangesetRangeKey)
        ensures
            key == self.spec_key(),
    {
        self.key
    }

    /// Goes on with the changesets that are cached under the key, if any are.
    pub fn looked_up<W>(self, cached: Option<Arc<TrieUpdatesSorted>>) -> (step: RangeStep<W>)
        ensures
            step@ == range_looked_up::<W>(
                self.spec_key().start_block,
                self.spec_key().end_block,
                self.spec_key().end_block_hash,
                cached,
            ),
            cached matches Some(reverts) ==> step == RangeStep::<W>::Done(reverts),
    {
        proof {
            use_type_invariant(&self);
        }
        match cached {
            Some(reverts) => RangeStep::Done(reverts),
            None => {
                let walk = Walk { key: self.key, block: self.key.end_block, newer: Vec::new() };
                RangeStep::BlockEntry(
                    BlockEntryNeeded { walk, block_hash: self.key.end_block_hash },
                )
            },
        }
    }
}

impl Walk {
    #[verifier::type_invariant]
    spec fn well_formed(self) -> bool {
        &&& self.key.start_block <= self.block <= self.key.end_block
        &&& self.newer.len() == self.key.end_block - self.block
    }

    /// Goes on with the reverts of the current block.
    fn found<W>(self, reverts: Arc<TrieUpdatesSorted>) -> (step: RangeStep<W>)
        ensures
            step@ == self@.found::<W>(reverts),
    {
        proof {
            use_type_invariant(&self);
        }
        let Walk { key, block, mut newer } = self;
        newer.push(reverts);
        if block > key.start_block {
            return RangeStep::BlockHash(
                BlockHashNeeded { walk: Walk { key, block: block - 1, newer } },
            );
        }
        if key.start_block != key.end_block && has_wipe(&newer) {
            return RangeStep::Aggregate(AggregateNeeded { key });
        }
        let oldest_first = reversed(&newer);
        assert(forall|i: int|
            0 <= i < newer.len() ==> #[trigger] oldest_first@[i] == newer@[newer.len() - 1 - i]);
        RangeStep::Store(
            StoreNeeded { key, reverts: Arc::new(TrieUpdatesSorted::merge_slice(&oldest_first)) },
        )
    }

    /// Goes on without the reverts of the current block.
    fn missing<W>(self) -> (step: RangeStep<W>)
        ensures
            step@ == self@.missing::<W>(),
    {
        RangeStep::Aggregate(AggregateNeeded { key: self.key })
    }
}

/// Whether one of the changesets deletes a whole storage trie.
fn has_wipe(items: &Vec<Arc<TrieUpdatesSorted>>) -> (wipe: bool)
    ensures
        wipe == any_wipes(items@),
{
    let mut i: usize = 0;
    while i < items.len()
        invariant
            i <= items.len(),
            forall|k: int| 0 <= k < i ==> !(#[trigger] items@[k])@.wipes_storage(),
        decreases items.len() - i,
    {
        if items[i].wipes_storage() {
            return true;
        }
        i = i + 1;
    }
    false
}

/// The items in reverse order.
fn reversed(items: &Vec<Arc<TrieUpdatesSorted>>) -> (back: Vec<Arc<TrieUpdatesSorted>>)
    ensures
        back@ == items@.reverse(),
{
    let mut back: Vec<Arc<TrieUpdatesSorted>> = Vec::new();
    let mut i: usize = items.len();
    while i > 0
        invariant
            i + back.len() == items.len(),
            forall|k: int|
                0 <= k < back.len() ==> #[trigger] back@[k] == items@[items.len() - 1 - k],
        decreases i,
    {
        i = i - 1;
        back.push(items[i].clone());
    }
    back
}

impl BlockHashNeeded {
    /// The range, and what has been found of it.
    pub closed spec fn walk(self) -> WalkView {
        self.walk@
    }

    /// The block whose hash has to be fetched.
    pub fn block_number(&self) -> (number: u64)
        ensures
            number == self.walk().block,
    {
        self.walk.block
    }

    /// Goes on with the hash of the block, if it has one.
    pub fn fetched<W>(self, hash: Option<B256>) -> (step: RangeStep<W>)
        ensures
            step@ == block_hash_fetched::<W>(self.walk(), hash),
    {
        match hash {
            Some(block_hash) => RangeStep::BlockEntry(
                BlockEntryNeeded { walk: self.walk, block_hash },
            ),
            None => RangeStep::Failed(
                RangeError::BlockHashNotFound { block_number: self.walk.block },
            ),
        }
    }
}

impl BlockEntryNeeded {
    /// The range, and what has been found of it.
    pub closed spec fn walk(self) -> WalkView {
        self.walk@
    }

    /// The hash of the current block.
    pub closed spec fn block_hash(self) -> B256 {
        self.block_hash
    }

    /// The key that has to be looked up.
    pub fn key(&self) -> (key: ChangesetRangeKey)
        ensures
            key == block_key(self.walk().block, self.block_hash()),
    {
        ChangesetRangeKey::single(self.walk.block, self.block_hash)
    }

    /// Goes on with what the cache knows about the block.
    pub fn looked_up<W>(self, found: BlockLookup<W>) -> (step: RangeStep<W>)
        ensures
            step@ == block_looked_up::<W>(self.walk(), found),
    {
        match found {
            BlockLookup::Cached(reverts) => self.walk.found(reverts),
            BlockLookup::InFlight(waiter) => RangeStep::Await(
                AwaitNeeded { walk: self.walk },
                waiter,
            ),
            BlockLookup::Absent => self.walk.missing(),
        }
    }
}

impl AwaitNeeded {
    /// The range, and what has been found of it.
    pub closed spec fn walk(self) -> WalkView {
        self.walk@
    }

    /// The block whose reverts are being computed.
    pub fn block_number(&self) -> (number: u64)
        ensures
            number == self.walk().block,
    {
        self.walk.block
    }

    /// Goes on with the reverts that were waited for, or without them if the
    /// computation was cancelled.
    pub fn awaited<W>(self, resolved: Option<Arc<TrieUpdatesSorted>>) -> (step: RangeStep<W>)
        ensures
            step@ == awaited::<W>(self.walk(), resolved),
    {
        match resolved {
            Some(reverts) => self.walk.found(reverts),
            None => self.walk.missing(),
        }
    }
}

impl AggregateNeeded {
    /// The key of the range.
    pub closed spec fn spec_key(self) -> ChangesetRangeKey {
        self.key
    }

    /// The key of the range whose reverts have to be computed.
    pub fn key(&self) -> (key: ChangesetRangeKey)
        ensures
            key == self.spec_key(),
    {
        self.key
    }

    /// Goes on with the reverts of the whole range.
    pub fn computed<W>(self, reverts: Arc<TrieUpdatesSorted>) -> (step: RangeStep<W>)
        ensures
            step matches RangeStep::Store(needed) && needed.spec_key() == self.spec_key()
                && needed.spec_reverts() == reverts,
    {
        RangeStep::Store(StoreNeeded { key: self.key, reverts })
    }
}

impl StoreNeeded {
    /// The key of the range.
    pub closed spec fn spec_key(self) -> ChangesetRangeKey {
        self.key
    }

    /// The reverts of the range.
    pub closed spec fn spec_reverts(self) -> Arc<TrieUpdatesSorted> {
        self.reverts
    }

    /// Caches the reverts, and returns them.
    pub fn store<W>(self, cache: &mut ChangesetCacheInner<W>) -> (reverts: Arc<TrieUpdatesSorted>)
        requires
            old(cache).wf(),
        ensures
            final(cache).wf(),
            final(cache)@ == old(cache)@.insert(self.spec_key(), reverts),
            reverts == self.spec_reverts(),
    {
        cache.insert(self.key, self.reverts.clone());
        self.reverts
    }
}

} // verus!
