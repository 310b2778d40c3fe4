//! A request for the trie updates of a block.
//!
//! It goes through four phases. The number of the last block is fetched; the changesets of
//! the block are requested; the reverts of every later block are requested, which lead back
//! to the state after the block; and the updates are collected in that state. A range that
//! cannot be served ends the request.
use crate::block_updates::{collect_block_trie_updates, CollectStep, CollectView};
use crate::range::{begin, get_or_compute, reverts_after, RangeError, RangeStep};
use crate::updates::TrieUpdatesSorted;
use alloy_primitives::B256;
use std::sync::Arc;
use vstd::prelude::*;

verus! {

/// The number of the last block is needed.
#[derive(Debug)]
pub struct FrontierNeeded {
    block_number: u64,
}

/// The changesets of the block are needed.
#[derive(Debug)]
pub struct ChangesetsNeeded {
    block_number: u64,
    finish_number: u64,
}

/// The reverts of every later block are needed.
#[derive(Debug)]
pub struct RevertsNeeded {
    block_number: u64,
    finish_number: u64,
    changesets: Arc<TrieUpdatesSorted>,
}

/// What follows when a range has been requested.
#[derive(Debug)]
pub enum BlockUpdatesStep {
    /// The reverts of every later block have to be requested.
    Reverts(RevertsNeeded),
    /// The updates have to be collected, in the state that the reverts lead back to.
    Collect {
        /// The reverts of every later block.
        reverts: Arc<TrieUpdatesSorted>,
        /// The first step of the collection.
        step: CollectStep,
    },
    /// There are no updates.
    Failed(RangeError),
}

/// Whether a collection of updates begins with the given changesets. The storage tries are
/// visited in any order.
pub open spec fn collects(changesets: TrieUpdatesSorted, step: CollectStep) -> bool {
    exists|order: Seq<B256>|
        #![trigger CollectView::start(changesets, order)]
        order.no_duplicates() && order.to_set() == changesets.tries().dom() && step@
            == CollectView::start(changesets, order).step()
}

/// Computes block trie updates using the changeset cache: the trie nodes that the block
/// changed, as they are after the block.
pub fn compute_block_trie_updates(block_number: u64) -> (needed: FrontierNeeded)
    ensures
        needed.block() == block_number,
{
    FrontierNeeded { block_number }
}

impl FrontierNeeded {
    /// The block whose updates are requested.
    pub closed spec fn block(self) -> u64 {
        self.block_number
    }

    /// Goes on with the number of the last block.
    pub fn fetched(self, finish_number: u64) -> (needed: ChangesetsNeeded)
        ensures
            needed.block() == self.block(),
            needed.finish() == finish_number,
    {
        ChangesetsNeeded { block_number: self.block_number, finish_number }
    }
}

impl ChangesetsNeeded {
    /// The block whose updates are requested.
    pub closed spec fn block(self) -> u64 {
        self.block_number
    }

    /// The last block.
    pub closed spec fn finish(self) -> u64 {
        self.finish_number
    }

    /// The request for the changesets of the block.
    pub fn request<W>(&self) -> (step: RangeStep<W>)
        ensures
            step@ == begin::<W>(self.block(), self.block(), self.finish()),
    {
        get_or_compute(self.block_number, self.finish_number)
    }

    /// Goes on with the changesets of the block.
    pub fn answered(self, answer: Result<Arc<TrieUpdatesSorted>, RangeError>) -> (step:
        BlockUpdatesStep)
        requires
            answer is Ok ==> self.block() < u64::MAX,
        ensures
            match answer {
                Ok(changesets) => step matches BlockUpdatesStep::Reverts(needed)
                    && needed.block() == self.block() && needed.finish() == self.finish()
                    && needed.changesets() == changesets,
                Err(error) => step == BlockUpdatesStep::Failed(error),
            },
    {
        match answer {
            Ok(changesets) => BlockUpdatesStep::Reverts(
                RevertsNeeded {
                    block_number: self.block_number,
                    finish_number: self.finish_number,
                    changesets,
                },
            ),
            Err(error) => BlockUpdatesStep::Failed(error),
        }
    }
}

impl RevertsNeeded {
    #[verifier::type_invariant]
    spec fn well_formed(self) -> bool {
        self.block_number < u64::MAX
    }

    /// The block whose updates are requested.
    pub closed spec fn block(self) -> u64 {
        self.block_number
    }

    /// The last block.
    pub closed spec fn finish(self) -> u64 {
        self.finish_number
    }

    /// The changesets of the block.
    pub closed spec fn changesets(self) -> Arc<TrieUpdatesSorted> {
        self.changesets
    }

    /// The request for the reverts of every later block.
    pub fn request<W>(&self) -> (step: RangeStep<W>)
        ensures
            self.block() < u64::MAX,
            step@ == begin::<W>((self.block() + 1) as u64, self.finish(), self.finish()),
    {
        proof {
            use_type_invariant(self);
        }
        reverts_after(self.block_number, self.finish_number)
    }

    /// Goes on with the reverts of every later block.
    pub fn answered(self, answer: Result<Arc<TrieUpdatesSorted>, RangeError>) -> (step:
        BlockUpdatesStep)
        ensures
            match answer {
                Ok(later) => step matches BlockUpdatesStep::Collect { reverts, step: collection }
                    && reverts == later && collects(*self.changesets(), collection),
                Err(error) => step == BlockUpdatesStep::Failed(error),
            },
    {
        match answer {
            Ok(reverts) => BlockUpdatesStep::Collect {
                reverts,
                step: collect_block_trie_updates(self.changesets),
            },
            Err(error) => BlockUpdatesStep::Failed(error),
        }
    }
}

} // verus!
