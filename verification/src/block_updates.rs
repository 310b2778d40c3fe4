//! The trie updates of a block, collected from its changesets.
//!
//! The changesets name the nodes that the block changed. The updates give each of them
//! the value that it has after the block. The values are looked up one by one: each step
//! names what has to be looked up, and what is found leads to the next step.
use crate::foreign::{b256_map_get, b256_map_insert, b256_map_keys};
use crate::nibbles::{path_before, Nibbles};
use crate::updates::{
    nodes_map, nodes_sorted, tries_view, NodesView, StorageTrieUpdatesSorted, StorageTrieView,
    TrieUpdatesSorted, TrieUpdatesView,
};
use alloy_primitives::map::B256Map;
use alloy_primitives::B256;
use alloy_trie::BranchNodeCompact;
use std::sync::Arc;
use vstd::prelude::*;

verus! {

/// What has been looked up so far.
#[verifier::ext_equal]
pub struct CollectView {
    /// The changesets of the block.
    pub changesets: TrieUpdatesSorted,
    /// The accounts whose storage trie changed, in the order in which they are visited.
    pub order: Seq<B256>,
    /// The values of the first nodes of the account trie.
    pub accounts: Seq<Option<BranchNodeCompact>>,
    /// For each account that has been visited, the values of the first nodes of its
    /// storage trie.
    pub storages: Seq<Seq<Option<BranchNodeCompact>>>,
}

/// The first nodes of a list, with other values.
pub open spec fn with_values(
    nodes: Seq<(Nibbles, Option<BranchNodeCompact>)>,
    values: Seq<Option<BranchNodeCompact>>,
) -> NodesView {
    nodes_map(Seq::new(values.len(), |i: int| (nodes[i].0, values[i])))
}

impl CollectView {
    /// The storage trie updates of the account that is being visited.
    pub open spec fn visited(self) -> StorageTrieUpdatesSorted {
        self.changesets.tries()[self.order[self.storages.len() - 1]]
    }

    /// The nodes of the changesets with the values that were looked up.
    pub open spec fn collected(self) -> TrieUpdatesView {
        let tries = self.changesets.tries();
        TrieUpdatesView {
            account_nodes: with_values(self.changesets.nodes(), self.accounts),
            storage_tries: Map::new(
                |address: B256| tries.contains_key(address),
                |address: B256|
                    StorageTrieView {
                        is_deleted: tries[address]@.is_deleted,
                        nodes: with_values(
                            tries[address].nodes(),
                            self.storages[self.order.index_of(address)],
                        ),
                    },
            ),
        }
    }

    /// What has to be looked up next: the nodes of the account trie first, then those of
    /// one storage trie after the other.
    pub open spec fn step(self) -> CollectStepView {
        if self.accounts.len() < self.changesets.nodes().len() {
            CollectStepView::AccountNode(self)
        } else if self.storages.len() > 0 && self.storages.last().len()
            < self.visited().nodes().len() {
            CollectStepView::StorageNode(self)
        } else if self.storages.len() < self.order.len() {
            CollectStepView::StorageTrie(self)
        } else {
            CollectStepView::Done(self.collected())
        }
    }

    /// The value of the next account trie node is known.
    pub open spec fn account_found(self, value: Option<BranchNodeCompact>) -> CollectStepView {
        CollectView { accounts: self.accounts.push(value), ..self }.step()
    }

    /// The storage trie of the next account has been opened.
    pub open spec fn trie_opened(self) -> CollectStepView {
        CollectView { storages: self.storages.push(Seq::empty()), ..self }.step()
    }

    /// The value of the next node of the open storage trie is known.
    pub open spec fn storage_found(self, value: Option<BranchNodeCompact>) -> CollectStepView {
        CollectView {
            storages: self.storages.drop_last().push(self.storages.last().push(value)),
            ..self
        }.step()
    }

    /// Nothing has been looked up.
    pub open spec fn start(changesets: TrieUpdatesSorted, order: Seq<B256>) -> Self {
        CollectView { changesets, order, accounts: Seq::empty(), storages: Seq::empty() }
    }
}

/// Where a collection of trie updates stands.
#[verifier::ext_equal]
pub enum CollectStepView {
    AccountNode(CollectView),
    StorageTrie(CollectView),
    StorageNode(CollectView),
    Done(TrieUpdatesView),
}

/// One step of the collection of a block's trie updates.
#[derive(Debug)]
pub enum CollectStep {
    /// A node of the account trie has to be looked up.
    AccountNode(AccountNodeNeeded),
    /// The storage trie of an account has to be opened.
    StorageTrie(StorageTrieNeeded),
    /// A node of the open storage trie has to be looked up.
    StorageNode(StorageNodeNeeded),
    /// The trie updates of the block.
    Done(TrieUpdatesSorted),
}

/// What has been looked up so far.
#[derive(Debug)]
struct Collect {
    changesets: Arc<TrieUpdatesSorted>,
    addresses: Vec<B256>,
    account_nodes: Vec<(Nibbles, Option<BranchNodeCompact>)>,
    storages: Vec<Vec<(Nibbles, Option<BranchNodeCompact>)>>,
}

/// A node of the account trie is needed.
#[derive(Debug)]
pub struct AccountNodeNeeded {
    collect: Collect,
}

/// The storage trie of an account is needed.
#[derive(Debug)]
pub struct StorageTrieNeeded {
    collect: Collect,
}

/// A node of the open storage trie is needed.
#[derive(Debug)]
pub struct StorageNodeNeeded {
    collect: Collect,
}

/// The values of a list of nodes.
spec fn values_of(nodes: Seq<(Nibbles, Option<BranchNodeCompact>)>) -> Seq<
    Option<BranchNodeCompact>,
> {
    nodes.map_values(|node: (Nibbles, Option<BranchNodeCompact>)| node.1)
}

/// Whether a list has the first paths of another.
spec fn starts_like(
    nodes: Seq<(Nibbles, Option<BranchNodeCompact>)>,
    model: Seq<(Nibbles, Option<BranchNodeCompact>)>,
) -> bool {
    &&& nodes.len() <= model.len()
    &&& forall|i: int| 0 <= i < nodes.len() ==> (#[trigger] nodes[i]).0@ == model[i].0@
}

impl View for Collect {
    type V = CollectView;

    closed spec fn view(&self) -> CollectView {
        CollectView {
            changesets: *self.changesets,
            order: self.addresses@,
            accounts: values_of(self.account_nodes@),
            storages: self.storages@.map_values(
                |nodes: Vec<(Nibbles, Option<BranchNodeCompact>)>| values_of(nodes@),
            ),
        }
    }
}

impl View for CollectStep {
    type V = CollectStepView;

    open spec fn view(&self) -> CollectStepView {
        match *self {
            CollectStep::AccountNode(needed) => CollectStepView::AccountNode(needed@),
            CollectStep::StorageTrie(needed) => CollectStepView::StorageTrie(needed@),
            CollectStep::StorageNode(needed) => CollectStepView::StorageNode(needed@),
            CollectStep::Done(updates) => CollectStepView::Done(updates@),
        }
    }
}

impl View for AccountNodeNeeded {
    type V = CollectView;

    closed spec fn view(&self) -> CollectView {
        self.collect@
    }
}

impl View for StorageTrieNeeded {
    type V = CollectView;

    closed spec fn view(&self) -> CollectView {
        self.collect@
    }
}

impl View for StorageNodeNeeded {
    type V = CollectView;

    closed spec fn view(&self) -> CollectView {
        self.collect@
    }
}

proof fn lemma_same_nodes_map(
    left: Seq<(Nibbles, Option<BranchNodeCompact>)>,
    right: Seq<(Nibbles, Option<BranchNodeCompact>)>,
)
    requires
        left.len() == right.len(),
        forall|i: int|
            0 <= i < left.len() ==> (#[trigger] left[i]).0@ == right[i].0@ && left[i].1
                == right[i].1,
    ensures
        nodes_map(left) == nodes_map(right),
    decreases left.len(),
{
    if left.len() > 0 {
        lemma_same_nodes_map(left.drop_last(), right.drop_last());
    }
}

proof fn lemma_with_values(
    nodes: Seq<(Nibbles, Option<BranchNodeCompact>)>,
    model: Seq<(Nibbles, Option<BranchNodeCompact>)>,
)
    requires
        starts_like(nodes, model),
        nodes_sorted(model),
    ensures
        nodes_map(nodes) == with_values(model, values_of(nodes)),
        nodes_sorted(nodes),
{
    let values = values_of(nodes);
    lemma_same_nodes_map(nodes, Seq::new(values.len(), |i: int| (model[i].0, values[i])));
    assert forall|i: int, j: int| 0 <= i < j < nodes.len() implies path_before(
        (#[trigger] nodes[i]).0@,
        (#[trigger] nodes[j]).0@,
    ) by {
        assert(path_before(model[i].0@, model[j].0@));
    }
}

/// Starts to collect the trie updates of the block with the given changesets.
pub fn collect_block_trie_updates(changesets: Arc<TrieUpdatesSorted>) -> (step: CollectStep)
    ensures
        exists|order: Seq<B256>|
            #![trigger CollectView::start(*changesets, order)]
            order.no_duplicates() && order.to_set() == changesets.tries().dom() && step@
                == CollectView::start(*changesets, order).step(),
{
    let addresses = b256_map_keys(changesets.storage_tries_ref());
    let collect = Collect {
        changesets,
        addresses,
        account_nodes: Vec::new(),
        storages: Vec::new(),
    };
    assert(collect@ =~= CollectView::start(*changesets, addresses@));
    collect.step()
}

impl Collect {
    #[verifier::type_invariant]
    spec fn well_formed(self) -> bool {
        let tries = self.changesets.tries();
        &&& self.addresses@.no_duplicates()
        &&& self.addresses@.to_set() == tries.dom()
        &&& starts_like(self.account_nodes@, self.changesets.nodes())
        &&& self.storages.len() <= self.addresses.len()
        &&& self.storages.len() > 0 ==> self.account_nodes.len() == self.changesets.nodes().len()
        &&& forall|k: int|
            0 <= k < self.storages.len() ==> starts_like(
                (#[trigger] self.storages@[k])@,
                tries[self.addresses@[k]].nodes(),
            )
        &&& forall|k: int|
            0 <= k < self.storages.len() - 1 ==> (#[trigger] self.storages@[k]).len()
                == tries[self.addresses@[k]].nodes().len()
    }

    /// The nodes of the storage trie that the changesets hold for an account.
    fn trie_of(&self, k: usize) -> (trie: &StorageTrieUpdatesSorted)
        requires
            k < self.addresses.len(),
        ensures
            *trie == self.changesets.tries()[self.addresses@[k as int]],
            self.changesets.tries().contains_key(self.addresses@[k as int]),
    {
        proof {
            use_type_invariant(self);
            assert(self.addresses@.to_set().contains(self.addresses@[k as int]));
        }
        match b256_map_get(self.changesets.storage_tries_ref(), &self.addresses[k]) {
            Some(trie) => trie,
            None => {
                assert(false);
                vstd::pervasive::unreached()
            },
        }
    }

    /// Goes on to what has to be looked up next.
    fn step(self) -> (step: CollectStep)
        ensures
            step@ == self@.step(),
    {
        proof {
            use_type_invariant(&self);
        }
        if self.account_nodes.len() < self.changesets.account_nodes_ref().len() {
            return CollectStep::AccountNode(AccountNodeNeeded { collect: self });
        }
        let visited: usize = self.storages.len();
        if visited > 0 {
            let known: usize = self.storages[visited - 1].len();
            if known < self.trie_of(visited - 1).storage_nodes_ref().len() {
                return CollectStep::StorageNode(StorageNodeNeeded { collect: self });
            }
        }
        if visited < self.addresses.len() {
            return CollectStep::StorageTrie(StorageTrieNeeded { collect: self });
        }
        CollectStep::Done(self.finish())
    }

    /// Puts the updates together.
    fn finish(self) -> (updates: TrieUpdatesSorted)
        requires
            self.account_nodes.len() == self.changesets.nodes().len(),
            self.storages.len() == self.addresses.len(),
            self.storages.len() > 0 ==> self.storages@.last().len()
                == self@.visited().nodes().len(),
        ensures
            updates@ == self@.collected(),
    {
        proof {
            use_type_invariant(&self);
        }
        let ghost whole = self;
        let ghost tries = self.changesets.tries();
        let Collect { changesets, addresses, account_nodes, mut storages } = self;
        let mut storage_tries: B256Map<StorageTrieUpdatesSorted> = B256Map::default();
        let mut left: usize = addresses.len();
        while left > 0
            invariant
                left == storages.len(),
                left <= addresses.len(),
                addresses@ == whole.addresses@,
                tries == whole.changesets.tries(),
                *changesets == *whole.changesets,
                storages@ == whole.storages@.take(left as int),
                whole.storages.len() == addresses.len(),
                addresses@.no_duplicates(),
                addresses@.to_set() == tries.dom(),
                forall|k: int|
                    0 <= k < addresses.len() ==> starts_like(
                        (#[trigger] whole.storages@[k])@,
                        tries[addresses@[k]].nodes(),
                    ),
                forall|address: B256| #[trigger]
                    storage_tries@.contains_key(address) <==> exists|k: int|
                        left <= k < addresses.len() && #[trigger] addresses@[k] == address,
                forall|k: int|
                    left <= k < addresses.len() ==> storage_tries@[#[trigger] addresses@[k]]@ == (
                    StorageTrieView {
                        is_deleted: tries[addresses@[k]]@.is_deleted,
                        nodes: with_values(
                            tries[addresses@[k]].nodes(),
                            values_of(whole.storages@[k]@),
                        ),
                    }),
            decreases left,
        {
            left = left - 1;
            let ghost before = storage_tries@;
            assert(addresses@.to_set().contains(addresses@[left as int]));
            assert(storages@.last() == whole.storages@[left as int]);
            if let Some(nodes) = storages.pop() {
                if let Some(trie) = b256_map_get(changesets.storage_tries_ref(), &addresses[left]) {
                    let model = trie.storage_nodes_ref();
                    proof {
                        lemma_with_values(nodes@, model@);
                    }
                    let updates = StorageTrieUpdatesSorted::new(trie.is_deleted(), nodes);
                    b256_map_insert(&mut storage_tries, addresses[left], updates);
                    proof {
                        assert forall|address: B256| #[trigger]
                            storage_tries@.contains_key(address) <==> exists|k: int|
                                left <= k < addresses.len() && #[trigger] addresses@[k]
                                    == address by {
                            if before.contains_key(address) {
                                let k = choose|k: int|
                                    left + 1 <= k < addresses.len() && #[trigger] addresses@[k]
                                        == address;
                                assert(addresses@[k] == address);
                            }
                            if address == addresses@[left as int] {
                                assert(addresses@[left as int] == address);
                            }
                        }
                    }
                }
            }
        }
        let model = changesets.account_nodes_ref();
        proof {
            lemma_with_values(account_nodes@, model@);
        }
        let updates = TrieUpdatesSorted::new(account_nodes, storage_tries);
        proof {
            let collected = whole@.collected();
            assert forall|address: B256|
                tries.contains_key(address) implies #[trigger] addresses@.contains(address) by {
                assert(addresses@.to_set().contains(address));
            }
            assert forall|address: B256| #[trigger]
                storage_tries@.contains_key(address) <==> tries.contains_key(address) by {
                if tries.contains_key(address) {
                    assert(addresses@.contains(address));
                    assert(addresses@[addresses@.index_of(address)] == address);
                }
                if storage_tries@.contains_key(address) {
                    let k = choose|k: int|
                        0 <= k < addresses.len() && #[trigger] addresses@[k] == address;
                    assert(addresses@.to_set().contains(addresses@[k]));
                }
            }
            assert forall|address: B256| tries.contains_key(address) implies #[trigger] tries_view(
                storage_tries@,
            )[address] == collected.storage_tries[address] by {
                assert(addresses@.contains(address));
                let k = addresses@.index_of(address);
                assert(addresses@[k] == address);
                assert(storage_tries@.contains_key(address));
                assert(whole@.storages[k] == values_of(whole.storages@[k]@));
            }
            assert(updates@.storage_tries =~= collected.storage_tries);
        }
        updates
    }
}

impl AccountNodeNeeded {
    #[verifier::type_invariant]
    spec fn well_formed(self) -> bool {
        self.collect.account_nodes.len() < self.collect.changesets.nodes().len()
    }

    /// The path that has to be looked up in the account trie.
    pub fn path(&self) -> (path: &Nibbles)
        ensures
            self@.accounts.len() < self@.changesets.nodes().len(),
            *path == self@.changesets.nodes()[self@.accounts.len() as int].0,
    {
        proof {
            use_type_invariant(self);
        }
        &self.collect.changesets.account_nodes_ref()[self.collect.account_nodes.len()].0
    }

    /// Goes on with the node that stands at the path, if one does.
    pub fn found(self, node: Option<BranchNodeCompact>) -> (step: CollectStep)
        ensures
            step@ == self@.account_found(node),
    {
        let path = self.path().clone();
        proof {
            use_type_invariant(&self);
            use_type_invariant(&self.collect);
        }
        let Collect { changesets, addresses, mut account_nodes, storages } = self.collect;
        account_nodes.push((path, node));
        let collect = Collect { changesets, addresses, account_nodes, storages };
        assert(collect@ =~= (CollectView { accounts: self@.accounts.push(node), ..self@ }));
        collect.step()
    }
}

impl StorageTrieNeeded {
    #[verifier::type_invariant]
    spec fn well_formed(self) -> bool {
        let storages = self.collect@.storages;
        &&& self.collect.account_nodes.len() == self.collect.changesets.nodes().len()
        &&& storages.len() < self.collect.addresses.len()
        &&& storages.len() > 0 ==> storages.last().len() == self.collect@.visited().nodes().len()
    }

    /// The hashed address of the account whose storage trie has to be opened.
    pub fn address(&self) -> (address: B256)
        ensures
            self@.storages.len() < self@.order.len(),
            address == self@.order[self@.storages.len() as int],
    {
        proof {
            use_type_invariant(self);
        }
        self.collect.addresses[self.collect.storages.len()]
    }

    /// Goes on with the storage trie.
    pub fn opened(self) -> (step: CollectStep)
        ensures
            self@.accounts.len() == self@.changesets.nodes().len(),
            step@ == self@.trie_opened(),
    {
        proof {
            use_type_invariant(&self);
            use_type_invariant(&self.collect);
        }
        let Collect { changesets, addresses, account_nodes, mut storages } = self.collect;
        let ghost before = storages@;
        storages.push(Vec::new());
        proof {
            assert(values_of(storages@.last()@) =~= Seq::empty());
            assert(forall|k: int|
                0 <= k < before.len() ==> #[trigger] self@.storages[k] == values_of(before[k]@));
        }
        let collect = Collect { changesets, addresses, account_nodes, storages };
        assert(collect@ =~~= (CollectView {
            storages: self@.storages.push(Seq::empty()),
            ..self@
        }));
        collect.step()
    }
}

impl StorageNodeNeeded {
    #[verifier::type_invariant]
    spec fn well_formed(self) -> bool {
        let storages = self.collect@.storages;
        &&& storages.len() > 0
        &&& storages.last().len() < self.collect@.visited().nodes().len()
    }

    /// The path that has to be looked up in the open storage trie.
    pub fn path(&self) -> (path: &Nibbles)
        ensures
            self@.storages.len() > 0,
            self@.storages.last().len() < self@.visited().nodes().len(),
            *path == self@.visited().nodes()[self@.storages.last().len() as int].0,
    {
        proof {
            use_type_invariant(self);
            use_type_invariant(&self.collect);
        }
        let visited: usize = self.collect.storages.len() - 1;
        let known: usize = self.collect.storages[visited].len();
        &self.collect.trie_of(visited).storage_nodes_ref()[known].0
    }

    /// Goes on with the node that stands at the path, if one does.
    pub fn found(self, node: Option<BranchNodeCompact>) -> (step: CollectStep)
        ensures
            self@.accounts.len() == self@.changesets.nodes().len(),
            self@.storages.len() > 0,
            step@ == self@.storage_found(node),
    {
        let path = self.path().clone();
        proof {
            use_type_invariant(&self);
            use_type_invariant(&self.collect);
        }
        let Collect { changesets, addresses, account_nodes, mut storages } = self.collect;
        let ghost before = storages@;
        if let Some(mut nodes) = storages.pop() {
            let ghost known = nodes@;
            nodes.push((path, node));
            proof {
                assert(values_of(nodes@) =~= values_of(known).push(node));
                assert(storages@ =~= before.drop_last());
            }
            storages.push(nodes);
        }
        let collect = Collect { changesets, addresses, account_nodes, storages };
        assert(collect@ =~~= (CollectView {
            storages: self@.storages.drop_last().push(self@.storages.last().push(node)),
            ..self@
        }));
        collect.step()
    }
}

} // verus!
