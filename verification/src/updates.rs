//! Sorted trie updates, and how several of them merge into one.
use crate::foreign::{b256_map_get, b256_map_insert, b256_map_keys, clone_node};
use crate::nibbles::{
    lemma_path_before_irreflexive, lemma_path_before_total, lemma_path_before_transitive,
    path_before, Nibbles, PathOrder,
};
use crate::updates_laws::law_a_wipe_is_a_deleted_trie;
use alloy_primitives::map::B256Map;
use alloy_primitives::B256;
use alloy_trie::BranchNodeCompact;
use std::sync::Arc;
use vstd::prelude::*;

verus! {

/// What a set of trie updates says about one trie: for each path it speaks of, the
/// node that stands there, or that none does.
pub type NodesView = Map<Seq<u8>, Option<BranchNodeCompact>>;

/// The updates of one account's storage trie.
#[verifier::ext_equal]
pub struct StorageTrieView {
    /// Whether the trie is emptied before the nodes are written.
    pub is_deleted: bool,
    pub nodes: NodesView,
}

/// The updates of the account trie and of the storage tries, by hashed address.
#[verifier::ext_equal]
pub struct TrieUpdatesView {
    pub account_nodes: NodesView,
    pub storage_tries: Map<B256, StorageTrieView>,
}

/// Whether paths are strictly increasing, so that each occurs once.
pub open spec fn nodes_sorted(nodes: Seq<(Nibbles, Option<BranchNodeCompact>)>) -> bool {
    forall|i: int, j: int|
        0 <= i < j < nodes.len() ==> path_before((#[trigger] nodes[i]).0@, (#[trigger] nodes[j]).0@)
}

/// The updates that a list of nodes holds.
pub open spec fn nodes_map(nodes: Seq<(Nibbles, Option<BranchNodeCompact>)>) -> NodesView
    decreases nodes.len(),
{
    if nodes.len() == 0 {
        Map::empty()
    } else {
        nodes_map(nodes.drop_last()).insert(nodes.last().0@, nodes.last().1)
    }
}

impl TrieUpdatesView {
    /// Updates that change nothing.
    pub open spec fn empty() -> Self {
        TrieUpdatesView { account_nodes: Map::empty(), storage_tries: Map::empty() }
    }

    /// Whether a whole storage trie is deleted.
    pub open spec fn wipes_storage(self) -> bool {
        exists|address: B256| #[trigger]
            self.storage_tries.contains_key(address) && self.storage_tries[address].is_deleted
    }

    /// Both updates at once. Where both speak of a node, `self` is right.
    pub open spec fn over(self, other: Self) -> Self {
        TrieUpdatesView {
            account_nodes: other.account_nodes.union_prefer_right(self.account_nodes),
            storage_tries: tries_over(self.storage_tries, other.storage_tries),
        }
    }
}

impl StorageTrieView {
    /// Both updates of one storage trie at once. Where they differ, `self` is right.
    pub open spec fn over(self, other: Self) -> Self {
        StorageTrieView {
            is_deleted: self.is_deleted,
            nodes: other.nodes.union_prefer_right(self.nodes),
        }
    }
}

/// Both updates of the storage tries at once. Where they differ, `first` is right.
pub open spec fn tries_over(
    first: Map<B256, StorageTrieView>,
    second: Map<B256, StorageTrieView>,
) -> Map<B256, StorageTrieView> {
    Map::new(
        |address: B256| first.contains_key(address) || second.contains_key(address),
        |address: B256|
            if !second.contains_key(address) {
                first[address]
            } else if !first.contains_key(address) {
                second[address]
            } else {
                first[address].over(second[address])
            },
    )
}

/// All the updates at once. Where several speak of a node, the earliest is right.
pub open spec fn merged(items: Seq<TrieUpdatesView>) -> TrieUpdatesView
    decreases items.len(),
{
    if items.len() == 0 {
        TrieUpdatesView::empty()
    } else {
        merged(items.drop_last()).over(items.last())
    }
}

/// The views of shared updates.
pub open spec fn views(items: Seq<Arc<TrieUpdatesSorted>>) -> Seq<TrieUpdatesView> {
    items.map_values(|item: Arc<TrieUpdatesSorted>| item@)
}

/// A list of nodes speaks of the paths that occur in it.
pub proof fn lemma_nodes_map_contains(
    nodes: Seq<(Nibbles, Option<BranchNodeCompact>)>,
    path: Seq<u8>,
)
    ensures
        nodes_map(nodes).contains_key(path) <==> exists|i: int|
            0 <= i < nodes.len() && (#[trigger] nodes[i]).0@ == path,
    decreases nodes.len(),
{
    if nodes.len() > 0 {
        let rest = nodes.drop_last();
        lemma_nodes_map_contains(rest, path);
        if nodes_map(nodes).contains_key(path) {
            if nodes.last().0@ == path {
                assert(nodes[nodes.len() - 1].0@ == path);
            } else {
                let i = choose|i: int| 0 <= i < rest.len() && (#[trigger] rest[i]).0@ == path;
                assert(nodes[i].0@ == path);
            }
        }
        if exists|i: int| 0 <= i < nodes.len() && (#[trigger] nodes[i]).0@ == path {
            let i = choose|i: int| 0 <= i < nodes.len() && (#[trigger] nodes[i]).0@ == path;
            if i < rest.len() {
                assert(rest[i].0@ == path);
            }
        }
    }
}

/// A sorted list of nodes stays sorted without the last one.
pub proof fn lemma_sorted_drop_last(nodes: Seq<(Nibbles, Option<BranchNodeCompact>)>)
    requires
        nodes_sorted(nodes),
        nodes.len() > 0,
    ensures
        nodes_sorted(nodes.drop_last()),
{
    let rest = nodes.drop_last();
    assert forall|a: int, b: int| 0 <= a < b < rest.len() implies path_before(
        (#[trigger] rest[a]).0@,
        (#[trigger] rest[b]).0@,
    ) by {
        assert(rest[a] == nodes[a] && rest[b] == nodes[b]);
    }
}

/// A sorted list of nodes says of each path what stands beside it.
pub proof fn lemma_nodes_map_value(nodes: Seq<(Nibbles, Option<BranchNodeCompact>)>, i: int)
    requires
        nodes_sorted(nodes),
        0 <= i < nodes.len(),
    ensures
        nodes_map(nodes).contains_key(nodes[i].0@),
        nodes_map(nodes)[nodes[i].0@] == nodes[i].1,
    decreases nodes.len(),
{
    let last = nodes.len() - 1;
    if i < last {
        let rest = nodes.drop_last();
        lemma_sorted_drop_last(nodes);
        lemma_nodes_map_value(rest, i);
        assert(path_before(nodes[i].0@, nodes[last].0@));
        lemma_path_before_irreflexive(nodes[i].0@);
    }
}

proof fn lemma_nodes_map_push(
    nodes: Seq<(Nibbles, Option<BranchNodeCompact>)>,
    node: (Nibbles, Option<BranchNodeCompact>),
)
    ensures
        nodes_map(nodes.push(node)) == nodes_map(nodes).insert(node.0@, node.1),
{
    assert(nodes.push(node).drop_last() =~= nodes);
}

proof fn lemma_nodes_map_take(nodes: Seq<(Nibbles, Option<BranchNodeCompact>)>, i: int)
    requires
        0 <= i < nodes.len(),
    ensures
        nodes_map(nodes.take(i + 1)) == nodes_map(nodes.take(i)).insert(nodes[i].0@, nodes[i].1),
{
    assert(nodes.take(i + 1) =~= nodes.take(i).push(nodes[i]));
    lemma_nodes_map_push(nodes.take(i), nodes[i]);
}

proof fn lemma_sorted_push(
    nodes: Seq<(Nibbles, Option<BranchNodeCompact>)>,
    node: (Nibbles, Option<BranchNodeCompact>),
)
    requires
        nodes_sorted(nodes),
        forall|i: int| 0 <= i < nodes.len() ==> path_before((#[trigger] nodes[i]).0@, node.0@),
    ensures
        nodes_sorted(nodes.push(node)),
{
    let all = nodes.push(node);
    assert forall|i: int, j: int| 0 <= i < j < all.len() implies path_before(
        (#[trigger] all[i]).0@,
        (#[trigger] all[j]).0@,
    ) by {
        assert(all[i] == nodes[i]);
        if j < nodes.len() {
            assert(all[j] == nodes[j]);
        }
    }
}

fn clone_entry(entry: &(Nibbles, Option<BranchNodeCompact>)) -> (copy: (
    Nibbles,
    Option<BranchNodeCompact>,
))
    ensures
        copy.0@ == entry.0@,
        copy.1 == entry.1,
{
    let node = match &entry.1 {
        Some(node) => Some(clone_node(node)),
        None => None,
    };
    (entry.0.clone(), node)
}

/// Merges two sorted lists of nodes. Where both hold a path, `first` is right.
fn merge_nodes(
    first: &Vec<(Nibbles, Option<BranchNodeCompact>)>,
    second: &Vec<(Nibbles, Option<BranchNodeCompact>)>,
) -> (all: Vec<(Nibbles, Option<BranchNodeCompact>)>)
    requires
        nodes_sorted(first@),
        nodes_sorted(second@),
    ensures
        nodes_sorted(all@),
        nodes_map(all@) == nodes_map(second@).union_prefer_right(nodes_map(first@)),
{
    let mut all: Vec<(Nibbles, Option<BranchNodeCompact>)> = Vec::new();
    let mut i: usize = 0;
    let mut j: usize = 0;
    assert(nodes_map(all@) =~= nodes_map(second@.take(0)).union_prefer_right(
        nodes_map(first@.take(0)),
    ));
    while i < first.len() || j < second.len()
        invariant
            nodes_sorted(first@),
            nodes_sorted(second@),
            nodes_sorted(all@),
            i <= first.len(),
            j <= second.len(),
            forall|a: int, k: int|
                0 <= a < all.len() && i <= k < first.len() ==> path_before(
                    (#[trigger] all@[a]).0@,
                    (#[trigger] first@[k]).0@,
                ),
            forall|a: int, k: int|
                0 <= a < all.len() && j <= k < second.len() ==> path_before(
                    (#[trigger] all@[a]).0@,
                    (#[trigger] second@[k]).0@,
                ),
            forall|k: int, l: int|
                0 <= k < i && j <= l < second.len() ==> path_before(
                    (#[trigger] first@[k]).0@,
                    (#[trigger] second@[l]).0@,
                ),
            nodes_map(all@) == nodes_map(second@.take(j as int)).union_prefer_right(
                nodes_map(first@.take(i as int)),
            ),
        decreases first.len() - i + second.len() - j,
    {
        let order = if i < first.len() {
            if j < second.len() {
                first[i].0.order(&second[j].0)
            } else {
                PathOrder::Before
            }
        } else {
            PathOrder::After
        };
        let ghost before = all@;
        match order {
            PathOrder::Before => {
                let entry = clone_entry(&first[i]);
                proof {
                    lemma_nodes_map_push(before, entry);
                    lemma_sorted_push(before, entry);
                    lemma_nodes_map_take(first@, i as int);
                    assert(nodes_map(before.push(entry)) =~= nodes_map(
                        second@.take(j as int),
                    ).union_prefer_right(nodes_map(first@.take(i + 1))));
                    assert forall|l: int| j <= l < second.len() implies path_before(
                        first@[i as int].0@,
                        (#[trigger] second@[l]).0@,
                    ) by {
                        if l > j {
                            assert(path_before(second@[j as int].0@, second@[l].0@));
                            lemma_path_before_transitive(
                                first@[i as int].0@,
                                second@[j as int].0@,
                                second@[l].0@,
                            );
                        }
                    }
                }
                all.push(entry);
                i = i + 1;
            },
            PathOrder::After => {
                let entry = clone_entry(&second[j]);
                proof {
                    lemma_nodes_map_push(before, entry);
                    lemma_sorted_push(before, entry);
                    lemma_nodes_map_take(second@, j as int);
                    lemma_nodes_map_contains(first@.take(i as int), second@[j as int].0@);
                    lemma_path_before_irreflexive(second@[j as int].0@);
                    assert(!nodes_map(first@.take(i as int)).contains_key(second@[j as int].0@));
                    assert(nodes_map(before.push(entry)) =~= nodes_map(
                        second@.take(j + 1),
                    ).union_prefer_right(nodes_map(first@.take(i as int))));
                    assert forall|k: int| i <= k < first.len() implies path_before(
                        second@[j as int].0@,
                        (#[trigger] first@[k]).0@,
                    ) by {
                        lemma_path_before_total(first@[i as int].0@, second@[j as int].0@);
                        if k > i {
                            assert(path_before(first@[i as int].0@, first@[k].0@));
                            lemma_path_before_transitive(
                                second@[j as int].0@,
                                first@[i as int].0@,
                                first@[k].0@,
                            );
                        }
                    }
                }
                all.push(entry);
                j = j + 1;
            },
            PathOrder::Same => {
                let entry = clone_entry(&first[i]);
                proof {
                    lemma_nodes_map_push(before, entry);
                    lemma_sorted_push(before, entry);
                    lemma_nodes_map_take(first@, i as int);
                    lemma_nodes_map_take(second@, j as int);
                    assert(nodes_map(before.push(entry)) =~= nodes_map(
                        second@.take(j + 1),
                    ).union_prefer_right(nodes_map(first@.take(i + 1))));
                }
                all.push(entry);
                i = i + 1;
                j = j + 1;
            },
        }
    }
    assert(first@.take(i as int) =~= first@);
    assert(second@.take(j as int) =~= second@);
    all
}

/// Copies a sorted list of nodes.
fn clone_nodes(nodes: &Vec<(Nibbles, Option<BranchNodeCompact>)>) -> (copy: Vec<
    (Nibbles, Option<BranchNodeCompact>),
>)
    requires
        nodes_sorted(nodes@),
    ensures
        nodes_sorted(copy@),
        nodes_map(copy@) == nodes_map(nodes@),
{
    let none: Vec<(Nibbles, Option<BranchNodeCompact>)> = Vec::new();
    let copy = merge_nodes(nodes, &none);
    assert(nodes_map(copy@) =~= nodes_map(nodes@));
    copy
}

/// Sorted updates of one account's storage trie.
#[derive(Debug, PartialEq, Eq)]
pub struct StorageTrieUpdatesSorted {
    is_deleted: bool,
    storage_nodes: Vec<(Nibbles, Option<BranchNodeCompact>)>,
}

impl View for StorageTrieUpdatesSorted {
    type V = StorageTrieView;

    open spec fn view(&self) -> StorageTrieView {
        StorageTrieView { is_deleted: self.deleted(), nodes: nodes_map(self.nodes()) }
    }
}

impl StorageTrieUpdatesSorted {
    #[verifier::type_invariant]
    spec fn well_formed(self) -> bool {
        nodes_sorted(self.storage_nodes@)
    }

    /// Whether the whole trie is deleted.
    pub closed spec fn deleted(&self) -> bool {
        self.is_deleted
    }

    /// The list of nodes, in the order of their paths.
    pub closed spec fn nodes(&self) -> Seq<(Nibbles, Option<BranchNodeCompact>)> {
        self.storage_nodes@
    }

    /// Updates with the given nodes.
    pub fn new(
        is_deleted: bool,
        storage_nodes: Vec<(Nibbles, Option<BranchNodeCompact>)>,
    ) -> (updates: Self)
        requires
            nodes_sorted(storage_nodes@),
        ensures
            updates.deleted() == is_deleted,
            updates.nodes() == storage_nodes@,
    {
        StorageTrieUpdatesSorted { is_deleted, storage_nodes }
    }

    /// Whether the whole trie is deleted.
    pub fn is_deleted(&self) -> (deleted: bool)
        ensures
            deleted == self.deleted(),
    {
        self.is_deleted
    }

    /// The nodes, in the order of their paths.
    pub fn storage_nodes_ref(&self) -> (nodes: &Vec<(Nibbles, Option<BranchNodeCompact>)>)
        ensures
            nodes@ == self.nodes(),
            nodes_sorted(nodes@),
    {
        proof {
            use_type_invariant(self);
        }
        &self.storage_nodes
    }

    fn copy(&self) -> (copy: Self)
        ensures
            copy@ == self@,
    {
        StorageTrieUpdatesSorted::new(self.is_deleted, clone_nodes(self.storage_nodes_ref()))
    }

    fn merge(&self, other: &Self) -> (all: Self)
        ensures
            all@ == self@.over(other@),
    {
        StorageTrieUpdatesSorted::new(
            self.is_deleted,
            merge_nodes(self.storage_nodes_ref(), other.storage_nodes_ref()),
        )
    }
}

/// Sorted updates of the account trie and of the storage tries.
#[derive(Debug, PartialEq, Eq)]
pub struct TrieUpdatesSorted {
    account_nodes: Vec<(Nibbles, Option<BranchNodeCompact>)>,
    storage_tries: B256Map<StorageTrieUpdatesSorted>,
}

impl View for TrieUpdatesSorted {
    type V = TrieUpdatesView;

    open spec fn view(&self) -> TrieUpdatesView {
        TrieUpdatesView {
            account_nodes: nodes_map(self.nodes()),
            storage_tries: tries_view(self.tries()),
        }
    }
}

/// The views of storage trie updates.
pub open spec fn tries_view(tries: Map<B256, StorageTrieUpdatesSorted>) -> Map<
    B256,
    StorageTrieView,
> {
    tries.map_values(|trie: StorageTrieUpdatesSorted| trie@)
}

impl Default for TrieUpdatesSorted {
    /// Updates that change nothing.
    fn default() -> (updates: Self)
        ensures
            updates@ == TrieUpdatesView::empty(),
    {
        let updates = TrieUpdatesSorted::new(Vec::new(), B256Map::default());
        assert(updates@ =~= TrieUpdatesView::empty());
        updates
    }
}

impl TrieUpdatesSorted {
    #[verifier::type_invariant]
    spec fn well_formed(self) -> bool {
        nodes_sorted(self.account_nodes@)
    }

    /// The list of account trie nodes, in the order of their paths.
    pub closed spec fn nodes(&self) -> Seq<(Nibbles, Option<BranchNodeCompact>)> {
        self.account_nodes@
    }

    /// The updates of the storage tries, by hashed address.
    pub closed spec fn tries(&self) -> Map<B256, StorageTrieUpdatesSorted> {
        self.storage_tries@
    }

    /// Whether every list of nodes is sorted, as it is in updates that have been made.
    pub open spec fn all_sorted(&self) -> bool {
        &&& nodes_sorted(self.nodes())
        &&& forall|address: B256|
            self.tries().contains_key(address) ==> nodes_sorted(
                (#[trigger] self.tries()[address]).nodes(),
            )
    }

    /// Updates with the given nodes and storage tries.
    pub fn new(
        account_nodes: Vec<(Nibbles, Option<BranchNodeCompact>)>,
        storage_tries: B256Map<StorageTrieUpdatesSorted>,
    ) -> (updates: Self)
        requires
            nodes_sorted(account_nodes@),
        ensures
            updates.nodes() == account_nodes@,
            updates.tries() == storage_tries@,
    {
        TrieUpdatesSorted { account_nodes, storage_tries }
    }

    /// The account trie nodes, in the order of their paths.
    pub fn account_nodes_ref(&self) -> (nodes: &Vec<(Nibbles, Option<BranchNodeCompact>)>)
        ensures
            nodes@ == self.nodes(),
            nodes_sorted(nodes@),
    {
        proof {
            use_type_invariant(self);
        }
        &self.account_nodes
    }

    /// The updates of the storage tries, by hashed address.
    pub fn storage_tries_ref(&self) -> (tries: &B256Map<StorageTrieUpdatesSorted>)
        ensures
            tries@ == self.tries(),
    {
        &self.storage_tries
    }

    /// Whether a whole storage trie is deleted.
    pub fn wipes_storage(&self) -> (wipes: bool)
        ensures
            wipes == self@.wipes_storage(),
            wipes <==> exists|address: B256|
                self.tries().contains_key(address) && (#[trigger] self.tries()[address]).deleted(),
    {
        proof {
            law_a_wipe_is_a_deleted_trie(*self);
        }
        let addresses = b256_map_keys(&self.storage_tries);
        let mut i: usize = 0;
        while i < addresses.len()
            invariant
                i <= addresses.len(),
                addresses@.to_set() == self.storage_tries@.dom(),
                self@.wipes_storage() <==> exists|address: B256|
                    self.tries().contains_key(address) && (
                    #[trigger] self.tries()[address]).deleted(),
                forall|k: int|
                    0 <= k < i ==> !self@.storage_tries[#[trigger] addresses@[k]].is_deleted,
            decreases addresses.len() - i,
        {
            assert(addresses@.to_set().contains(addresses@[i as int]));
            if let Some(trie) = b256_map_get(&self.storage_tries, &addresses[i]) {
                assert(self@.storage_tries.contains_key(addresses@[i as int]));
                if trie.is_deleted {
                    return true;
                }
            }
            i = i + 1;
        }
        proof {
            assert forall|address: B256| #[trigger]
                self@.storage_tries.contains_key(
                    address,
                ) implies !self@.storage_tries[address].is_deleted by {
                assert(addresses@.to_set().contains(address));
                let k = choose|k: int| 0 <= k < addresses.len() && addresses@[k] == address;
                assert(!self@.storage_tries[addresses@[k]].is_deleted);
            }
        }
        false
    }

    /// Both updates at once. Where both speak of a node, `self` is right.
    fn merge(self, other: &Self) -> (all: Self)
        ensures
            all@ == self@.over(other@),
    {
        let account_nodes = merge_nodes(self.account_nodes_ref(), other.account_nodes_ref());
        let ghost first = self@;
        let mut tries = self.storage_tries;
        let ghost before = tries@;
        let addresses = b256_map_keys(&other.storage_tries);
        let mut i: usize = 0;
        while i < addresses.len()
            invariant
                i <= addresses.len(),
                addresses@.no_duplicates(),
                addresses@.to_set() == other.storage_tries@.dom(),
                tries_view(before) == first.storage_tries,
                forall|address: B256| #[trigger]
                    tries@.contains_key(address) <==> before.contains_key(address)
                        || addresses@.take(i as int).contains(address),
                forall|address: B256| #[trigger]
                    tries@.contains_key(address) ==> tries@[address]@ == (
                    if addresses@.take(i as int).contains(address) {
                        tries_over(first.storage_tries, other@.storage_tries)[address]
                    } else {
                        before[address]@
                    }),
            decreases addresses.len() - i,
        {
            let address = addresses[i];
            let ghost done = addresses@.take(i as int);
            proof {
                assert(addresses@.to_set().contains(address));
                assert(addresses@.take(i + 1) =~= done.push(address));
                assert forall|a: B256| #[trigger]
                    addresses@.take(i + 1).contains(a) <==> done.contains(a) || a == address by {
                    if done.contains(a) {
                        let k = choose|k: int| 0 <= k < done.len() && done[k] == a;
                        assert(done.push(address)[k] == a);
                    }
                    if a == address {
                        assert(done.push(address)[done.len() as int] == a);
                    }
                }
                assert(!done.contains(address));
            }
            if let Some(newer) = b256_map_get(&other.storage_tries, &address) {
                let trie = match b256_map_get(&tries, &address) {
                    Some(older) => older.merge(newer),
                    None => newer.copy(),
                };
                assert(trie@ == tries_over(first.storage_tries, other@.storage_tries)[address]);
                b256_map_insert(&mut tries, address, trie);
            }
            i = i + 1;
        }
        let all = TrieUpdatesSorted::new(account_nodes, tries);
        proof {
            assert(addresses@.take(i as int) =~= addresses@);
            assert forall|address: B256|
                addresses@.contains(address) <==> other.storage_tries@.contains_key(address) by {
                assert(addresses@.to_set().contains(address) == addresses@.contains(address));
            }
            assert(all@.storage_tries =~= tries_over(first.storage_tries, other@.storage_tries));
        }
        all
    }

    /// Merges updates into one. Where several speak of a node, the earliest is right.
    ///
    /// An update that deletes a whole storage trie merges with no other.
    pub(crate) fn merge_slice(items: &Vec<Arc<TrieUpdatesSorted>>) -> (all: Self)
        requires
            items.len() > 1 ==> forall|i: int|
                0 <= i < items.len() ==> !(#[trigger] items@[i])@.wipes_storage(),
        ensures
            all@ == merged(views(items@)),
    {
        let mut all = TrieUpdatesSorted::default();
        let mut i: usize = 0;
        while i < items.len()
            invariant
                i <= items.len(),
                all@ == merged(views(items@.take(i as int))),
            decreases items.len() - i,
        {
            all = all.merge(&items[i]);
            proof {
                let next = views(items@.take(i + 1));
                assert(next.drop_last() =~= views(items@.take(i as int)));
                assert(next.last() == items@[i as int]@);
            }
            i = i + 1;
        }
        assert(items@.take(i as int) =~= items@);
        all
    }
}

} // verus!
