//! What the trie updates of a block come to.
use crate::block_request::collects;
use crate::block_updates::{with_values, CollectStep, CollectStepView, CollectView};
use crate::nibbles::{path_before, Nibbles};
use crate::trie_state::{node_at, Trie, TrieState};
use crate::updates::{
    lemma_nodes_map_contains, lemma_nodes_map_value, nodes_map, nodes_sorted, NodesView,
    StorageTrieView, TrieUpdatesSorted, TrieUpdatesView,
};
use alloy_primitives::B256;
use alloy_trie::BranchNodeCompact;
use vstd::prelude::*;

verus! {

/// The paths of the given nodes with what stands there in a trie.
pub open spec fn nodes_in(trie: Trie, nodes: NodesView) -> NodesView {
    Map::new(|path: Seq<u8>| nodes.contains_key(path), |path: Seq<u8>| node_at(trie, path))
}

/// The nodes that some changesets speak of, as they stand in the given tries.
pub open spec fn snapshot(changesets: TrieUpdatesView, state: TrieState) -> TrieUpdatesView {
    TrieUpdatesView {
        account_nodes: nodes_in(state.accounts, changesets.account_nodes),
        storage_tries: Map::new(
            |address: B256| changesets.storage_tries.contains_key(address),
            |address: B256|
                StorageTrieView {
                    is_deleted: changesets.storage_tries[address].is_deleted,
                    nodes: nodes_in(
                        (state.storages)(address),
                        changesets.storage_tries[address].nodes,
                    ),
                },
        ),
    }
}

/// The step after the given one, where the tries are in the given state, and the storage trie
/// of the account `open` has been opened last. A node of a storage trie is looked up in the
/// one that has been opened last.
pub open spec fn next(
    state: TrieState,
    open: Option<B256>,
    step: CollectStepView,
) -> CollectStepView {
    match step {
        CollectStepView::AccountNode(view) => view.account_found(
            node_at(state.accounts, view.changesets.nodes()[view.accounts.len() as int].0@),
        ),
        CollectStepView::StorageTrie(view) => view.trie_opened(),
        CollectStepView::StorageNode(view) => view.storage_found(
            node_at(
                (state.storages)(open->0),
                view.visited().nodes()[view.storages.last().len() as int].0@,
            ),
        ),
        CollectStepView::Done(_) => step,
    }
}

/// The account whose storage trie has been opened last, after the given step.
pub open spec fn opened_last(open: Option<B256>, step: CollectStepView) -> Option<B256> {
    match step {
        CollectStepView::StorageTrie(view) => Some(view.order[view.storages.len() as int]),
        _ => open,
    }
}

/// How many account trie nodes are still to be looked up.
pub open spec fn accounts_left(step: CollectStepView) -> nat {
    match step {
        CollectStepView::AccountNode(view) => (view.changesets.nodes().len()
            - view.accounts.len()) as nat,
        _ => 0,
    }
}

/// How many storage tries are still to be opened.
pub open spec fn tries_left(step: CollectStepView) -> nat {
    match step {
        CollectStepView::StorageTrie(view) | CollectStepView::StorageNode(view) => if view.order.len()
            > view.storages.len() {
            (view.order.len() - view.storages.len()) as nat
        } else {
            0
        },
        _ => 0,
    }
}

/// How many nodes of the open storage trie are still to be looked up.
pub open spec fn nodes_left(step: CollectStepView) -> nat {
    match step {
        CollectStepView::StorageNode(view) => (view.visited().nodes().len()
            - view.storages.last().len()) as nat,
        _ => 0,
    }
}

/// Whether a step asks for what its collection needs next.
pub open spec fn is_due(step: CollectStepView) -> bool {
    match step {
        CollectStepView::AccountNode(view)
        | CollectStepView::StorageTrie(view)
        | CollectStepView::StorageNode(view) => view.step() == step,
        CollectStepView::Done(_) => true,
    }
}

/// The end of a collection that stands at the given step.
pub open spec fn run(
    state: TrieState,
    open: Option<B256>,
    step: CollectStepView,
) -> CollectStepView
    decreases accounts_left(step), tries_left(step), nodes_left(step),
    when is_due(step)
{
    if step is Done {
        step
    } else {
        run(state, opened_last(open, step), next(state, open, step))
    }
}

/// The accounts whose storage tries a collection opens from the given step on, in order.
pub open spec fn openings(
    state: TrieState,
    open: Option<B256>,
    step: CollectStepView,
) -> Seq<B256>
    decreases accounts_left(step), tries_left(step), nodes_left(step),
    when is_due(step)
{
    let later = if step is Done {
        Seq::empty()
    } else {
        openings(state, opened_last(open, step), next(state, open, step))
    };
    match step {
        CollectStepView::StorageTrie(view) => seq![view.order[view.storages.len() as int]] + later,
        _ => later,
    }
}

/// Whether the values of the first nodes are those that stand in a trie.
spec fn values_from(
    trie: Trie,
    nodes: Seq<(Nibbles, Option<BranchNodeCompact>)>,
    values: Seq<Option<BranchNodeCompact>>,
) -> bool {
    &&& values.len() <= nodes.len()
    &&& forall|i: int| 0 <= i < values.len() ==> #[trigger] values[i] == node_at(trie, nodes[i].0@)
}

/// Whether a collection has gone right so far.
spec fn on_course(state: TrieState, view: CollectView) -> bool {
    let tries = view.changesets.tries();
    &&& view.changesets.all_sorted()
    &&& view.order.no_duplicates()
    &&& view.order.to_set() == tries.dom()
    &&& values_from(state.accounts, view.changesets.nodes(), view.accounts)
    &&& view.storages.len() <= view.order.len()
    &&& view.storages.len() > 0 ==> view.accounts.len() == view.changesets.nodes().len()
    &&& forall|k: int|
        0 <= k < view.storages.len() ==> values_from(
            (state.storages)(view.order[k]),
            tries[view.order[k]].nodes(),
            #[trigger] view.storages[k],
        )
    &&& forall|k: int|
        0 <= k < view.storages.len() - 1 ==> (#[trigger] view.storages[k]).len()
            == tries[view.order[k]].nodes().len()
}

proof fn lemma_values_from(
    trie: Trie,
    nodes: Seq<(Nibbles, Option<BranchNodeCompact>)>,
    values: Seq<Option<BranchNodeCompact>>,
)
    requires
        nodes_sorted(nodes),
        values_from(trie, nodes, values),
        values.len() == nodes.len(),
    ensures
        with_values(nodes, values) == nodes_in(trie, nodes_map(nodes)),
{
    let renewed = Seq::new(values.len(), |i: int| (nodes[i].0, values[i]));
    assert forall|i: int, j: int| 0 <= i < j < renewed.len() implies path_before(
        (#[trigger] renewed[i]).0@,
        (#[trigger] renewed[j]).0@,
    ) by {
        assert(path_before(nodes[i].0@, nodes[j].0@));
    }
    let all = nodes_in(trie, nodes_map(nodes));
    assert forall|path: Seq<u8>|
        #![trigger all.contains_key(path)]
        #![trigger nodes_map(renewed)[path]]
        nodes_map(renewed).contains_key(path) == all.contains_key(path) && (nodes_map(
            renewed,
        ).contains_key(path) ==> nodes_map(renewed)[path] == all[path]) by {
        lemma_nodes_map_contains(nodes, path);
        lemma_nodes_map_contains(renewed, path);
        if nodes_map(nodes).contains_key(path) {
            let i = choose|i: int| 0 <= i < nodes.len() && (#[trigger] nodes[i]).0@ == path;
            assert(renewed[i].0@ == path);
        }
        if nodes_map(renewed).contains_key(path) {
            let i = choose|i: int| 0 <= i < renewed.len() && (#[trigger] renewed[i]).0@ == path;
            assert(nodes[i].0@ == path);
            lemma_nodes_map_value(renewed, i);
            assert(values[i] == node_at(trie, nodes[i].0@));
        }
    }
    assert(nodes_map(renewed) =~= all);
}

proof fn lemma_collected(state: TrieState, view: CollectView)
    requires
        on_course(state, view),
        view.step() is Done,
    ensures
        view.collected() == snapshot(view.changesets@, state),
{
    let tries = view.changesets.tries();
    let collected = view.collected();
    let expected = snapshot(view.changesets@, state);
    lemma_values_from(state.accounts, view.changesets.nodes(), view.accounts);
    assert forall|address: B256| tries.contains_key(address) implies #[trigger] collected.storage_tries[address]
        == expected.storage_tries[address] by {
        assert(view.order.to_set().contains(address));
        let k = view.order.index_of(address);
        assert(view.order[k] == address);
        assert(nodes_sorted(tries[address].nodes()));
        let values = view.storages[k];
        lemma_values_from((state.storages)(address), tries[address].nodes(), values);
    }
    assert(collected.storage_tries =~= expected.storage_tries);
}

proof fn lemma_run(state: TrieState, open: Option<B256>, view: CollectView)
    requires
        on_course(state, view),
        view.storages.len() > 0 ==> open == Some(view.order[view.storages.len() - 1]),
    ensures
        run(state, open, view.step()) == CollectStepView::Done(snapshot(view.changesets@, state)),
        openings(state, open, view.step()) == view.order.skip(view.storages.len() as int),
    decreases
            accounts_left(view.step()),
            tries_left(view.step()),
            nodes_left(view.step()),
{
    let step = view.step();
    let here = view.order.skip(view.storages.len() as int);
    match step {
        CollectStepView::AccountNode(_) => {
            let value = node_at(
                state.accounts,
                view.changesets.nodes()[view.accounts.len() as int].0@,
            );
            lemma_run(state, open, CollectView { accounts: view.accounts.push(value), ..view });
        },
        CollectStepView::StorageTrie(_) => {
            let storages = view.storages.push(Seq::empty());
            let address = view.order[view.storages.len() as int];
            lemma_run(state, Some(address), CollectView { storages, ..view });
            assert(here =~= seq![address] + view.order.skip(storages.len() as int));
        },
        CollectStepView::StorageNode(_) => {
            let value = node_at(
                (state.storages)(view.order[view.storages.len() - 1]),
                view.visited().nodes()[view.storages.last().len() as int].0@,
            );
            let storages = view.storages.drop_last().push(view.storages.last().push(value));
            let last = view.storages.len() - 1;
            assert forall|k: int| 0 <= k < storages.len() implies values_from(
                (state.storages)(view.order[k]),
                view.changesets.tries()[view.order[k]].nodes(),
                #[trigger] storages[k],
            ) by {
                assert(values_from(
                    (state.storages)(view.order[k]),
                    view.changesets.tries()[view.order[k]].nodes(),
                    view.storages[k],
                ));
            }
            assert forall|k: int| 0 <= k < storages.len() - 1 implies (#[trigger] storages[k]).len()
                == view.changesets.tries()[view.order[k]].nodes().len() by {
                assert(storages[k] == view.storages[k]);
            }
            lemma_run(state, open, CollectView { storages, ..view });
        },
        CollectStepView::Done(_) => {
            lemma_collected(state, view);
            assert(here =~= Seq::empty());
        },
    }
}

/// The trie updates of a block give every node that its changesets speak of, and no other,
/// the value that it has after the block, in whatever order the storage tries are visited.
/// Each storage trie is opened once, before its nodes are looked up, whatever trie was open
/// before.
pub proof fn law_updates_show_the_state(
    changesets: TrieUpdatesSorted,
    order: Seq<B256>,
    open: Option<B256>,
    state: TrieState,
)
    requires
        changesets.all_sorted(),
        order.no_duplicates(),
        order.to_set() == changesets.tries().dom(),
    ensures
        run(state, open, CollectView::start(changesets, order).step()) == CollectStepView::Done(
            snapshot(changesets@, state),
        ),
        openings(state, open, CollectView::start(changesets, order).step()) == order,
{
    lemma_run(state, open, CollectView::start(changesets, order));
    assert(order.skip(0) =~= order);
}

/// Whether `nodes` holds the listed paths and no others, each with what stands there in a
/// trie.
pub open spec fn shows_trie(
    nodes: NodesView,
    listed: Seq<(Nibbles, Option<BranchNodeCompact>)>,
    trie: Trie,
) -> bool {
    &&& forall|path: Seq<u8>| #[trigger]
        nodes.contains_key(path) <==> exists|i: int|
            0 <= i < listed.len() && (#[trigger] listed[i]).0@ == path
    &&& forall|path: Seq<u8>| #[trigger]
        nodes.contains_key(path) ==> nodes[path] == (if trie.contains_key(path) {
            Some(trie[path])
        } else {
            None
        })
}

/// The collection that begins with a block's changesets ends in updates that hold every node
/// that the changesets list, of the account trie and of each account's storage trie, and no
/// other, with what stands there in the given tries; and of each storage trie that the
/// changesets hold, and no other, whether they mark it as deleted.
pub proof fn law_collection_holds_every_listed_node(
    changesets: TrieUpdatesSorted,
    collection: CollectStep,
    open: Option<B256>,
    state: TrieState,
)
    requires
        changesets.all_sorted(),
        collects(changesets, collection),
    ensures
        run(state, open, collection@) matches CollectStepView::Done(updates) && {
            &&& updates == snapshot(changesets@, state)
            &&& shows_trie(updates.account_nodes, changesets.nodes(), state.accounts)
            &&& forall|address: B256| #[trigger]
                updates.storage_tries.contains_key(address) <==> changesets.tries().contains_key(
                    address,
                )
            &&& forall|address: B256| #[trigger]
                updates.storage_tries.contains_key(address) ==> {
                    &&& updates.storage_tries[address].is_deleted
                        == changesets.tries()[address].deleted()
                    &&& shows_trie(
                        updates.storage_tries[address].nodes,
                        changesets.tries()[address].nodes(),
                        (state.storages)(address),
                    )
                }
        },
        openings(state, open, collection@).no_duplicates(),
        openings(state, open, collection@).to_set() == changesets.tries().dom(),
{
    let order = choose|order: Seq<B256>|
        #![trigger CollectView::start(changesets, order)]
        order.no_duplicates() && order.to_set() == changesets.tries().dom() && collection@
            == CollectView::start(changesets, order).step();
    law_updates_show_the_state(changesets, order, open, state);
    let updates = snapshot(changesets@, state);
    lemma_shows_trie(state.accounts, changesets.nodes());
    assert forall|address: B256| #[trigger]
        updates.storage_tries.contains_key(address) implies shows_trie(
        updates.storage_tries[address].nodes,
        changesets.tries()[address].nodes(),
        (state.storages)(address),
    ) by {
        lemma_shows_trie((state.storages)(address), changesets.tries()[address].nodes());
    }
}

proof fn lemma_shows_trie(trie: Trie, listed: Seq<(Nibbles, Option<BranchNodeCompact>)>)
    ensures
        shows_trie(nodes_in(trie, nodes_map(listed)), listed, trie),
{
    let nodes = nodes_in(trie, nodes_map(listed));
    assert forall|path: Seq<u8>| #[trigger]
        nodes.contains_key(path) <==> exists|i: int|
            0 <= i < listed.len() && (#[trigger] listed[i]).0@ == path by {
        lemma_nodes_map_contains(listed, path);
    }
}

/// Whether changesets that delete a storage trie speak of every node that the trie has
/// after the block.
pub open spec fn names_what_it_deletes(changesets: TrieUpdatesView, after: TrieState) -> bool {
    forall|address: B256, path: Seq<u8>|
        changesets.storage_tries.contains_key(address)
            && changesets.storage_tries[address].is_deleted && (#[trigger] (after.storages)(
            address,
        ).contains_key(path)) ==> changesets.storage_tries[address].nodes.contains_key(path)
}

/// The trie updates of a block redo what its changesets undo: applied to the state before
/// the block they give the state after it, so long as no storage trie is deleted with nodes
/// that the changesets do not speak of.
pub proof fn law_updates_redo_the_block(changesets: TrieUpdatesView, after: TrieState)
    requires
        names_what_it_deletes(changesets, after),
    ensures
        snapshot(changesets, after).apply(changesets.apply(after)) == after,
{
    let before = changesets.apply(after);
    let updates = snapshot(changesets, after);
    let redone = updates.apply(before);
    assert(redone.accounts =~= after.accounts);
    assert forall|address: B256| #[trigger] (redone.storages)(address) == (after.storages)(
        address,
    ) by {
        if changesets.storage_tries.contains_key(address) {
            assert((redone.storages)(address) =~= (after.storages)(address));
        }
    }
    assert(redone.storages =~= after.storages);
}

/// Where the changesets delete a storage trie with other nodes, the updates do not redo the
/// block: such a node is lost.
pub proof fn law_deleted_nodes_are_lost(
    changesets: TrieUpdatesView,
    after: TrieState,
    address: B256,
    path: Seq<u8>,
)
    requires
        changesets.storage_tries.contains_key(address),
        changesets.storage_tries[address].is_deleted,
        !changesets.storage_tries[address].nodes.contains_key(path),
    ensures
        !(snapshot(changesets, after).apply(changesets.apply(after)).storages)(
            address,
        ).contains_key(path),
{
}

/// A step of a collection is seen as what it is.
pub proof fn law_collection_steps_are_seen_as_they_are(step: CollectStep)
    ensures
        match step {
            CollectStep::AccountNode(needed) => step@ == CollectStepView::AccountNode(needed@),
            CollectStep::StorageTrie(needed) => step@ == CollectStepView::StorageTrie(needed@),
            CollectStep::StorageNode(needed) => step@ == CollectStepView::StorageNode(needed@),
            CollectStep::Done(updates) => step@ == CollectStepView::Done(updates@),
        },
{
}

} // verus!
