//! What sorted trie updates are determined by, and which values survive a merge.
use crate::nibbles::{
    lemma_path_before_irreflexive, lemma_path_before_total, lemma_path_before_transitive,
    path_before, path_order, valid_path, Nibbles,
};
use crate::updates::{
    lemma_nodes_map_contains, lemma_nodes_map_value, lemma_sorted_drop_last, merged, nodes_map,
    nodes_sorted, tries_view, views, StorageTrieUpdatesSorted, StorageTrieView, TrieUpdatesSorted,
    TrieUpdatesView,
};
use alloy_primitives::B256;
use alloy_trie::BranchNodeCompact;
use std::sync::Arc;
use vstd::prelude::*;

verus! {

/// Sorted lists of nodes that say the same hold the same paths and nodes in the same
/// order.
pub proof fn law_sorted_nodes_are_determined(
    left: Seq<(Nibbles, Option<BranchNodeCompact>)>,
    right: Seq<(Nibbles, Option<BranchNodeCompact>)>,
)
    requires
        nodes_sorted(left),
        nodes_sorted(right),
        nodes_map(left) == nodes_map(right),
    ensures
        left.len() == right.len(),
        forall|i: int|
            0 <= i < left.len() ==> (#[trigger] left[i]).0@ == right[i].0@ && left[i].1
                == right[i].1,
    decreases left.len(),
{
    if left.len() == 0 {
        if right.len() > 0 {
            lemma_nodes_map_value(right, 0);
        }
    } else {
        let last = left.len() - 1;
        lemma_nodes_map_value(left, last);
        lemma_nodes_map_contains(right, left[last].0@);
        let j = choose|j: int| 0 <= j < right.len() && (#[trigger] right[j]).0@ == left[last].0@;
        let end = right.len() - 1;
        lemma_nodes_map_value(right, end);
        lemma_nodes_map_contains(left, right[end].0@);
        let i = choose|i: int| 0 <= i < left.len() && (#[trigger] left[i]).0@ == right[end].0@;
        if j < end {
            assert(path_before(right[j].0@, right[end].0@));
            lemma_path_before_irreflexive(left[last].0@);
            if i < last {
                assert(path_before(left[i].0@, left[last].0@));
                lemma_path_before_transitive(left[last].0@, right[end].0@, left[last].0@);
            }
        }
        assert(left[last].0@ == right[end].0@);
        lemma_without_last(left);
        lemma_without_last(right);
        law_sorted_nodes_are_determined(left.drop_last(), right.drop_last());
        assert forall|k: int| 0 <= k < left.len() implies (#[trigger] left[k]).0@ == right[k].0@
            && left[k].1 == right[k].1 by {
            if k < last {
                assert(left[k] == left.drop_last()[k]);
                assert(right[k] == right.drop_last()[k]);
            }
        }
    }
}

proof fn lemma_without_last(nodes: Seq<(Nibbles, Option<BranchNodeCompact>)>)
    requires
        nodes_sorted(nodes),
        nodes.len() > 0,
    ensures
        nodes_sorted(nodes.drop_last()),
        nodes_map(nodes.drop_last()) == nodes_map(nodes).remove(nodes.last().0@),
{
    let rest = nodes.drop_last();
    let last = nodes.last().0@;
    lemma_sorted_drop_last(nodes);
    lemma_nodes_map_contains(rest, last);
    if nodes_map(rest).contains_key(last) {
        let i = choose|i: int| 0 <= i < rest.len() && (#[trigger] rest[i]).0@ == last;
        assert(path_before(nodes[i].0@, nodes[nodes.len() - 1].0@));
        lemma_path_before_irreflexive(last);
    }
    assert(nodes_map(rest) =~= nodes_map(nodes).remove(last));
}

/// Merged updates speak of the account trie nodes that one of them speaks of.
pub proof fn law_merge_keeps_accounts(items: Seq<TrieUpdatesView>, path: Seq<u8>)
    ensures
        merged(items).account_nodes.contains_key(path) <==> exists|i: int|
            0 <= i < items.len() && (#[trigger] items[i]).account_nodes.contains_key(path),
    decreases items.len(),
{
    if items.len() > 0 {
        let rest = items.drop_last();
        law_merge_keeps_accounts(rest, path);
        if merged(rest).account_nodes.contains_key(path) {
            let i = choose|i: int|
                0 <= i < rest.len() && (#[trigger] rest[i]).account_nodes.contains_key(path);
            assert(items[i].account_nodes.contains_key(path));
        }
        if items.last().account_nodes.contains_key(path) {
            assert(items[items.len() - 1].account_nodes.contains_key(path));
        }
        assert forall|i: int|
            0 <= i < items.len() && (#[trigger] items[i]).account_nodes.contains_key(
                path,
            ) implies merged(items).account_nodes.contains_key(path) by {
            if i < rest.len() {
                assert(rest[i].account_nodes.contains_key(path));
            }
        }
    }
}

/// Of the updates that speak of an account trie node, the earliest is right.
pub proof fn law_earliest_account_wins(items: Seq<TrieUpdatesView>, path: Seq<u8>, first: int)
    requires
        0 <= first < items.len(),
        items[first].account_nodes.contains_key(path),
        forall|i: int| 0 <= i < first ==> !(#[trigger] items[i]).account_nodes.contains_key(path),
    ensures
        merged(items).account_nodes.contains_key(path),
        merged(items).account_nodes[path] == items[first].account_nodes[path],
    decreases items.len(),
{
    let rest = items.drop_last();
    if first < rest.len() {
        assert(rest[first] == items[first]);
        assert forall|i: int| 0 <= i < first implies !(#[trigger] rest[i]).account_nodes.contains_key(
            path,
        ) by {
            assert(rest[i] == items[i]);
        }
        law_earliest_account_wins(rest, path, first);
    } else {
        law_merge_keeps_accounts(rest, path);
        assert forall|i: int| 0 <= i < rest.len() implies !(
        #[trigger] rest[i]).account_nodes.contains_key(path) by {
            assert(rest[i] == items[i]);
        }
    }
}

/// Whether the updates speak of a node of an account's storage trie.
pub open spec fn changes_storage(item: TrieUpdatesView, address: B256, path: Seq<u8>) -> bool {
    item.storage_tries.contains_key(address) && item.storage_tries[address].nodes.contains_key(path)
}

/// Merged updates speak of the storage trie nodes that one of them speaks of.
pub proof fn law_merge_keeps_storage(items: Seq<TrieUpdatesView>, address: B256, path: Seq<u8>)
    ensures
        changes_storage(merged(items), address, path) <==> exists|i: int|
            0 <= i < items.len() && changes_storage(#[trigger] items[i], address, path),
    decreases items.len(),
{
    if items.len() > 0 {
        let rest = items.drop_last();
        law_merge_keeps_storage(rest, address, path);
        assert(changes_storage(merged(items), address, path) <==> changes_storage(
            merged(rest),
            address,
            path,
        ) || changes_storage(items.last(), address, path));
        if changes_storage(merged(rest), address, path) {
            let i = choose|i: int|
                0 <= i < rest.len() && changes_storage(#[trigger] rest[i], address, path);
            assert(changes_storage(items[i], address, path));
        }
        if changes_storage(items.last(), address, path) {
            assert(changes_storage(items[items.len() - 1], address, path));
        }
        assert forall|i: int|
            0 <= i < items.len() && changes_storage(
                #[trigger] items[i],
                address,
                path,
            ) implies changes_storage(merged(items), address, path) by {
            if i < rest.len() {
                assert(changes_storage(rest[i], address, path));
            }
        }
    }
}

/// Of the updates that speak of a storage trie node, the earliest is right.
pub proof fn law_earliest_storage_wins(
    items: Seq<TrieUpdatesView>,
    address: B256,
    path: Seq<u8>,
    first: int,
)
    requires
        0 <= first < items.len(),
        changes_storage(items[first], address, path),
        forall|i: int| 0 <= i < first ==> !changes_storage(#[trigger] items[i], address, path),
    ensures
        changes_storage(merged(items), address, path),
        merged(items).storage_tries[address].nodes[path]
            == items[first].storage_tries[address].nodes[path],
    decreases items.len(),
{
    let rest = items.drop_last();
    if first < rest.len() {
        assert(rest[first] == items[first]);
        assert forall|i: int| 0 <= i < first implies !changes_storage(
            #[trigger] rest[i],
            address,
            path,
        ) by {
            assert(rest[i] == items[i]);
        }
        law_earliest_storage_wins(rest, address, path, first);
    } else {
        law_merge_keeps_storage(rest, address, path);
        assert forall|i: int| 0 <= i < rest.len() implies !changes_storage(
            #[trigger] rest[i],
            address,
            path,
        ) by {
            assert(rest[i] == items[i]);
        }
    }
}

/// Whether `i` is where two paths part, the left one first: they agree up to `i`, and there
/// the left one ends, or holds the lower nibble.
pub open spec fn parts_below(left: Seq<u8>, right: Seq<u8>, i: int) -> bool {
    &&& 0 <= i < right.len()
    &&& i <= left.len()
    &&& forall|k: int| 0 <= k < i ==> #[trigger] left[k] == right[k]
    &&& i < left.len() ==> (left[i] as int) < (right[i] as int)
}

/// Whether the left path is the lower one where the two part.
pub open spec fn is_lower(left: Seq<u8>, right: Seq<u8>) -> bool {
    exists|i: int| parts_below(left, right, i)
}

/// Paths are ordered lexicographically, by the value of their nibbles: one comes before
/// another if at the first place where they differ it has ended or holds the lower nibble.
pub proof fn law_paths_are_in_lexicographic_order(left: Seq<u8>, right: Seq<u8>)
    ensures
        path_before(left, right) <==> exists|i: int| parts_below(left, right, i),
    decreases left.len(),
{
    if left.len() > 0 && right.len() > 0 && left[0] == right[0] {
        let l = left.drop_first();
        let r = right.drop_first();
        law_paths_are_in_lexicographic_order(l, r);
        if path_before(l, r) {
            let i = choose|i: int| parts_below(l, r, i);
            assert forall|k: int| 0 <= k < i + 1 implies #[trigger] left[k] == right[k] by {
                if k > 0 {
                    assert(l[k - 1] == r[k - 1]);
                }
            }
            assert(parts_below(left, right, i + 1));
        }
        if exists|i: int| parts_below(left, right, i) {
            let i = choose|i: int| parts_below(left, right, i);
            assert forall|k: int| 0 <= k < i - 1 implies #[trigger] l[k] == r[k] by {
                assert(left[k + 1] == right[k + 1]);
            }
            assert(parts_below(l, r, i - 1));
        }
    } else if right.len() > 0 {
        if path_before(left, right) {
            assert(parts_below(left, right, 0));
        }
        if exists|i: int| parts_below(left, right, i) {
            let i = choose|i: int| parts_below(left, right, i);
            if i > 0 {
                assert(left[0] == right[0]);
            }
        }
    }
}

/// How two paths stand to each other: `Same` if they are equal, else `Before` if the left
/// one is lower where they part, and `After` if the right one is.
pub proof fn law_path_order_is_lexicographic(left: Seq<u8>, right: Seq<u8>)
    ensures
        path_order(left, right) is Same <==> left == right,
        path_order(left, right) is Before <==> exists|i: int| parts_below(left, right, i),
        path_order(left, right) is After <==> exists|i: int| parts_below(right, left, i),
{
    law_paths_are_in_lexicographic_order(left, right);
    law_paths_are_in_lexicographic_order(right, left);
    lemma_path_before_irreflexive(left);
    if left != right {
        lemma_path_before_total(left, right);
    }
}

/// A list of nodes is sorted if of any two nodes the one that stands first has the path that
/// is lower where the two part. So no path occurs twice.
pub proof fn law_sorted_nodes_ascend(nodes: Seq<(Nibbles, Option<BranchNodeCompact>)>)
    ensures
        nodes_sorted(nodes) <==> forall|i: int, j: int|
            0 <= i < j < nodes.len() ==> is_lower(
                (#[trigger] nodes[i]).0@,
                (#[trigger] nodes[j]).0@,
            ),
        nodes_sorted(nodes) ==> forall|i: int, j: int|
            0 <= i < nodes.len() && 0 <= j < nodes.len() && i != j ==> (
            #[trigger] nodes[i]).0@ != (#[trigger] nodes[j]).0@,
{
    assert forall|i: int, j: int|
        0 <= i < j < nodes.len() implies path_before(
        (#[trigger] nodes[i]).0@,
        (#[trigger] nodes[j]).0@,
    ) == is_lower(nodes[i].0@, nodes[j].0@) by {
        law_paths_are_in_lexicographic_order(nodes[i].0@, nodes[j].0@);
    }
    if nodes_sorted(nodes) {
        assert forall|i: int, j: int|
            0 <= i < nodes.len() && 0 <= j < nodes.len() && i != j implies (
        #[trigger] nodes[i]).0@ != (#[trigger] nodes[j]).0@ by {
            lemma_path_before_irreflexive(nodes[i].0@);
            if i < j {
                assert(path_before(nodes[i].0@, nodes[j].0@));
            } else {
                assert(path_before(nodes[j].0@, nodes[i].0@));
            }
        }
    }
}

/// What a list of nodes says is what stands in it: of each path that occurs in it, the node
/// beside the path, and of no other path anything.
pub proof fn law_nodes_say_what_is_listed(
    nodes: Seq<(Nibbles, Option<BranchNodeCompact>)>,
    path: Seq<u8>,
)
    requires
        forall|i: int, j: int|
            0 <= i < j < nodes.len() ==> (#[trigger] nodes[i]).0@ != (#[trigger] nodes[j]).0@,
    ensures
        nodes_map(nodes).contains_key(path) <==> exists|i: int|
            0 <= i < nodes.len() && (#[trigger] nodes[i]).0@ == path,
        forall|i: int|
            0 <= i < nodes.len() && (#[trigger] nodes[i]).0@ == path ==> nodes_map(nodes)[path]
                == nodes[i].1,
    decreases nodes.len(),
{
    lemma_nodes_map_contains(nodes, path);
    if nodes.len() > 0 {
        let rest = nodes.drop_last();
        let last = nodes.len() - 1;
        assert forall|i: int, j: int| 0 <= i < j < rest.len() implies (#[trigger] rest[i]).0@ != (
        #[trigger] rest[j]).0@ by {
            assert(rest[i] == nodes[i] && rest[j] == nodes[j]);
        }
        law_nodes_say_what_is_listed(rest, path);
        assert forall|i: int| 0 <= i < nodes.len() && (#[trigger] nodes[i]).0@ == path implies nodes_map(
            nodes,
        )[path] == nodes[i].1 by {
            if i < last {
                assert(rest[i] == nodes[i]);
                assert(nodes[i].0@ != nodes[last].0@);
            }
        }
    }
}

/// What updates say of the tries is what they hold: the nodes of the account trie, and for
/// each account among the storage tries its nodes and whether its trie is deleted.
pub proof fn law_updates_say_what_they_hold(updates: TrieUpdatesSorted, address: B256)
    ensures
        updates@.account_nodes == nodes_map(updates.nodes()),
        updates@.storage_tries.contains_key(address) <==> updates.tries().contains_key(address),
        updates.tries().contains_key(address) ==> {
            &&& updates@.storage_tries[address].is_deleted == updates.tries()[address].deleted()
            &&& updates@.storage_tries[address].nodes == nodes_map(
                updates.tries()[address].nodes(),
            )
        },
{
}

/// Storage tries keep what each of them says.
pub proof fn law_tries_say_what_they_hold(
    tries: Map<B256, StorageTrieUpdatesSorted>,
    address: B256,
)
    ensures
        tries_view(tries).contains_key(address) <==> tries.contains_key(address),
        tries.contains_key(address) ==> {
            &&& tries_view(tries)[address].is_deleted == tries[address].deleted()
            &&& tries_view(tries)[address].nodes == nodes_map(tries[address].nodes())
        },
{
}

/// Shared updates say, each in its place, what they say.
pub proof fn law_shared_updates_say_the_same(items: Seq<Arc<TrieUpdatesSorted>>)
    ensures
        views(items).len() == items.len(),
        forall|i: int|
            0 <= i < items.len() ==> #[trigger] views(items)[i].account_nodes == nodes_map(
                items[i].nodes(),
            ),
        forall|i: int|
            0 <= i < items.len() ==> #[trigger] views(items)[i].storage_tries == tries_view(
                items[i].tries(),
            ),
{
}

/// Updates that change nothing speak of no node and of no storage trie.
pub proof fn law_empty_updates_say_nothing(address: B256, path: Seq<u8>)
    ensures
        !TrieUpdatesView::empty().account_nodes.contains_key(path),
        !TrieUpdatesView::empty().storage_tries.contains_key(address),
{
}

/// Updates wipe a storage trie exactly if one of the storage tries that they hold is marked
/// as deleted.
pub proof fn law_a_wipe_is_a_deleted_trie(updates: TrieUpdatesSorted)
    ensures
        updates@.wipes_storage() <==> exists|address: B256|
            updates.tries().contains_key(address) && (#[trigger] updates.tries()[address]).deleted(),
{
    if updates@.wipes_storage() {
        let address = choose|address: B256| #[trigger]
            updates@.storage_tries.contains_key(address)
                && updates@.storage_tries[address].is_deleted;
        assert(updates.tries()[address].deleted());
    }
    if exists|address: B256|
        updates.tries().contains_key(address) && (#[trigger] updates.tries()[address]).deleted() {
        let address = choose|address: B256|
            updates.tries().contains_key(address) && (#[trigger] updates.tries()[address]).deleted();
        assert(updates@.storage_tries.contains_key(address));
        assert(updates@.storage_tries[address].is_deleted);
    }
}

/// The updates of several say the same of a wipe, whatever they are made of.
pub proof fn law_a_wipe_is_a_deletion(updates: TrieUpdatesView)
    ensures
        updates.wipes_storage() <==> !(forall|address: B256|
            updates.storage_tries.contains_key(address)
                ==> !(#[trigger] updates.storage_tries[address]).is_deleted),
{
    if updates.wipes_storage() {
        let address = choose|address: B256| #[trigger]
            updates.storage_tries.contains_key(address)
                && updates.storage_tries[address].is_deleted;
        assert(updates.storage_tries[address].is_deleted);
    }
    if !(forall|address: B256|
        updates.storage_tries.contains_key(address)
            ==> !(#[trigger] updates.storage_tries[address]).is_deleted) {
        let address = choose|address: B256|
            updates.storage_tries.contains_key(address) && (
            #[trigger] updates.storage_tries[address]).is_deleted;
        assert(updates.storage_tries.contains_key(address));
    }
}

/// Merging one set of updates leaves it as it is, and merging none gives none.
pub proof fn law_merging_one_changes_nothing(item: TrieUpdatesView)
    ensures
        merged(seq![item]) == item,
        merged(Seq::empty()).account_nodes == Map::<Seq<u8>, Option<BranchNodeCompact>>::empty(),
        merged(Seq::empty()).storage_tries == Map::<B256, StorageTrieView>::empty(),
{
    reveal_with_fuel(merged, 2);
    assert(seq![item].drop_last() =~= Seq::<TrieUpdatesView>::empty());
    let all = merged(seq![item]);
    assert(all.account_nodes =~= item.account_nodes);
    assert(all.storage_tries =~= item.storage_tries);
}

/// Merged updates speak of the storage tries that one of them speaks of.
pub proof fn law_merge_keeps_tries(items: Seq<TrieUpdatesView>, address: B256)
    ensures
        merged(items).storage_tries.contains_key(address) <==> exists|i: int|
            0 <= i < items.len() && (#[trigger] items[i]).storage_tries.contains_key(address),
    decreases items.len(),
{
    if items.len() > 0 {
        let rest = items.drop_last();
        law_merge_keeps_tries(rest, address);
        assert(merged(items).storage_tries.contains_key(address) <==> merged(
            rest,
        ).storage_tries.contains_key(address) || items.last().storage_tries.contains_key(address));
        if merged(rest).storage_tries.contains_key(address) {
            let i = choose|i: int|
                0 <= i < rest.len() && (#[trigger] rest[i]).storage_tries.contains_key(address);
            assert(items[i].storage_tries.contains_key(address));
        }
        if items.last().storage_tries.contains_key(address) {
            assert(items[items.len() - 1].storage_tries.contains_key(address));
        }
        assert forall|i: int|
            0 <= i < items.len() && (#[trigger] items[i]).storage_tries.contains_key(
                address,
            ) implies merged(items).storage_tries.contains_key(address) by {
            if i < rest.len() {
                assert(rest[i].storage_tries.contains_key(address));
            }
        }
    }
}

/// Of the updates that speak of a storage trie, the earliest says whether it is deleted.
pub proof fn law_earliest_trie_wins(items: Seq<TrieUpdatesView>, address: B256, first: int)
    requires
        0 <= first < items.len(),
        items[first].storage_tries.contains_key(address),
        forall|i: int|
            0 <= i < first ==> !(#[trigger] items[i]).storage_tries.contains_key(address),
    ensures
        merged(items).storage_tries.contains_key(address),
        merged(items).storage_tries[address].is_deleted
            == items[first].storage_tries[address].is_deleted,
    decreases items.len(),
{
    let rest = items.drop_last();
    if first < rest.len() {
        assert(rest[first] == items[first]);
        assert forall|i: int| 0 <= i < first implies !(
        #[trigger] rest[i]).storage_tries.contains_key(address) by {
            assert(rest[i] == items[i]);
        }
        law_earliest_trie_wins(rest, address, first);
    } else {
        law_merge_keeps_tries(rest, address);
        assert forall|i: int| 0 <= i < rest.len() implies !(
        #[trigger] rest[i]).storage_tries.contains_key(address) by {
            assert(rest[i] == items[i]);
        }
    }
}

/// Whether a path occurs in a list of nodes.
pub open spec fn lists(nodes: Seq<(Nibbles, Option<BranchNodeCompact>)>, path: Seq<u8>) -> bool {
    exists|k: int| 0 <= k < nodes.len() && (#[trigger] nodes[k]).0@ == path
}

/// Merged updates hold the account trie nodes that are listed in one of them and no others,
/// each with the node that the earliest one lists.
pub proof fn law_merged_accounts_are_the_earliest_listed(
    items: Seq<Arc<TrieUpdatesSorted>>,
    path: Seq<u8>,
)
    requires
        forall|i: int| 0 <= i < items.len() ==> (#[trigger] items[i]).all_sorted(),
    ensures
        merged(views(items)).account_nodes.contains_key(path) <==> exists|i: int|
            0 <= i < items.len() && lists((#[trigger] items[i]).nodes(), path),
        forall|i: int, k: int|
            #![trigger items[i].nodes()[k]]
            0 <= i < items.len() && 0 <= k < items[i].nodes().len() && items[i].nodes()[k].0@
                == path && (forall|j: int|
                0 <= j < i ==> !lists((#[trigger] items[j]).nodes(), path)) ==> merged(
                views(items),
            ).account_nodes[path] == items[i].nodes()[k].1,
{
    let all = views(items);
    assert forall|i: int| 0 <= i < items.len() implies (
    #[trigger] all[i]).account_nodes.contains_key(path) == lists(items[i].nodes(), path) by {
        lemma_nodes_map_contains(items[i].nodes(), path);
    }
    law_merge_keeps_accounts(all, path);
    if merged(all).account_nodes.contains_key(path) {
        let i = choose|i: int|
            0 <= i < all.len() && (#[trigger] all[i]).account_nodes.contains_key(path);
        assert(lists(items[i].nodes(), path));
    }
    if exists|i: int| 0 <= i < items.len() && lists((#[trigger] items[i]).nodes(), path) {
        let i = choose|i: int| 0 <= i < items.len() && lists((#[trigger] items[i]).nodes(), path);
        assert(all[i].account_nodes.contains_key(path));
    }
    assert forall|i: int, k: int|
        #![trigger items[i].nodes()[k]]
        0 <= i < items.len() && 0 <= k < items[i].nodes().len() && items[i].nodes()[k].0@ == path
            && (forall|j: int| 0 <= j < i ==> !lists((#[trigger] items[j]).nodes(), path)) implies merged(
        all,
    ).account_nodes[path] == items[i].nodes()[k].1 by {
        assert(lists(items[i].nodes(), path));
        assert(items[i].all_sorted());
        lemma_nodes_map_value(items[i].nodes(), k);
        assert forall|j: int| 0 <= j < i implies !(#[trigger] all[j]).account_nodes.contains_key(
            path,
        ) by {
            assert(!lists(items[j].nodes(), path));
        }
        assert(all[i].account_nodes.contains_key(path));
        law_earliest_account_wins(all, path, i);
    }
}

/// Whether a path occurs among the nodes of an account's storage trie.
pub open spec fn lists_storage(
    updates: TrieUpdatesSorted,
    address: B256,
    path: Seq<u8>,
) -> bool {
    updates.tries().contains_key(address) && lists(updates.tries()[address].nodes(), path)
}

/// Merged updates hold the storage tries that one of them holds and no others, and of each
/// the nodes that are listed in one of them and no others, each with the node that the
/// earliest one lists. A storage trie is deleted if the earliest one that holds it says so.
pub proof fn law_merged_storage_is_the_earliest_listed(
    items: Seq<Arc<TrieUpdatesSorted>>,
    address: B256,
    path: Seq<u8>,
)
    requires
        forall|i: int| 0 <= i < items.len() ==> (#[trigger] items[i]).all_sorted(),
    ensures
        merged(views(items)).storage_tries.contains_key(address) <==> exists|i: int|
            0 <= i < items.len() && (#[trigger] items[i]).tries().contains_key(address),
        forall|i: int|
            0 <= i < items.len() && (#[trigger] items[i]).tries().contains_key(address) && (
            forall|j: int| 0 <= j < i ==> !(#[trigger] items[j]).tries().contains_key(address))
                ==> merged(views(items)).storage_tries[address].is_deleted
                == items[i].tries()[address].deleted(),
        merged(views(items)).storage_tries.contains_key(address) && merged(
            views(items),
        ).storage_tries[address].nodes.contains_key(path) <==> exists|i: int|
            0 <= i < items.len() && lists_storage(*#[trigger] items[i], address, path),
        forall|i: int, k: int|
            #![trigger items[i].tries()[address].nodes()[k]]
            0 <= i < items.len() && items[i].tries().contains_key(address) && 0 <= k
                < items[i].tries()[address].nodes().len()
                && items[i].tries()[address].nodes()[k].0@ == path && (forall|j: int|
                0 <= j < i ==> !lists_storage(*#[trigger] items[j], address, path)) ==> merged(
                views(items),
            ).storage_tries[address].nodes[path] == items[i].tries()[address].nodes()[k].1,
{
    let all = views(items);
    assert forall|i: int| 0 <= i < items.len() implies (
    #[trigger] all[i]).storage_tries.contains_key(address) == items[i].tries().contains_key(address)
        && changes_storage(all[i], address, path) == lists_storage(*items[i], address, path) by {
        if items[i].tries().contains_key(address) {
            lemma_nodes_map_contains(items[i].tries()[address].nodes(), path);
        }
    }
    law_merge_keeps_tries(all, address);
    if merged(all).storage_tries.contains_key(address) {
        let i = choose|i: int|
            0 <= i < all.len() && (#[trigger] all[i]).storage_tries.contains_key(address);
        assert(items[i].tries().contains_key(address));
    }
    if exists|i: int| 0 <= i < items.len() && (#[trigger] items[i]).tries().contains_key(address) {
        let i = choose|i: int|
            0 <= i < items.len() && (#[trigger] items[i]).tries().contains_key(address);
        assert(all[i].storage_tries.contains_key(address));
    }
    assert forall|i: int|
        0 <= i < items.len() && (#[trigger] items[i]).tries().contains_key(address) && (forall|
            j: int,
        |
            0 <= j < i ==> !(#[trigger] items[j]).tries().contains_key(address)) implies merged(
        all,
    ).storage_tries[address].is_deleted == items[i].tries()[address].deleted() by {
        assert(all[i].storage_tries.contains_key(address));
        assert forall|j: int| 0 <= j < i implies !(#[trigger] all[j]).storage_tries.contains_key(
            address,
        ) by {
            assert(!items[j].tries().contains_key(address));
        }
        law_earliest_trie_wins(all, address, i);
    }
    law_merge_keeps_storage(all, address, path);
    if changes_storage(merged(all), address, path) {
        let i = choose|i: int|
            0 <= i < all.len() && changes_storage(#[trigger] all[i], address, path);
        assert(lists_storage(*items[i], address, path));
    }
    if exists|i: int|
        0 <= i < items.len() && lists_storage(*#[trigger] items[i], address, path) {
        let i = choose|i: int|
            0 <= i < items.len() && lists_storage(*#[trigger] items[i], address, path);
        assert(changes_storage(all[i], address, path));
    }
    assert forall|i: int, k: int|
        #![trigger items[i].tries()[address].nodes()[k]]
        0 <= i < items.len() && items[i].tries().contains_key(address) && 0 <= k
            < items[i].tries()[address].nodes().len() && items[i].tries()[address].nodes()[k].0@
            == path && (forall|j: int|
            0 <= j < i ==> !lists_storage(*#[trigger] items[j], address, path)) implies merged(
        all,
    ).storage_tries[address].nodes[path] == items[i].tries()[address].nodes()[k].1 by {
        assert(lists(items[i].tries()[address].nodes(), path));
        assert(items[i].all_sorted());
        assert(nodes_sorted(items[i].tries()[address].nodes()));
        lemma_nodes_map_value(items[i].tries()[address].nodes(), k);
        assert forall|j: int| 0 <= j < i implies !changes_storage(
            #[trigger] all[j],
            address,
            path,
        ) by {
            assert(!lists_storage(*items[j], address, path));
        }
        assert(changes_storage(all[i], address, path));
        law_earliest_storage_wins(all, address, path, i);
    }
}

/// A sequence of numbers can be a path exactly if it has no more than 64 of them and none
/// needs more than four bits. So what is left of a path without its last nibble is a path.
pub proof fn law_paths_have_up_to_64_nibbles(nibbles: Seq<u8>)
    ensures
        valid_path(nibbles) <==> nibbles.len() <= 64 && !(exists|i: int|
            0 <= i < nibbles.len() && #[trigger] nibbles[i] >= 16),
        valid_path(nibbles) && nibbles.len() > 0 ==> valid_path(nibbles.drop_last()),
{
}

} // verus!
