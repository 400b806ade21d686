//! Laws of the hierarchy build, proved over whole item sequences.

use vstd::prelude::*;

use crate::assembly::{
    accepted_count, accepted_from, build_forest, build_from, leaf_of, lemma_build_snoc, records_of,
};
use crate::document::Item;
use crate::hierarchy::{
    NodeModel, Placement, attach_last, chain_len, chain_node, entries_from, forest_entries,
    lemma_attach_chain, lemma_attach_entries, lemma_chain_after_attach, lemma_chain_can_attach,
    placement_of,
};

verus! {

/// The placement an item occupies in the built forest: its depth, its level
/// string as identifier, and its id as object reference.
pub open spec fn item_placement(item: Item, now: Seq<char>) -> Placement {
    Placement {
        depth: item.depth as nat,
        identifier: item.level@,
        last_change: now,
        object_ref: item.id@,
    }
}

/// The placements of `items[i..]`, in order.
pub open spec fn placements_from(items: Seq<Item>, i: int, now: Seq<char>) -> Seq<Placement> {
    Seq::new((items.len() - i) as nat, |t: int| item_placement(items[i + t], now))
}

proof fn lemma_build_entries(s: Seq<NodeModel>, items: Seq<Item>, i: int, now: Seq<char>)
    requires
        0 <= i <= items.len(),
        accepted_from(items, i, chain_len(s)) == items.len() - i,
    ensures
        entries_from(build_from(s, items, i, now), 0, 0) == entries_from(s, 0, 0)
            + placements_from(items, i, now),
    decreases items.len() - i,
{
    if i == items.len() {
        assert(placements_from(items, i, now) =~= Seq::<Placement>::empty());
        assert(entries_from(s, 0, 0) + placements_from(items, i, now) =~= entries_from(s, 0, 0));
    } else {
        let it = items[i];
        let leaf = leaf_of(it, now);
        assert(it.depth as nat <= chain_len(s));
        lemma_chain_can_attach(s, it.depth as nat);
        let attached = attach_last(s, leaf, it.depth as nat);
        lemma_chain_after_attach(s, leaf, it.depth as nat);
        lemma_attach_entries(s, leaf, it.depth as nat, 0);
        assert(placement_of(leaf, it.depth as nat) == item_placement(it, now));
        lemma_build_entries(attached, items, i + 1, now);
        assert(entries_from(s, 0, 0) + placements_from(items, i, now) =~= (entries_from(
            s,
            0,
            0,
        ).push(item_placement(it, now))) + placements_from(items, i + 1, now));
    }
}

/// Law: a depth-first traversal of the forest built from an accepted item
/// sequence recovers exactly those items' placements — their ids, levels and
/// depths — in the original input order.
pub proof fn lemma_round_trip(items: Seq<Item>, now: Seq<char>)
    requires
        accepted_count(items, 0) == items.len(),
    ensures
        forest_entries(build_forest(Seq::empty(), items, now)) == placements_from(items, 0, now),
{
    assert(chain_len(Seq::<NodeModel>::empty()) == 0);
    lemma_build_entries(Seq::empty(), items, 0, now);
    assert(entries_from(Seq::<NodeModel>::empty(), 0, 0) =~= Seq::<Placement>::empty());
    assert(entries_from(Seq::<NodeModel>::empty(), 0, 0) + placements_from(items, 0, now)
        =~= placements_from(items, 0, now));
}

/// Law: assembling a document of `n` accepted items registers exactly `n`
/// records, and the object reference of every node of the built forest is
/// the id of the record registered for the same item.
pub proof fn lemma_pool_covers(items: Seq<Item>, now: Seq<char>)
    requires
        accepted_count(items, 0) == items.len(),
    ensures
        records_of(items, now).len() == items.len(),
        forest_entries(build_forest(Seq::empty(), items, now)).len() == items.len(),
        forall|t: int|
            0 <= t < items.len() ==> #[trigger] forest_entries(
                build_forest(Seq::empty(), items, now),
            )[t].object_ref == records_of(items, now)[t].id,
{
    lemma_round_trip(items, now);
    assert forall|t: int| 0 <= t < items.len() implies #[trigger] forest_entries(
        build_forest(Seq::empty(), items, now),
    )[t].object_ref == records_of(items, now)[t].id by {
        assert(placements_from(items, 0, now)[t] == item_placement(items[0 + t], now));
    }
}

/// Whether the item at `i` keeps to the step rule: its depth is 0 at the
/// start, and otherwise at most one more than its predecessor's.
pub open spec fn depth_ok_at(items: Seq<Item>, i: int) -> bool {
    items[i].depth as nat <= if i == 0 {
        0
    } else {
        items[i - 1].depth as nat + 1
    }
}

/// The index of the first item that breaks the step rule, or the length when
/// none does.
pub open spec fn first_jump(items: Seq<Item>, i: int) -> int
    decreases items.len() - i,
{
    if i < 0 || i >= items.len() {
        items.len() as int
    } else if depth_ok_at(items, i) {
        first_jump(items, i + 1)
    } else {
        i
    }
}

proof fn lemma_accepted_jump_from(items: Seq<Item>, i: int)
    requires
        0 <= i <= items.len(),
    ensures
        accepted_from(
            items,
            i,
            if i == 0 {
                0
            } else {
                (items[i - 1].depth + 1) as nat
            },
        ) == first_jump(items, i) - i,
    decreases items.len() - i,
{
    if i < items.len() {
        lemma_accepted_jump_from(items, i + 1);
    }
}

/// Law: assembly into a fresh specification stops exactly at the first depth
/// jump. The accepted count equals the index of the first item whose depth
/// is positive at the start or exceeds its predecessor's depth by more than
/// one; with no such item, every item is accepted.
pub proof fn lemma_accepted_is_first_jump(items: Seq<Item>)
    ensures
        accepted_count(items, 0) == first_jump(items, 0),
        (forall|t: int| 0 <= t < items.len() ==> depth_ok_at(items, t)) ==> accepted_count(
            items,
            0,
        ) == items.len(),
{
    lemma_accepted_jump_from(items, 0);
    if forall|t: int| 0 <= t < items.len() ==> depth_ok_at(items, t) {
        lemma_all_ok_no_jump(items, 0);
    }
}

proof fn lemma_all_ok_no_jump(items: Seq<Item>, i: int)
    requires
        0 <= i <= items.len(),
        forall|t: int| 0 <= t < items.len() ==> depth_ok_at(items, t),
    ensures
        first_jump(items, i) == items.len(),
    decreases items.len() - i,
{
    if i < items.len() {
        lemma_all_ok_no_jump(items, i + 1);
    }
}

/// The index of the most recent item before `i` whose depth is `d`, or `-1`.
pub open spec fn most_recent_at(items: Seq<Item>, i: int, d: nat) -> int
    decreases i,
{
    if i <= 0 {
        -1
    } else if items[i - 1].depth as nat == d {
        i - 1
    } else {
        most_recent_at(items, i - 1, d)
    }
}

proof fn lemma_chain_tracks(items: Seq<Item>, now: Seq<char>, i: int)
    requires
        0 < i <= items.len(),
        forall|t: int| 0 <= t < i ==> depth_ok_at(items, t),
    ensures
        chain_len(build_forest(Seq::empty(), items.take(i), now)) == items[i - 1].depth as nat + 1,
        forall|d: nat|
            d <= items[i - 1].depth as nat ==> 0 <= #[trigger] most_recent_at(items, i, d) < i,
        forall|d: nat|
            d <= items[i - 1].depth as nat ==> items[#[trigger] most_recent_at(items, i, d)].depth
                as nat == d,
        forall|d: nat|
            d <= items[i - 1].depth as nat ==> #[trigger] chain_node(
                build_forest(Seq::empty(), items.take(i), now),
                d,
            ).object_ref == items[most_recent_at(items, i, d)].id@,
    decreases i,
{
    let cur = build_forest(Seq::empty(), items.take(i), now);
    let it = items[i - 1];
    let leaf = leaf_of(it, now);
    let prev = build_forest(Seq::empty(), items.take(i - 1), now);
    assert(items.take(i) =~= items.take(i - 1).push(it));
    lemma_build_snoc(Seq::empty(), items.take(i - 1), it, now);
    assert(cur == attach_last(prev, leaf, it.depth as nat));
    if i == 1 {
        assert(depth_ok_at(items, 0));
        assert(it.depth == 0);
        assert(chain_len(Seq::<NodeModel>::empty()) == 0);
        lemma_chain_can_attach(prev, 0);
        lemma_chain_after_attach(prev, leaf, 0);
        lemma_attach_chain(prev, leaf, 0);
        assert(chain_node(cur, 0) == leaf);
        assert forall|d: nat| d <= items[i - 1].depth as nat implies 0 <= #[trigger] most_recent_at(
            items,
            i,
            d,
        ) < i && items[most_recent_at(items, i, d)].depth as nat == d && chain_node(
            build_forest(Seq::empty(), items.take(i), now),
            d,
        ).object_ref == items[most_recent_at(items, i, d)].id@ by {
            assert(d == 0);
            assert(most_recent_at(items, 1, 0) == 0);
            assert(chain_node(cur, 0).object_ref == items[0].id@);
        }
    } else {
        lemma_chain_tracks(items, now, i - 1);
        assert(depth_ok_at(items, i - 1));
        assert(it.depth as nat <= items[i - 2].depth as nat + 1);
        assert(chain_len(prev) == items[i - 2].depth as nat + 1);
        lemma_chain_can_attach(prev, it.depth as nat);
        lemma_chain_after_attach(prev, leaf, it.depth as nat);
        lemma_attach_chain(prev, leaf, it.depth as nat);
        assert forall|d: nat| d <= items[i - 1].depth as nat implies 0 <= #[trigger] most_recent_at(
            items,
            i,
            d,
        ) < i && items[most_recent_at(items, i, d)].depth as nat == d && chain_node(
            build_forest(Seq::empty(), items.take(i), now),
            d,
        ).object_ref == items[most_recent_at(items, i, d)].id@ by {
            if d == it.depth as nat {
                assert(chain_node(cur, d) == leaf);
                assert(most_recent_at(items, i, d) == i - 1);
            } else {
                assert(d < it.depth as nat);
                assert(d <= items[i - 2].depth as nat);
                assert(chain_node(cur, d).object_ref == chain_node(prev, d).object_ref);
                let j = most_recent_at(items, i - 1, d);
                assert(0 <= j < i - 1);
                assert(items[j].depth as nat == d);
                assert(chain_node(prev, d).object_ref == items[j].id@);
                assert(most_recent_at(items, i, d) == j);
            }
        }
    }
}

/// Law: in a forest built from a depth-valid item sequence, an item of
/// positive depth `d` is attached as the last child of the node of the most
/// recent earlier item of depth `d - 1` — and such an item always exists.
pub proof fn lemma_parent_is_most_recent(items: Seq<Item>, now: Seq<char>, i: int)
    requires
        0 <= i < items.len(),
        forall|t: int| 0 <= t <= i ==> depth_ok_at(items, t),
        items[i].depth > 0,
    ensures
        ({
            let d = items[i].depth as nat;
            let before = build_forest(Seq::empty(), items.take(i), now);
            let leaf = leaf_of(items[i], now);
            let j = most_recent_at(items, i, (d - 1) as nat);
            &&& 0 <= j < i
            &&& items[j].depth as nat == d - 1
            &&& chain_node(before, (d - 1) as nat).object_ref == items[j].id@
            &&& build_forest(Seq::empty(), items.take(i + 1), now) == attach_last(before, leaf, d)
            &&& chain_node(attach_last(before, leaf, d), (d - 1) as nat).children == chain_node(
                before,
                (d - 1) as nat,
            ).children.push(leaf)
        }),
{
    let d = items[i].depth as nat;
    let before = build_forest(Seq::empty(), items.take(i), now);
    let leaf = leaf_of(items[i], now);
    assert(depth_ok_at(items, i));
    assert(i > 0);
    lemma_chain_tracks(items, now, i);
    assert(chain_len(before) == items[i - 1].depth as nat + 1);
    assert((d - 1) as nat <= items[i - 1].depth as nat);
    let jj = most_recent_at(items, i, (d - 1) as nat);
    assert(0 <= jj < i);
    assert(items[jj].depth as nat == (d - 1) as nat);
    assert(chain_node(
        build_forest(Seq::empty(), items.take(i), now),
        (d - 1) as nat,
    ).object_ref == items[jj].id@);
    lemma_chain_can_attach(before, d);
    lemma_attach_chain(before, leaf, d);
    assert(items.take(i + 1) =~= items.take(i).push(items[i]));
    lemma_build_snoc(Seq::empty(), items.take(i), items[i], now);
}

} // verus!
