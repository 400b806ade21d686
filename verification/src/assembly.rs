//! Assembling documents into specifications inside one export container.
//!
//! One pass over a document's items registers one requirement record per item
//! in the shared pool and attaches one hierarchy node per item at the
//! position its depth implies. A structural failure aborts the document's
//! assembly with the offending item identified; the items already processed
//! keep their nodes and records, and no specification is appended.

use vstd::prelude::*;

use crate::ExportError;
use crate::document::{Document, Item};
use crate::hierarchy::{
    HierarchyNode, NodeModel, add_spec_hierarchy, attach_last, chain_len, forest_model,
    lemma_chain_after_attach, lemma_chain_can_attach,
};

verus! {

/// One entry of the flat requirement pool.
pub struct RequirementRecord {
    /// The originating item's id.
    pub id: String,
    /// The export timestamp shared by the whole pass.
    pub last_change: String,
    /// The item's header, or the empty string where it was absent.
    pub header: String,
    /// The item's body text, or the empty string where it was absent.
    pub text: String,
}

/// Mathematical image of a `RequirementRecord`.
pub ghost struct RecordModel {
    pub id: Seq<char>,
    pub last_change: Seq<char>,
    pub header: Seq<char>,
    pub text: Seq<char>,
}

/// One named export unit: a hierarchy forest over the shared pool.
pub struct Specification {
    /// The specification's identifier.
    pub id: String,
    /// The export timestamp.
    pub last_change: String,
    /// The specification's display name.
    pub name: String,
    /// The depth-0 hierarchy nodes, in insertion order.
    pub root_children: Vec<HierarchyNode>,
}

/// Mathematical image of a `Specification`.
pub ghost struct SpecModel {
    pub id: Seq<char>,
    pub last_change: Seq<char>,
    pub name: Seq<char>,
    pub forest: Seq<NodeModel>,
}

/// The single exportable unit: header data, the assembled specifications,
/// and the requirement pool they share.
pub struct ExportContainer {
    pub identifier: String,
    pub created_at: String,
    pub repository_id: String,
    pub tool_id: String,
    pub source_tool_id: String,
    pub title: String,
    /// The assembled specifications, in assembly order.
    pub specifications: Vec<Specification>,
    /// All registered requirement records, across every specification.
    pub requirement_pool: Vec<RequirementRecord>,
}

/// Image of one record.
pub open spec fn record_model(r: RequirementRecord) -> RecordModel {
    RecordModel { id: r.id@, last_change: r.last_change@, header: r.header@, text: r.text@ }
}

/// Image of the pool, in registration order.
pub open spec fn pool_model(s: Seq<RequirementRecord>) -> Seq<RecordModel> {
    Seq::new(s.len(), |i: int| record_model(s[i]))
}

/// The record an item registers: header and text default to the empty string
/// where the item carries none.
pub open spec fn record_model_of(item: Item, now: Seq<char>) -> RecordModel {
    RecordModel {
        id: item.id@,
        last_change: now,
        header: match item.header {
            Some(h) => h@,
            None => Seq::empty(),
        },
        text: match item.text {
            Some(t) => t@,
            None => Seq::empty(),
        },
    }
}

/// The records a sequence of items registers, in order.
pub open spec fn records_of(items: Seq<Item>, now: Seq<char>) -> Seq<RecordModel> {
    Seq::new(items.len(), |i: int| record_model_of(items[i], now))
}

/// The leaf node an item contributes to the hierarchy.
pub open spec fn leaf_of(item: Item, now: Seq<char>) -> NodeModel {
    NodeModel {
        identifier: item.level@,
        last_change: now,
        object_ref: item.id@,
        children: Seq::empty(),
    }
}

/// Image of one specification.
pub open spec fn spec_model(s: Specification) -> SpecModel {
    SpecModel {
        id: s.id@,
        last_change: s.last_change@,
        name: s.name@,
        forest: forest_model(s.root_children@),
    }
}

/// Image of the specification list, in order.
pub open spec fn specs_model(s: Seq<Specification>) -> Seq<SpecModel> {
    Seq::new(s.len(), |i: int| spec_model(s[i]))
}

/// How many leading items of `items[i..]` attach, starting from a chain of
/// last children `chain` levels deep: an item at depth at most `chain` is
/// accepted and leaves the chain exactly one level deeper than itself; the
/// first deeper item stops the count.
pub open spec fn accepted_from(items: Seq<Item>, i: int, chain: nat) -> int
    decreases items.len() - i,
{
    if i < 0 || i >= items.len() {
        0
    } else if items[i].depth as nat <= chain {
        1 + accepted_from(items, i + 1, items[i].depth as nat + 1)
    } else {
        0
    }
}

/// How many leading items of `items` attach to a forest whose chain of last
/// children is `chain` levels deep.
pub open spec fn accepted_count(items: Seq<Item>, chain: nat) -> int {
    accepted_from(items, 0, chain)
}

/// The forest after attaching the leaves of `items[i..]`, in order.
pub open spec fn build_from(s: Seq<NodeModel>, items: Seq<Item>, i: int, now: Seq<char>) -> Seq<
    NodeModel,
>
    decreases items.len() - i,
{
    if i < 0 || i >= items.len() {
        s
    } else {
        build_from(
            attach_last(s, leaf_of(items[i], now), items[i].depth as nat),
            items,
            i + 1,
            now,
        )
    }
}

/// The forest after attaching the leaves of all of `items`, in order.
pub open spec fn build_forest(s: Seq<NodeModel>, items: Seq<Item>, now: Seq<char>) -> Seq<
    NodeModel,
> {
    build_from(s, items, 0, now)
}

proof fn lemma_build_snoc_from(
    s: Seq<NodeModel>,
    items: Seq<Item>,
    it: Item,
    i: int,
    now: Seq<char>,
)
    requires
        0 <= i <= items.len(),
    ensures
        build_from(s, items.push(it), i, now) == attach_last(
            build_from(s, items, i, now),
            leaf_of(it, now),
            it.depth as nat,
        ),
    decreases items.len() - i,
{
    let withit = items.push(it);
    if i == items.len() {
        assert(withit[i] == it);
        let attached = attach_last(s, leaf_of(it, now), it.depth as nat);
        assert(build_from(s, withit, i, now) == build_from(attached, withit, i + 1, now));
        assert(build_from(attached, withit, i + 1, now) == attached);
        assert(build_from(s, items, i, now) == s);
    } else {
        assert(withit[i] == items[i]);
        lemma_build_snoc_from(
            attach_last(s, leaf_of(items[i], now), items[i].depth as nat),
            items,
            it,
            i + 1,
            now,
        );
    }
}

/// Building from one more item attaches that item's leaf to the forest built
/// from the items before it.
pub proof fn lemma_build_snoc(s: Seq<NodeModel>, items: Seq<Item>, it: Item, now: Seq<char>)
    ensures
        build_forest(s, items.push(it), now) == attach_last(
            build_forest(s, items, now),
            leaf_of(it, now),
            it.depth as nat,
        ),
{
    lemma_build_snoc_from(s, items, it, 0, now);
}

/// The header fields of the two containers agree.
pub open spec fn same_header(a: ExportContainer, b: ExportContainer) -> bool {
    a.identifier == b.identifier && a.created_at == b.created_at && a.repository_id
        == b.repository_id && a.tool_id == b.tool_id && a.source_tool_id == b.source_tool_id
        && a.title == b.title
}

/// The naming fields of the two specifications agree.
pub open spec fn same_naming(a: Specification, b: Specification) -> bool {
    a.id == b.id && a.last_change == b.last_change && a.name == b.name
}

/// Normalizes one item into its requirement record: identity and timestamp
/// are taken over, and an absent header or text becomes the empty string,
/// never a missing field.
pub fn requirement_record_of(item: &Item, now: &String) -> (r: RequirementRecord)
    ensures
        record_model(r) == record_model_of(*item, now@),
{
    RequirementRecord {
        id: item.id.clone(),
        last_change: now.clone(),
        header: match &item.header {
            Some(h) => h.clone(),
            None => String::new(),
        },
        text: match &item.text {
            Some(t) => t.clone(),
            None => String::new(),
        },
    }
}

impl ExportContainer {
    /// An empty container with the given header data.
    pub fn new(
        identifier: String,
        created_at: String,
        repository_id: String,
        tool_id: String,
        source_tool_id: String,
        title: String,
    ) -> (r: ExportContainer)
        ensures
            r.identifier == identifier,
            r.created_at == created_at,
            r.repository_id == repository_id,
            r.tool_id == tool_id,
            r.source_tool_id == source_tool_id,
            r.title == title,
            r.specifications@.len() == 0,
            r.requirement_pool@.len() == 0,
    {
        ExportContainer {
            identifier,
            created_at,
            repository_id,
            tool_id,
            source_tool_id,
            title,
            specifications: Vec::new(),
            requirement_pool: Vec::new(),
        }
    }

    /// Registers one record in the shared pool.
    pub fn add_requirement(&mut self, record: RequirementRecord) -> (u: ())
        ensures
            same_header(*final(self), *old(self)),
            final(self).specifications == old(self).specifications,
            final(self).requirement_pool@ == old(self).requirement_pool@.push(record),
    {
        self.requirement_pool.push(record);
    }

    /// An empty specification with the given identity and name.
    pub fn build_module_specification(&self, id: String, last_change: String, name: String) -> (r:
        Specification)
        ensures
            r.id == id,
            r.last_change == last_change,
            r.name == name,
            r.root_children@.len() == 0,
    {
        Specification { id, last_change, name, root_children: Vec::new() }
    }

    /// Appends a completed specification.
    pub fn add_specification(&mut self, specification: Specification) -> (u: ())
        ensures
            same_header(*final(self), *old(self)),
            final(self).requirement_pool == old(self).requirement_pool,
            final(self).specifications@ == old(self).specifications@.push(specification),
    {
        self.specifications.push(specification);
    }
}

/// One pass over a document: registers one record per item and attaches one
/// node per item under the most recently inserted node one level up. The
/// count of items processed is exactly `accepted_count` of the document's
/// items over the specification's current chain of last children; processing
/// stops at the first item whose depth finds no ancestor, which is reported
/// with its id and level, registers nothing, and attaches nothing.
pub fn complete(
    document: &Document,
    container: &mut ExportContainer,
    specification: &mut Specification,
    now: &String,
) -> (r: Result<(), ExportError>)
    ensures
        same_header(*final(container), *old(container)),
        final(container).specifications == old(container).specifications,
        same_naming(*final(specification), *old(specification)),
        ({
            let items = document.items_sorted_by_level@;
            let base = forest_model(old(specification).root_children@);
            let k = accepted_count(items, chain_len(base));
            &&& pool_model(final(container).requirement_pool@) == pool_model(
                old(container).requirement_pool@,
            ) + records_of(items.take(k), now@)
            &&& forest_model(final(specification).root_children@) == build_forest(
                base,
                items.take(k),
                now@,
            )
            &&& match r {
                Ok(()) => k == items.len(),
                Err(e) => k < items.len() && (e
                    matches ExportError::MissingAncestor { item_id, level } && item_id@
                    == items[k].id@ && level@ == items[k].level@),
            }
        }),
{
    let ghost items = document.items_sorted_by_level@;
    let ghost base = forest_model(old(specification).root_children@);
    let ghost chain0 = chain_len(base);
    let ghost pool0 = pool_model(old(container).requirement_pool@);
    let n = document.items_sorted_by_level.len();
    proof {
        assert(items.take(0) =~= Seq::<Item>::empty());
    }
    for j in 0..n
        invariant
            n == items.len(),
            document.items_sorted_by_level@ == items,
            base == forest_model(old(specification).root_children@),
            chain0 == chain_len(base),
            pool0 == pool_model(old(container).requirement_pool@),
            same_header(*container, *old(container)),
            container.specifications == old(container).specifications,
            same_naming(*specification, *old(specification)),
            accepted_count(items, chain0) == j + accepted_from(
                items,
                j as int,
                chain_len(forest_model(specification.root_children@)),
            ),
            forest_model(specification.root_children@) == build_forest(
                base,
                items.take(j as int),
                now@,
            ),
            pool_model(container.requirement_pool@) == pool0 + records_of(
                items.take(j as int),
                now@,
            ),
    {
        let item = &document.items_sorted_by_level[j];
        let node = HierarchyNode {
            identifier: item.level.clone(),
            last_change: now.clone(),
            object_ref: item.id.clone(),
            children: Vec::new(),
        };
        let ghost cur = forest_model(specification.root_children@);
        let ghost chainj = chain_len(cur);
        let ghost leaf = leaf_of(items[j as int], now@);
        proof {
            lemma_chain_can_attach(cur, item.depth as nat);
            assert(node.model().children =~= Seq::<NodeModel>::empty());
            assert(node.model() == leaf);
        }
        match add_spec_hierarchy(&mut specification.root_children, node, item.depth) {
            Err(e) => {
                proof {
                    assert(accepted_from(items, j as int, chainj) == 0);
                }
                return Err(e);
            },
            Ok(()) => {
                let ghost prevpool = container.requirement_pool@;
                let record = requirement_record_of(item, now);
                container.requirement_pool.push(record);
                proof {
                    assert(accepted_from(items, j as int, chainj) == 1 + accepted_from(
                        items,
                        j + 1,
                        items[j as int].depth as nat + 1,
                    ));
                    lemma_chain_after_attach(cur, leaf, item.depth as nat);
                    assert(items.take(j + 1) =~= items.take(j as int).push(items[j as int]));
                    lemma_build_snoc(base, items.take(j as int), items[j as int], now@);
                    let newpool = container.requirement_pool@;
                    let target = pool0 + records_of(items.take(j + 1), now@);
                    assert(records_of(items.take(j as int), now@).len() == j);
                    assert(pool_model(prevpool).len() == prevpool.len());
                    assert(prevpool.len() == pool0.len() + j);
                    assert(newpool.len() == prevpool.len() + 1);
                    assert(pool_model(newpool).len() == newpool.len());
                    assert(records_of(items.take(j + 1), now@).len() == j + 1);
                    assert(pool_model(newpool).len() == target.len());
                    assert forall|t: int| 0 <= t < pool_model(newpool).len() implies pool_model(
                        newpool,
                    )[t] == target[t] by {
                        assert(pool_model(newpool)[t] == record_model(newpool[t]));
                        if t < prevpool.len() {
                            assert(newpool[t] == prevpool[t]);
                            assert(record_model(prevpool[t]) == pool_model(prevpool)[t]);
                            if t >= pool0.len() {
                                assert(records_of(items.take(j as int), now@)[t - pool0.len()]
                                    == record_model_of(items.take(j as int)[t - pool0.len()], now@));
                                assert(records_of(items.take(j + 1), now@)[t - pool0.len()]
                                    == record_model_of(items.take(j + 1)[t - pool0.len()], now@));
                            }
                        } else {
                            assert(newpool[t] == record);
                            assert(t - pool0.len() == j);
                            assert(records_of(items.take(j + 1), now@)[j as int]
                                == record_model_of(items.take(j + 1)[j as int], now@));
                            assert(items.take(j + 1)[j as int] == items[j as int]);
                        }
                    }
                    assert(pool_model(newpool) =~= target);
                }
            },
        }
    }
    proof {
        assert(accepted_from(
            items,
            n as int,
            chain_len(forest_model(specification.root_children@)),
        ) == 0);
    }
    Ok(())
}

} // verus!
