//! The specification-hierarchy tree and the insertion algorithm.
//!
//! A `HierarchyNode` carries the originating item's level string as its
//! identifier, the shared export timestamp, and the item's id as a reference
//! into the flat requirement pool. `add_spec_hierarchy` attaches a new leaf
//! under the most recently inserted node one level above it, following the
//! chain of last children down the tree.

use vstd::prelude::*;

verus! {

/// One node of the nested specification hierarchy.
pub struct HierarchyNode {
    /// The originating item's level string.
    pub identifier: String,
    /// The export timestamp shared by every node built in one pass.
    pub last_change: String,
    /// The originating item's id, resolvable in the requirement pool.
    pub object_ref: String,
    /// Child nodes, in first-seen order.
    pub children: Vec<HierarchyNode>,
}

/// Mathematical image of a `HierarchyNode`: the same fields over sequences.
pub ghost struct NodeModel {
    pub identifier: Seq<char>,
    pub last_change: Seq<char>,
    pub object_ref: Seq<char>,
    pub children: Seq<NodeModel>,
}

/// One entry of a depth-first traversal: a node's fields plus its depth.
pub ghost struct Placement {
    pub depth: nat,
    pub identifier: Seq<char>,
    pub last_change: Seq<char>,
    pub object_ref: Seq<char>,
}

impl HierarchyNode {
    /// The mathematical tree this node stands for.
    pub open spec fn model(self) -> NodeModel
        decreases self, 1int,
    {
        NodeModel {
            identifier: self.identifier@,
            last_change: self.last_change@,
            object_ref: self.object_ref@,
            children: models_from(self.children@, 0),
        }
    }
}

/// The models of `s[i..]`, in order.
pub open spec fn models_from(s: Seq<HierarchyNode>, i: int) -> Seq<NodeModel>
    decreases s, s.len() - i + 1,
{
    if 0 <= i < s.len() {
        seq![s[i].model()] + models_from(s, i + 1)
    } else {
        Seq::empty()
    }
}

/// The mathematical forest a sequence of nodes stands for.
pub open spec fn forest_model(s: Seq<HierarchyNode>) -> Seq<NodeModel> {
    models_from(s, 0)
}

/// The placement of node `n` at depth `d`.
pub open spec fn placement_of(n: NodeModel, d: nat) -> Placement {
    Placement {
        depth: d,
        identifier: n.identifier,
        last_change: n.last_change,
        object_ref: n.object_ref,
    }
}

/// Depth-first entries of the subtree rooted at `n`, with `n` itself at
/// depth `d`.
pub open spec fn node_entries(n: NodeModel, d: nat) -> Seq<Placement>
    decreases n, 1int,
{
    seq![placement_of(n, d)] + entries_from(n.children, 0, d + 1)
}

/// Depth-first entries of the forest `s[i..]`, whose roots sit at depth `d`.
pub open spec fn entries_from(s: Seq<NodeModel>, i: int, d: nat) -> Seq<Placement>
    decreases s, s.len() - i + 1,
{
    if 0 <= i < s.len() {
        node_entries(s[i], d) + entries_from(s, i + 1, d)
    } else {
        Seq::empty()
    }
}

/// Depth-first entries of a whole forest of root nodes.
pub open spec fn forest_entries(s: Seq<NodeModel>) -> Seq<Placement> {
    entries_from(s, 0, 0)
}

/// Length of the chain of last children: the depths `0 .. chain_len(s)` are
/// exactly the depths at which a new node can find its parent.
pub open spec fn chain_len(s: Seq<NodeModel>) -> nat
    decreases s,
{
    if s.len() == 0 {
        0
    } else {
        1 + chain_len(s.last().children)
    }
}

/// Whether a node can be attached at depth `depth`: every ancestor it needs
/// is present on the chain of last children.
pub open spec fn can_attach(s: Seq<NodeModel>, depth: nat) -> bool
    decreases depth,
{
    if depth == 0 {
        true
    } else {
        s.len() > 0 && can_attach(s.last().children, (depth - 1) as nat)
    }
}

/// The forest after attaching `n` at depth `depth`: appended to the root
/// sequence at depth 0, else passed down to the last root's children.
pub open spec fn attach_last(s: Seq<NodeModel>, n: NodeModel, depth: nat) -> Seq<NodeModel>
    decreases depth,
{
    if depth == 0 {
        s.push(n)
    } else {
        let k = s.len() - 1;
        s.update(
            k,
            NodeModel {
                identifier: s[k].identifier,
                last_change: s[k].last_change,
                object_ref: s[k].object_ref,
                children: attach_last(s[k].children, n, (depth - 1) as nat),
            },
        )
    }
}

/// A node can be attached at `depth` exactly when the chain of last children
/// reaches down to its parent's level.
pub proof fn lemma_chain_can_attach(s: Seq<NodeModel>, depth: nat)
    ensures
        can_attach(s, depth) <==> depth <= chain_len(s),
    decreases depth,
{
    if depth > 0 && s.len() > 0 {
        lemma_chain_can_attach(s.last().children, (depth - 1) as nat);
    }
}

/// After attaching a leaf at `depth`, the chain of last children ends at it:
/// its length becomes `depth + 1`.
pub proof fn lemma_chain_after_attach(s: Seq<NodeModel>, n: NodeModel, depth: nat)
    requires
        can_attach(s, depth),
        n.children.len() == 0,
    ensures
        chain_len(attach_last(s, n, depth)) == depth + 1,
    decreases depth,
{
    if depth == 0 {
        assert(s.push(n).last() == n);
        assert(chain_len(n.children) == 0);
        assert(chain_len(s.push(n)) == 1 + chain_len(n.children));
        assert(attach_last(s, n, depth) == s.push(n));
    } else {
        let k = s.len() - 1;
        lemma_chain_after_attach(s[k].children, n, (depth - 1) as nat);
        let res = attach_last(s, n, depth);
        assert(chain_len(attach_last(s[k].children, n, (depth - 1) as nat)) == depth);
        assert(res.len() == s.len());
        assert(res[k].children == attach_last(s[k].children, n, (depth - 1) as nat));
        assert(res.last() == res[k]);
        assert(chain_len(res) == 1 + chain_len(res[k].children));
    }
}

proof fn lemma_entries_push(s: Seq<NodeModel>, x: NodeModel, i: int, d: nat)
    requires
        0 <= i <= s.len(),
    ensures
        entries_from(s.push(x), i, d) == entries_from(s, i, d) + node_entries(x, d),
    decreases s.len() - i,
{
    let withx = s.push(x);
    if i == s.len() {
        assert(withx[i] == x);
        assert(entries_from(withx, i, d) == node_entries(x, d) + entries_from(withx, i + 1, d));
        assert(entries_from(withx, i + 1, d) =~= Seq::<Placement>::empty());
        assert(entries_from(withx, i, d) =~= entries_from(s, i, d) + node_entries(x, d));
    } else {
        assert(withx[i] == s[i]);
        lemma_entries_push(s, x, i + 1, d);
        assert(entries_from(withx, i, d) =~= entries_from(s, i, d) + node_entries(x, d));
    }
}

proof fn lemma_entries_update_last(s: Seq<NodeModel>, y: NodeModel, p: Placement, i: int, d: nat)
    requires
        s.len() > 0,
        0 <= i <= s.len() - 1,
        node_entries(y, d) == node_entries(s[s.len() - 1], d).push(p),
    ensures
        entries_from(s.update(s.len() - 1, y), i, d) == entries_from(s, i, d).push(p),
    decreases s.len() - i,
{
    let k = s.len() - 1;
    let upd = s.update(k, y);
    if i == k {
        assert(upd[i] == y);
        assert(entries_from(upd, i, d) == node_entries(y, d) + entries_from(upd, i + 1, d));
        assert(entries_from(upd, i + 1, d) =~= Seq::<Placement>::empty());
        assert(entries_from(s, i + 1, d) =~= Seq::<Placement>::empty());
        assert(entries_from(upd, i, d) =~= entries_from(s, i, d).push(p));
    } else {
        assert(upd[i] == s[i]);
        lemma_entries_update_last(s, y, p, i + 1, d);
        assert(entries_from(upd, i, d) =~= entries_from(s, i, d).push(p));
    }
}

/// Attaching a leaf at depth `depth` appends exactly one entry — the leaf's
/// placement at `d + depth` — to the depth-first entries of the forest.
pub proof fn lemma_attach_entries(s: Seq<NodeModel>, n: NodeModel, depth: nat, d: nat)
    requires
        can_attach(s, depth),
        n.children.len() == 0,
    ensures
        entries_from(attach_last(s, n, depth), 0, d) == entries_from(s, 0, d).push(
            placement_of(n, (d + depth) as nat),
        ),
    decreases depth,
{
    if depth == 0 {
        lemma_entries_push(s, n, 0, d);
        assert(entries_from(n.children, 0, (d + 1) as nat) =~= Seq::<Placement>::empty());
        assert(node_entries(n, d) =~= seq![placement_of(n, d)]);
        assert(entries_from(s, 0, d) + node_entries(n, d) =~= entries_from(s, 0, d).push(
            placement_of(n, d),
        ));
    } else {
        let k = s.len() - 1;
        let ch = s[k].children;
        let p = placement_of(n, (d + depth) as nat);
        lemma_attach_entries(ch, n, (depth - 1) as nat, (d + 1) as nat);
        let y = NodeModel {
            identifier: s[k].identifier,
            last_change: s[k].last_change,
            object_ref: s[k].object_ref,
            children: attach_last(ch, n, (depth - 1) as nat),
        };
        assert(placement_of(y, d) == placement_of(s[k], d));
        assert(node_entries(y, d) == seq![placement_of(s[k], d)] + entries_from(
            y.children,
            0,
            (d + 1) as nat,
        ));
        assert(node_entries(y, d) =~= node_entries(s[k], d).push(p));
        lemma_entries_update_last(s, y, p, 0, d);
        assert(attach_last(s, n, depth) == s.update(k, y));
    }
}

/// The node at depth `d` on the chain of last children.
pub open spec fn chain_node(s: Seq<NodeModel>, d: nat) -> NodeModel
    decreases d,
{
    if d == 0 {
        s.last()
    } else {
        chain_node(s.last().children, (d - 1) as nat)
    }
}

/// Attaching a leaf at `depth` makes it the chain node at `depth`, appends
/// it to the children of the chain node at `depth - 1`, and keeps the
/// identities along the shallower chain unchanged.
pub proof fn lemma_attach_chain(s: Seq<NodeModel>, n: NodeModel, depth: nat)
    requires
        can_attach(s, depth),
        n.children.len() == 0,
    ensures
        chain_node(attach_last(s, n, depth), depth) == n,
        forall|d: nat|
            d < depth ==> #[trigger] chain_node(attach_last(s, n, depth), d).object_ref
                == chain_node(s, d).object_ref,
        depth > 0 ==> chain_node(attach_last(s, n, depth), (depth - 1) as nat).children
            == chain_node(s, (depth - 1) as nat).children.push(n),
    decreases depth,
{
    let res = attach_last(s, n, depth);
    if depth == 0 {
        assert(res.last() == n);
    } else {
        let k = s.len() - 1;
        let ch = s[k].children;
        lemma_attach_chain(ch, n, (depth - 1) as nat);
        assert(res.len() == s.len());
        assert(res.last() == res[k]);
        assert(res[k].children == attach_last(ch, n, (depth - 1) as nat));
        assert(s.last() == s[k]);
        assert(chain_node(res, depth) == chain_node(res[k].children, (depth - 1) as nat));
        assert forall|d: nat| d < depth implies #[trigger] chain_node(res, d).object_ref
            == chain_node(s, d).object_ref by {
            if d == 0 {
                assert(chain_node(res, 0) == res[k]);
            } else {
                assert(chain_node(res, d) == chain_node(res[k].children, (d - 1) as nat));
                assert(chain_node(s, d) == chain_node(ch, (d - 1) as nat));
            }
        }
        if depth == 1 {
            assert(chain_node(res, 0).children == ch.push(n));
        } else {
            assert(chain_node(res, (depth - 1) as nat) == chain_node(
                res[k].children,
                (depth - 2) as nat,
            ));
            assert(chain_node(s, (depth - 1) as nat) == chain_node(ch, (depth - 2) as nat));
        }
    }
}

/// `models_from(s, i)` is the pointwise image of `s[i..]`.
pub proof fn lemma_models_from(s: Seq<HierarchyNode>, i: int)
    requires
        0 <= i <= s.len(),
    ensures
        models_from(s, i).len() == s.len() - i,
        forall|j: int| i <= j < s.len() ==> models_from(s, i)[j - i] == s[j].model(),
    decreases s.len() - i,
{
    if i < s.len() {
        lemma_models_from(s, i + 1);
    }
}

/// `forest_model(s)` is the pointwise image of `s`.
pub proof fn lemma_forest_model(s: Seq<HierarchyNode>)
    ensures
        forest_model(s).len() == s.len(),
        forall|j: int| 0 <= j < s.len() ==> #[trigger] forest_model(s)[j] == s[j].model(),
{
    lemma_models_from(s, 0);
    assert forall|j: int| 0 <= j < s.len() implies #[trigger] forest_model(s)[j]
        == s[j].model() by {
        assert(models_from(s, 0)[j - 0] == s[j].model());
    }
}

impl crate::ExportError {
    /// The structural error for a node that found no ancestor.
    fn missing_ancestor(node: HierarchyNode) -> (e: Self)
        ensures
            (e matches crate::ExportError::MissingAncestor { item_id, level } && item_id@
                == node.object_ref@ && level@ == node.identifier@),
    {
        crate::ExportError::MissingAncestor { item_id: node.object_ref, level: node.identifier }
    }
}

/// Attaches `node` as the last child at nesting depth `depth`: appended to
/// `children` itself at depth 0, and otherwise passed down the chain of last
/// children. Fails, leaving the forest unchanged, when some level of that
/// chain is empty, so that the node's ancestor at depth `depth - 1` does not
/// exist.
pub fn add_spec_hierarchy(children: &mut Vec<HierarchyNode>, node: HierarchyNode, depth: usize) -> (r: Result<
    (),
    crate::ExportError,
>)
    requires
        node.children@.len() == 0,
    ensures
        match r {
            Ok(()) => can_attach(forest_model(old(children)@), depth as nat) && forest_model(
                final(children)@,
            ) == attach_last(forest_model(old(children)@), node.model(), depth as nat),
            Err(e) => !can_attach(forest_model(old(children)@), depth as nat) && forest_model(
                final(children)@,
            ) == forest_model(old(children)@) && (e
                matches crate::ExportError::MissingAncestor { item_id, level } && item_id@
                == node.object_ref@ && level@ == node.identifier@),
        },
    decreases depth,
{
    let ghost s = children@;
    let ghost sm = forest_model(s);
    proof {
        lemma_forest_model(s);
    }
    if depth == 0 {
        let ghost m = node.model();
        children.push(node);
        proof {
            lemma_forest_model(children@);
            assert(forest_model(children@) =~= sm.push(m));
        }
        Ok(())
    } else {
        match children.pop() {
            None => {
                proof {
                    assert(sm.len() == 0);
                }
                Err(crate::ExportError::missing_ancestor(node))
            },
            Some(mut last) => {
                let ghost lastg = last;
                let ghost m = node.model();
                let r = add_spec_hierarchy(&mut last.children, node, depth - 1);
                let ghost lastm = last.model();
                children.push(last);
                proof {
                    let k = s.len() - 1;
                    assert(lastg == s[k]);
                    assert(children@ =~= s.update(k, last));
                    lemma_forest_model(children@);
                    assert(sm.last() == s[k].model());
                    assert(lastm.identifier == sm[k].identifier);
                    assert(lastm.last_change == sm[k].last_change);
                    assert(lastm.object_ref == sm[k].object_ref);
                    if r is Ok {
                        assert(lastm.children == attach_last(
                            sm[k].children,
                            m,
                            (depth - 1) as nat,
                        ));
                        assert(lastm == attach_last(sm, m, depth as nat)[k]);
                        assert(forest_model(children@) =~= attach_last(sm, m, depth as nat));
                    } else {
                        assert(lastm == sm[k]);
                        assert(forest_model(children@) =~= sm);
                    }
                }
                r
            },
        }
    }
}

} // verus!
