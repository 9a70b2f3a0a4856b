//! Sibling positions: children are numbered from zero without gap or repetition.

use crate::edits::{as_order, comes_before, count_before, renumbered, sibling_rank};
use crate::fts::context_of;
use crate::clone_laws::child_total;
use crate::model::{DerivedNodeRecords, Node, NodeId, RevisionView};
use crate::mutate::{run, MutationOutcome};
use crate::mutation_batch::{
    batch_affects, batch_refusal, lemma_operate_keeps_ids, operation_refusal, operation_step,
    PreparedBatchOperation,
};
use crate::reorder::{
    child_count, lemma_derived_nodes, lemma_references_nodes, lemma_write_nodes, SiblingHash,
};
use crate::shape::lemma_filter_facts;
use crate::tables::{reference_views, Tables};
use crate::tree::{
    below, is_forest, lemma_below_parent, lemma_position, links, lookup, position, present,
    unique_ids,
};
use crate::tree_batch::{lemma_passed, moved_id, TreeBatch};
use vstd::prelude::*;

verus! {

/// The position of a node among the children of another, if it is one of them.
pub open spec fn place(nodes: Seq<Node>, parent: NodeId, id: NodeId) -> Option<u32> {
    match lookup(nodes, id) {
        Some(n) => if n.parent_id == Some(parent) {
            Some(n.sibling_order)
        } else {
            None
        },
        None => None,
    }
}

/// Whether the children of a node stand at positions zero, one, two and so on: no two share
/// a position, and before each position but zero another child stands.
pub open spec fn numbered(nodes: Seq<Node>, parent: NodeId) -> bool {
    &&& forall|x: NodeId, y: NodeId|
        (#[trigger] place(nodes, parent, x)) is Some && place(nodes, parent, x)
            == #[trigger] place(nodes, parent, y) ==> x == y
    &&& forall|x: NodeId|
        (#[trigger] place(nodes, parent, x)) is Some && place(nodes, parent, x)->0 > 0
            ==> exists|y: NodeId| (#[trigger] place(nodes, parent, y)) is Some && place(
            nodes,
            parent,
            y,
        )->0 + 1 == place(nodes, parent, x)->0
}

/// Whether the children of every node are numbered.
pub open spec fn gapless(nodes: Seq<Node>) -> bool {
    forall|p: NodeId| #[trigger] numbered(nodes, p)
}

proof fn lemma_place(nodes: Seq<Node>, parent: NodeId, i: int)
    requires
        unique_ids(nodes),
        0 <= i < nodes.len(),
    ensures
        place(nodes, parent, nodes[i].id) == if nodes[i].parent_id == Some(parent) {
            Some(nodes[i].sibling_order)
        } else {
            None
        },
{
    lemma_position(nodes, i);
}

proof fn lemma_count_bound(nodes: Seq<Node>, parent: Option<NodeId>, node: Node, i: int, n: int)
    requires
        0 <= n <= nodes.len(),
        0 <= i < nodes.len(),
        nodes[i] == node,
    ensures
        count_before(nodes, parent, node, n) + if i < n {
            1int
        } else {
            0int
        } <= n,
    decreases n,
{
    if n > 0 {
        lemma_count_bound(nodes, parent, node, i, n - 1);
    }
}

/// Who comes before the earlier comes before the later, and the earlier does too.
proof fn lemma_count_grows(nodes: Seq<Node>, parent: Option<NodeId>, i: int, b: Node, n: int)
    requires
        0 <= n <= nodes.len(),
        0 <= i < nodes.len(),
        nodes[i].parent_id == parent,
        comes_before(nodes[i], b),
    ensures
        count_before(nodes, parent, nodes[i], n) + if i < n {
            1int
        } else {
            0int
        } <= count_before(nodes, parent, b, n),
    decreases n,
{
    if n > 0 {
        lemma_count_grows(nodes, parent, i, b, n - 1);
    }
}

/// The last of those that come before a node.
proof fn lemma_last_before(nodes: Seq<Node>, parent: Option<NodeId>, b: Node, n: int) -> (j: int)
    requires
        0 <= n <= nodes.len(),
        unique_ids(nodes),
        count_before(nodes, parent, b, n) > 0,
    ensures
        0 <= j < n,
        nodes[j].parent_id == parent,
        comes_before(nodes[j], b),
        forall|k: int|
            0 <= k < n && (#[trigger] nodes[k]).parent_id == parent && comes_before(nodes[k], b)
                ==> k == j || comes_before(nodes[k], nodes[j]),
    decreases n,
{
    let last = nodes[n - 1];
    let counts = last.parent_id == parent && comes_before(last, b);
    if count_before(nodes, parent, b, n - 1) == 0 {
        assert forall|k: int|
            0 <= k < n && (#[trigger] nodes[k]).parent_id == parent && comes_before(
                nodes[k],
                b,
            ) implies k == n - 1 by {
            if k < n - 1 {
                lemma_count_zero(nodes, parent, b, n - 1, k);
            }
        }
        n - 1
    } else {
        let j = lemma_last_before(nodes, parent, b, n - 1);
        assert(nodes[j].id != nodes[n - 1].id);
        if counts && comes_before(nodes[j], last) {
            n - 1
        } else {
            j
        }
    }
}

proof fn lemma_count_zero(nodes: Seq<Node>, parent: Option<NodeId>, b: Node, n: int, k: int)
    requires
        0 <= k < n <= nodes.len(),
        count_before(nodes, parent, b, n) == 0,
    ensures
        !(nodes[k].parent_id == parent && comes_before(nodes[k], b)),
    decreases n,
{
    if k < n - 1 {
        lemma_count_zero(nodes, parent, b, n - 1, k);
    }
}

proof fn lemma_count_next(nodes: Seq<Node>, parent: Option<NodeId>, b: Node, j: int, m: int, n: int)
    requires
        0 <= n <= m <= nodes.len(),
        0 <= j < m,
        nodes[j].parent_id == parent,
        comes_before(nodes[j], b),
        forall|k: int|
            0 <= k < m && (#[trigger] nodes[k]).parent_id == parent && comes_before(nodes[k], b)
                ==> k == j || comes_before(nodes[k], nodes[j]),
    ensures
        count_before(nodes, parent, b, n) == count_before(nodes, parent, nodes[j], n) + if j < n {
            1int
        } else {
            0int
        },
    decreases n,
{
    if n > 0 {
        lemma_count_next(nodes, parent, b, j, m, n - 1);
        assert(nodes[n - 1].parent_id == parent || nodes[n - 1].parent_id != parent);
    }
}

pub proof fn lemma_renumbered_ids(nodes: Seq<Node>, affected: spec_fn(NodeId) -> bool)
    requires
        unique_ids(nodes),
    ensures
        unique_ids(renumbered(nodes, affected)),
        forall|x: NodeId| #[trigger]
            present(renumbered(nodes, affected), x) <==> present(nodes, x),
        forall|i: int|
            0 <= i < nodes.len() ==> (#[trigger] renumbered(nodes, affected)[i]).id == nodes[i].id
                && renumbered(nodes, affected)[i].parent_id == nodes[i].parent_id,
{
    let after = renumbered(nodes, affected);
    assert forall|i: int, j: int|
        0 <= i < after.len() && 0 <= j < after.len() && #[trigger] after[i].id
            == #[trigger] after[j].id implies i == j by {
        assert(nodes[i].id == nodes[j].id);
    }
    assert forall|x: NodeId| #[trigger] present(after, x) <==> present(nodes, x) by {
        if present(after, x) {
            let k = position(after, x);
            assert(after[k].id == x);
            assert(nodes[k].id == x);
        }
        if present(nodes, x) {
            let k = position(nodes, x);
            assert(nodes[k].id == x);
            assert(after[k].id == x);
        }
    }
}

/// Renumbering the children of a node numbers them from zero without gap or repetition, and
/// keeps their order. The children of other nodes keep their positions.
pub proof fn law_renumbering_numbers_children(
    nodes: Seq<Node>,
    affected: spec_fn(NodeId) -> bool,
    parent: NodeId,
)
    requires
        unique_ids(nodes),
        nodes.len() <= u32::MAX,
    ensures
        affected(parent) ==> numbered(renumbered(nodes, affected), parent),
        !affected(parent) ==> forall|x: NodeId| #[trigger]
            place(renumbered(nodes, affected), parent, x) == place(nodes, parent, x),
        forall|x: NodeId| #[trigger]
            place(renumbered(nodes, affected), parent, x) is Some <==> place(
                nodes,
                parent,
                x,
            ) is Some,
        forall|x: NodeId, y: NodeId|
            (#[trigger] place(nodes, parent, x)) is Some && (#[trigger] place(
                nodes,
                parent,
                y,
            )) is Some && place(nodes, parent, x)->0 < place(nodes, parent, y)->0 ==> place(
                renumbered(nodes, affected),
                parent,
                x,
            )->0 < place(renumbered(nodes, affected), parent, y)->0,
{
    let after = renumbered(nodes, affected);
    lemma_renumbered_ids(nodes, affected);
    let n = nodes.len() as int;
    assert forall|x: NodeId| #[trigger] present(nodes, x) implies ({
        let i = position(nodes, x);
        &&& 0 <= i < n
        &&& nodes[i].id == x
        &&& lookup(nodes, x) == Some(nodes[i])
        &&& lookup(after, x) == Some(after[i])
        &&& sibling_rank(nodes, nodes[i]) < n
    }) by {
        let i = position(nodes, x);
        assert(nodes[i].id == x);
        lemma_position(nodes, i);
        assert(after[i].id == x);
        lemma_position(after, i);
        lemma_count_bound(nodes, nodes[i].parent_id, nodes[i], i, n);
    }
    assert forall|x: NodeId| #[trigger] place(after, parent, x) is Some <==> place(
        nodes,
        parent,
        x,
    ) is Some by {
        assert(present(after, x) <==> present(nodes, x));
    }
    assert forall|x: NodeId, y: NodeId|
        (#[trigger] place(nodes, parent, x)) is Some && (#[trigger] place(nodes, parent, y)) is Some
            && comes_before(
            nodes[position(nodes, x)],
            nodes[position(nodes, y)],
        ) && affected(parent) implies place(after, parent, x)->0 < place(after, parent, y)->0 by {
        assert(present(nodes, x) && present(nodes, y));
        let i = position(nodes, x);
        let j = position(nodes, y);
        lemma_count_grows(nodes, Some(parent), i, nodes[j], n);
        assert(place(after, parent, x) == Some(as_order(sibling_rank(nodes, nodes[i]))));
        assert(place(after, parent, y) == Some(as_order(sibling_rank(nodes, nodes[j]))));
    }
    if affected(parent) {
        assert forall|x: NodeId, y: NodeId|
            (#[trigger] place(after, parent, x)) is Some && place(after, parent, x)
                == #[trigger] place(after, parent, y) implies x == y by {
            assert(place(nodes, parent, x) is Some && place(nodes, parent, y) is Some);
            assert(present(nodes, x) && present(nodes, y));
            let i = position(nodes, x);
            let j = position(nodes, y);
            if x != y {
                if comes_before(nodes[i], nodes[j]) {
                    assert(place(after, parent, x)->0 < place(after, parent, y)->0);
                } else {
                    assert(x.value != y.value) by {
                        if x.value == y.value {
                            assert(x == y);
                        }
                    }
                    assert(comes_before(nodes[j], nodes[i]));
                    assert(place(after, parent, y)->0 < place(after, parent, x)->0);
                }
            }
        }
        assert forall|x: NodeId|
            (#[trigger] place(after, parent, x)) is Some && place(after, parent, x)->0
                > 0 implies exists|y: NodeId| (#[trigger] place(after, parent, y)) is Some && place(
            after,
            parent,
            y,
        )->0 + 1 == place(after, parent, x)->0 by {
            assert(place(nodes, parent, x) is Some);
            assert(present(nodes, x));
            let i = position(nodes, x);
            assert(place(after, parent, x) == Some(as_order(sibling_rank(nodes, nodes[i]))));
            assert(count_before(nodes, Some(parent), nodes[i], n) > 0);
            let j = lemma_last_before(nodes, Some(parent), nodes[i], n);
            lemma_count_next(nodes, Some(parent), nodes[i], j, n, n);
            let y = nodes[j].id;
            lemma_position(nodes, j);
            assert(present(nodes, y));
            assert(place(after, parent, y) == Some(as_order(sibling_rank(nodes, nodes[j]))));
        }
        assert(numbered(after, parent));
    } else {
        assert forall|x: NodeId| #[trigger] place(after, parent, x) == place(
            nodes,
            parent,
            x,
        ) by {
            assert(present(after, x) <==> present(nodes, x));
        }
    }
    assert forall|x: NodeId, y: NodeId|
        (#[trigger] place(nodes, parent, x)) is Some && (#[trigger] place(nodes, parent, y)) is Some
            && place(nodes, parent, x)->0 < place(nodes, parent, y)->0 implies place(
        after,
        parent,
        x,
    )->0 < place(after, parent, y)->0 by {
        assert(present(nodes, x) && present(nodes, y));
        assert(place(after, parent, x) is Some && place(after, parent, y) is Some);
        if affected(parent) {
            assert(comes_before(nodes[position(nodes, x)], nodes[position(nodes, y)]));
        }
    }
}

/// Whether a node has the same children, at the same positions, in two states.
pub open spec fn same_children(a: Seq<Node>, b: Seq<Node>, p: NodeId) -> bool {
    forall|x: NodeId| #[trigger] place(a, p, x) == place(b, p, x)
}

/// Whether a node went with all its children.
spec fn is_gone(a: Seq<Node>, b: Seq<Node>, p: NodeId) -> bool {
    &&& present(a, p)
    &&& !present(b, p)
    &&& forall|x: NodeId| #[trigger] place(b, p, x) is None
}

pub proof fn lemma_insert_place(t: Tables, node: Node, p: NodeId)
    requires
        unique_ids(t.nodes),
        t.insert_node(node) is Ok,
    ensures
        ({
            let u = t.insert_node(node)->Ok_0;
            &&& unique_ids(u.nodes)
            &&& node.parent_id != Some(p) ==> same_children(t.nodes, u.nodes, p)
            &&& forall|x: NodeId| #[trigger]
                present(u.nodes, x) <==> present(t.nodes, x) || x == node.id
            &&& forall|x: NodeId|
                x != node.id ==> #[trigger] lookup(u.nodes, x) == lookup(t.nodes, x)
            &&& lookup(u.nodes, node.id) == Some(node)
        }),
{
    let u = t.insert_node(node)->Ok_0;
    let m = t.nodes.len() as int;
    assert forall|i: int, j: int|
        0 <= i < u.nodes.len() && 0 <= j < u.nodes.len() && #[trigger] u.nodes[i].id
            == #[trigger] u.nodes[j].id implies i == j by {
        if i < m {
            assert(t.nodes[i].id == u.nodes[i].id);
        }
        if j < m {
            assert(t.nodes[j].id == u.nodes[j].id);
        }
    }
    assert(u.nodes[m] == node);
    lemma_position(u.nodes, m);
    assert forall|x: NodeId| #[trigger] present(u.nodes, x) <==> present(t.nodes, x) || x
        == node.id by {
        if present(u.nodes, x) {
            let k = position(u.nodes, x);
            assert(u.nodes[k].id == x);
            if k < m {
                assert(t.nodes[k].id == x);
            }
        }
        if present(t.nodes, x) {
            let k = position(t.nodes, x);
            assert(t.nodes[k].id == x);
            assert(u.nodes[k].id == x);
        }
    }
    assert forall|x: NodeId| x != node.id implies #[trigger] lookup(u.nodes, x) == lookup(
        t.nodes,
        x,
    ) by {
        assert(present(u.nodes, x) <==> present(t.nodes, x));
        if present(t.nodes, x) {
            let k = position(t.nodes, x);
            assert(t.nodes[k].id == x);
            assert(u.nodes[k] == t.nodes[k]);
            lemma_position(u.nodes, k);
            lemma_position(t.nodes, k);
        }
    }
    assert forall|x: NodeId| node.parent_id != Some(p) implies #[trigger] place(t.nodes, p, x)
        == place(u.nodes, p, x) by {
        assert(x != node.id ==> lookup(u.nodes, x) == lookup(t.nodes, x));
        assert(!present(t.nodes, node.id));
    }
}

pub proof fn lemma_update_place(t: Tables, node: Node, expected: u64, p: NodeId)
    requires
        unique_ids(t.nodes),
        t.update_node(node, expected) is Ok,
    ensures
        ({
            let u = t.update_node(node, expected)->Ok_0;
            &&& unique_ids(u.nodes)
            &&& node.parent_id != Some(p) && place(t.nodes, p, node.id) is None ==> same_children(
                t.nodes,
                u.nodes,
                p,
            )
            &&& forall|x: NodeId| #[trigger] present(u.nodes, x) <==> present(t.nodes, x)
            &&& forall|x: NodeId|
                x != node.id ==> #[trigger] lookup(u.nodes, x) == lookup(t.nodes, x)
            &&& lookup(u.nodes, node.id) is Some
            &&& lookup(u.nodes, node.id)->0 == (Node {
                created_at: lookup(u.nodes, node.id)->0.created_at,
                ..node
            })
        }),
{
    let u = t.update_node(node, expected)->Ok_0;
    let q = position(t.nodes, node.id);
    assert(t.nodes[q].id == node.id);
    assert forall|i: int, j: int|
        0 <= i < u.nodes.len() && 0 <= j < u.nodes.len() && #[trigger] u.nodes[i].id
            == #[trigger] u.nodes[j].id implies i == j by {
        assert(t.nodes[i].id == u.nodes[i].id);
        assert(t.nodes[j].id == u.nodes[j].id);
    }
    lemma_position(t.nodes, q);
    assert(u.nodes[q].id == node.id);
    lemma_position(u.nodes, q);
    assert forall|x: NodeId| #[trigger] present(u.nodes, x) <==> present(t.nodes, x) by {
        if present(u.nodes, x) {
            let k = position(u.nodes, x);
            assert(u.nodes[k].id == x);
            assert(t.nodes[k].id == x);
        }
        if present(t.nodes, x) {
            let k = position(t.nodes, x);
            assert(t.nodes[k].id == x);
            assert(u.nodes[k].id == x);
        }
    }
    assert forall|x: NodeId| x != node.id implies #[trigger] lookup(u.nodes, x) == lookup(
        t.nodes,
        x,
    ) by {
        assert(present(u.nodes, x) <==> present(t.nodes, x));
        if present(t.nodes, x) {
            let k = position(t.nodes, x);
            assert(t.nodes[k].id == x);
            assert(k != q);
            assert(u.nodes[k] == t.nodes[k]);
            lemma_position(u.nodes, k);
            lemma_position(t.nodes, k);
        }
    }
    if node.parent_id != Some(p) && place(t.nodes, p, node.id) is None {
        assert forall|x: NodeId| #[trigger] place(t.nodes, p, x) == place(u.nodes, p, x) by {
            assert(x != node.id ==> lookup(u.nodes, x) == lookup(t.nodes, x));
        }
    }
}

/// Removing a subtree leaves every node that is not below its root, as it was.
pub proof fn lemma_remove_lookup(t: Tables, id: NodeId)
    requires
        unique_ids(t.nodes),
    ensures
        unique_ids(t.remove_below(id).nodes),
        forall|x: NodeId|
            #[trigger] lookup(t.remove_below(id).nodes, x) == if below(links(t.nodes), id, x) {
                None
            } else {
                lookup(t.nodes, x)
            },
{
    let u = t.remove_below(id);
    let up = links(t.nodes);
    let keep = |n: Node| !below(up, id, n.id);
    assert(u.nodes == t.nodes.filter(keep));
    crate::tree_batch::lemma_removal_keeps_ids(t, id);
    lemma_filter_facts(t.nodes, keep);
    assert forall|x: NodeId| #[trigger] lookup(u.nodes, x) == if below(up, id, x) {
        None
    } else {
        lookup(t.nodes, x)
    } by {
        if present(u.nodes, x) {
            let k = position(u.nodes, x);
            assert(u.nodes[k].id == x);
            assert(u.nodes.contains(u.nodes[k]));
            assert(keep(u.nodes[k]));
            let m = choose|m: int| 0 <= m < t.nodes.len() && t.nodes[m] == u.nodes[k];
            lemma_position(t.nodes, m);
            lemma_position(u.nodes, k);
        } else if present(t.nodes, x) && !below(up, id, x) {
            let m = position(t.nodes, x);
            assert(t.nodes[m].id == x);
            assert(keep(t.nodes[m]));
            assert(t.nodes.contains(t.nodes[m]));
            assert(u.nodes.contains(t.nodes[m]));
            let k = choose|k: int| 0 <= k < u.nodes.len() && u.nodes[k] == t.nodes[m];
            assert(u.nodes[k].id == x);
        }
    }
}

pub proof fn lemma_remove_place(t: Tables, id: NodeId, p: NodeId)
    requires
        unique_ids(t.nodes),
        place(t.nodes, p, id) is None,
    ensures
        ({
            let u = t.remove_below(id);
            &&& unique_ids(u.nodes)
            &&& same_children(t.nodes, u.nodes, p) || (!present(u.nodes, p) && forall|x: NodeId|
             #[trigger] place(u.nodes, p, x) is None)
            &&& forall|x: NodeId| #[trigger] present(u.nodes, x) ==> present(t.nodes, x)
            &&& forall|x: NodeId|
                #[trigger] lookup(u.nodes, x) == if below(links(t.nodes), id, x) {
                    None
                } else {
                    lookup(t.nodes, x)
                }
        }),
{
    let u = t.remove_below(id);
    let up = links(t.nodes);
    lemma_remove_lookup(t, id);
    assert forall|x: NodeId| #[trigger] present(u.nodes, x) implies present(t.nodes, x) by {
        assert(lookup(u.nodes, x) is Some);
    }
    assert forall|x: NodeId| (#[trigger] place(t.nodes, p, x)) is Some implies (below(up, id, x)
        <==> below(up, id, p)) by {
        let m = position(t.nodes, x);
        assert(t.nodes[m].id == x);
        lemma_position(t.nodes, m);
        lemma_below_parent(up, id, x);
        assert(x != id);
    }
    if below(up, id, p) {
        assert(lookup(u.nodes, p) is None);
        assert forall|x: NodeId| #[trigger] place(u.nodes, p, x) is None by {
            assert(lookup(u.nodes, x) is Some ==> lookup(u.nodes, x) == lookup(t.nodes, x));
            assert(place(t.nodes, p, x) is Some ==> below(up, id, x));
        }
    } else {
        assert forall|x: NodeId| #[trigger] place(t.nodes, p, x) == place(u.nodes, p, x) by {
            assert(place(t.nodes, p, x) is Some ==> !below(up, id, x));
            assert(lookup(u.nodes, x) == if below(up, id, x) {
                None
            } else {
                lookup(t.nodes, x)
            });
        }
    }
}

/// One operation that neither gives a node to another parent nor takes one from it, in the
/// state before the batch.
proof fn lemma_operate_place(start: Seq<Node>, t: Tables, op: PreparedBatchOperation, p: NodeId)
    requires
        unique_ids(start),
        unique_ids(t.nodes),
        t.operate(op) is Ok,
        same_children(start, t.nodes, p) || is_gone(start, t.nodes, p),
        op.parent() != Some(p),
        op is Create ==> !present(start, op.id()),
        !(op is Create) ==> present(start, op.id()) && place(start, p, op.id()) is None,
        forall|i: int|
            0 <= i < start.len() && (#[trigger] start[i]).parent_id is Some ==> present(
                start,
                start[i].parent_id->0,
            ),
    ensures
        same_children(start, t.operate(op)->Ok_0.nodes, p) || is_gone(
            start,
            t.operate(op)->Ok_0.nodes,
            p,
        ),
        t.operate(op)->Ok_0.nodes.len() <= t.nodes.len() + 1,
{
    let u = t.operate(op)->Ok_0;
    let id = op.id();
    assert(same_children(start, t.nodes, p) ==> place(start, p, id) == place(t.nodes, p, id));
    match op {
        PreparedBatchOperation::Create(item) => {
            let v = t.insert_node(item.node)->Ok_0;
            lemma_insert_place(t, item.node, p);
            let w = v.insert_revision(item.revision@)->Ok_0;
            lemma_derived_nodes(w, item.node.id, item.derived);
            lemma_carried(start, t.nodes, u.nodes, p, item.node.id);
        },
        PreparedBatchOperation::Replace { prepared, expected_version } => {
            lemma_write_nodes(
                t,
                prepared.node,
                expected_version,
                prepared.revision@,
                prepared.derived,
            );
            assert(place(t.nodes, p, id) is None);
            lemma_update_place(t, prepared.node, expected_version, p);
            lemma_carried(start, t.nodes, u.nodes, p, prepared.node.id);
        },
        PreparedBatchOperation::SetReferences { prepared, expected_version, references } => {
            lemma_write_nodes(
                t,
                prepared.node,
                expected_version,
                prepared.revision@,
                prepared.derived,
            );
            let v = t.write(
                prepared.node,
                expected_version,
                prepared.revision@,
                prepared.derived,
            )->Ok_0;
            lemma_references_nodes(
                v.clear_explicit(prepared.node.id),
                reference_views(references@),
                references@.len() as int,
            );
            assert(place(t.nodes, p, id) is None);
            lemma_update_place(t, prepared.node, expected_version, p);
            lemma_carried(start, t.nodes, u.nodes, p, prepared.node.id);
        },
        PreparedBatchOperation::Remove(removal) => {
            assert(place(t.nodes, p, id) is None);
            lemma_remove_place(t, removal.node_id, p);
            let keep = |n: Node| !below(links(t.nodes), removal.node_id, n.id);
            assert(u.nodes == t.nodes.filter(keep));
            lemma_filter_facts(t.nodes, keep);
            if same_children(start, t.nodes, p) {
                if same_children(t.nodes, u.nodes, p) {
                    assert forall|x: NodeId| #[trigger] place(start, p, x) == place(
                        u.nodes,
                        p,
                        x,
                    ) by {
                        assert(place(start, p, x) == place(t.nodes, p, x));
                        assert(place(t.nodes, p, x) == place(u.nodes, p, x));
                    }
                } else if present(start, p) {
                    assert(is_gone(start, u.nodes, p));
                } else {
                    assert forall|x: NodeId| #[trigger] place(start, p, x) == place(
                        u.nodes,
                        p,
                        x,
                    ) by {
                        if place(start, p, x) is Some {
                            let m = position(start, x);
                            assert(start[m].id == x);
                            lemma_position(start, m);
                            assert(present(start, start[m].parent_id->0));
                        }
                    }
                }
            } else {
                assert forall|x: NodeId| #[trigger] place(u.nodes, p, x) is None by {
                    assert(place(t.nodes, p, x) is None);
                    assert(lookup(u.nodes, x) is Some ==> lookup(u.nodes, x) == lookup(t.nodes, x));
                }
                assert(!present(u.nodes, p));
            }
        },
    }
}

/// What held of a node's children goes on to hold when they stay the same.
proof fn lemma_carried(start: Seq<Node>, a: Seq<Node>, b: Seq<Node>, p: NodeId, fresh: NodeId)
    requires
        same_children(start, a, p) || is_gone(start, a, p),
        same_children(a, b, p),
        forall|x: NodeId| #[trigger] present(b, x) ==> present(a, x) || x == fresh,
        present(a, fresh) || !present(start, fresh),
    ensures
        same_children(start, b, p) || is_gone(start, b, p),
{
    if same_children(start, a, p) {
        assert forall|x: NodeId| #[trigger] place(start, p, x) == place(b, p, x) by {
            assert(place(start, p, x) == place(a, p, x));
            assert(place(a, p, x) == place(b, p, x));
        }
    } else {
        assert forall|x: NodeId| #[trigger] place(b, p, x) is None by {
            assert(place(a, p, x) is None);
            assert(place(a, p, x) == place(b, p, x));
        }
        if present(b, p) {
            assert(present(a, p) || p == fresh);
        }
    }
}

proof fn lemma_operations_place(t: Tables, ops: Seq<PreparedBatchOperation>, p: NodeId, n: int)
    requires
        is_forest(t.nodes),
        batch_refusal(t.nodes, ops) is None,
        0 <= n <= ops.len(),
        run(t, n, operation_step(ops)) is Ok,
        !batch_affects(t.nodes, ops, p, ops.len() as int),
    ensures
        ({
            let u = run(t, n, operation_step(ops))->Ok_0;
            same_children(t.nodes, u.nodes, p) || is_gone(t.nodes, u.nodes, p)
        }),
    decreases n,
{
    if n > 0 {
        lemma_operations_place(t, ops, p, n - 1);
        lemma_operations_ids(t, ops, n - 1);
        let u = run(t, n - 1, operation_step(ops))->Ok_0;
        let op = ops[n - 1];
        let check = |i: int| operation_refusal(t.nodes, ops, i);
        lemma_passed(ops.len() as int, check, n - 1);
        assert(operation_refusal(t.nodes, ops, n - 1) is None);
        assert(op.parent() != Some(p));
        if !(op is Create) {
            assert(lookup(t.nodes, op.id()) is Some);
        }
        lemma_operate_place(t.nodes, u, op, p);
    }
}

pub proof fn lemma_operations_ids(t: Tables, ops: Seq<PreparedBatchOperation>, n: int)
    requires
        unique_ids(t.nodes),
        0 <= n <= ops.len(),
        run(t, n, operation_step(ops)) is Ok,
    ensures
        unique_ids(run(t, n, operation_step(ops))->Ok_0.nodes),
        run(t, n, operation_step(ops))->Ok_0.nodes.len() <= t.nodes.len() + n,
    decreases n,
{
    if n > 0 {
        lemma_operations_ids(t, ops, n - 1);
        let u = run(t, n - 1, operation_step(ops))->Ok_0;
        let op = ops[n - 1];
        lemma_operate_keeps_ids(u, op);
        match op {
            PreparedBatchOperation::Create(item) => {
                let v = u.insert_node(item.node)->Ok_0;
                let w = v.insert_revision(item.revision@)->Ok_0;
                lemma_derived_nodes(w, item.node.id, item.derived);
            },
            PreparedBatchOperation::Replace { prepared, expected_version } => {
                lemma_write_nodes(
                    u,
                    prepared.node,
                    expected_version,
                    prepared.revision@,
                    prepared.derived,
                );
            },
            PreparedBatchOperation::SetReferences { prepared, expected_version, references } => {
                lemma_write_nodes(
                    u,
                    prepared.node,
                    expected_version,
                    prepared.revision@,
                    prepared.derived,
                );
                let v = u.write(
                    prepared.node,
                    expected_version,
                    prepared.revision@,
                    prepared.derived,
                )->Ok_0;
                lemma_references_nodes(
                    v.clear_explicit(prepared.node.id),
                    reference_views(references@),
                    references@.len() as int,
                );
            },
            PreparedBatchOperation::Remove(removal) => {
                let keep = |n: Node| !below(links(u.nodes), removal.node_id, n.id);
                assert(u.operate(op)->Ok_0.nodes == u.nodes.filter(keep));
                lemma_filter_facts(u.nodes, keep);
            },
        }
    }
}

/// After a mutation batch the children of every node are numbered from zero without gap or
/// repetition, where they were before, whichever nodes the batch created, moved or removed.
pub proof fn law_mutation_batch_leaves_no_gap(t: Tables, ops: Seq<PreparedBatchOperation>)
    requires
        is_forest(t.nodes),
        gapless(t.nodes),
        t.nodes.len() + ops.len() <= u32::MAX,
        batch_refusal(t.nodes, ops) is None,
        t.apply_operations(ops) is Ok,
    ensures
        gapless(t.apply_operations(ops)->Ok_0.nodes),
{
    let n = ops.len() as int;
    let w = run(t, n, operation_step(ops))->Ok_0;
    let u = t.apply_operations(ops)->Ok_0;
    let affected = |p: NodeId| batch_affects(t.nodes, ops, p, n);
    assert(u.nodes == renumbered(w.nodes, affected));
    lemma_operations_ids(t, ops, n);
    assert forall|p: NodeId| #[trigger] numbered(u.nodes, p) by {
        law_renumbering_numbers_children(w.nodes, affected, p);
        if !affected(p) {
            lemma_operations_place(t, ops, p, n);
            assert(numbered(t.nodes, p));
            if same_children(t.nodes, w.nodes, p) {
                assert forall|x: NodeId| #[trigger] place(u.nodes, p, x) == place(
                    t.nodes,
                    p,
                    x,
                ) by {
                    assert(place(t.nodes, p, x) == place(w.nodes, p, x));
                }
                lemma_numbered_again(t.nodes, u.nodes, p);
            } else {
                assert forall|x: NodeId| #[trigger] place(u.nodes, p, x) is None by {
                    assert(place(w.nodes, p, x) is None);
                }
            }
        }
    }
}

proof fn lemma_numbered_again(a: Seq<Node>, b: Seq<Node>, p: NodeId)
    requires
        numbered(a, p),
        forall|x: NodeId| #[trigger] place(b, p, x) == place(a, p, x),
    ensures
        numbered(b, p),
{
    assert forall|x: NodeId, y: NodeId|
        (#[trigger] place(b, p, x)) is Some && place(b, p, x) == #[trigger] place(
            b,
            p,
            y,
        ) implies x == y by {
        assert(place(a, p, x) is Some && place(a, p, x) == place(a, p, y));
    }
    assert forall|x: NodeId|
        (#[trigger] place(b, p, x)) is Some && place(b, p, x)->0
            > 0 implies exists|y: NodeId| (#[trigger] place(b, p, y)) is Some && place(b, p, y)->0
        + 1 == place(b, p, x)->0 by {
        assert(place(a, p, x) is Some && place(a, p, x)->0 > 0);
        let y = choose|y: NodeId| (#[trigger] place(a, p, y)) is Some && place(a, p, y)->0 + 1
            == place(a, p, x)->0;
        assert(place(b, p, y) is Some);
    }
}

/// After a mutation batch the documents of every node that gained or lost a child, and is
/// still there, have the context that the tree now gives the node.
pub proof fn law_mutation_batch_renews_contexts(
    t: Tables,
    ops: Seq<PreparedBatchOperation>,
    i: int,
    child: NodeId,
)
    requires
        is_forest(t.nodes),
        t.nodes.len() + ops.len() <= u32::MAX,
        batch_refusal(t.nodes, ops) is None,
        t.apply_operations(ops) is Ok,
        0 <= i < t.apply_operations(ops)->Ok_0.fts.len(),
        ({
            let u = t.apply_operations(ops)->Ok_0;
            let p = u.fts[i].document.node_id;
            &&& present(u.nodes, p)
            &&& place(t.nodes, p, child) is Some != place(u.nodes, p, child) is Some
        }),
    ensures
        ({
            let u = t.apply_operations(ops)->Ok_0;
            u.fts[i].context == context_of(u.nodes, u.fts[i].document.node_id)
        }),
{
    let n = ops.len() as int;
    let w = run(t, n, operation_step(ops))->Ok_0;
    let u = t.apply_operations(ops)->Ok_0;
    let affected = |p: NodeId| batch_affects(t.nodes, ops, p, n);
    assert(u.nodes == renumbered(w.nodes, affected));
    assert(u.fts == crate::fts::refreshed(w.fts, u.nodes, affected));
    lemma_operations_ids(t, ops, n);
    let p = u.fts[i].document.node_id;
    lemma_renumbered_ids(w.nodes, affected);
    law_renumbering_numbers_children(w.nodes, affected, p);
    if !affected(p) {
        lemma_operations_place(t, ops, p, n);
        assert(place(u.nodes, p, child) == place(w.nodes, p, child));
        if same_children(t.nodes, w.nodes, p) {
            assert(place(t.nodes, p, child) == place(w.nodes, p, child));
        } else {
            assert(present(u.nodes, p) <==> present(w.nodes, p));
        }
        assert(false);
    }
}

pub proof fn lemma_moves_place(t: Tables, batch: TreeBatch, p: NodeId, n: int)
    requires
        is_forest(t.nodes),
        batch.refusal(t.nodes) is None,
        0 <= n <= batch.moves.len(),
        run(t, n, batch.move_step()) is Ok,
    ensures
        ({
            let u = run(t, n, batch.move_step())->Ok_0;
            &&& unique_ids(u.nodes)
            &&& u.nodes.len() == t.nodes.len()
            &&& forall|x: NodeId| #[trigger] present(u.nodes, x) <==> present(t.nodes, x)
            &&& !batch.affects(t.nodes, p) ==> same_children(t.nodes, u.nodes, p)
        }),
    decreases n,
{
    if n > 0 {
        lemma_moves_place(t, batch, p, n - 1);
        let u = run(t, n - 1, batch.move_step())->Ok_0;
        let v = run(t, n, batch.move_step())->Ok_0;
        let item = batch.moves[n - 1];
        let node = item.prepared.node;
        let check = |i: int| batch.move_refusal(t.nodes, i);
        lemma_passed(batch.moves.len() as int, check, n - 1);
        assert(batch.move_refusal(t.nodes, n - 1) is None);
        lemma_write_nodes(
            u,
            node,
            item.expected_version,
            item.prepared.revision@,
            item.prepared.derived,
        );
        lemma_update_place(u, node, item.expected_version, p);
        assert(v.nodes == u.update_node(node, item.expected_version)->Ok_0.nodes);
        assert forall|x: NodeId| #[trigger] present(v.nodes, x) <==> present(t.nodes, x) by {
            assert(present(v.nodes, x) <==> present(u.nodes, x));
            assert(present(u.nodes, x) <==> present(t.nodes, x));
        }
        if !batch.affects(t.nodes, p) {
            assert(moved_id(batch.moves, n - 1) == node.id);
            assert(place(t.nodes, p, node.id) is None);
            assert(place(t.nodes, p, node.id) == place(u.nodes, p, node.id));
            assert(same_children(u.nodes, v.nodes, p));
            assert forall|x: NodeId| #[trigger] place(t.nodes, p, x) == place(v.nodes, p, x) by {
                assert(place(t.nodes, p, x) == place(u.nodes, p, x));
                assert(place(u.nodes, p, x) == place(v.nodes, p, x));
            }
        }
    } else {
        assert(same_children(t.nodes, t.nodes, p));
    }
}

proof fn lemma_removed_place(start: Seq<Node>, t: Tables, batch: TreeBatch, p: NodeId, n: int)
    requires
        is_forest(start),
        batch.refusal(start) is None,
        unique_ids(t.nodes),
        0 <= n <= batch.removals.len(),
        forall|x: NodeId| #[trigger] present(t.nodes, x) ==> present(start, x),
        !batch.affects(start, p) ==> same_children(start, t.nodes, p),
    ensures
        ({
            let u = batch.removed(t, n);
            &&& unique_ids(u.nodes)
            &&& u.nodes.len() <= t.nodes.len()
            &&& !batch.affects(start, p) ==> same_children(start, u.nodes, p) || is_gone(
                start,
                u.nodes,
                p,
            )
        }),
    decreases n,
{
    if n > 0 {
        lemma_removed_place(start, t, batch, p, n - 1);
        let u = batch.removed(t, n - 1);
        let v = batch.removed(t, n);
        let id = batch.removals[n - 1].node_id;
        let check = |i: int| batch.removal_refusal(start, i);
        lemma_passed(batch.removals.len() as int, check, n - 1);
        assert(batch.removal_refusal(start, n - 1) is None);
        crate::tree_batch::lemma_removal_keeps_ids(u, id);
        let keep = |n: Node| !below(links(u.nodes), id, n.id);
        assert(v.nodes == u.nodes.filter(keep));
        lemma_filter_facts(u.nodes, keep);
        if !batch.affects(start, p) {
            assert(present(start, id));
            assert(batch.removals[n - 1].node_id == id);
            assert(place(start, p, id) is None);
            if same_children(start, u.nodes, p) {
                assert(place(start, p, id) == place(u.nodes, p, id));
            } else {
                assert(place(u.nodes, p, id) is None);
            }
            lemma_remove_place(u, id, p);
            if same_children(start, u.nodes, p) && same_children(u.nodes, v.nodes, p) {
                assert forall|x: NodeId| #[trigger] place(start, p, x) == place(v.nodes, p, x) by {
                    assert(place(start, p, x) == place(u.nodes, p, x));
                    assert(place(u.nodes, p, x) == place(v.nodes, p, x));
                }
            } else if !same_children(start, u.nodes, p) {
                assert forall|x: NodeId| #[trigger] place(v.nodes, p, x) is None by {
                    assert(place(u.nodes, p, x) is None);
                    assert(lookup(v.nodes, x) is Some ==> lookup(v.nodes, x) == lookup(u.nodes, x));
                }
                assert(present(v.nodes, p) ==> present(u.nodes, p));
            } else if !present(start, p) {
                assert forall|x: NodeId| #[trigger] place(start, p, x) == place(v.nodes, p, x) by {
                    if place(start, p, x) is Some {
                        let m = position(start, x);
                        assert(start[m].id == x);
                        lemma_position(start, m);
                        assert(present(start, start[m].parent_id->0));
                    }
                    assert(place(v.nodes, p, x) is None);
                }
            }
        }
    }
}

/// After a tree batch the children of every node are numbered from zero without gap or
/// repetition, where they were before.
pub proof fn law_tree_batch_leaves_no_gap(t: Tables, batch: TreeBatch)
    requires
        is_forest(t.nodes),
        gapless(t.nodes),
        t.nodes.len() <= u32::MAX,
        batch.refusal(t.nodes) is None,
        batch.apply(t) is Ok,
    ensures
        gapless(batch.apply(t)->Ok_0.nodes),
{
    let m = batch.moves.len() as int;
    let n = batch.removals.len() as int;
    let v = run(t, m, batch.move_step())->Ok_0;
    let w = batch.removed(v, n);
    let u = batch.apply(t)->Ok_0;
    let affected = |p: NodeId| batch.affects(t.nodes, p);
    assert(u.nodes == renumbered(w.nodes, affected));
    assert forall|p: NodeId| #[trigger] numbered(u.nodes, p) by {
        lemma_moves_place(t, batch, p, m);
        lemma_removed_place(t.nodes, v, batch, p, n);
        law_renumbering_numbers_children(w.nodes, affected, p);
        if !affected(p) {
            assert(numbered(t.nodes, p));
            if same_children(t.nodes, w.nodes, p) {
                assert forall|x: NodeId| #[trigger] place(u.nodes, p, x) == place(
                    t.nodes,
                    p,
                    x,
                ) by {
                    assert(place(t.nodes, p, x) == place(w.nodes, p, x));
                }
                lemma_numbered_again(t.nodes, u.nodes, p);
            } else {
                assert forall|x: NodeId| #[trigger] place(u.nodes, p, x) is None by {
                    assert(place(w.nodes, p, x) is None);
                }
            }
        }
    }
}

/// After a tree batch the documents of every node that gained or lost a child, and is still
/// there, have the context that the tree now gives the node.
pub proof fn law_tree_batch_renews_contexts(t: Tables, batch: TreeBatch, i: int, child: NodeId)
    requires
        is_forest(t.nodes),
        t.nodes.len() <= u32::MAX,
        batch.refusal(t.nodes) is None,
        batch.apply(t) is Ok,
        0 <= i < batch.apply(t)->Ok_0.fts.len(),
        ({
            let u = batch.apply(t)->Ok_0;
            let p = u.fts[i].document.node_id;
            &&& present(u.nodes, p)
            &&& place(t.nodes, p, child) is Some != place(u.nodes, p, child) is Some
        }),
    ensures
        ({
            let u = batch.apply(t)->Ok_0;
            u.fts[i].context == context_of(u.nodes, u.fts[i].document.node_id)
        }),
{
    let m = batch.moves.len() as int;
    let n = batch.removals.len() as int;
    let v = run(t, m, batch.move_step())->Ok_0;
    let w = batch.removed(v, n);
    let u = batch.apply(t)->Ok_0;
    let affected = |p: NodeId| batch.affects(t.nodes, p);
    assert(u.nodes == renumbered(w.nodes, affected));
    assert(u.fts == crate::fts::refreshed(w.fts, u.nodes, affected));
    let p = u.fts[i].document.node_id;
    lemma_moves_place(t, batch, p, m);
    lemma_removed_place(t.nodes, v, batch, p, n);
    lemma_renumbered_ids(w.nodes, affected);
    law_renumbering_numbers_children(w.nodes, affected, p);
    if !affected(p) {
        assert(place(u.nodes, p, child) == place(w.nodes, p, child));
        if same_children(t.nodes, w.nodes, p) {
            assert(place(t.nodes, p, child) == place(w.nodes, p, child));
        } else {
            assert(present(u.nodes, p) <==> present(w.nodes, p));
        }
        assert(false);
    }
}

proof fn lemma_rank_below_count(nodes: Seq<Node>, parent: NodeId, i: int, n: int)
    requires
        0 <= n <= nodes.len(),
        0 <= i < nodes.len(),
        nodes[i].parent_id == Some(parent),
    ensures
        count_before(nodes, Some(parent), nodes[i], n) + if i < n {
            1int
        } else {
            0int
        } <= child_count(nodes, parent, n),
    decreases n,
{
    if n > 0 {
        lemma_rank_below_count(nodes, parent, i, n - 1);
    }
}

/// A reorder puts the node at the position that it asks for. No two children of the parent
/// share a position, and none stands behind the last; the other children keep their order
/// among themselves, and the children of other nodes keep theirs.
pub proof fn law_reorder_moves_one_child(
    t: Tables,
    node: Node,
    expected: u64,
    revision: RevisionView,
    derived: DerivedNodeRecords,
    hashes: Seq<SiblingHash>,
    i: int,
    j: int,
)
    requires
        t.wf(),
        t.nodes.len() <= u32::MAX,
        t.reorder(node, expected, revision, derived, hashes) is Ok,
        t.reorder(node, expected, revision, derived, hashes)->Ok_0.1 == MutationOutcome::Applied,
        0 <= i < t.nodes.len(),
        0 <= j < t.nodes.len(),
    ensures
        ({
            let u = t.reorder(node, expected, revision, derived, hashes)->Ok_0.0;
            let parent = lookup(t.nodes, node.id)->0.parent_id;
            let a = t.nodes[i];
            let b = t.nodes[j];
            &&& u.nodes[i].id == a.id && u.nodes[i].parent_id == a.parent_id
            &&& a.parent_id != parent ==> u.nodes[i] == a
            &&& a.id == node.id ==> u.nodes[i].sibling_order == node.sibling_order
            &&& a.parent_id == parent ==> u.nodes[i].sibling_order < child_total(
                t.nodes,
                parent->0,
            )
            &&& a.parent_id == parent && b.parent_id == parent && i != j
                ==> u.nodes[i].sibling_order != u.nodes[j].sibling_order
            &&& a.parent_id == parent && b.parent_id == parent && a.id != node.id && b.id != node.id
                && a.sibling_order < b.sibling_order ==> u.nodes[i].sibling_order
                < u.nodes[j].sibling_order
        }),
{
    crate::batch_laws::law_reorder_positions(t, node, expected, revision, derived, hashes);
    let u = t.reorder(node, expected, revision, derived, hashes)->Ok_0.0;
    let n = t.nodes.len() as int;
    let q = position(t.nodes, node.id);
    assert(t.nodes[q].id == node.id);
    lemma_position(t.nodes, q);
    let current = t.nodes[q];
    let parent = current.parent_id->0;
    assert(current.parent_id is Some);
    lemma_rank_below_count(t.nodes, parent, q, n);
    crate::clone_laws::lemma_child_count(t.nodes, parent, n);
    assert(t.nodes.take(n) =~= t.nodes);
    crate::shape::lemma_filter_facts(t.nodes, crate::clone_laws::is_child_of(parent));
    let a = t.nodes[i];
    let b = t.nodes[j];
    assert(u.nodes[i].id == a.id);
    if a.id == node.id {
        assert(t.nodes[i].id == t.nodes[q].id);
    }
    if b.id == node.id {
        assert(t.nodes[j].id == t.nodes[q].id);
    }
    if a.parent_id == Some(parent) {
        lemma_rank_below_count(t.nodes, parent, i, n);
        assert(u.nodes[i].sibling_order == u.nodes[i].sibling_order);
    }
    if a.parent_id == Some(parent) && a.id != node.id {
        lemma_ranks_apart(t.nodes, parent, i, q);
    }
    if b.parent_id == Some(parent) && b.id != node.id {
        lemma_ranks_apart(t.nodes, parent, j, q);
    }
    if a.parent_id == Some(parent) && b.parent_id == Some(parent) && i != j {
        lemma_rank_below_count(t.nodes, parent, j, n);
        lemma_ranks_apart(t.nodes, parent, i, j);
        assert(u.nodes[j].sibling_order == u.nodes[j].sibling_order);
    }
}

/// Children of one node have different ranks, the earlier the smaller.
proof fn lemma_ranks_apart(nodes: Seq<Node>, parent: NodeId, i: int, j: int)
    requires
        unique_ids(nodes),
        0 <= i < nodes.len(),
        0 <= j < nodes.len(),
        i != j,
        nodes[i].parent_id == Some(parent),
        nodes[j].parent_id == Some(parent),
    ensures
        sibling_rank(nodes, nodes[i]) != sibling_rank(nodes, nodes[j]),
        comes_before(nodes[i], nodes[j]) ==> sibling_rank(nodes, nodes[i]) < sibling_rank(
            nodes,
            nodes[j],
        ),
{
    let n = nodes.len() as int;
    assert(nodes[i].id != nodes[j].id);
    assert(nodes[i].id.value != nodes[j].id.value);
    if comes_before(nodes[i], nodes[j]) {
        lemma_count_grows(nodes, Some(parent), i, nodes[j], n);
    } else {
        lemma_count_grows(nodes, Some(parent), j, nodes[i], n);
    }
}

} // verus!
