//! Edits of the node table that leave a tree a tree.

use crate::model::{Node, NodeId};
use crate::tree::{
    acyclic, below, climb, ends, is_forest, is_sole_root, is_tree, lemma_below_parent,
    lemma_climb_shift, lemma_height_parent, lemma_move_acyclic, lemma_position, height, links,
    node_at, position, present, unique_ids,
};
use vstd::prelude::*;

verus! {

/// Whether two tables agree on identities and parents, row by row.
pub open spec fn same_shape(a: Seq<Node>, b: Seq<Node>) -> bool {
    &&& a.len() == b.len()
    &&& forall|i: int|
        0 <= i < a.len() ==> (#[trigger] a[i]).id == b[i].id && a[i].parent_id == b[i].parent_id
}

/// Edits of other columns change nothing about the tree.
pub proof fn lemma_same_shape(a: Seq<Node>, b: Seq<Node>)
    requires
        same_shape(a, b),
        unique_ids(a),
    ensures
        unique_ids(b),
        forall|id: NodeId| #[trigger] present(a, id) <==> present(b, id),
        forall|id: NodeId| present(a, id) ==> #[trigger] position(a, id) == position(b, id),
        links(a) == links(b),
        is_forest(a) ==> is_forest(b),
        is_tree(a) ==> is_tree(b),
{
    assert forall|id: NodeId| #[trigger] present(a, id) <==> present(b, id) by {
        if present(a, id) {
            let i = position(a, id);
            assert(b[i].id == id);
        }
        if present(b, id) {
            let i = position(b, id);
            assert(a[i].id == id);
        }
    }
    assert forall|i: int, j: int|
        0 <= i < b.len() && 0 <= j < b.len() && #[trigger] b[i].id == #[trigger] b[j].id implies i
        == j by {
        assert(a[i].id == b[i].id && a[j].id == b[j].id);
    }
    assert forall|id: NodeId| present(a, id) implies #[trigger] position(a, id) == position(b, id) by {
        let i = position(a, id);
        assert(a[i].id == id);
        assert(b[i].id == id);
        lemma_position(b, i);
    }
    assert(links(a) =~= links(b)) by {
        assert forall|id: NodeId| present(a, id) implies node_at(a, id).parent_id == node_at(
            b,
            id,
        ).parent_id by {
            assert(a[position(a, id)].id == id);
        }
    }
    if is_forest(a) {
        assert forall|i: int|
            0 <= i < b.len() && (#[trigger] b[i]).parent_id is Some implies present(
            b,
            b[i].parent_id->0,
        ) by {
            assert(a[i].parent_id == b[i].parent_id);
        }
    }
    if is_tree(a) {
        let r = choose|r: int| is_sole_root(a, r);
        assert(is_sole_root(b, r)) by {
            assert forall|i: int| 0 <= i < b.len() implies (#[trigger] b[i].parent_id is None <==> i
                == r) by {
                assert(a[i].parent_id == b[i].parent_id);
            }
        }
    }
}

/// A new leaf below an existing node keeps the tree a tree.
pub proof fn lemma_insert_leaf(nodes: Seq<Node>, node: Node)
    requires
        is_tree(nodes),
        !present(nodes, node.id),
        node.parent_id is Some,
        present(nodes, node.parent_id->0),
    ensures
        is_tree(nodes.push(node)),
        links(nodes.push(node)) == links(nodes).insert(node.id, node.parent_id->0),
        forall|id: NodeId| #[trigger]
            present(nodes.push(node), id) <==> present(nodes, id) || id == node.id,
        forall|id: NodeId|
            present(nodes, id) ==> #[trigger] node_at(nodes.push(node), id) == node_at(nodes, id),
        node_at(nodes.push(node), node.id) == node,
{
    let after = nodes.push(node);
    let up = links(nodes);
    let p = node.parent_id->0;
    assert(unique_ids(after)) by {
        assert forall|i: int, j: int|
            0 <= i < after.len() && 0 <= j < after.len() && #[trigger] after[i].id
                == #[trigger] after[j].id implies i == j by {
            if i < nodes.len() && j < nodes.len() {
                assert(nodes[i].id == nodes[j].id);
            } else if i < nodes.len() {
                assert(nodes[i].id == node.id);
            } else if j < nodes.len() {
                assert(nodes[j].id == node.id);
            }
        }
    }
    assert forall|id: NodeId| #[trigger] present(after, id) <==> present(nodes, id) || id
        == node.id by {
        if present(after, id) {
            let i = position(after, id);
            if i < nodes.len() {
                assert(nodes[i].id == id);
            }
        }
        if present(nodes, id) {
            assert(after[position(nodes, id)].id == id);
        }
        if id == node.id {
            assert(after[nodes.len() as int].id == id);
        }
    }
    assert forall|id: NodeId| present(nodes, id) implies #[trigger] node_at(after, id) == node_at(
        nodes,
        id,
    ) by {
        let i = position(nodes, id);
        assert(after[i] == nodes[i]);
        lemma_position(after, i);
    }
    lemma_position(after, nodes.len() as int);
    assert(links(after) =~= up.insert(node.id, p)) by {
        assert forall|id: NodeId| links(after).contains_key(id) <==> up.insert(
            node.id,
            p,
        ).contains_key(id) by {
            assert(present(after, id) <==> present(nodes, id) || id == node.id);
            if present(nodes, id) {
                assert(node_at(after, id) == node_at(nodes, id));
            }
        }
        assert forall|id: NodeId| links(after).contains_key(id) implies links(after)[id]
            == up.insert(node.id, p)[id] by {
            assert(present(after, id) <==> present(nodes, id) || id == node.id);
            if present(nodes, id) {
                assert(node_at(after, id) == node_at(nodes, id));
            }
        }
    }
    assert(!below(up, node.id, p)) by {
        if below(up, node.id, p) {
            let k = choose|k: nat| #[trigger] climb(up, p, k) == Some(node.id);
            crate::tree::lemma_climb_exists(nodes, p, k);
        }
    }
    lemma_move_acyclic(up, node.id, p);
    assert forall|i: int| 0 <= i < after.len() && (#[trigger] after[i]).parent_id is Some implies present(
        after,
        after[i].parent_id->0,
    ) by {
        if i < nodes.len() {
            assert(after[i] == nodes[i]);
            assert(present(nodes, nodes[i].parent_id->0));
            assert(present(after, nodes[i].parent_id->0));
        } else {
            assert(present(after, p));
        }
    }
    let r = choose|r: int| is_sole_root(nodes, r);
    assert(is_sole_root(after, r)) by {
        assert forall|i: int| 0 <= i < after.len() implies (#[trigger] after[i].parent_id is None
            <==> i == r) by {
            if i < nodes.len() {
                assert(after[i] == nodes[i]);
            }
        }
    }
}

/// Rewriting one row under its identity: which links it changes.
pub proof fn lemma_rewrite(nodes: Seq<Node>, i: int, node: Node)
    requires
        unique_ids(nodes),
        0 <= i < nodes.len(),
        nodes[i].id == node.id,
    ensures
        unique_ids(nodes.update(i, node)),
        forall|id: NodeId| #[trigger] present(nodes.update(i, node), id) <==> present(nodes, id),
        forall|id: NodeId|
            present(nodes, id) ==> #[trigger] node_at(nodes.update(i, node), id) == if id
                == node.id {
                node
            } else {
                node_at(nodes, id)
            },
        forall|id: NodeId|
            present(nodes, id) ==> #[trigger] position(nodes.update(i, node), id) == position(
                nodes,
                id,
            ),
        node.parent_id is Some ==> links(nodes.update(i, node)) == links(nodes).insert(
            node.id,
            node.parent_id->0,
        ),
        node.parent_id == nodes[i].parent_id ==> links(nodes.update(i, node)) == links(nodes),
{
    let after = nodes.update(i, node);
    assert forall|a: int, b: int|
        0 <= a < after.len() && 0 <= b < after.len() && #[trigger] after[a].id
            == #[trigger] after[b].id implies a == b by {
        assert(nodes[a].id == after[a].id);
        assert(nodes[b].id == after[b].id);
    }
    assert forall|id: NodeId| #[trigger] present(after, id) <==> present(nodes, id) by {
        if present(nodes, id) {
            let k = position(nodes, id);
            assert(nodes[k].id == id);
            assert(after[k].id == id);
        }
        if present(after, id) {
            let k = position(after, id);
            assert(after[k].id == id);
            assert(nodes[k].id == id);
        }
    }
    assert forall|id: NodeId| present(nodes, id) implies #[trigger] position(after, id) == position(
        nodes,
        id,
    ) by {
        let k = position(nodes, id);
        assert(nodes[k].id == id);
        assert(after[k].id == id);
        lemma_position(after, k);
        lemma_position(nodes, k);
    }
    lemma_position(nodes, i);
    assert forall|id: NodeId| present(nodes, id) implies #[trigger] node_at(after, id) == if id
        == node.id {
        node
    } else {
        node_at(nodes, id)
    } by {
        assert(position(after, id) == position(nodes, id));
        if id != node.id {
            assert(nodes[position(nodes, id)].id == id);
        }
    }
    if node.parent_id is Some {
        let up = links(nodes).insert(node.id, node.parent_id->0);
        assert(links(after) =~= up) by {
            assert forall|id: NodeId| links(after).contains_key(id) <==> up.contains_key(id) by {
                assert(present(after, id) <==> present(nodes, id));
                if present(nodes, id) {
                    assert(node_at(after, id) == if id == node.id {
                        node
                    } else {
                        node_at(nodes, id)
                    });
                }
            }
            assert forall|id: NodeId| links(after).contains_key(id) implies links(after)[id]
                == up[id] by {
                assert(present(after, id) <==> present(nodes, id));
                assert(node_at(after, id) == if id == node.id {
                    node
                } else {
                    node_at(nodes, id)
                });
            }
        }
    }
    if node.parent_id == nodes[i].parent_id {
        assert(same_shape(nodes, after));
        lemma_same_shape(nodes, after);
    }
}

/// Moving a node that is not the root below an existing node outside its own
/// subtree keeps the tree a tree.
pub proof fn lemma_reparent(nodes: Seq<Node>, i: int, node: Node)
    requires
        is_tree(nodes),
        0 <= i < nodes.len(),
        nodes[i].id == node.id,
        nodes[i].parent_id is Some,
        node.parent_id is Some,
        present(nodes, node.parent_id->0),
        !below(links(nodes), node.id, node.parent_id->0),
    ensures
        is_tree(nodes.update(i, node)),
{
    lemma_rewrite(nodes, i, node);
    lemma_move_acyclic(links(nodes), node.id, node.parent_id->0);
    lemma_rewrite_keeps_tree(nodes, i, node);
}

/// Rewriting a row keeps the tree a tree if the root stays the root, the new
/// parent exists, and climbing still ends.
pub proof fn lemma_rewrite_keeps_tree(nodes: Seq<Node>, i: int, node: Node)
    requires
        is_tree(nodes),
        0 <= i < nodes.len(),
        nodes[i].id == node.id,
        nodes[i].parent_id is Some <==> node.parent_id is Some,
        node.parent_id is Some ==> present(nodes, node.parent_id->0),
        acyclic(links(nodes.update(i, node))),
    ensures
        is_tree(nodes.update(i, node)),
{
    lemma_rewrite(nodes, i, node);
    let after = nodes.update(i, node);
    assert forall|k: int| 0 <= k < after.len() && (#[trigger] after[k]).parent_id is Some implies present(
        after,
        after[k].parent_id->0,
    ) by {
        if k != i {
            assert(after[k] == nodes[k]);
            assert(present(nodes, nodes[k].parent_id->0));
            assert(present(after, nodes[k].parent_id->0));
        } else {
            assert(present(after, node.parent_id->0));
        }
    }
    let r = choose|r: int| is_sole_root(nodes, r);
    assert(is_sole_root(after, r)) by {
        assert forall|k: int| 0 <= k < after.len() implies (#[trigger] after[k].parent_id is None
            <==> k == r) by {
            assert(nodes[k].parent_id is None <==> k == r);
        }
    }
}

/// The rows that stay when a subtree is removed.
pub open spec fn survivors(nodes: Seq<Node>, id: NodeId) -> Seq<Node> {
    nodes.filter(|n: Node| !below(links(nodes), id, n.id))
}

/// Removing the subtree of a node that is not the root keeps the tree a tree,
/// and keeps every other node as it was.
pub proof fn lemma_remove_subtree(nodes: Seq<Node>, id: NodeId)
    requires
        is_tree(nodes),
        present(nodes, id) ==> node_at(nodes, id).parent_id is Some,
    ensures
        is_tree(survivors(nodes, id)),
        forall|x: NodeId| #[trigger]
            present(survivors(nodes, id), x) <==> present(nodes, x) && !below(links(nodes), id, x),
        forall|x: NodeId|
            present(survivors(nodes, id), x) ==> #[trigger] node_at(survivors(nodes, id), x)
                == node_at(nodes, x),
        forall|x: NodeId|
            present(survivors(nodes, id), x) ==> (#[trigger] links(survivors(nodes, id)).contains_key(x)
                <==> links(nodes).contains_key(x)),
{
    let up = links(nodes);
    let keep = |n: Node| !below(up, id, n.id);
    let after = survivors(nodes, id);
    assert(after == nodes.filter(keep));
    lemma_filter_facts(nodes, keep);
    assert forall|x: NodeId| #[trigger] present(after, x) <==> present(nodes, x) && !below(
        up,
        id,
        x,
    ) by {
        if present(after, x) {
            let k = position(after, x);
            assert(after[k].id == x);
            assert(after.contains(after[k]));
            let m = choose|m: int| 0 <= m < nodes.len() && nodes[m] == after[k];
            assert(nodes[m].id == x);
        }
        if present(nodes, x) && !below(up, id, x) {
            let m = position(nodes, x);
            assert(nodes[m].id == x);
            assert(keep(nodes[m]));
            assert(nodes.contains(nodes[m]));
            assert(after.contains(nodes[m]));
            let k = choose|k: int| 0 <= k < after.len() && after[k] == nodes[m];
            assert(after[k].id == x);
        }
    }
    assert(unique_ids(after)) by {
        assert forall|i: int, j: int|
            0 <= i < after.len() && 0 <= j < after.len() && #[trigger] after[i].id
                == #[trigger] after[j].id implies i == j by {
            lemma_filter_injective(nodes, keep, i, j);
        }
    }
    assert forall|x: NodeId| present(after, x) implies #[trigger] node_at(after, x) == node_at(
        nodes,
        x,
    ) by {
        let k = position(after, x);
        assert(after[k].id == x);
        assert(after.contains(after[k]));
        let m = choose|m: int| 0 <= m < nodes.len() && nodes[m] == after[k];
        lemma_position(nodes, m);
    }
    let over = links(after);
    assert forall|x: NodeId| present(after, x) implies (#[trigger] over.contains_key(x)
        <==> up.contains_key(x)) by {
        assert(node_at(after, x) == node_at(nodes, x));
        assert(present(nodes, x));
    }
    assert forall|x: NodeId| over.contains_key(x) implies up.contains_key(x) && over[x]
        == up[x] by {
        assert(node_at(after, x) == node_at(nodes, x));
        assert(present(nodes, x));
    }
    assert(acyclic(over)) by {
        assert forall|x: NodeId| #[trigger] ends(over, x) by {
            assert(ends(up, x));
            lemma_restricted_ends(up, over, x);
        }
    }
    assert forall|i: int| 0 <= i < after.len() && (#[trigger] after[i]).parent_id is Some implies present(
        after,
        after[i].parent_id->0,
    ) by {
        assert(after.contains(after[i]));
        let m = choose|m: int| 0 <= m < nodes.len() && nodes[m] == after[i];
        lemma_position(nodes, m);
        let p = after[i].parent_id->0;
        assert(present(nodes, p));
        lemma_below_parent(up, id, after[i].id);
        assert(keep(after[i]));
        assert(!below(up, id, p));
        assert(present(after, p));
    }
    let r = choose|r: int| is_sole_root(nodes, r);
    assert(nodes[r].parent_id is None);
    lemma_position(nodes, r);
    lemma_below_parent(up, id, nodes[r].id);
    assert(nodes[r].id != id);
    assert(keep(nodes[r]));
    assert(nodes.contains(nodes[r]));
    assert(after.contains(nodes[r]));
    let q = choose|q: int| 0 <= q < after.len() && after[q] == nodes[r];
    assert(is_sole_root(after, q)) by {
        assert forall|i: int| 0 <= i < after.len() implies (#[trigger] after[i].parent_id is None
            <==> i == q) by {
            assert(after.contains(after[i]));
            let m = choose|m: int| 0 <= m < nodes.len() && nodes[m] == after[i];
            if after[i].parent_id is None {
                assert(nodes[m].parent_id is None);
                assert(m == r);
                assert(after[i].id == after[q].id);
            }
        }
    }
}

/// Climbing ends on a part of the links if it ends on all of them.
pub proof fn lemma_restricted_ends(
    up: Map<NodeId, NodeId>,
    part: Map<NodeId, NodeId>,
    x: NodeId,
)
    requires
        ends(up, x),
        forall|y: NodeId| #[trigger] part.contains_key(y) ==> up.contains_key(y) && part[y] == up[y],
    ensures
        ends(part, x),
    decreases height(up, x),
{
    lemma_climb_shift(part, x, 0);
    if part.contains_key(x) {
        lemma_height_parent(up, x);
        lemma_restricted_ends(up, part, up[x]);
        let k = choose|k: nat| #[trigger] climb(part, part[x], k) is None;
        lemma_climb_shift(part, x, k);
        assert(climb(part, x, k + 1) is None);
    } else {
        assert(climb(part, x, 1) is None);
    }
}

/// A filtered sequence holds exactly the items that pass.
pub proof fn lemma_filter_facts<T>(rows: Seq<T>, keep: spec_fn(T) -> bool)
    ensures
        forall|x: T| #[trigger] rows.filter(keep).contains(x) <==> rows.contains(x) && keep(x),
        rows.filter(keep).len() <= rows.len(),
        forall|i: int|
            0 <= i < rows.filter(keep).len() ==> keep(#[trigger] rows.filter(keep)[i]),
    decreases rows.len(),
{
    reveal(Seq::filter);
    if rows.len() > 0 {
        let init = rows.drop_last();
        lemma_filter_facts(init, keep);
        let sub = init.filter(keep);
        let all = rows.filter(keep);
        assert forall|x: T| #[trigger] all.contains(x) <==> rows.contains(x) && keep(x) by {
            if all.contains(x) {
                let i = choose|i: int| 0 <= i < all.len() && all[i] == x;
                if i < sub.len() {
                    assert(sub[i] == x);
                    assert(sub.contains(x));
                    let j = choose|j: int| 0 <= j < init.len() && init[j] == x;
                    assert(rows[j] == x);
                } else {
                    assert(rows[rows.len() - 1] == x);
                }
            }
            if rows.contains(x) && keep(x) {
                let j = choose|j: int| 0 <= j < rows.len() && rows[j] == x;
                if j < init.len() {
                    assert(init[j] == x);
                    assert(init.contains(x));
                    assert(sub.contains(x));
                    let i = choose|i: int| 0 <= i < sub.len() && sub[i] == x;
                    assert(all[i] == x);
                } else {
                    assert(all[sub.len() as int] == x);
                }
            }
        }
    }
}

/// Filtering keeps distinct identities distinct.
pub proof fn lemma_filter_injective(
    nodes: Seq<Node>,
    keep: spec_fn(Node) -> bool,
    i: int,
    j: int,
)
    requires
        unique_ids(nodes),
        0 <= i < nodes.filter(keep).len(),
        0 <= j < nodes.filter(keep).len(),
        nodes.filter(keep)[i].id == nodes.filter(keep)[j].id,
    ensures
        i == j,
    decreases nodes.len(),
{
    reveal(Seq::filter);
    if nodes.len() > 0 {
        let init = nodes.drop_last();
        let sub = init.filter(keep);
        assert(unique_ids(init)) by {
            assert forall|a: int, b: int|
                0 <= a < init.len() && 0 <= b < init.len() && #[trigger] init[a].id
                    == #[trigger] init[b].id implies a == b by {
                assert(nodes[a].id == nodes[b].id);
            }
        }
        lemma_filter_facts(init, keep);
        if i < sub.len() && j < sub.len() {
            lemma_filter_injective(init, keep, i, j);
        } else if i < sub.len() {
            assert(sub.contains(sub[i]));
            let a = choose|a: int| 0 <= a < init.len() && init[a] == sub[i];
            assert(nodes[a].id == nodes[nodes.len() - 1].id);
        } else if j < sub.len() {
            assert(sub.contains(sub[j]));
            let a = choose|a: int| 0 <= a < init.len() && init[a] == sub[j];
            assert(nodes[a].id == nodes[nodes.len() - 1].id);
        }
    }
}

} // verus!
