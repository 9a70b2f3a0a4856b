//! What a batch leaves behind, node by node.

use crate::admission_laws::{
    law_mutation_batches_are_admitted, law_tree_batches_are_admitted, keeps_away, may_be_removed,
    may_stand, stays_clear,
};
use crate::edits::renumbered;
use crate::model::{Node, NodeId};
use crate::mutate::run;
use crate::mutation_batch::{batch_affects, batch_refusal, operation_step, PreparedBatchOperation};
use crate::order_laws::{
    lemma_insert_place, lemma_moves_place, lemma_remove_lookup, lemma_renumbered_ids,
    lemma_update_place,
};
use crate::reorder::{lemma_derived_nodes, lemma_references_nodes, lemma_write_nodes};
use crate::tables::{reference_views, Tables};
use crate::tree::{
    below, climb, is_forest, lemma_climb_shift, lemma_position, links, lookup, position, present,
    unique_ids,
};
use crate::tree_batch::TreeBatch;
use vstd::prelude::*;

verus! {

/// Whoever is below `r` by new links is so by old ones, where the nodes that got another parent
/// did not go below `r`.
proof fn lemma_still_below(
    old_up: Map<NodeId, NodeId>,
    new_up: Map<NodeId, NodeId>,
    named: spec_fn(NodeId) -> bool,
    r: NodeId,
    x: NodeId,
    k: nat,
)
    requires
        climb(new_up, x, k) == Some(r),
        forall|y: NodeId| #[trigger]
            new_up.contains_key(y) && !named(y) ==> old_up.contains_key(y) && old_up[y]
                == new_up[y],
        forall|y: NodeId| #[trigger]
            new_up.contains_key(y) && named(y) ==> !below(old_up, r, new_up[y]),
    ensures
        below(old_up, r, x),
    decreases k,
{
    if k == 0 {
        crate::tree::lemma_below_self(old_up, r);
    } else {
        lemma_climb_shift(new_up, x, (k - 1) as nat);
        assert(new_up.contains_key(x));
        lemma_still_below(old_up, new_up, named, r, new_up[x], (k - 1) as nat);
        crate::tree::lemma_below_parent(old_up, r, x);
    }
}

/// Whoever is below `r` by old links is so by new ones, where those below `r` kept their links.
proof fn lemma_stays_below(
    old_up: Map<NodeId, NodeId>,
    new_up: Map<NodeId, NodeId>,
    r: NodeId,
    x: NodeId,
    k: nat,
)
    requires
        climb(old_up, x, k) == Some(r),
        forall|y: NodeId| #[trigger]
            below(old_up, r, y) && old_up.contains_key(y) ==> new_up.contains_key(y) && new_up[y]
                == old_up[y],
    ensures
        climb(new_up, x, k) == Some(r),
    decreases k,
{
    if k > 0 {
        lemma_climb_shift(old_up, x, (k - 1) as nat);
        lemma_climb_shift(new_up, x, (k - 1) as nat);
        assert(below(old_up, r, x));
        lemma_stays_below(old_up, new_up, r, old_up[x], (k - 1) as nat);
    }
}

proof fn lemma_same_below(
    old_up: Map<NodeId, NodeId>,
    new_up: Map<NodeId, NodeId>,
    named: spec_fn(NodeId) -> bool,
    r: NodeId,
)
    requires
        forall|y: NodeId| #[trigger]
            new_up.contains_key(y) && !named(y) ==> old_up.contains_key(y) && old_up[y]
                == new_up[y],
        forall|y: NodeId| #[trigger]
            new_up.contains_key(y) && named(y) ==> !below(old_up, r, new_up[y]),
        forall|y: NodeId| #[trigger]
            below(old_up, r, y) && old_up.contains_key(y) ==> new_up.contains_key(y) && new_up[y]
                == old_up[y],
    ensures
        forall|x: NodeId| #[trigger] below(new_up, r, x) <==> below(old_up, r, x),
{
    assert forall|x: NodeId| #[trigger] below(new_up, r, x) <==> below(old_up, r, x) by {
        if below(new_up, r, x) {
            let k = choose|k: nat| #[trigger] climb(new_up, x, k) == Some(r);
            lemma_still_below(old_up, new_up, named, r, x, k);
        }
        if below(old_up, r, x) {
            let k = choose|k: nat| #[trigger] climb(old_up, x, k) == Some(r);
            lemma_stays_below(old_up, new_up, r, x, k);
        }
    }
}

proof fn lemma_links(nodes: Seq<Node>, y: NodeId)
    ensures
        links(nodes).contains_key(y) <==> lookup(nodes, y) is Some && lookup(
            nodes,
            y,
        )->0.parent_id is Some,
        links(nodes).contains_key(y) ==> links(nodes)[y] == lookup(nodes, y)->0.parent_id->0,
{
}

/// Whether two states of a node are the same but for its position among its siblings and the
/// time of its creation.
pub open spec fn same_but_place(a: Node, b: Node) -> bool {
    a == (Node { sibling_order: a.sibling_order, created_at: a.created_at, ..b })
}

/// Whether one of the first `n` moves is of the node.
spec fn is_named(batch: TreeBatch, n: int) -> spec_fn(NodeId) -> bool {
    |x: NodeId| exists|j: int| 0 <= j < n && (#[trigger] batch.moves[j]).prepared.node.id == x
}

proof fn lemma_moved_lookup(t: Tables, batch: TreeBatch, n: int)
    requires
        is_forest(t.nodes),
        batch.refusal(t.nodes) is None,
        t.nodes.len() <= u32::MAX,
        0 <= n <= batch.moves.len(),
        run(t, n, batch.move_step()) is Ok,
    ensures
        ({
            let u = run(t, n, batch.move_step())->Ok_0;
            &&& forall|x: NodeId|
                !is_named(batch, n)(x) ==> #[trigger] lookup(u.nodes, x) == lookup(t.nodes, x)
            &&& forall|j: int|
                0 <= j < n ==> lookup(
                    u.nodes,
                    (#[trigger] batch.moves[j]).prepared.node.id,
                ) is Some && same_but_place(
                    lookup(u.nodes, batch.moves[j].prepared.node.id)->0,
                    batch.moves[j].prepared.node,
                ) && lookup(u.nodes, batch.moves[j].prepared.node.id)->0.sibling_order
                    == batch.moves[j].prepared.node.sibling_order
        }),
    decreases n,
{
    if n > 0 {
        lemma_moved_lookup(t, batch, n - 1);
        law_tree_batches_are_admitted(t.nodes, batch);
        let before = run(t, n - 1, batch.move_step())->Ok_0;
        let u = run(t, n, batch.move_step())->Ok_0;
        let item = batch.moves[n - 1];
        let node = item.prepared.node;
        lemma_moves_place(t, batch, node.id, n - 1);
        lemma_write_nodes(
            before,
            node,
            item.expected_version,
            item.prepared.revision@,
            item.prepared.derived,
        );
        lemma_update_place(before, node, item.expected_version, node.id);
        assert(u.nodes == before.update_node(node, item.expected_version)->Ok_0.nodes);
        assert forall|x: NodeId| !is_named(batch, n)(x) implies #[trigger] lookup(u.nodes, x)
            == lookup(t.nodes, x) by {
            if x == node.id {
                assert(batch.moves[n - 1].prepared.node.id == x);
            }
            if is_named(batch, n - 1)(x) {
                let j = choose|j: int|
                    0 <= j < n - 1 && (#[trigger] batch.moves[j]).prepared.node.id == x;
                assert(batch.moves[j].prepared.node.id == x);
            }
            assert(lookup(before.nodes, x) == lookup(t.nodes, x));
        }
        assert forall|j: int| 0 <= j < n implies lookup(
            u.nodes,
            (#[trigger] batch.moves[j]).prepared.node.id,
        ) is Some && same_but_place(
            lookup(u.nodes, batch.moves[j].prepared.node.id)->0,
            batch.moves[j].prepared.node,
        ) && lookup(u.nodes, batch.moves[j].prepared.node.id)->0.sibling_order
            == batch.moves[j].prepared.node.sibling_order by {
            if j < n - 1 {
                assert(crate::admission_laws::may_be_moved(t.nodes, batch, n - 1));
                assert(batch.moves[j].prepared.node.id != node.id);
                assert(lookup(u.nodes, batch.moves[j].prepared.node.id) == lookup(
                    before.nodes,
                    batch.moves[j].prepared.node.id,
                ));
            }
        }
    }
}

/// Whether one of the first `n` removed subtrees holds the node.
pub open spec fn taken_away(nodes: Seq<Node>, batch: TreeBatch, n: int, x: NodeId) -> bool {
    exists|j: int|
        0 <= j < n && below(links(nodes), (#[trigger] batch.removals[j]).node_id, x)
}

proof fn lemma_removed_lookup(t: Tables, v: Tables, batch: TreeBatch, n: int)
    requires
        is_forest(t.nodes),
        t.nodes.len() <= u32::MAX,
        batch.refusal(t.nodes) is None,
        unique_ids(v.nodes),
        0 <= n <= batch.removals.len(),
        forall|x: NodeId|
            !is_named(batch, batch.moves.len() as int)(x) ==> #[trigger] lookup(v.nodes, x)
                == lookup(t.nodes, x),
        forall|j: int|
            0 <= j < batch.moves.len() ==> lookup(
                v.nodes,
                (#[trigger] batch.moves[j]).prepared.node.id,
            ) is Some && lookup(v.nodes, batch.moves[j].prepared.node.id)->0.parent_id
                == batch.moves[j].prepared.node.parent_id,
    ensures
        unique_ids(batch.removed(v, n).nodes),
        forall|x: NodeId|
            #[trigger] lookup(batch.removed(v, n).nodes, x) == if taken_away(t.nodes, batch, n, x) {
                None
            } else {
                lookup(v.nodes, x)
            },
    decreases n,
{
    if n > 0 {
        lemma_removed_lookup(t, v, batch, n - 1);
        law_tree_batches_are_admitted(t.nodes, batch);
        let w = batch.removed(v, n - 1);
        let u = batch.removed(v, n);
        let r = batch.removals[n - 1].node_id;
        let m = batch.moves.len() as int;
        let named = is_named(batch, m);
        let old_up = links(t.nodes);
        let new_up = links(w.nodes);
        assert(may_be_removed(t.nodes, batch, n - 1));
        assert forall|y: NodeId| #[trigger] new_up.contains_key(y) && !named(
            y,
        ) implies old_up.contains_key(y) && old_up[y] == new_up[y] by {
            lemma_links(w.nodes, y);
            lemma_links(t.nodes, y);
            assert(lookup(w.nodes, y) == lookup(v.nodes, y));
            assert(lookup(v.nodes, y) == lookup(t.nodes, y));
        }
        assert forall|y: NodeId| #[trigger] new_up.contains_key(y) && named(y) implies !below(
            old_up,
            r,
            new_up[y],
        ) by {
            lemma_links(w.nodes, y);
            let j = choose|j: int|
                0 <= j < m && (#[trigger] batch.moves[j]).prepared.node.id == y;
            assert(lookup(w.nodes, y) == lookup(v.nodes, y));
            assert(keeps_away(t.nodes, batch, j));
            assert(batch.removals[n - 1].node_id == r);
            assert(lookup(v.nodes, batch.moves[j].prepared.node.id)->0.parent_id
                == batch.moves[j].prepared.node.parent_id);
        }
        assert forall|y: NodeId| #[trigger] below(old_up, r, y) && old_up.contains_key(
            y,
        ) implies new_up.contains_key(y) && new_up[y] == old_up[y] by {
            lemma_links(w.nodes, y);
            lemma_links(t.nodes, y);
            if named(y) {
                let j = choose|j: int|
                    0 <= j < m && (#[trigger] batch.moves[j]).prepared.node.id == y;
                assert(keeps_away(t.nodes, batch, j));
                assert(batch.removals[n - 1].node_id == r);
            }
            let q = position(t.nodes, y);
            assert(t.nodes[q].id == y);
            if taken_away(t.nodes, batch, n - 1, y) {
                let j = choose|j: int|
                    0 <= j < n - 1 && below(old_up, (#[trigger] batch.removals[j]).node_id, y);
                assert(!(below(old_up, r, t.nodes[q].id) && below(
                    old_up,
                    batch.removals[j].node_id,
                    t.nodes[q].id,
                )));
            }
            assert(lookup(w.nodes, y) == lookup(v.nodes, y));
            assert(lookup(v.nodes, y) == lookup(t.nodes, y));
        }
        lemma_same_below(old_up, new_up, named, r);
        lemma_remove_lookup(w, r);
        assert forall|x: NodeId|
            #[trigger] lookup(u.nodes, x) == if taken_away(t.nodes, batch, n, x) {
                None
            } else {
                lookup(v.nodes, x)
            } by {
            assert(below(new_up, r, x) <==> below(old_up, r, x));
            if taken_away(t.nodes, batch, n, x) && !below(old_up, r, x) {
                let j = choose|j: int|
                    0 <= j < n && below(old_up, (#[trigger] batch.removals[j]).node_id, x);
                assert(j < n - 1);
                assert(taken_away(t.nodes, batch, n - 1, x));
            }
            if below(old_up, r, x) {
                assert(batch.removals[n - 1].node_id == r);
                assert(taken_away(t.nodes, batch, n, x));
            }
            if taken_away(t.nodes, batch, n - 1, x) {
                let j = choose|j: int|
                    0 <= j < n - 1 && below(old_up, (#[trigger] batch.removals[j]).node_id, x);
                assert(taken_away(t.nodes, batch, n, x));
            }
        }
    }
}

proof fn lemma_renumbered_lookup(nodes: Seq<Node>, affected: spec_fn(NodeId) -> bool, x: NodeId)
    requires
        unique_ids(nodes),
    ensures
        match lookup(nodes, x) {
            None => lookup(renumbered(nodes, affected), x) is None,
            Some(n) => lookup(renumbered(nodes, affected), x) is Some && lookup(
                renumbered(nodes, affected),
                x,
            )->0 == (Node {
                sibling_order: lookup(renumbered(nodes, affected), x)->0.sibling_order,
                ..n
            }),
        },
{
    lemma_renumbered_ids(nodes, affected);
    let after = renumbered(nodes, affected);
    assert(present(after, x) <==> present(nodes, x));
    if present(nodes, x) {
        let i = position(nodes, x);
        assert(nodes[i].id == x);
        lemma_position(nodes, i);
        assert(after[i].id == x);
        lemma_position(after, i);
    }
}

/// After a tree batch the removed nodes are gone with all that was below them; each moved node
/// is as its move says; and every other node is as it was, but for its position among its
/// siblings.
pub proof fn law_tree_batches_do_what_they_say(t: Tables, batch: TreeBatch, x: NodeId)
    requires
        is_forest(t.nodes),
        t.nodes.len() <= u32::MAX,
        batch.refusal(t.nodes) is None,
        batch.apply(t) is Ok,
    ensures
        ({
            let u = batch.apply(t)->Ok_0;
            let gone = taken_away(t.nodes, batch, batch.removals.len() as int, x);
            &&& gone ==> lookup(u.nodes, x) is None
            &&& forall|j: int|
                0 <= j < batch.moves.len() && (#[trigger] batch.moves[j]).prepared.node.id == x
                    ==> lookup(u.nodes, x) is Some && same_but_place(
                    lookup(u.nodes, x)->0,
                    batch.moves[j].prepared.node,
                )
            &&& !gone && (forall|j: int|
                0 <= j < batch.moves.len() ==> (#[trigger] batch.moves[j]).prepared.node.id != x)
                ==> match lookup(t.nodes, x) {
                None => lookup(u.nodes, x) is None,
                Some(n) => lookup(u.nodes, x) is Some && lookup(u.nodes, x)->0 == (Node {
                    sibling_order: lookup(u.nodes, x)->0.sibling_order,
                    ..n
                }),
            }
        }),
{
    let m = batch.moves.len() as int;
    let n = batch.removals.len() as int;
    let v = run(t, m, batch.move_step())->Ok_0;
    let w = batch.removed(v, n);
    let u = batch.apply(t)->Ok_0;
    let affected = |p: NodeId| batch.affects(t.nodes, p);
    assert(u.nodes == renumbered(w.nodes, affected));
    lemma_moves_place(t, batch, x, m);
    lemma_moved_lookup(t, batch, m);
    lemma_removed_lookup(t, v, batch, n);
    lemma_renumbered_lookup(w.nodes, affected, x);
    law_tree_batches_are_admitted(t.nodes, batch);
    assert(lookup(w.nodes, x) == if taken_away(t.nodes, batch, n, x) {
        None
    } else {
        lookup(v.nodes, x)
    });
    assert forall|j: int|
        0 <= j < m && (#[trigger] batch.moves[j]).prepared.node.id == x implies !taken_away(
        t.nodes,
        batch,
        n,
        x,
    ) by {
        assert(keeps_away(t.nodes, batch, j));
        if taken_away(t.nodes, batch, n, x) {
            let k = choose|k: int|
                0 <= k < n && below(links(t.nodes), (#[trigger] batch.removals[k]).node_id, x);
            assert(!below(links(t.nodes), batch.removals[k].node_id, x));
        }
    }
    if forall|j: int| 0 <= j < m ==> (#[trigger] batch.moves[j]).prepared.node.id != x {
        assert(!is_named(batch, m)(x));
        assert(lookup(v.nodes, x) == lookup(t.nodes, x));
    }
}

/// The new state that an operation gives its node, if it gives one.
pub open spec fn given(op: PreparedBatchOperation) -> Option<Node> {
    match op {
        PreparedBatchOperation::Create(item) => Some(item.node),
        PreparedBatchOperation::Replace { prepared, .. } => Some(prepared.node),
        PreparedBatchOperation::SetReferences { prepared, .. } => Some(prepared.node),
        PreparedBatchOperation::Remove(_) => None,
    }
}

/// Whether one of the first `n` operations gives the node a new state.
spec fn is_given(ops: Seq<PreparedBatchOperation>, n: int) -> spec_fn(NodeId) -> bool {
    |x: NodeId| exists|j: int| 0 <= j < n && !((#[trigger] ops[j]) is Remove) && ops[j].id() == x
}

/// Whether one of the first `n` operations removes a subtree that holds the node.
pub open spec fn is_removed(
    nodes: Seq<Node>,
    ops: Seq<PreparedBatchOperation>,
    n: int,
    x: NodeId,
) -> bool {
    exists|j: int|
        0 <= j < n && (#[trigger] ops[j]) is Remove && below(links(nodes), ops[j].id(), x)
}

/// Whether the first `n` operations have done what they say.
spec fn has_done(t: Tables, u: Tables, ops: Seq<PreparedBatchOperation>, n: int) -> bool {
    &&& unique_ids(u.nodes)
    &&& forall|x: NodeId|
        !is_given(ops, n)(x) ==> #[trigger] lookup(u.nodes, x) == if is_removed(
            t.nodes,
            ops,
            n,
            x,
        ) {
            None
        } else {
            lookup(t.nodes, x)
        }
    &&& forall|j: int|
        0 <= j < n && !((#[trigger] ops[j]) is Remove) ==> lookup(u.nodes, ops[j].id()) is Some
            && same_but_place(lookup(u.nodes, ops[j].id())->0, given(ops[j])->0)
}

proof fn lemma_not_below_absent(nodes: Seq<Node>, r: NodeId, p: NodeId)
    requires
        present(nodes, r),
        !present(nodes, p),
    ensures
        !below(links(nodes), r, p),
{
    crate::tree::lemma_below_parent(links(nodes), r, p);
    lemma_links(nodes, p);
}

proof fn lemma_remove_done(t: Tables, w: Tables, ops: Seq<PreparedBatchOperation>, n: int)
    requires
        is_forest(t.nodes),
        batch_refusal(t.nodes, ops) is None,
        0 < n <= ops.len(),
        ops[n - 1] is Remove,
        has_done(t, w, ops, n - 1),
    ensures
        has_done(t, w.remove_below(ops[n - 1].id()), ops, n),
{
    law_mutation_batches_are_admitted(t.nodes, ops);
    let r = ops[n - 1].id();
    let u = w.remove_below(r);
    let named = is_given(ops, n - 1);
    let old_up = links(t.nodes);
    let new_up = links(w.nodes);
    assert(may_stand(t.nodes, ops, n - 1));
    assert forall|y: NodeId| #[trigger] new_up.contains_key(y) && !named(
        y,
    ) implies old_up.contains_key(y) && old_up[y] == new_up[y] by {
        lemma_links(w.nodes, y);
        lemma_links(t.nodes, y);
        assert(lookup(w.nodes, y) is Some);
    }
    assert forall|y: NodeId| #[trigger] new_up.contains_key(y) && named(y) implies !below(
        old_up,
        r,
        new_up[y],
    ) by {
        lemma_links(w.nodes, y);
        let j = choose|j: int|
            0 <= j < n - 1 && !((#[trigger] ops[j]) is Remove) && ops[j].id() == y;
        assert(stays_clear(t.nodes, ops, j));
        assert(ops[n - 1] is Remove);
        let p = new_up[y];
        assert(given(ops[j])->0.parent_id == ops[j].parent());
        assert(ops[j].parent() == Some(p));
        if !present(t.nodes, p) {
            lemma_not_below_absent(t.nodes, r, p);
        }
    }
    assert forall|y: NodeId| #[trigger] below(old_up, r, y) && old_up.contains_key(
        y,
    ) implies new_up.contains_key(y) && new_up[y] == old_up[y] by {
        lemma_links(w.nodes, y);
        lemma_links(t.nodes, y);
        if named(y) {
            let j = choose|j: int|
                0 <= j < n - 1 && !((#[trigger] ops[j]) is Remove) && ops[j].id() == y;
            assert(stays_clear(t.nodes, ops, j));
            assert(ops[n - 1] is Remove);
        }
        let q = position(t.nodes, y);
        assert(t.nodes[q].id == y);
        if is_removed(t.nodes, ops, n - 1, y) {
            let j = choose|j: int|
                0 <= j < n - 1 && (#[trigger] ops[j]) is Remove && below(old_up, ops[j].id(), y);
            assert(!(below(old_up, r, t.nodes[q].id) && below(
                old_up,
                ops[j].id(),
                t.nodes[q].id,
            )));
        }
        assert(lookup(w.nodes, y) == lookup(t.nodes, y));
    }
    lemma_same_below(old_up, new_up, named, r);
    lemma_remove_lookup(w, r);
    assert forall|x: NodeId| !is_given(ops, n)(x) implies #[trigger] lookup(u.nodes, x)
        == if is_removed(t.nodes, ops, n, x) {
        None
    } else {
        lookup(t.nodes, x)
    } by {
        assert(below(new_up, r, x) <==> below(old_up, r, x));
        if named(x) {
            let j = choose|j: int|
                0 <= j < n - 1 && !((#[trigger] ops[j]) is Remove) && ops[j].id() == x;
            assert(is_given(ops, n)(x));
        }
        assert(lookup(w.nodes, x) == if is_removed(t.nodes, ops, n - 1, x) {
            None
        } else {
            lookup(t.nodes, x)
        });
        if below(old_up, r, x) {
            assert(ops[n - 1] is Remove && below(old_up, ops[n - 1].id(), x));
            assert(is_removed(t.nodes, ops, n, x));
        }
        if is_removed(t.nodes, ops, n - 1, x) {
            let j = choose|j: int|
                0 <= j < n - 1 && (#[trigger] ops[j]) is Remove && below(old_up, ops[j].id(), x);
            assert(is_removed(t.nodes, ops, n, x));
        }
        if is_removed(t.nodes, ops, n, x) && !below(old_up, r, x) {
            let j = choose|j: int|
                0 <= j < n && (#[trigger] ops[j]) is Remove && below(old_up, ops[j].id(), x);
            assert(j < n - 1);
            assert(is_removed(t.nodes, ops, n - 1, x));
        }
    }
    assert forall|j: int| 0 <= j < n && !((#[trigger] ops[j]) is Remove) implies lookup(
        u.nodes,
        ops[j].id(),
    ) is Some && same_but_place(lookup(u.nodes, ops[j].id())->0, given(ops[j])->0) by {
        let x = ops[j].id();
        assert(lookup(w.nodes, x) is Some);
        assert(stays_clear(t.nodes, ops, j));
        assert(ops[n - 1] is Remove);
        assert(may_stand(t.nodes, ops, j));
        if below(old_up, r, x) {
            if !present(t.nodes, x) {
                lemma_not_below_absent(t.nodes, r, x);
            }
        }
        assert(below(new_up, r, x) <==> below(old_up, r, x));
    }
}

proof fn lemma_given_done(
    t: Tables,
    w: Tables,
    u: Tables,
    ops: Seq<PreparedBatchOperation>,
    n: int,
)
    requires
        batch_refusal(t.nodes, ops) is None,
        0 < n <= ops.len(),
        !(ops[n - 1] is Remove),
        has_done(t, w, ops, n - 1),
        unique_ids(u.nodes),
        forall|x: NodeId|
            x != ops[n - 1].id() ==> #[trigger] lookup(u.nodes, x) == lookup(w.nodes, x),
        lookup(u.nodes, ops[n - 1].id()) is Some,
        same_but_place(lookup(u.nodes, ops[n - 1].id())->0, given(ops[n - 1])->0),
    ensures
        has_done(t, u, ops, n),
{
    law_mutation_batches_are_admitted(t.nodes, ops);
    assert(may_stand(t.nodes, ops, n - 1));
    assert forall|x: NodeId| !is_given(ops, n)(x) implies #[trigger] lookup(u.nodes, x)
        == if is_removed(t.nodes, ops, n, x) {
        None
    } else {
        lookup(t.nodes, x)
    } by {
        if x == ops[n - 1].id() {
            assert(!(ops[n - 1] is Remove) && ops[n - 1].id() == x);
            assert(is_given(ops, n)(x));
        }
        if is_given(ops, n - 1)(x) {
            let j = choose|j: int|
                0 <= j < n - 1 && !((#[trigger] ops[j]) is Remove) && ops[j].id() == x;
            assert(is_given(ops, n)(x));
        }
        assert(lookup(w.nodes, x) == if is_removed(t.nodes, ops, n - 1, x) {
            None
        } else {
            lookup(t.nodes, x)
        });
        if is_removed(t.nodes, ops, n - 1, x) {
            let j = choose|j: int|
                0 <= j < n - 1 && (#[trigger] ops[j]) is Remove && below(
                    links(t.nodes),
                    ops[j].id(),
                    x,
                );
            assert(is_removed(t.nodes, ops, n, x));
        }
        if is_removed(t.nodes, ops, n, x) {
            let j = choose|j: int|
                0 <= j < n && (#[trigger] ops[j]) is Remove && below(
                    links(t.nodes),
                    ops[j].id(),
                    x,
                );
            assert(j < n - 1);
            assert(is_removed(t.nodes, ops, n - 1, x));
        }
    }
    assert forall|j: int| 0 <= j < n && !((#[trigger] ops[j]) is Remove) implies lookup(
        u.nodes,
        ops[j].id(),
    ) is Some && same_but_place(lookup(u.nodes, ops[j].id())->0, given(ops[j])->0) by {
        if j < n - 1 {
            assert(ops[j].id() != ops[n - 1].id());
            assert(lookup(u.nodes, ops[j].id()) == lookup(w.nodes, ops[j].id()));
        }
    }
}

proof fn lemma_operations_done(t: Tables, ops: Seq<PreparedBatchOperation>, n: int)
    requires
        is_forest(t.nodes),
        batch_refusal(t.nodes, ops) is None,
        0 <= n <= ops.len(),
        run(t, n, operation_step(ops)) is Ok,
    ensures
        has_done(t, run(t, n, operation_step(ops))->Ok_0, ops, n),
    decreases n,
{
    if n > 0 {
        lemma_operations_done(t, ops, n - 1);
        let w = run(t, n - 1, operation_step(ops))->Ok_0;
        let u = run(t, n, operation_step(ops))->Ok_0;
        let op = ops[n - 1];
        match op {
            PreparedBatchOperation::Create(item) => {
                let a = w.insert_node(item.node)->Ok_0;
                let b = a.insert_revision(item.revision@)->Ok_0;
                lemma_insert_place(w, item.node, item.node.id);
                lemma_derived_nodes(b, item.node.id, item.derived);
                assert(u.nodes == a.nodes);
                lemma_given_done(t, w, u, ops, n);
            },
            PreparedBatchOperation::Replace { prepared, expected_version } => {
                lemma_write_nodes(
                    w,
                    prepared.node,
                    expected_version,
                    prepared.revision@,
                    prepared.derived,
                );
                lemma_update_place(w, prepared.node, expected_version, prepared.node.id);
                lemma_given_done(t, w, u, ops, n);
            },
            PreparedBatchOperation::SetReferences { prepared, expected_version, references } => {
                lemma_write_nodes(
                    w,
                    prepared.node,
                    expected_version,
                    prepared.revision@,
                    prepared.derived,
                );
                let v = w.write(
                    prepared.node,
                    expected_version,
                    prepared.revision@,
                    prepared.derived,
                )->Ok_0;
                lemma_references_nodes(
                    v.clear_explicit(prepared.node.id),
                    reference_views(references@),
                    references@.len() as int,
                );
                lemma_update_place(w, prepared.node, expected_version, prepared.node.id);
                lemma_given_done(t, w, u, ops, n);
            },
            PreparedBatchOperation::Remove(removal) => {
                lemma_remove_done(t, w, ops, n);
            },
        }
    }
}

/// After a mutation batch each created or rewritten node is as its operation says; each removed
/// node is gone with all that was below it; and every other node is as it was, but for its
/// position among its siblings.
pub proof fn law_mutation_batches_do_what_they_say(
    t: Tables,
    ops: Seq<PreparedBatchOperation>,
    x: NodeId,
)
    requires
        is_forest(t.nodes),
        batch_refusal(t.nodes, ops) is None,
        t.apply_operations(ops) is Ok,
    ensures
        ({
            let u = t.apply_operations(ops)->Ok_0;
            let n = ops.len() as int;
            &&& forall|j: int|
                0 <= j < n && given(#[trigger] ops[j]) is Some && given(ops[j])->0.id == x
                    ==> lookup(u.nodes, x) is Some && same_but_place(
                    lookup(u.nodes, x)->0,
                    given(ops[j])->0,
                )
            &&& (forall|j: int|
                0 <= j < n && given(#[trigger] ops[j]) is Some ==> given(ops[j])->0.id != x) ==> {
                &&& is_removed(t.nodes, ops, n, x) ==> lookup(u.nodes, x) is None
                &&& !is_removed(t.nodes, ops, n, x) ==> match lookup(t.nodes, x) {
                    None => lookup(u.nodes, x) is None,
                    Some(old_node) => lookup(u.nodes, x) is Some && lookup(u.nodes, x)->0 == (Node {
                        sibling_order: lookup(u.nodes, x)->0.sibling_order,
                        ..old_node
                    }),
                }
            }
        }),
{
    let n = ops.len() as int;
    let w = run(t, n, operation_step(ops))->Ok_0;
    let u = t.apply_operations(ops)->Ok_0;
    let affected = |p: NodeId| batch_affects(t.nodes, ops, p, n);
    assert(u.nodes == renumbered(w.nodes, affected));
    lemma_operations_done(t, ops, n);
    lemma_renumbered_lookup(w.nodes, affected, x);
    if forall|j: int| 0 <= j < n && given(#[trigger] ops[j]) is Some ==> given(ops[j])->0.id != x {
        assert(!is_given(ops, n)(x)) by {
            if is_given(ops, n)(x) {
                let j = choose|j: int|
                    0 <= j < n && !((#[trigger] ops[j]) is Remove) && ops[j].id() == x;
                assert(given(ops[j]) is Some);
            }
        }
        assert(lookup(w.nodes, x) == if is_removed(t.nodes, ops, n, x) {
            None
        } else {
            lookup(t.nodes, x)
        });
    }
    assert forall|j: int|
        0 <= j < n && given(#[trigger] ops[j]) is Some && given(ops[j])->0.id == x implies lookup(
        u.nodes,
        x,
    ) is Some && same_but_place(lookup(u.nodes, x)->0, given(ops[j])->0) by {
        assert(ops[j].id() == x);
    }
}

} // verus!
