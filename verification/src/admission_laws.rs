//! Which requests are admitted.

use crate::create::planned;
use crate::model::{Node, NodeId, ReferenceOrigin, ReferenceView, Refusal, RevisionView};
use crate::mutate::{accepts, first_refusal, PreparedNodeMutation};
use crate::mutation_batch::{
    batch_refusal, conflict_refusal, created, operation_refusal, removal_overlaps, removes,
    PreparedBatchOperation,
};
use crate::tables::Tables;
use crate::tree::{below, ends, links, lookup, position, present};
use crate::tree_batch::{
    destination, is_moved, lemma_passed, moved_id, moved_links, takes, TreeBatch,
};
use vstd::prelude::*;

verus! {

/// Whether a node takes children of the child's type: it lists no type, or it lists that type.
pub open spec fn takes_type(parent: Node, child: Node) -> bool {
    let listed = parent.metadata.accepts_children@;
    listed.len() > 0 ==> exists|i: int|
        0 <= i < listed.len() && match child.metadata.node_type {
            Some(kind) => (#[trigger] listed[i])@ == kind@,
            None => false,
        }
}

pub proof fn lemma_takes_type(parent: Node, child: Node)
    ensures
        takes_type(parent, child) <==> accepts(parent, child),
{
    let listed = parent.metadata.accepts_children@;
    if accepts(parent, child) && listed.len() > 0 {
        let kind = child.metadata.node_type->0;
        let i = choose|i: int|
            0 <= i < listed.len() && (#[trigger] parent.metadata.accepts_children@[i])@ == kind@;
        assert(listed[i]@ == kind@);
    }
    if takes_type(parent, child) && listed.len() > 0 {
        let i = choose|i: int|
            0 <= i < listed.len() && match child.metadata.node_type {
                Some(kind) => (#[trigger] listed[i])@ == kind@,
                None => false,
            };
        assert(parent.metadata.accepts_children@[i] == listed[i]);
    }
}

proof fn lemma_nothing_refused(n: int, check: spec_fn(int) -> Option<Refusal>)
    requires
        forall|i: int| 0 <= i < n ==> (#[trigger] check(i)) is None,
    ensures
        first_refusal(n, check) is None,
    decreases n,
{
    if n > 0 {
        lemma_nothing_refused(n - 1, check);
        assert(check(n - 1) is None);
    }
}

/// Whether a node can be the parent of the `i`-th created one: it is stored, or created before.
pub open spec fn may_hold(
    nodes: Seq<Node>,
    parts: Seq<PreparedNodeMutation>,
    i: int,
    parent: Node,
) -> bool {
    ||| lookup(nodes, parent.id) == Some(parent)
    ||| exists|j: int| 0 <= j < i && (#[trigger] parts[j]).node == parent
}

/// Whether the `i`-th node may be created: it starts its own history under a fresh identity,
/// below a node that is there, or is created before it, and takes its type.
pub open spec fn may_be_created(nodes: Seq<Node>, parts: Seq<PreparedNodeMutation>, i: int) -> bool {
    let node = parts[i].node;
    &&& node.version == 1
    &&& parts[i].revision@.version == 1
    &&& parts[i].revision@.node_id == node.id
    &&& !present(nodes, node.id)
    &&& forall|j: int| 0 <= j < i ==> (#[trigger] parts[j]).node.id != node.id
    &&& exists|parent: Node|
        #![trigger takes_type(parent, node)]
        node.parent_id == Some(parent.id) && may_hold(nodes, parts, i, parent) && takes_type(
            parent,
            node,
        )
}

proof fn lemma_planned(parts: Seq<PreparedNodeMutation>, id: NodeId, n: int)
    requires
        0 <= n <= parts.len(),
    ensures
        match planned(parts, id, n) {
            Some(node) => exists|j: int|
                0 <= j < n && (#[trigger] parts[j]).node == node && node.id == id,
            None => forall|j: int| 0 <= j < n ==> (#[trigger] parts[j]).node.id != id,
        },
    decreases n,
{
    if n > 0 && parts[n - 1].node.id != id {
        lemma_planned(parts, id, n - 1);
    }
}

proof fn lemma_lookup(nodes: Seq<Node>, id: NodeId)
    ensures
        lookup(nodes, id) matches Some(n) ==> n.id == id,
{
    if present(nodes, id) {
        let q = position(nodes, id);
        assert(nodes[q].id == id);
    }
}

proof fn lemma_creation(t: Tables, parts: Seq<PreparedNodeMutation>, i: int)
    requires
        0 <= i < parts.len(),
        forall|j: int| 0 <= j < i ==> #[trigger] may_be_created(t.nodes, parts, j),
    ensures
        t.creation_refusal(parts, i) is None <==> may_be_created(t.nodes, parts, i),
{
    let node = parts[i].node;
    let nodes = t.nodes;
    lemma_planned(parts, node.id, i);
    if node.parent_id is Some {
        let p = node.parent_id->0;
        lemma_planned(parts, p, i);
        lemma_lookup(nodes, p);
        let found = t.creation_parent(parts, p, i);
        if found is Some {
            let parent = found->0;
            lemma_takes_type(parent, node);
            assert(parent.id == p);
            assert(may_hold(nodes, parts, i, parent));
        }
        if may_be_created(nodes, parts, i) {
            let parent = choose|parent: Node|
                #![trigger takes_type(parent, node)]
                node.parent_id == Some(parent.id) && may_hold(nodes, parts, i, parent)
                    && takes_type(parent, node);
            lemma_takes_type(parent, node);
            if lookup(nodes, p) == Some(parent) {
                if planned(parts, p, i) is Some {
                    let j = choose|j: int|
                        0 <= j < i && (#[trigger] parts[j]).node == planned(parts, p, i)->0
                            && parts[j].node.id == p;
                    assert(may_be_created(nodes, parts, j));
                }
            } else {
                let j = choose|j: int| 0 <= j < i && (#[trigger] parts[j]).node == parent;
                let k = choose|k: int|
                    0 <= k < i && (#[trigger] parts[k]).node == planned(parts, p, i)->0
                        && parts[k].node.id == p;
                assert(may_be_created(nodes, parts, j));
                assert(may_be_created(nodes, parts, k));
                if j < k {
                    assert(parts[j].node.id != parts[k].node.id);
                }
                if k < j {
                    assert(parts[k].node.id != parts[j].node.id);
                }
            }
        }
    }
}

/// Nodes are admitted for creation exactly when each of them may be created.
pub proof fn law_creation_is_admitted(t: Tables, parts: Seq<PreparedNodeMutation>)
    ensures
        first_refusal(parts.len() as int, |i: int| t.creation_refusal(parts, i)) is None
            <==> forall|i: int|
            0 <= i < parts.len() ==> #[trigger] may_be_created(t.nodes, parts, i),
{
    let n = parts.len() as int;
    let check = |i: int| t.creation_refusal(parts, i);
    if first_refusal(n, check) is None {
        assert forall|i: int| 0 <= i < n implies #[trigger] may_be_created(t.nodes, parts, i) by {
            lemma_creations(t, parts, i + 1);
        }
    }
    if forall|i: int| 0 <= i < n ==> #[trigger] may_be_created(t.nodes, parts, i) {
        assert forall|i: int| 0 <= i < n implies (#[trigger] check(i)) is None by {
            assert forall|j: int| 0 <= j < i implies #[trigger] may_be_created(
                t.nodes,
                parts,
                j,
            ) by {}
            lemma_creation(t, parts, i);
            assert(may_be_created(t.nodes, parts, i));
        }
        lemma_nothing_refused(n, check);
    }
}

proof fn lemma_creations(t: Tables, parts: Seq<PreparedNodeMutation>, m: int)
    requires
        0 <= m <= parts.len(),
        first_refusal(parts.len() as int, |i: int| t.creation_refusal(parts, i)) is None,
    ensures
        forall|i: int| 0 <= i < m ==> #[trigger] may_be_created(t.nodes, parts, i),
    decreases m,
{
    if m > 0 {
        lemma_creations(t, parts, m - 1);
        let check = |i: int| t.creation_refusal(parts, i);
        lemma_passed(parts.len() as int, check, m - 1);
        assert(check(m - 1) is None);
        lemma_creation(t, parts, m - 1);
    }
}

/// Whether a node can be the parent that the `i`-th operation names: it is stored, or created
/// by an operation before.
pub open spec fn may_parent(
    nodes: Seq<Node>,
    ops: Seq<PreparedBatchOperation>,
    i: int,
    parent: Node,
) -> bool {
    ||| lookup(nodes, parent.id) == Some(parent)
    ||| exists|j: int| 0 <= j < i && creates(#[trigger] ops[j], parent)
}

/// Whether the operation creates the node.
pub open spec fn creates(op: PreparedBatchOperation, node: Node) -> bool {
    match op {
        PreparedBatchOperation::Create(item) => item.node == node,
        _ => false,
    }
}

/// Whether the parent that the node names can hold it.
pub open spec fn finds_parent(
    nodes: Seq<Node>,
    ops: Seq<PreparedBatchOperation>,
    i: int,
    node: Node,
) -> bool {
    exists|parent: Node|
        #![trigger takes_type(parent, node)]
        node.parent_id == Some(parent.id) && may_parent(nodes, ops, i, parent) && takes_type(
            parent,
            node,
        )
}

/// Whether an existing node may be rewritten: it is there under the expected version, the new
/// state is its next revision, a root stays without a parent, and a parent can hold the node
/// and is not below it.
pub open spec fn may_be_rewritten(
    nodes: Seq<Node>,
    ops: Seq<PreparedBatchOperation>,
    i: int,
    node: Node,
    expected: u64,
    revision: RevisionView,
) -> bool {
    &&& present(nodes, node.id)
    &&& lookup(nodes, node.id)->0.version == expected
    &&& node.version == expected + 1
    &&& revision.version == node.version
    &&& revision.node_id == node.id
    &&& node.parent_id is Some ==> {
        &&& lookup(nodes, node.id)->0.parent_id is Some
        &&& finds_parent(nodes, ops, i, node)
        &&& !(present(nodes, node.parent_id->0) && below(
            links(nodes),
            node.id,
            node.parent_id->0,
        ))
    }
}

/// Whether the `i`-th operation may stand beside those before it: no other concerns the same
/// node; a node is created fresh, rewritten under its version, or removed under its version
/// with a subtree that shares no node with another removed one.
pub open spec fn may_stand(nodes: Seq<Node>, ops: Seq<PreparedBatchOperation>, i: int) -> bool {
    &&& forall|j: int| 0 <= j < i ==> (#[trigger] ops[j]).id() != ops[i].id()
    &&& match ops[i] {
        PreparedBatchOperation::Create(item) => {
            &&& item.node.version == 1
            &&& item.revision@.version == 1
            &&& item.revision@.node_id == item.node.id
            &&& !present(nodes, item.node.id)
            &&& finds_parent(nodes, ops, i, item.node)
        },
        PreparedBatchOperation::Replace { prepared, expected_version } => may_be_rewritten(
            nodes,
            ops,
            i,
            prepared.node,
            expected_version,
            prepared.revision@,
        ),
        PreparedBatchOperation::SetReferences { prepared, expected_version, .. } =>
            may_be_rewritten(
            nodes,
            ops,
            i,
            prepared.node,
            expected_version,
            prepared.revision@,
        ),
        PreparedBatchOperation::Remove(removal) => {
            &&& present(nodes, removal.node_id)
            &&& lookup(nodes, removal.node_id)->0.parent_id is Some
            &&& lookup(nodes, removal.node_id)->0.version == removal.expected_version
            &&& forall|j: int, k: int|
                0 <= j < i && 0 <= k < nodes.len() && (#[trigger] ops[j]) is Remove ==> !(below(
                    links(nodes),
                    removal.node_id,
                    (#[trigger] nodes[k]).id,
                ) && below(links(nodes), ops[j].id(), nodes[k].id))
        },
    }
}

proof fn lemma_created(ops: Seq<PreparedBatchOperation>, id: NodeId, n: int)
    requires
        0 <= n <= ops.len(),
    ensures
        match created(ops, id, n) {
            Some(node) => node.id == id && exists|j: int|
                0 <= j < n && creates(#[trigger] ops[j], node),
            None => forall|j: int, node: Node|
                0 <= j < n && #[trigger] creates(ops[j], node) ==> node.id != id,
        },
    decreases n,
{
    if n > 0 {
        lemma_created(ops, id, n - 1);
        match ops[n - 1] {
            PreparedBatchOperation::Create(item) => {
                if item.node.id == id {
                    assert(creates(ops[n - 1], item.node));
                } else if created(ops, id, n - 1) is Some {
                    let node = created(ops, id, n - 1)->0;
                    let j = choose|j: int| 0 <= j < n - 1 && creates(#[trigger] ops[j], node);
                    assert(creates(ops[j], node));
                }
            },
            _ => {
                if created(ops, id, n - 1) is Some {
                    let node = created(ops, id, n - 1)->0;
                    let j = choose|j: int| 0 <= j < n - 1 && creates(#[trigger] ops[j], node);
                    assert(creates(ops[j], node));
                }
            },
        }
    }
}

/// The parent that is found for an operation is the only one that may hold its node.
proof fn lemma_finds_parent(
    nodes: Seq<Node>,
    ops: Seq<PreparedBatchOperation>,
    i: int,
    node: Node,
    found: Option<Node>,
)
    requires
        0 <= i < ops.len(),
        forall|j: int| 0 <= j < i ==> #[trigger] may_stand(nodes, ops, j),
        node.parent_id is Some,
        found == match created(ops, node.parent_id->0, i) {
            Some(n) => Some(n),
            None => lookup(nodes, node.parent_id->0),
        } || found == match lookup(nodes, node.parent_id->0) {
            Some(n) => Some(n),
            None => created(ops, node.parent_id->0, i),
        },
    ensures
        finds_parent(nodes, ops, i, node) <==> found is Some && accepts(found->0, node),
{
    let p = node.parent_id->0;
    lemma_created(ops, p, i);
    lemma_lookup(nodes, p);
    if created(ops, p, i) is Some {
        let n = created(ops, p, i)->0;
        let j = choose|j: int| 0 <= j < i && creates(#[trigger] ops[j], n);
        assert(may_stand(nodes, ops, j));
        assert(!present(nodes, p));
    }
    if found is Some {
        lemma_takes_type(found->0, node);
        assert(found->0.id == p);
        assert(may_parent(nodes, ops, i, found->0));
    }
    if finds_parent(nodes, ops, i, node) {
        let parent = choose|parent: Node|
            #![trigger takes_type(parent, node)]
            node.parent_id == Some(parent.id) && may_parent(nodes, ops, i, parent) && takes_type(
                parent,
                node,
            );
        lemma_takes_type(parent, node);
        if lookup(nodes, parent.id) != Some(parent) {
            let j = choose|j: int| 0 <= j < i && creates(#[trigger] ops[j], parent);
            assert(may_stand(nodes, ops, j));
            assert(creates(ops[j], parent));
            let n = created(ops, p, i)->0;
            let k = choose|k: int| 0 <= k < i && creates(#[trigger] ops[k], n);
            assert(may_stand(nodes, ops, k));
            if j < k {
                assert(ops[j].id() != ops[k].id());
            }
            if k < j {
                assert(ops[k].id() != ops[j].id());
            }
            assert(n == parent);
        }
        assert(found == Some(parent));
    }
}

proof fn lemma_operation(nodes: Seq<Node>, ops: Seq<PreparedBatchOperation>, i: int)
    requires
        0 <= i < ops.len(),
        forall|j: int| 0 <= j < i ==> #[trigger] may_stand(nodes, ops, j),
    ensures
        operation_refusal(nodes, ops, i) is None <==> may_stand(nodes, ops, i),
{
    match ops[i] {
        PreparedBatchOperation::Create(item) => {
            if let Some(p) = item.node.parent_id {
                let found = match created(ops, p, i) {
                    Some(n) => Some(n),
                    None => lookup(nodes, p),
                };
                lemma_finds_parent(nodes, ops, i, item.node, found);
            }
        },
        PreparedBatchOperation::Replace { prepared, expected_version } => {
            lemma_lookup(nodes, prepared.node.id);
            if let Some(p) = prepared.node.parent_id {
                let found = match lookup(nodes, p) {
                    Some(n) => Some(n),
                    None => created(ops, p, i),
                };
                lemma_finds_parent(nodes, ops, i, prepared.node, found);
            }
        },
        PreparedBatchOperation::SetReferences { prepared, expected_version, references } => {
            lemma_lookup(nodes, prepared.node.id);
            if let Some(p) = prepared.node.parent_id {
                let found = match lookup(nodes, p) {
                    Some(n) => Some(n),
                    None => created(ops, p, i),
                };
                lemma_finds_parent(nodes, ops, i, prepared.node, found);
            }
        },
        PreparedBatchOperation::Remove(removal) => {
            let id = removal.node_id;
            let up = links(nodes);
            if removal_overlaps(nodes, ops, id, i) {
                let k = choose|k: int|
                    0 <= k < nodes.len() && below(up, id, (#[trigger] nodes[k]).id) && removes(
                        nodes,
                        ops,
                        nodes[k].id,
                        i,
                    );
                let j = choose|j: int|
                    0 <= j < i && (#[trigger] ops[j]) is Remove && below(
                        up,
                        ops[j]->Remove_0.node_id,
                        nodes[k].id,
                    );
                assert(ops[j] is Remove && below(up, ops[j].id(), nodes[k].id));
            } else {
                assert forall|j: int, k: int|
                    0 <= j < i && 0 <= k < nodes.len() && (#[trigger] ops[j]) is Remove implies !(
                below(up, id, (#[trigger] nodes[k]).id) && below(
                    up,
                    ops[j].id(),
                    nodes[k].id,
                )) by {
                    if below(up, id, nodes[k].id) && below(up, ops[j].id(), nodes[k].id) {
                        assert(removes(nodes, ops, nodes[k].id, i));
                    }
                }
            }
        },
    }
}

proof fn lemma_operations(nodes: Seq<Node>, ops: Seq<PreparedBatchOperation>, m: int)
    requires
        0 <= m <= ops.len(),
        first_refusal(ops.len() as int, |i: int| operation_refusal(nodes, ops, i)) is None,
    ensures
        forall|i: int| 0 <= i < m ==> #[trigger] may_stand(nodes, ops, i),
    decreases m,
{
    if m > 0 {
        lemma_operations(nodes, ops, m - 1);
        let check = |i: int| operation_refusal(nodes, ops, i);
        lemma_passed(ops.len() as int, check, m - 1);
        assert(check(m - 1) is None);
        lemma_operation(nodes, ops, m - 1);
    }
}

/// Whether an operation stays clear of the removed subtrees: neither its node nor its parent is
/// in one.
pub open spec fn stays_clear(nodes: Seq<Node>, ops: Seq<PreparedBatchOperation>, i: int) -> bool {
    forall|j: int|
        0 <= j < ops.len() && (#[trigger] ops[j]) is Remove && !(ops[i] is Remove) ==> {
            &&& !(present(nodes, ops[i].id()) && below(links(nodes), ops[j].id(), ops[i].id()))
            &&& ops[i].parent() matches Some(p) ==> !(present(nodes, p) && below(
                links(nodes),
                ops[j].id(),
                p,
            ))
        }
}

proof fn lemma_conflict(nodes: Seq<Node>, ops: Seq<PreparedBatchOperation>, i: int)
    requires
        0 <= i < ops.len(),
    ensures
        conflict_refusal(nodes, ops, i) is None <==> stays_clear(nodes, ops, i),
{
    let n = ops.len() as int;
    let up = links(nodes);
    if conflict_refusal(nodes, ops, i) is None {
        assert forall|j: int|
            0 <= j < ops.len() && (#[trigger] ops[j]) is Remove && !(ops[i] is Remove) implies {
            &&& !(present(nodes, ops[i].id()) && below(up, ops[j].id(), ops[i].id()))
            &&& ops[i].parent() matches Some(p) ==> !(present(nodes, p) && below(
                up,
                ops[j].id(),
                p,
            ))
        } by {
            if below(up, ops[j].id(), ops[i].id()) {
                assert(removes(nodes, ops, ops[i].id(), n));
            }
            if ops[i].parent() is Some && below(up, ops[j].id(), ops[i].parent()->0) {
                assert(removes(nodes, ops, ops[i].parent()->0, n));
            }
        }
    }
    if stays_clear(nodes, ops, i) && !(ops[i] is Remove) {
        if removes(nodes, ops, ops[i].id(), n) {
            let j = choose|j: int|
                0 <= j < n && (#[trigger] ops[j]) is Remove && below(
                    up,
                    ops[j]->Remove_0.node_id,
                    ops[i].id(),
                );
            assert(ops[j] is Remove && below(up, ops[j].id(), ops[i].id()));
        }
        if ops[i].parent() is Some && removes(nodes, ops, ops[i].parent()->0, n) {
            let p = ops[i].parent()->0;
            let j = choose|j: int|
                0 <= j < n && (#[trigger] ops[j]) is Remove && below(
                    up,
                    ops[j]->Remove_0.node_id,
                    p,
                );
            assert(ops[j] is Remove && below(up, ops[j].id(), p));
        }
    }
}

/// A mutation batch is admitted exactly when it has one to fifty operations, each may stand
/// beside those before it, and each stays clear of what the batch removes.
pub proof fn law_mutation_batches_are_admitted(nodes: Seq<Node>, ops: Seq<PreparedBatchOperation>)
    ensures
        batch_refusal(nodes, ops) is None <==> {
            &&& 1 <= ops.len() <= 50
            &&& forall|i: int| 0 <= i < ops.len() ==> #[trigger] may_stand(nodes, ops, i)
            &&& forall|i: int| 0 <= i < ops.len() ==> #[trigger] stays_clear(nodes, ops, i)
        },
{
    let n = ops.len() as int;
    let check = |i: int| operation_refusal(nodes, ops, i);
    let clear = |i: int| conflict_refusal(nodes, ops, i);
    if batch_refusal(nodes, ops) is None {
        lemma_operations(nodes, ops, n);
        assert forall|i: int| 0 <= i < n implies #[trigger] stays_clear(nodes, ops, i) by {
            lemma_passed(n, clear, i);
            assert(clear(i) is None);
            lemma_conflict(nodes, ops, i);
        }
    }
    if 1 <= n <= 50 && (forall|i: int| 0 <= i < n ==> #[trigger] may_stand(nodes, ops, i)) && (
    forall|i: int| 0 <= i < n ==> #[trigger] stays_clear(nodes, ops, i)) {
        assert forall|i: int| 0 <= i < n implies (#[trigger] check(i)) is None by {
            assert forall|j: int| 0 <= j < i implies #[trigger] may_stand(nodes, ops, j) by {}
            lemma_operation(nodes, ops, i);
            assert(may_stand(nodes, ops, i));
        }
        lemma_nothing_refused(n, check);
        assert forall|i: int| 0 <= i < n implies (#[trigger] clear(i)) is None by {
            lemma_conflict(nodes, ops, i);
            assert(stays_clear(nodes, ops, i));
        }
        lemma_nothing_refused(n, clear);
    }
}

/// Whether a move of a tree batch may stand: no other names the node; the node is there with a
/// parent and under the expected version; the new parent is there and takes its type.
pub open spec fn may_be_moved(nodes: Seq<Node>, batch: TreeBatch, i: int) -> bool {
    let node = batch.moves[i].prepared.node;
    &&& forall|j: int| 0 <= j < i ==> (#[trigger] batch.moves[j]).prepared.node.id != node.id
    &&& present(nodes, node.id)
    &&& lookup(nodes, node.id)->0.parent_id is Some
    &&& lookup(nodes, node.id)->0.version == batch.moves[i].expected_version
    &&& node.parent_id is Some
    &&& present(nodes, node.parent_id->0)
    &&& takes_type(lookup(nodes, node.parent_id->0)->0, node)
}

/// Whether a move keeps away from the rest of the batch: no other moved node is above or below
/// the node, and no removed subtree holds the node or its new parent.
pub open spec fn keeps_away(nodes: Seq<Node>, batch: TreeBatch, i: int) -> bool {
    let up = links(nodes);
    let node = batch.moves[i].prepared.node;
    &&& forall|j: int|
        i < j < batch.moves.len() ==> !below(
            up,
            node.id,
            (#[trigger] batch.moves[j]).prepared.node.id,
        ) && !below(up, batch.moves[j].prepared.node.id, node.id)
    &&& forall|j: int|
        0 <= j < batch.removals.len() ==> !below(
            up,
            (#[trigger] batch.removals[j]).node_id,
            node.id,
        ) && !below(up, batch.removals[j].node_id, node.parent_id->0)
}

/// Whether a removal of a tree batch may stand: nothing else names the node; it is there with a
/// parent and under the expected version; and its subtree shares no node with an earlier one.
pub open spec fn may_be_removed(nodes: Seq<Node>, batch: TreeBatch, i: int) -> bool {
    let removal = batch.removals[i];
    &&& forall|j: int|
        0 <= j < batch.moves.len() ==> (#[trigger] batch.moves[j]).prepared.node.id
            != removal.node_id
    &&& forall|j: int| 0 <= j < i ==> (#[trigger] batch.removals[j]).node_id != removal.node_id
    &&& present(nodes, removal.node_id)
    &&& lookup(nodes, removal.node_id)->0.parent_id is Some
    &&& lookup(nodes, removal.node_id)->0.version == removal.expected_version
    &&& forall|j: int, k: int|
        0 <= j < i && 0 <= k < nodes.len() ==> !(below(
            links(nodes),
            removal.node_id,
            (#[trigger] nodes[k]).id,
        ) && below(links(nodes), (#[trigger] batch.removals[j]).node_id, nodes[k].id))
}

proof fn lemma_move(nodes: Seq<Node>, batch: TreeBatch, i: int)
    requires
        0 <= i < batch.moves.len(),
    ensures
        batch.move_refusal(nodes, i) is None <==> may_be_moved(nodes, batch, i),
{
    let node = batch.moves[i].prepared.node;
    if is_moved(batch.moves, node.id, i) {
        let j = choose|j: int| 0 <= j < i && #[trigger] moved_id(batch.moves, j) == node.id;
        assert(batch.moves[j].prepared.node.id == node.id);
    } else {
        assert forall|j: int| 0 <= j < i implies (#[trigger] batch.moves[j]).prepared.node.id
            != node.id by {
            assert(moved_id(batch.moves, j) == batch.moves[j].prepared.node.id);
        }
    }
    if node.parent_id is Some && present(nodes, node.parent_id->0) {
        lemma_takes_type(lookup(nodes, node.parent_id->0)->0, node);
    }
}

proof fn lemma_removal(nodes: Seq<Node>, batch: TreeBatch, i: int)
    requires
        0 <= i < batch.removals.len(),
    ensures
        batch.removal_refusal(nodes, i) is None <==> may_be_removed(nodes, batch, i),
{
    let removal = batch.removals[i];
    let id = removal.node_id;
    let up = links(nodes);
    let m = batch.moves.len() as int;
    if is_moved(batch.moves, id, m) {
        let j = choose|j: int| 0 <= j < m && #[trigger] moved_id(batch.moves, j) == id;
        assert(batch.moves[j].prepared.node.id == id);
    } else {
        assert forall|j: int| 0 <= j < m implies (#[trigger] batch.moves[j]).prepared.node.id
            != id by {
            assert(moved_id(batch.moves, j) == batch.moves[j].prepared.node.id);
        }
    }
    if batch.overlaps(nodes, id, i) {
        let k = choose|k: int|
            0 <= k < nodes.len() && below(up, id, (#[trigger] nodes[k]).id) && takes(
                nodes,
                batch.removals,
                nodes[k].id,
                i,
            );
        let j = choose|j: int|
            0 <= j < i && below(up, #[trigger] batch.removals[j].node_id, nodes[k].id);
        assert(below(up, batch.removals[j].node_id, nodes[k].id));
    } else {
        assert forall|j: int, k: int| 0 <= j < i && 0 <= k < nodes.len() implies !(below(
            up,
            id,
            (#[trigger] nodes[k]).id,
        ) && below(up, (#[trigger] batch.removals[j]).node_id, nodes[k].id)) by {
            if below(up, id, nodes[k].id) && below(up, batch.removals[j].node_id, nodes[k].id) {
                assert(takes(nodes, batch.removals, nodes[k].id, i));
            }
        }
    }
}

proof fn lemma_relation(nodes: Seq<Node>, batch: TreeBatch, i: int)
    requires
        0 <= i < batch.moves.len(),
    ensures
        batch.relation_refusal(nodes, i) is None <==> keeps_away(nodes, batch, i),
{
    let up = links(nodes);
    let id = moved_id(batch.moves, i);
    let to = destination(batch.moves, i);
    let n = batch.removals.len() as int;
    if exists|j: int|
        i < j < batch.moves.len() && (below(up, id, #[trigger] moved_id(batch.moves, j)) || below(
            up,
            moved_id(batch.moves, j),
            id,
        )) {
        let j = choose|j: int|
            i < j < batch.moves.len() && (below(up, id, #[trigger] moved_id(batch.moves, j))
                || below(up, moved_id(batch.moves, j), id));
        assert(batch.moves[j].prepared.node.id == moved_id(batch.moves, j));
    } else {
        assert forall|j: int| i < j < batch.moves.len() implies !below(
            up,
            id,
            (#[trigger] batch.moves[j]).prepared.node.id,
        ) && !below(up, batch.moves[j].prepared.node.id, id) by {
            assert(moved_id(batch.moves, j) == batch.moves[j].prepared.node.id);
        }
    }
    if takes(nodes, batch.removals, id, n) {
        let j = choose|j: int|
            0 <= j < n && below(up, #[trigger] batch.removals[j].node_id, id);
        assert(below(up, batch.removals[j].node_id, id));
    }
    if takes(nodes, batch.removals, to, n) {
        let j = choose|j: int|
            0 <= j < n && below(up, #[trigger] batch.removals[j].node_id, to);
        assert(below(up, batch.removals[j].node_id, to));
    }
    if batch.relation_refusal(nodes, i) is None {
        assert forall|j: int| 0 <= j < batch.removals.len() implies !below(
            up,
            (#[trigger] batch.removals[j]).node_id,
            id,
        ) && !below(up, batch.removals[j].node_id, to) by {
            assert(batch.removals[j].node_id == batch.removals[j].node_id);
        }
    }
}

/// A tree batch is admitted exactly when it has one to fifty operations, each move and each
/// removal may stand, the moves keep away from one another and from what is removed, and the
/// moves taken together close no cycle.
pub proof fn law_tree_batches_are_admitted(nodes: Seq<Node>, batch: TreeBatch)
    requires
        nodes.len() <= u32::MAX,
    ensures
        batch.refusal(nodes) is None <==> {
            &&& 1 <= batch.moves.len() + batch.removals.len() <= 50
            &&& forall|i: int|
                0 <= i < batch.moves.len() ==> #[trigger] may_be_moved(nodes, batch, i)
            &&& forall|i: int|
                0 <= i < batch.removals.len() ==> #[trigger] may_be_removed(nodes, batch, i)
            &&& forall|i: int|
                0 <= i < batch.moves.len() ==> #[trigger] keeps_away(nodes, batch, i)
            &&& forall|i: int|
                0 <= i < batch.moves.len() ==> ends(
                    moved_links(links(nodes), batch.moves, batch.moves.len() as int),
                    (#[trigger] batch.moves[i]).prepared.node.id,
                )
        },
{
    let m = batch.moves.len() as int;
    let r = batch.removals.len() as int;
    let moved = |i: int| batch.move_refusal(nodes, i);
    let removed = |i: int| batch.removal_refusal(nodes, i);
    let related = |i: int| batch.relation_refusal(nodes, i);
    let cycled = |i: int| batch.cycle_refusal(nodes, i);
    let after = moved_links(links(nodes), batch.moves, m);
    crate::health_laws::lemma_counted_all(
        nodes,
        |n: Node| takes(nodes, batch.removals, n.id, batch.removals.len() as int),
        nodes.len() as int,
    );
    if batch.refusal(nodes) is None {
        assert forall|i: int| 0 <= i < m implies #[trigger] may_be_moved(nodes, batch, i) by {
            lemma_passed(m, moved, i);
            assert(moved(i) is None);
            lemma_move(nodes, batch, i);
        }
        assert forall|i: int| 0 <= i < r implies #[trigger] may_be_removed(nodes, batch, i) by {
            lemma_passed(r, removed, i);
            assert(removed(i) is None);
            lemma_removal(nodes, batch, i);
        }
        assert forall|i: int| 0 <= i < m implies #[trigger] keeps_away(nodes, batch, i) by {
            lemma_passed(m, related, i);
            assert(related(i) is None);
            lemma_relation(nodes, batch, i);
        }
        assert forall|i: int| 0 <= i < m implies ends(
            after,
            (#[trigger] batch.moves[i]).prepared.node.id,
        ) by {
            lemma_passed(m, cycled, i);
            assert(cycled(i) is None);
        }
    }
    if 1 <= m + r <= 50 && (forall|i: int|
        0 <= i < m ==> #[trigger] may_be_moved(nodes, batch, i)) && (forall|i: int|
        0 <= i < r ==> #[trigger] may_be_removed(nodes, batch, i)) && (forall|i: int|
        0 <= i < m ==> #[trigger] keeps_away(nodes, batch, i)) && (forall|i: int|
        0 <= i < m ==> ends(after, (#[trigger] batch.moves[i]).prepared.node.id)) {
        assert forall|i: int| 0 <= i < m implies (#[trigger] moved(i)) is None by {
            assert(may_be_moved(nodes, batch, i));
            lemma_move(nodes, batch, i);
        }
        assert forall|i: int| 0 <= i < r implies (#[trigger] removed(i)) is None by {
            assert(may_be_removed(nodes, batch, i));
            lemma_removal(nodes, batch, i);
        }
        assert forall|i: int| 0 <= i < m implies (#[trigger] related(i)) is None by {
            assert(keeps_away(nodes, batch, i));
            lemma_relation(nodes, batch, i);
        }
        assert forall|i: int| 0 <= i < m implies (#[trigger] cycled(i)) is None by {
            assert(ends(after, batch.moves[i].prepared.node.id));
        }
        lemma_nothing_refused(m, moved);
        lemma_nothing_refused(r, removed);
        lemma_nothing_refused(m, related);
        lemma_nothing_refused(m, cycled);
    }
}

/// A set of explicit references is admitted exactly when each starts at the node, is explicit,
/// and repeats no earlier one in type and target.
pub proof fn law_explicit_references_are_admitted(
    t: Tables,
    id: NodeId,
    references: Seq<ReferenceView>,
)
    ensures
        first_refusal(
            references.len() as int,
            |i: int| t.explicit_refusal(id, references, i),
        ) is None <==> {
            &&& forall|i: int|
                0 <= i < references.len() ==> (#[trigger] references[i]).source_node_id == id
                    && references[i].origin == ReferenceOrigin::Explicit
            &&& forall|i: int, j: int|
                0 <= j < i < references.len() ==> (#[trigger] references[j]).reference_type != (
                #[trigger] references[i]).reference_type || references[j].target
                    != references[i].target
        },
{
    let n = references.len() as int;
    let check = |i: int| t.explicit_refusal(id, references, i);
    if first_refusal(n, check) is None {
        assert forall|i: int| 0 <= i < n implies (#[trigger] references[i]).source_node_id == id
            && references[i].origin == ReferenceOrigin::Explicit by {
            lemma_passed(n, check, i);
            assert(check(i) is None);
        }
        assert forall|i: int, j: int| 0 <= j < i < n implies (
        #[trigger] references[j]).reference_type != (#[trigger] references[i]).reference_type
            || references[j].target != references[i].target by {
            lemma_passed(n, check, i);
            assert(check(i) is None);
        }
    }
    if (forall|i: int|
        0 <= i < n ==> (#[trigger] references[i]).source_node_id == id && references[i].origin
            == ReferenceOrigin::Explicit) && (forall|i: int, j: int|
        0 <= j < i < n ==> (#[trigger] references[j]).reference_type != (
        #[trigger] references[i]).reference_type || references[j].target != references[i].target) {
        assert forall|i: int| 0 <= i < n implies (#[trigger] check(i)) is None by {
            assert(references[i].source_node_id == id);
        }
        lemma_nothing_refused(n, check);
    }
}

} // verus!
