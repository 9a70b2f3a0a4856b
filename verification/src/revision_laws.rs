//! The workspace revision moves on with every change, so that cursors of an earlier
//! state are refused.

use crate::clone::{CloneRecords, Cloning};
use crate::create::{derive_step, insert_node_step, insert_revision_step};
use crate::diagnostics::{preserved, RebuiltNode};
use crate::edits::shifted;
use crate::model::{DerivedNodeRecords, Node, NodeId, ReferenceView, Refusal, RevisionView};
use crate::mutate::{run, MutationOutcome, PreparedNodeMutation};
use crate::mutation_batch::{operation_step, PreparedBatchOperation};
use crate::paging::{CursorView, PaginationError, PositionView};
use crate::reorder::{lemma_derived_nodes, lemma_references_nodes, Reorder, SiblingHash};
use crate::tables::{reference_views, Tables};
use crate::tree_batch::TreeBatch;
use vstd::prelude::*;

verus! {

proof fn lemma_write_keeps_revision(
    t: Tables,
    node: Node,
    expected: u64,
    revision: RevisionView,
    derived: DerivedNodeRecords,
)
    requires
        t.write(node, expected, revision, derived) is Ok,
    ensures
        t.write(node, expected, revision, derived)->Ok_0.revision == t.revision,
{
    let a = t.update_node(node, expected)->Ok_0;
    let b = a.insert_revision(revision)->Ok_0;
    lemma_derived_nodes(b, node.id, derived);
}

/// Steps that keep the revision counter keep it together.
proof fn lemma_run_keeps_revision(
    t: Tables,
    n: int,
    step: spec_fn(Tables, int) -> Result<Tables, Refusal>,
)
    requires
        run(t, n, step) is Ok,
        forall|v: Tables, i: int| #[trigger]
            step(v, i) is Ok ==> step(v, i)->Ok_0.revision == v.revision,
    ensures
        run(t, n, step)->Ok_0.revision == t.revision,
    decreases n,
{
    if n > 0 {
        lemma_run_keeps_revision(t, n - 1, step);
        let v = run(t, n - 1, step)->Ok_0;
        assert(step(v, n - 1) is Ok);
    }
}

/// Whether a cursor of one state of the workspace is refused in another one.
pub open spec fn is_stale(cursor: CursorView, t: Tables, u: Tables) -> bool {
    cursor.revision == t.revision ==> cursor.resumed(cursor.scope, u.revision) == Err::<
        PositionView,
        PaginationError,
    >(PaginationError::StaleCursor)
}

/// Every applied change of a node makes outstanding cursors stale; a change that
/// changes nothing leaves the workspace as it is.
pub proof fn law_update_stales_cursors(
    t: Tables,
    node: Node,
    expected: u64,
    revision: RevisionView,
    derived: DerivedNodeRecords,
    cursor: CursorView,
)
    requires
        t.revision < u64::MAX,
        t.replace(node, expected, revision, derived) is Ok,
    ensures
        ({
            let (u, outcome) = t.replace(node, expected, revision, derived)->Ok_0;
            &&& outcome == MutationOutcome::Applied ==> u.revision == t.revision + 1 && is_stale(
                cursor,
                t,
                u,
            )
            &&& outcome == MutationOutcome::NoOp ==> u == t
        }),
{
    if t.write(node, expected, revision, derived) is Ok {
        lemma_write_keeps_revision(t, node, expected, revision, derived);
    }
}

/// Creating nodes makes outstanding cursors stale.
pub proof fn law_creation_stales_cursors(
    t: Tables,
    parts: Seq<PreparedNodeMutation>,
    cursor: CursorView,
)
    requires
        t.revision < u64::MAX,
        t.create(parts) is Ok,
    ensures
        t.create(parts)->Ok_0.revision == t.revision + 1,
        is_stale(cursor, t, t.create(parts)->Ok_0),
{
    let n = parts.len() as int;
    let nodes = insert_node_step(parts);
    let revisions = insert_revision_step(parts);
    let records = derive_step(parts);
    lemma_run_keeps_revision(t, n, nodes);
    let u = run(t, n, nodes)->Ok_0;
    lemma_run_keeps_revision(u, n, revisions);
    let v = run(u, n, revisions)->Ok_0;
    assert forall|w: Tables, i: int| #[trigger] records(w, i) is Ok implies records(
        w,
        i,
    )->Ok_0.revision == w.revision by {
        lemma_derived_nodes(w, parts[i].node.id, parts[i].derived);
    }
    lemma_run_keeps_revision(v, n, records);
}

/// Removing a subtree makes outstanding cursors stale.
pub proof fn law_removal_stales_cursors(t: Tables, id: NodeId, cursor: CursorView)
    requires
        t.revision < u64::MAX,
    ensures
        t.remove_below(id).advanced().revision == t.revision + 1,
        is_stale(cursor, t, t.remove_below(id).advanced()),
{
}

/// Replacing explicit references makes outstanding cursors stale, unless nothing
/// changes.
pub proof fn law_references_stale_cursors(
    t: Tables,
    node: Node,
    expected: u64,
    revision: RevisionView,
    derived: DerivedNodeRecords,
    references: Seq<ReferenceView>,
    cursor: CursorView,
)
    requires
        t.revision < u64::MAX,
        t.set_references(node, expected, revision, derived, references) is Ok,
    ensures
        ({
            let (u, outcome) = t.set_references(
                node,
                expected,
                revision,
                derived,
                references,
            )->Ok_0;
            &&& outcome == MutationOutcome::Applied ==> u.revision == t.revision + 1 && is_stale(
                cursor,
                t,
                u,
            )
            &&& outcome == MutationOutcome::NoOp ==> u == t
        }),
{
    if t.write_references(node, expected, revision, derived, references) is Ok {
        lemma_references_keep_revision(t, node, expected, revision, derived, references);
    }
}

proof fn lemma_references_keep_revision(
    t: Tables,
    node: Node,
    expected: u64,
    revision: RevisionView,
    derived: DerivedNodeRecords,
    references: Seq<ReferenceView>,
)
    requires
        t.write_references(node, expected, revision, derived, references) is Ok,
    ensures
        t.write_references(node, expected, revision, derived, references)->Ok_0.revision
            == t.revision,
{
    lemma_write_keeps_revision(t, node, expected, revision, derived);
    let cleared = t.write(node, expected, revision, derived)->Ok_0.clear_explicit(node.id);
    lemma_references_nodes(cleared, references, references.len() as int);
}

/// Reordering makes outstanding cursors stale, unless the node already stands there.
pub proof fn law_reorder_stales_cursors(
    t: Tables,
    node: Node,
    expected: u64,
    revision: RevisionView,
    derived: DerivedNodeRecords,
    hashes: Seq<SiblingHash>,
    cursor: CursorView,
)
    requires
        t.revision < u64::MAX,
        t.reorder(node, expected, revision, derived, hashes) is Ok,
    ensures
        ({
            let (u, outcome) = t.reorder(node, expected, revision, derived, hashes)->Ok_0;
            &&& outcome == MutationOutcome::Applied ==> u.revision == t.revision + 1 && is_stale(
                cursor,
                t,
                u,
            )
            &&& outcome == MutationOutcome::NoOp ==> u == t
        }),
{
    match t.reorder_plan(node, expected, revision) {
        Ok(Some((parent, from, to))) => {
            let r = Reorder { node, expected, revision, derived, parent, from, to, hashes };
            let step = |u: Tables, i: int| u.reorder_row(t.nodes, r, i);
            assert forall|v: Tables, i: int| #[trigger] step(v, i) is Ok implies step(
                v,
                i,
            )->Ok_0.revision == v.revision by {
                if t.nodes[i].id == node.id && v.write(node, expected, revision, derived) is Ok {
                    lemma_write_keeps_revision(v, node, expected, revision, derived);
                }
            }
            lemma_run_keeps_revision(t, t.nodes.len() as int, step);
        },
        _ => {},
    }
}

/// An applied tree batch makes outstanding cursors stale.
pub proof fn law_tree_batch_stales_cursors(t: Tables, batch: TreeBatch, cursor: CursorView)
    requires
        t.revision < u64::MAX,
        batch.apply(t) is Ok,
    ensures
        is_stale(cursor, t, batch.apply(t)->Ok_0.advanced()),
{
    let step = batch.move_step();
    assert forall|v: Tables, i: int| #[trigger] step(v, i) is Ok implies step(v, i)->Ok_0.revision
        == v.revision by {
        let item = batch.moves[i];
        lemma_write_keeps_revision(
            v,
            item.prepared.node,
            item.expected_version,
            item.prepared.revision@,
            item.prepared.derived,
        );
    }
    lemma_run_keeps_revision(t, batch.moves.len() as int, step);
    let u = run(t, batch.moves.len() as int, step)->Ok_0;
    lemma_removed_keeps_revision(u, batch, batch.removals.len() as int);
}

proof fn lemma_removed_keeps_revision(t: Tables, batch: TreeBatch, n: int)
    ensures
        batch.removed(t, n).revision == t.revision,
    decreases n,
{
    if n > 0 {
        lemma_removed_keeps_revision(t, batch, n - 1);
    }
}

/// An applied mutation batch makes outstanding cursors stale.
pub proof fn law_mutation_batch_stales_cursors(
    t: Tables,
    ops: Seq<PreparedBatchOperation>,
    cursor: CursorView,
)
    requires
        t.revision < u64::MAX,
        t.apply_operations(ops) is Ok,
    ensures
        is_stale(cursor, t, t.apply_operations(ops)->Ok_0.advanced()),
{
    let step = operation_step(ops);
    assert forall|v: Tables, i: int| #[trigger] step(v, i) is Ok implies step(v, i)->Ok_0.revision
        == v.revision by {
        match ops[i] {
            PreparedBatchOperation::Create(item) => {
                let a = v.insert_node(item.node)->Ok_0;
                let b = a.insert_revision(item.revision@)->Ok_0;
                lemma_derived_nodes(b, item.node.id, item.derived);
            },
            PreparedBatchOperation::Replace { prepared, expected_version } => {
                lemma_write_keeps_revision(
                    v,
                    prepared.node,
                    expected_version,
                    prepared.revision@,
                    prepared.derived,
                );
            },
            PreparedBatchOperation::SetReferences { prepared, expected_version, references } => {
                lemma_references_keep_revision(
                    v,
                    prepared.node,
                    expected_version,
                    prepared.revision@,
                    prepared.derived,
                    reference_views(references@),
                );
            },
            PreparedBatchOperation::Remove(removal) => {},
        }
    }
    lemma_run_keeps_revision(t, ops.len() as int, step);
}

/// An applied clone makes outstanding cursors stale.
pub proof fn law_clone_stales_cursors(
    t: Tables,
    c: Cloning,
    records: Seq<CloneRecords>,
    cursor: CursorView,
)
    requires
        t.revision < u64::MAX,
        c.apply(t, records) is Ok,
    ensures
        is_stale(cursor, t, c.apply(t, records)->Ok_0.advanced()),
{
    let room = Tables {
        nodes: shifted(t.nodes, c.request.destination_parent_id, c.position(t.nodes)),
        ..t
    };
    let step = c.step(t.nodes, records);
    assert forall|v: Tables, i: int| #[trigger] step(v, i) is Ok implies step(v, i)->Ok_0.revision
        == v.revision by {
        let node = c.node(t.nodes, i, records[i].content_hash, records[i].revision_hash);
        let a = v.insert_node(node)->Ok_0;
        let b = a.insert_revision(c.revision(node))->Ok_0;
        lemma_derived_nodes(b, node.id, records[i].derived);
    }
    lemma_run_keeps_revision(room, c.rows.len() as int, step);
    let u = run(room, c.rows.len() as int, step)->Ok_0;
    let references = c.all_references(t);
    lemma_references_nodes(u, references, references.len() as int);
}

/// Rebuilding what is derived makes outstanding cursors stale.
pub proof fn law_rebuild_stales_cursors(
    t: Tables,
    rebuilt: Seq<RebuiltNode>,
    cursor: CursorView,
)
    requires
        t.revision < u64::MAX,
        t.rebuild(rebuilt) is Ok,
    ensures
        is_stale(cursor, t, t.rebuild(rebuilt)->Ok_0.advanced()),
{
    let bare = Tables { references: Seq::empty(), sections: Seq::empty(), fts: Seq::empty(), ..t };
    let step = |v: Tables, i: int| v.take_rebuilt(rebuilt[i]);
    assert forall|v: Tables, i: int| #[trigger] step(v, i) is Ok implies step(v, i)->Ok_0.revision
        == v.revision by {
        let w = Tables {
            nodes: crate::diagnostics::rehashed(
                v.nodes,
                rebuilt[i].node_id,
                rebuilt[i].derived.content_hash,
            ),
            ..v
        };
        lemma_derived_nodes(w, rebuilt[i].node_id, rebuilt[i].derived);
    }
    lemma_run_keeps_revision(bare, rebuilt.len() as int, step);
    let u = run(bare, rebuilt.len() as int, step)->Ok_0;
    lemma_references_nodes(u, preserved(t), preserved(t).len() as int);
}

} // verus!
