//! What every operation keeps, and how operations relate to each other.

use crate::diagnostics::{preserved, rehashed, RebuiltNode};
use crate::edits::unresolved_rows;
use crate::model::{
    DerivedNodeRecords, Node, NodeId, ReferenceView, Refusal, RevisionView, TargetView,
};
use crate::mutate::{run, MutationOutcome, PreparedNodeMutation};
use crate::relations::lemma_below_root;
use crate::reorder::{lemma_derived_nodes, lemma_references_nodes, lemma_write_nodes};
use crate::shape::{
    lemma_filter_facts, lemma_insert_leaf, lemma_remove_subtree, lemma_reparent, lemma_rewrite,
    lemma_same_shape, same_shape, survivors,
};
use crate::tables::{
    distinct_slugs, fits_columns, is_extracted, reference_views, storable, RowView, Tables,
};
use crate::tree::{
    below, is_sole_root, is_tree, lemma_position, links, lookup, node_at, position, present,
    unique_ids,
};
use std::sync::Arc;
use vstd::prelude::*;

verus! {

/// Filtering rows keeps them in ascending order of row identity.
pub proof fn lemma_filter_ascending(rows: Seq<RowView>, keep: spec_fn(RowView) -> bool)
    requires
        rows_ascend(rows),
    ensures
        rows_ascend(rows.filter(keep)),
    decreases rows.len(),
{
    reveal(Seq::filter);
    if rows.len() > 0 {
        let init = rows.drop_last();
        lemma_filter_ascending(init, keep);
        lemma_filter_facts(init, keep);
        let sub = init.filter(keep);
        let all = rows.filter(keep);
        assert forall|i: int, j: int| 0 <= i < j < all.len() implies (#[trigger] all[i]).row_id < (
        #[trigger] all[j]).row_id by {
            if j < sub.len() {
                assert(sub[i].row_id < sub[j].row_id);
            } else {
                assert(sub.contains(sub[i]));
                let k = choose|k: int| 0 <= k < init.len() && init[k] == sub[i];
                assert(rows[k].row_id < rows[rows.len() - 1].row_id);
            }
        }
    }
}

/// Whether row identities ascend.
pub open spec fn rows_ascend(rows: Seq<RowView>) -> bool {
    forall|i: int, j: int|
        0 <= i < j < rows.len() ==> (#[trigger] rows[i]).row_id < (#[trigger] rows[j]).row_id
}

pub proof fn lemma_insert_references_ascend(t: Tables, references: Seq<ReferenceView>, n: int)
    requires
        rows_ascend(t.references),
        t.insert_references(references, n) is Ok,
    ensures
        rows_ascend(t.insert_references(references, n)->Ok_0.references),
    decreases n,
{
    if n > 0 {
        lemma_insert_references_ascend(t, references, n - 1);
    }
}

pub proof fn lemma_derived_ascend(t: Tables, id: NodeId, derived: DerivedNodeRecords)
    requires
        rows_ascend(t.references),
        t.replace_derived(id, derived) is Ok,
    ensures
        rows_ascend(t.replace_derived(id, derived)->Ok_0.references),
{
    let keep = |r: RowView| !is_extracted(r.reference, id);
    lemma_filter_ascending(t.references, keep);
    let cleared = Tables {
        references: t.references.filter(keep),
        sections: t.sections.filter(|s: Arc<crate::model::Section>| s.node_id != id),
        fts: t.fts.filter(|f: crate::fts::FtsRowView| f.document.node_id != id),
        ..t
    };
    lemma_insert_references_ascend(
        cleared,
        reference_views(derived.references@),
        derived.references@.len() as int,
    );
}

/// A stored revision repeats no other one.
pub proof fn lemma_revision_unique(t: Tables, revision: RevisionView)
    requires
        t.unique_versions(),
        t.insert_revision(revision) is Ok,
    ensures
        t.insert_revision(revision)->Ok_0.unique_versions(),
{
}

/// Storing a node's new state keeps the workspace well formed if it keeps the
/// tree.
pub proof fn lemma_write_wf(
    t: Tables,
    node: Node,
    expected: u64,
    revision: RevisionView,
    derived: DerivedNodeRecords,
)
    requires
        t.wf(),
        t.write(node, expected, revision, derived) is Ok,
        is_tree(t.update_node(node, expected)->Ok_0.nodes),
    ensures
        t.write(node, expected, revision, derived)->Ok_0.wf(),
{
    lemma_write_nodes(t, node, expected, revision, derived);
    let u = t.update_node(node, expected)->Ok_0;
    let v = u.insert_revision(revision)->Ok_0;
    lemma_revision_unique(u, revision);
    lemma_derived_nodes(v, node.id, derived);
    lemma_derived_ascend(v, node.id, derived);
    let w = v.replace_derived(node.id, derived)->Ok_0;
    assert(w.bounded_versions()) by {
        let p = position(t.nodes, node.id);
        assert forall|i: int| 0 <= i < w.nodes.len() implies storable(
            (#[trigger] w.nodes[i]).version,
        ) by {
            if i != p {
                assert(w.nodes[i] == t.nodes[i]);
            }
        }
    }
    assert(w.unique_versions());
    assert(w.ascending_rows());
}

/// Whether a new state of a node leaves it where it is or takes it to a place
/// outside its own subtree.
pub open spec fn stays_in_tree(t: Tables, node: Node) -> bool {
    ||| node.parent_id == node_at(t.nodes, node.id).parent_id
    ||| node.parent_id is None
    ||| !below(links(t.nodes), node.id, node.parent_id->0)
}

proof fn lemma_update_tree(t: Tables, node: Node, expected: u64)
    requires
        t.wf(),
        t.update_node(node, expected) is Ok,
        stays_in_tree(t, node),
    ensures
        is_tree(t.update_node(node, expected)->Ok_0.nodes),
{
    let p = position(t.nodes, node.id);
    let row = Node { created_at: t.nodes[p].created_at, ..node };
    assert(t.nodes[p].id == node.id);
    lemma_position(t.nodes, p);
    let after = t.nodes.update(p, row);
    let r = choose|r: int| is_sole_root(t.nodes, r);
    assert(t.nodes[r].parent_id is None && (t.nodes[p].parent_id is None <==> p == r));
    if p != r && t.nodes[r].id == node.id {
        assert(t.nodes[r].id == t.nodes[p].id);
    }
    if p == r && node.parent_id is Some {
        lemma_below_root(t.nodes, r, node.parent_id->0);
    }
    if node.parent_id == t.nodes[p].parent_id {
        assert(same_shape(t.nodes, after));
        lemma_same_shape(t.nodes, after);
    } else {
        lemma_reparent(t.nodes, p, row);
    }
}

/// An update that does not take the node below itself leaves a well-formed
/// workspace; a refused one is no update.
pub proof fn law_replace_keeps_tree(
    t: Tables,
    node: Node,
    expected: u64,
    revision: RevisionView,
    derived: DerivedNodeRecords,
)
    requires
        t.wf(),
        stays_in_tree(t, node),
    ensures
        t.replace(node, expected, revision, derived) matches Ok((u, _)) ==> u.wf(),
{
    if t.write(node, expected, revision, derived) is Ok {
        lemma_write_nodes(t, node, expected, revision, derived);
        lemma_update_tree(t, node, expected);
        lemma_write_wf(t, node, expected, revision, derived);
    }
}

/// A move leaves a well-formed workspace, whatever destination it names.
pub proof fn law_move_keeps_tree(
    t: Tables,
    node: Node,
    expected: u64,
    revision: RevisionView,
    derived: DerivedNodeRecords,
)
    requires
        t.wf(),
    ensures
        t.move_node(node, expected, revision, derived) matches Ok((u, _)) ==> u.wf(),
{
    if t.move_node(node, expected, revision, derived) is Ok && t.write(
        node,
        expected,
        revision,
        derived,
    ) is Ok {
        let parent = node.parent_id->0;
        lemma_write_nodes(t, node, expected, revision, derived);
        let r = choose|r: int| is_sole_root(t.nodes, r);
        if present(t.nodes, parent) && present(t.nodes, node.id) {
            let p = position(t.nodes, node.id);
            assert(t.nodes[p].id == node.id);
            if t.nodes[p].parent_id is None {
                lemma_below_root(t.nodes, r, parent);
            }
            lemma_update_tree(t, node, expected);
            lemma_write_wf(t, node, expected, revision, derived);
        }
    }
}

/// A moved node stands below the parent that the move names, every other node
/// where it stood.
pub proof fn law_move_moves_one(
    t: Tables,
    node: Node,
    expected: u64,
    revision: RevisionView,
    derived: DerivedNodeRecords,
)
    requires
        t.wf(),
        t.move_node(node, expected, revision, derived) is Ok,
        t.move_node(node, expected, revision, derived)->Ok_0.1 == MutationOutcome::Applied,
    ensures
        ({
            let u = t.move_node(node, expected, revision, derived)->Ok_0.0;
            &&& lookup(u.nodes, node.id) is Some
            &&& lookup(u.nodes, node.id)->0.parent_id == node.parent_id
            &&& forall|id: NodeId|
                id != node.id ==> #[trigger] lookup(u.nodes, id) == lookup(t.nodes, id)
        }),
{
    lemma_write_nodes(t, node, expected, revision, derived);
    let p = position(t.nodes, node.id);
    let row = Node { created_at: t.nodes[p].created_at, ..node };
    assert(t.nodes[p].id == node.id);
    lemma_rewrite(t.nodes, p, row);
    let u = t.move_node(node, expected, revision, derived)->Ok_0.0;
    assert(u.nodes == t.nodes.update(p, row));
    assert forall|id: NodeId| id != node.id implies #[trigger] lookup(u.nodes, id) == lookup(
        t.nodes,
        id,
    ) by {
        assert(present(u.nodes, id) <==> present(t.nodes, id));
        if present(t.nodes, id) {
            assert(node_at(u.nodes, id) == node_at(t.nodes, id));
        }
    }
    assert(present(u.nodes, node.id));
    assert(node_at(u.nodes, node.id) == row);
}

/// Of two changes planned on the same version, the second is refused with the
/// version that the first one made.
pub proof fn law_second_writer_conflicts(
    t: Tables,
    first: Node,
    second: Node,
    expected: u64,
    revision: RevisionView,
    derived: DerivedNodeRecords,
    other_revision: RevisionView,
    other_derived: DerivedNodeRecords,
)
    requires
        t.wf(),
        first.id == second.id,
        t.replace(first, expected, revision, derived) is Ok,
        t.replace(first, expected, revision, derived)->Ok_0.1 == MutationOutcome::Applied,
    ensures
        t.replace(first, expected, revision, derived)->Ok_0.0.replace(
            second,
            expected,
            other_revision,
            other_derived,
        ) == Err::<(Tables, MutationOutcome), Refusal>(
            Refusal::Conflict {
                node_id: first.id,
                expected,
                actual: (expected + 1) as u64,
            },
        ),
{
    lemma_write_nodes(t, first, expected, revision, derived);
    let p = position(t.nodes, first.id);
    let row = Node { created_at: t.nodes[p].created_at, ..first };
    assert(t.nodes[p].id == first.id);
    lemma_rewrite(t.nodes, p, row);
    let u = t.replace(first, expected, revision, derived)->Ok_0.0;
    assert(u.nodes == t.nodes.update(p, row));
    assert(present(u.nodes, first.id));
    assert(node_at(u.nodes, first.id) == row);
}

/// An applied change appends exactly its own revision; what was recorded before
/// stays recorded.
pub proof fn law_history_only_grows(
    t: Tables,
    node: Node,
    expected: u64,
    revision: RevisionView,
    derived: DerivedNodeRecords,
)
    requires
        t.replace(node, expected, revision, derived) is Ok,
    ensures
        ({
            let (u, outcome) = t.replace(node, expected, revision, derived)->Ok_0;
            match outcome {
                MutationOutcome::Applied => u.revisions == t.revisions.push(revision),
                MutationOutcome::NoOp => u == t,
            }
        }),
{
    if t.write(node, expected, revision, derived) is Ok {
        let v = t.update_node(node, expected)->Ok_0.insert_revision(revision)->Ok_0;
        lemma_derived_nodes(v, node.id, derived);
    }
}

/// Rows that are left out do not make slugs repeat.
pub proof fn lemma_filter_slugs(nodes: Seq<Node>, keep: spec_fn(Node) -> bool)
    requires
        distinct_slugs(nodes),
        unique_ids(nodes.filter(keep)),
    ensures
        distinct_slugs(nodes.filter(keep)),
{
    let kept = nodes.filter(keep);
    lemma_filter_facts(nodes, keep);
    assert forall|i: int, j: int|
        0 <= i < kept.len() && 0 <= j < kept.len() && (#[trigger] kept[i]).parent_id is Some
            && kept[i].parent_id == (#[trigger] kept[j]).parent_id && kept[i].slug@
            == kept[j].slug@ implies i == j by {
        assert(kept.contains(kept[i]) && kept.contains(kept[j]));
        let a = choose|a: int| 0 <= a < nodes.len() && nodes[a] == kept[i];
        let b = choose|b: int| 0 <= b < nodes.len() && nodes[b] == kept[j];
        assert(nodes[a].parent_id is Some && nodes[a].parent_id == nodes[b].parent_id);
        assert(a == b);
        assert(kept[i].id == kept[j].id);
    }
}

/// Rows that are left out do not stop the others from fitting.
pub proof fn lemma_filter_columns(
    t: Tables,
    u: Tables,
    keep: spec_fn(Node) -> bool,
    keep_revision: spec_fn(RevisionView) -> bool,
)
    requires
        fits_columns(t),
        u.nodes == t.nodes.filter(keep),
        u.revisions == t.revisions.filter(keep_revision),
    ensures
        fits_columns(u),
{
    lemma_filter_facts(t.nodes, keep);
    lemma_filter_facts(t.revisions, keep_revision);
    assert forall|i: int| 0 <= i < u.nodes.len() implies storable(
        (#[trigger] u.nodes[i]).created_at,
    ) && storable(u.nodes[i].updated_at) by {
        assert(u.nodes.contains(u.nodes[i]));
        let a = choose|a: int| 0 <= a < t.nodes.len() && t.nodes[a] == u.nodes[i];
        assert(storable(t.nodes[a].created_at));
    }
    assert forall|i: int| 0 <= i < u.revisions.len() implies storable(
        (#[trigger] u.revisions[i]).version,
    ) && storable(u.revisions[i].created_at) by {
        assert(u.revisions.contains(u.revisions[i]));
        let a = choose|a: int| 0 <= a < t.revisions.len() && t.revisions[a] == u.revisions[i];
        assert(storable(t.revisions[a].version));
    }
}

/// Removing the subtree of a node that is not the root leaves a well-formed
/// workspace.
pub proof fn law_removal_keeps_tree(t: Tables, id: NodeId)
    requires
        t.wf(),
        present(t.nodes, id) ==> node_at(t.nodes, id).parent_id is Some,
    ensures
        t.remove_below(id).wf(),
{
    let u = t.remove_below(id);
    lemma_remove_subtree(t.nodes, id);
    assert(u.nodes == survivors(t.nodes, id));
    let up = links(t.nodes);
    let keep = |n: Node| !below(up, id, n.id);
    lemma_filter_facts(t.nodes, keep);
    assert(u.bounded_versions()) by {
        assert forall|i: int| 0 <= i < u.nodes.len() implies storable(
            (#[trigger] u.nodes[i]).version,
        ) by {
            assert(u.nodes.contains(u.nodes[i]));
            let m = choose|m: int| 0 <= m < t.nodes.len() && t.nodes[m] == u.nodes[i];
        }
    }
    let gone = |x: NodeId| present(t.nodes, x) && below(up, id, x);
    let keep_revision = |r: RevisionView| !gone(r.node_id);
    lemma_filter_unique_versions(t.revisions, keep_revision);
    lemma_filter_slugs(t.nodes, keep);
    lemma_filter_columns(t, u, keep, keep_revision);
    let loose = unresolved_rows(t.references, gone);
    assert(rows_ascend(loose)) by {
        assert forall|i: int, j: int| 0 <= i < j < loose.len() implies (#[trigger] loose[i]).row_id
            < (#[trigger] loose[j]).row_id by {
            assert(t.references[i].row_id < t.references[j].row_id);
        }
    }
    lemma_filter_ascending(loose, |r: RowView| !gone(r.reference.source_node_id));
}

/// Whether no two revisions share a node and a version.
pub open spec fn versions_unique(revisions: Seq<RevisionView>) -> bool {
    forall|i: int, j: int|
        0 <= i < revisions.len() && 0 <= j < revisions.len() && (#[trigger] revisions[i]).node_id
            == (#[trigger] revisions[j]).node_id && revisions[i].version == revisions[j].version
            ==> i == j
}

pub proof fn lemma_filter_unique_versions(
    revisions: Seq<RevisionView>,
    keep: spec_fn(RevisionView) -> bool,
)
    requires
        versions_unique(revisions),
    ensures
        versions_unique(revisions.filter(keep)),
    decreases revisions.len(),
{
    reveal(Seq::filter);
    if revisions.len() > 0 {
        let init = revisions.drop_last();
        assert(versions_unique(init)) by {
            assert forall|i: int, j: int|
                0 <= i < init.len() && 0 <= j < init.len() && (#[trigger] init[i]).node_id == (
                #[trigger] init[j]).node_id && init[i].version == init[j].version implies i == j by {
                assert(revisions[i] == init[i] && revisions[j] == init[j]);
            }
        }
        lemma_filter_unique_versions(init, keep);
        lemma_filter_facts(init, keep);
        let sub = init.filter(keep);
        let all = revisions.filter(keep);
        assert forall|i: int, j: int|
            0 <= i < all.len() && 0 <= j < all.len() && (#[trigger] all[i]).node_id == (
            #[trigger] all[j]).node_id && all[i].version == all[j].version implies i == j by {
            if i < sub.len() && j < sub.len() {
                assert(sub[i] == all[i] && sub[j] == all[j]);
            } else if i < sub.len() {
                assert(sub.contains(sub[i]));
                let k = choose|k: int| 0 <= k < init.len() && init[k] == sub[i];
                assert(revisions[k] == all[i] && revisions[revisions.len() - 1] == all[j]);
            } else if j < sub.len() {
                assert(sub.contains(sub[j]));
                let k = choose|k: int| 0 <= k < init.len() && init[k] == sub[j];
                assert(revisions[k] == all[j] && revisions[revisions.len() - 1] == all[i]);
            }
        }
    }
}

/// After a removal, exactly the nodes outside the subtree are left, as they
/// were.
pub proof fn law_removal_is_exact(t: Tables, id: NodeId)
    requires
        t.wf(),
        present(t.nodes, id),
        node_at(t.nodes, id).parent_id is Some,
    ensures
        forall|x: NodeId| #[trigger]
            lookup(t.remove_below(id).nodes, x) == if present(t.nodes, x) && below(
                links(t.nodes),
                id,
                x,
            ) {
                None
            } else {
                lookup(t.nodes, x)
            },
{
    lemma_remove_subtree(t.nodes, id);
    let after = survivors(t.nodes, id);
    assert(t.remove_below(id).nodes == after);
    assert forall|x: NodeId| #[trigger] lookup(t.remove_below(id).nodes, x) == if present(
        t.nodes,
        x,
    ) && below(links(t.nodes), id, x) {
        None
    } else {
        lookup(t.nodes, x)
    } by {
        assert(present(after, x) <==> present(t.nodes, x) && !below(links(t.nodes), id, x));
        if present(after, x) {
            assert(node_at(after, x) == node_at(t.nodes, x));
        }
    }
}

/// After a removal no reference starts at or resolves to a removed node.
pub proof fn law_removal_leaves_no_link(t: Tables, id: NodeId)
    ensures
        forall|i: int|
            0 <= i < t.remove_below(id).references.len() ==> {
                let reference = (#[trigger] t.remove_below(id).references[i]).reference;
                let gone = |x: NodeId| present(t.nodes, x) && below(links(t.nodes), id, x);
                &&& !gone(reference.source_node_id)
                &&& reference.target matches TargetView::Resolved { node_id, .. } ==> !gone(node_id)
            },
{
    let gone = |x: NodeId| present(t.nodes, x) && below(links(t.nodes), id, x);
    let loose = unresolved_rows(t.references, gone);
    let keep = |r: RowView| !gone(r.reference.source_node_id);
    lemma_filter_facts(loose, keep);
    let left = t.remove_below(id).references;
    assert(left == loose.filter(keep));
    assert forall|i: int| 0 <= i < left.len() implies {
        let reference = (#[trigger] left[i]).reference;
        &&& !gone(reference.source_node_id)
        &&& reference.target matches TargetView::Resolved { node_id, .. } ==> !gone(node_id)
    } by {
        assert(left.contains(left[i]));
        let k = choose|k: int| 0 <= k < loose.len() && loose[k] == left[i];
    }
}

/// Renumbering siblings keeps the tree.
pub proof fn law_renumbering_keeps_tree(t: Tables, affected: spec_fn(NodeId) -> bool)
    requires
        t.wf(),
    ensures
        t.renumber(affected).wf(),
        same_shape(t.nodes, t.renumber(affected).nodes),
{
    let u = t.renumber(affected);
    assert(same_shape(t.nodes, u.nodes));
    lemma_same_shape(t.nodes, u.nodes);
    assert(u.bounded_versions()) by {
        assert forall|i: int| 0 <= i < u.nodes.len() implies storable(
            (#[trigger] u.nodes[i]).version,
        ) by {
            assert(u.nodes[i].version == t.nodes[i].version);
        }
    }
}

/// Inserting a node below an existing parent keeps the workspace well formed.
pub proof fn lemma_insert_wf(t: Tables, item_node: Node)
    requires
        t.wf(),
        t.insert_node(item_node) is Ok,
        item_node.parent_id is Some,
    ensures
        t.insert_node(item_node)->Ok_0.wf(),
{
    lemma_insert_leaf(t.nodes, item_node);
    let u = t.insert_node(item_node)->Ok_0;
    assert forall|i: int| 0 <= i < u.nodes.len() implies storable(
        (#[trigger] u.nodes[i]).version,
    ) by {
        if i < t.nodes.len() {
            assert(u.nodes[i] == t.nodes[i]);
        }
    }
}

proof fn lemma_run_inserts_wf(t: Tables, parts: Seq<PreparedNodeMutation>, n: int)
    requires
        t.wf(),
        0 <= n <= parts.len(),
        forall|i: int| 0 <= i < parts.len() ==> (#[trigger] parts[i]).node.parent_id is Some,
        run(t, n, crate::create::insert_node_step(parts)) is Ok,
    ensures
        run(t, n, crate::create::insert_node_step(parts))->Ok_0.wf(),
    decreases n,
{
    if n > 0 {
        lemma_run_inserts_wf(t, parts, n - 1);
        let u = run(t, n - 1, crate::create::insert_node_step(parts))->Ok_0;
        assert(parts[n - 1].node.parent_id is Some);
        lemma_insert_wf(u, parts[n - 1].node);
    }
}

proof fn lemma_run_revisions_wf(t: Tables, parts: Seq<PreparedNodeMutation>, n: int)
    requires
        t.wf(),
        0 <= n <= parts.len(),
        run(t, n, crate::create::insert_revision_step(parts)) is Ok,
    ensures
        run(t, n, crate::create::insert_revision_step(parts))->Ok_0.wf(),
    decreases n,
{
    if n > 0 {
        lemma_run_revisions_wf(t, parts, n - 1);
        let u = run(t, n - 1, crate::create::insert_revision_step(parts))->Ok_0;
        lemma_revision_unique(u, parts[n - 1].revision@);
    }
}

proof fn lemma_run_derive_wf(t: Tables, parts: Seq<PreparedNodeMutation>, n: int)
    requires
        t.wf(),
        0 <= n <= parts.len(),
        run(t, n, crate::create::derive_step(parts)) is Ok,
    ensures
        run(t, n, crate::create::derive_step(parts))->Ok_0.wf(),
    decreases n,
{
    if n > 0 {
        lemma_run_derive_wf(t, parts, n - 1);
        let u = run(t, n - 1, crate::create::derive_step(parts))->Ok_0;
        lemma_derived_nodes(u, parts[n - 1].node.id, parts[n - 1].derived);
        lemma_derived_ascend(u, parts[n - 1].node.id, parts[n - 1].derived);
    }
}

/// Creating nodes leaves a well-formed workspace.
pub proof fn law_creation_keeps_tree(t: Tables, parts: Seq<PreparedNodeMutation>)
    requires
        t.wf(),
    ensures
        t.create(parts) matches Ok(u) ==> u.wf(),
{
    if t.create(parts) is Ok {
        let n = parts.len() as int;
        let check = |i: int| t.creation_refusal(parts, i);
        assert forall|i: int| 0 <= i < parts.len() implies (
        #[trigger] parts[i]).node.parent_id is Some by {
            crate::tree_batch::lemma_passed(n, check, i);
            assert(check(i) == t.creation_refusal(parts, i));
        }
        lemma_run_inserts_wf(t, parts, n);
        let u = run(t, n, crate::create::insert_node_step(parts))->Ok_0;
        lemma_run_revisions_wf(u, parts, n);
        let v = run(u, n, crate::create::insert_revision_step(parts))->Ok_0;
        lemma_run_derive_wf(v, parts, n);
    }
}

/// Replacing the explicit references of a node leaves a well-formed workspace, under
/// the condition of an update.
pub proof fn law_references_keep_tree(
    t: Tables,
    node: Node,
    expected: u64,
    revision: RevisionView,
    derived: DerivedNodeRecords,
    references: Seq<ReferenceView>,
)
    requires
        t.wf(),
        stays_in_tree(t, node),
    ensures
        t.set_references(node, expected, revision, derived, references) matches Ok((u, _))
            ==> u.wf(),
{
    if t.write_references(node, expected, revision, derived, references) is Ok {
        lemma_write_nodes(t, node, expected, revision, derived);
        lemma_update_tree(t, node, expected);
        lemma_write_wf(t, node, expected, revision, derived);
        let v = t.write(node, expected, revision, derived)->Ok_0;
        lemma_filter_ascending(
            v.references,
            |r: RowView|
                !(r.reference.source_node_id == node.id && r.reference.origin
                    == crate::model::ReferenceOrigin::Explicit),
        );
        let cleared = v.clear_explicit(node.id);
        lemma_references_nodes(cleared, references, references.len() as int);
        lemma_insert_references_ascend(cleared, references, references.len() as int);
    }
}

/// Rebuilding what is derived leaves a well-formed workspace with the same tree and
/// the same history.
pub proof fn law_rebuild_keeps_tree(t: Tables, rebuilt: Seq<RebuiltNode>)
    requires
        t.wf(),
    ensures
        t.rebuild(rebuilt) matches Ok(u) ==> u.wf() && same_shape(t.nodes, u.nodes) && u.revisions
            == t.revisions,
{
    if t.rebuild(rebuilt) is Ok {
        let n = rebuilt.len() as int;
        let bare = Tables {
            references: Seq::empty(),
            sections: Seq::empty(),
            fts: Seq::empty(),
            ..t
        };
        let step = |v: Tables, i: int| v.take_rebuilt(rebuilt[i]);
        lemma_rebuild_wf(bare, rebuilt, n, step);
        let u = run(bare, n, step)->Ok_0;
        let kept = preserved(t);
        lemma_references_nodes(u, kept, kept.len() as int);
        lemma_insert_references_ascend(u, kept, kept.len() as int);
    }
}

proof fn lemma_rebuild_wf(
    t: Tables,
    rebuilt: Seq<RebuiltNode>,
    n: int,
    step: spec_fn(Tables, int) -> Result<Tables, Refusal>,
)
    requires
        t.wf(),
        step == (|v: Tables, i: int| v.take_rebuilt(rebuilt[i])),
        run(t, n, step) is Ok,
    ensures
        run(t, n, step)->Ok_0.wf(),
        same_shape(t.nodes, run(t, n, step)->Ok_0.nodes),
        run(t, n, step)->Ok_0.revisions == t.revisions,
    decreases n,
{
    if n > 0 {
        lemma_rebuild_wf(t, rebuilt, n - 1, step);
        let v = run(t, n - 1, step)->Ok_0;
        let id = rebuilt[n - 1].node_id;
        let derived = rebuilt[n - 1].derived;
        let w = Tables { nodes: rehashed(v.nodes, id, derived.content_hash), ..v };
        if present(v.nodes, id) {
            let p = position(v.nodes, id);
            assert(v.nodes[p].id == id);
        }
        assert(same_shape(v.nodes, w.nodes));
        lemma_same_shape(v.nodes, w.nodes);
        assert forall|i: int| 0 <= i < w.nodes.len() implies storable(
            (#[trigger] w.nodes[i]).version,
        ) by {
            assert(w.nodes[i].version == v.nodes[i].version);
        }
        lemma_derived_nodes(w, id, derived);
        lemma_derived_ascend(w, id, derived);
        let u = run(t, n, step)->Ok_0;
        assert(u == w.replace_derived(id, derived)->Ok_0);
        assert(same_shape(t.nodes, u.nodes)) by {
            assert forall|i: int| 0 <= i < t.nodes.len() implies (#[trigger] t.nodes[i]).id
                == u.nodes[i].id && t.nodes[i].parent_id == u.nodes[i].parent_id by {
                assert(v.nodes[i].id == w.nodes[i].id);
            }
        }
    }
}

} // verus!
