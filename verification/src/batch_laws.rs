//! What batches, clones, reorders and pruning keep.

use crate::clone::{renamed, CloneRecords, Cloning};
use crate::edits::{as_order, shifted, sibling_rank};
use crate::laws::{
    law_removal_keeps_tree, law_renumbering_keeps_tree, lemma_derived_ascend,
    lemma_filter_columns, lemma_filter_slugs, lemma_filter_unique_versions, lemma_insert_references_ascend, rows_ascend,
};
use crate::model::{DerivedNodeRecords, Node, NodeHash, NodeId, Refusal, RevisionView};
use crate::mutate::{run, MutationOutcome};
use crate::mutation_batch::{
    batch_links, batch_refusal, operation_refusal, operation_step, PreparedBatchOperation,
};
use crate::removal::{count_where, HistoryPruneReport};
use crate::reorder::{
    lemma_derived_nodes, lemma_references_nodes, lemma_write_nodes, moved_rank, reordered_node,
    Reorder, SiblingHash,
};
use crate::shape::{
    lemma_filter_facts, lemma_insert_leaf, lemma_remove_subtree, lemma_rewrite, lemma_same_shape,
    same_shape, survivors,
};
use crate::tables::{distinct_slugs, fits_columns, storable, RowView, Tables};
use crate::tree::{
    acyclic, below, climb, ends, is_forest, is_sole_root, is_tree, lemma_ends_by_height, lemma_position,
    links, node_at, position, present, unique_ids,
};
use crate::tree_batch::{
    is_moved, lemma_batch_facts, lemma_passed, moved_id, moved_links, AtomicTreeMove, TreeBatch,
};
use vstd::prelude::*;

verus! {

/// Whether everything but the absence of cycles holds, with the identities and
/// the root of `start`.
pub open spec fn in_progress(start: Seq<Node>, t: Tables) -> bool {
    &&& t.nodes.len() == start.len()
    &&& forall|i: int|
        0 <= i < start.len() ==> (#[trigger] t.nodes[i]).id == start[i].id && (
        t.nodes[i].parent_id is None <==> start[i].parent_id is None)
    &&& forall|i: int|
        0 <= i < t.nodes.len() && (#[trigger] t.nodes[i]).parent_id is Some ==> present(
            t.nodes,
            t.nodes[i].parent_id->0,
        )
    &&& t.bounded_versions()
    &&& t.unique_versions()
    &&& t.ascending_rows()
    &&& distinct_slugs(t.nodes)
    &&& fits_columns(t)
}

proof fn lemma_progress_ids(start: Seq<Node>, t: Tables)
    requires
        unique_ids(start),
        in_progress(start, t),
    ensures
        unique_ids(t.nodes),
        forall|id: NodeId| #[trigger] present(t.nodes, id) <==> present(start, id),
        forall|id: NodeId| present(start, id) ==> #[trigger] position(t.nodes, id) == position(start, id),
{
    assert forall|i: int, j: int|
        0 <= i < t.nodes.len() && 0 <= j < t.nodes.len() && #[trigger] t.nodes[i].id
            == #[trigger] t.nodes[j].id implies i == j by {
        assert(start[i].id == start[j].id);
    }
    assert forall|id: NodeId| #[trigger] present(t.nodes, id) <==> present(start, id) by {
        if present(t.nodes, id) {
            let i = position(t.nodes, id);
            assert(t.nodes[i].id == id);
            assert(start[i].id == id);
        }
        if present(start, id) {
            let i = position(start, id);
            assert(start[i].id == id);
            assert(t.nodes[i].id == id);
        }
    }
    assert forall|id: NodeId| present(start, id) implies #[trigger] position(t.nodes, id)
        == position(start, id) by {
        let i = position(start, id);
        assert(start[i].id == id);
        assert(t.nodes[i].id == id);
        lemma_position(t.nodes, i);
    }
}

/// Writing a node that is not the root below an existing parent is progress,
/// and changes its link alone.
proof fn lemma_write_progress(
    start: Seq<Node>,
    t: Tables,
    node: Node,
    expected: u64,
    revision: RevisionView,
    derived: DerivedNodeRecords,
)
    requires
        unique_ids(start),
        in_progress(start, t),
        node_at(start, node.id).parent_id is Some <==> node.parent_id is Some,
        t.write(node, expected, revision, derived) is Ok,
    ensures
        in_progress(start, t.write(node, expected, revision, derived)->Ok_0),
        node.parent_id is Some ==> links(t.write(node, expected, revision, derived)->Ok_0.nodes)
            == links(t.nodes).insert(node.id, node.parent_id->0),
        node.parent_id is None ==> links(t.write(node, expected, revision, derived)->Ok_0.nodes)
            == links(t.nodes),
{
    lemma_progress_ids(start, t);
    lemma_write_nodes(t, node, expected, revision, derived);
    let p = position(t.nodes, node.id);
    let row = Node { created_at: t.nodes[p].created_at, ..node };
    assert(t.nodes[p].id == node.id);
    assert(present(start, node.id));
    assert(start[p].id == node.id);
    lemma_position(start, p);
    lemma_rewrite(t.nodes, p, row);
    let u = t.update_node(node, expected)->Ok_0;
    assert(u.nodes == t.nodes.update(p, row));
    let v = u.insert_revision(revision)->Ok_0;
    lemma_derived_nodes(v, node.id, derived);
    assert(rows_ascend(v.references));
    lemma_derived_ascend(v, node.id, derived);
    let w = v.replace_derived(node.id, derived)->Ok_0;
    assert forall|i: int| 0 <= i < w.nodes.len() && (#[trigger] w.nodes[i]).parent_id is Some implies present(
        w.nodes,
        w.nodes[i].parent_id->0,
    ) by {
        if i == p {
            assert(present(t.nodes, node.parent_id->0));
        } else {
            assert(w.nodes[i] == t.nodes[i]);
            assert(present(t.nodes, t.nodes[i].parent_id->0));
        }
        assert(present(w.nodes, w.nodes[i].parent_id->0) <==> present(
            t.nodes,
            w.nodes[i].parent_id->0,
        ));
    }
    assert forall|i: int| 0 <= i < w.nodes.len() implies storable(
        (#[trigger] w.nodes[i]).version,
    ) by {
        if i != p {
            assert(w.nodes[i] == t.nodes[i]);
        }
    }
    assert forall|i: int| 0 <= i < start.len() implies (#[trigger] w.nodes[i]).id == start[i].id
        && (w.nodes[i].parent_id is None <==> start[i].parent_id is None) by {
        if i != p {
            assert(w.nodes[i] == t.nodes[i]);
        }
    }
    assert(w.unique_versions());
}

proof fn lemma_moves_progress(t: Tables, batch: TreeBatch, n: int)
    requires
        t.wf(),
        batch.refusal(t.nodes) is None,
        0 <= n <= batch.moves.len(),
        run(t, n, batch.move_step()) is Ok,
    ensures
        in_progress(t.nodes, run(t, n, batch.move_step())->Ok_0),
        links(run(t, n, batch.move_step())->Ok_0.nodes) == moved_links(
            links(t.nodes),
            batch.moves,
            n,
        ),
        forall|i: int|
            0 <= i < t.nodes.len() && !is_moved(batch.moves, t.nodes[i].id, n)
                ==> #[trigger] run(t, n, batch.move_step())->Ok_0.nodes[i] == t.nodes[i],
    decreases n,
{
    lemma_batch_facts(batch, t.nodes);
    if n > 0 {
        lemma_moves_progress(t, batch, n - 1);
        let u = run(t, n - 1, batch.move_step())->Ok_0;
        let change = batch.moves[n - 1];
        let node = change.prepared.node;
        assert(moved_id(batch.moves, n - 1) == node.id);
        assert(present(t.nodes, moved_id(batch.moves, n - 1)));
        lemma_write_progress(
            t.nodes,
            u,
            node,
            change.expected_version,
            change.prepared.revision@,
            change.prepared.derived,
        );
        lemma_write_nodes(
            u,
            node,
            change.expected_version,
            change.prepared.revision@,
            change.prepared.derived,
        );
        lemma_progress_ids(t.nodes, u);
        let w = run(t, n, batch.move_step())->Ok_0;
        let p = position(u.nodes, node.id);
        assert(u.nodes[p].id == node.id);
        assert forall|i: int|
            0 <= i < t.nodes.len() && !is_moved(
                batch.moves,
                t.nodes[i].id,
                n,
            ) implies #[trigger] w.nodes[i] == t.nodes[i] by {
            if i == p {
                assert(t.nodes[i].id == node.id);
                assert(moved_id(batch.moves, n - 1) == t.nodes[i].id);
            }
            if is_moved(batch.moves, t.nodes[i].id, n - 1) {
                let j = choose|j: int|
                    0 <= j < n - 1 && #[trigger] moved_id(batch.moves, j) == t.nodes[i].id;
                assert(moved_id(batch.moves, j) == t.nodes[i].id);
            }
            assert(u.nodes[i] == t.nodes[i]);
        }
    } else {
        assert forall|i: int|
            0 <= i < t.nodes.len() && (#[trigger] t.nodes[i]).parent_id is Some implies present(
            t.nodes,
            t.nodes[i].parent_id->0,
        ) by {}
    }
}

/// Links of nodes that no move concerns stay as they were.
proof fn lemma_unmoved_links(
    up: Map<NodeId, NodeId>,
    moves: Seq<AtomicTreeMove>,
    id: NodeId,
    n: int,
)
    requires
        0 <= n <= moves.len(),
        !is_moved(moves, id, n),
    ensures
        moved_links(up, moves, n).contains_key(id) <==> up.contains_key(id),
        up.contains_key(id) ==> moved_links(up, moves, n)[id] == up[id],
    decreases n,
{
    if n > 0 {
        if is_moved(moves, id, n - 1) {
            let j = choose|j: int| 0 <= j < n - 1 && #[trigger] moved_id(moves, j) == id;
            assert(moved_id(moves, j) == id);
        }
        assert(moved_id(moves, n - 1) != id);
        lemma_unmoved_links(up, moves, id, n - 1);
    }
}

/// A table in progress without cycles is a tree.
proof fn lemma_progress_tree(start: Seq<Node>, t: Tables)
    requires
        is_tree(start),
        in_progress(start, t),
        acyclic(links(t.nodes)),
    ensures
        t.wf(),
{
    lemma_progress_ids(start, t);
    let r = choose|r: int| is_sole_root(start, r);
    assert(is_sole_root(t.nodes, r)) by {
        assert forall|i: int| 0 <= i < t.nodes.len() implies (#[trigger] t.nodes[i].parent_id is None
            <==> i == r) by {
            assert(start[i].parent_id is None <==> i == r);
            assert(t.nodes[i].id == start[i].id);
        }
    }
}

proof fn lemma_removals_wf(t: Tables, v: Tables, batch: TreeBatch, n: int)
    requires
        v.wf(),
        0 <= n <= batch.removals.len(),
        forall|i: int|
            0 <= i < batch.removals.len() ==> present(
                v.nodes,
                #[trigger] batch.removals[i].node_id,
            ) && node_at(v.nodes, batch.removals[i].node_id).parent_id is Some,
    ensures
        batch.removed(v, n).wf(),
        forall|x: NodeId|
            #[trigger] present(batch.removed(v, n).nodes, x) ==> present(v.nodes, x) && node_at(
                batch.removed(v, n).nodes,
                x,
            ) == node_at(v.nodes, x),
    decreases n,
{
    if n > 0 {
        lemma_removals_wf(t, v, batch, n - 1);
        let u = batch.removed(v, n - 1);
        let id = batch.removals[n - 1].node_id;
        assert(present(v.nodes, batch.removals[n - 1].node_id));
        law_removal_keeps_tree(u, id);
        lemma_remove_subtree(u.nodes, id);
        let w = batch.removed(v, n);
        assert(w.nodes == survivors(u.nodes, id));
        assert forall|x: NodeId| #[trigger] present(w.nodes, x) implies present(v.nodes, x)
            && node_at(w.nodes, x) == node_at(v.nodes, x) by {
            assert(present(u.nodes, x));
            assert(node_at(w.nodes, x) == node_at(u.nodes, x));
        }
    }
}

/// An atomic tree batch leaves a well-formed workspace: one root, no orphan, no
/// cycle.
pub proof fn law_tree_batch_keeps_tree(t: Tables, batch: TreeBatch)
    requires
        t.wf(),
        batch.refusal(t.nodes) is None,
    ensures
        batch.apply(t) matches Ok(u) ==> u.wf(),
{
    let m = batch.moves.len() as int;
    if run(t, m, batch.move_step()) is Ok {
        let v = run(t, m, batch.move_step())->Ok_0;
        lemma_moves_progress(t, batch, m);
        lemma_batch_facts(batch, t.nodes);
        let up = links(t.nodes);
        let after = moved_links(up, batch.moves, m);
        assert(acyclic(after)) by {
            assert forall|x: NodeId| #[trigger] ends(after, x) by {
                assert forall|y: NodeId|
                    #![trigger after.contains_key(y)]
                    #![trigger ends(after, y)]
                    ends(after, y) || (after.contains_key(y) <==> up.contains_key(y)) && (
                    after.contains_key(y) ==> after[y] == up[y]) by {
                    if is_moved(batch.moves, y, m) {
                        let j = choose|j: int| 0 <= j < m && #[trigger] moved_id(batch.moves, j) == y;
                        assert(ends(after, moved_id(batch.moves, j)));
                    } else {
                        lemma_unmoved_links(up, batch.moves, y, m);
                    }
                }
                assert(ends(up, x));
                lemma_ends_by_height(up, after, x);
            }
        }
        lemma_progress_tree(t.nodes, v);
        lemma_progress_ids(t.nodes, v);
        assert forall|i: int| 0 <= i < batch.removals.len() implies present(
            v.nodes,
            #[trigger] batch.removals[i].node_id,
        ) && node_at(v.nodes, batch.removals[i].node_id).parent_id is Some by {
            let id = batch.removals[i].node_id;
            assert(present(t.nodes, id));
            let p = position(t.nodes, id);
            assert(t.nodes[p].id == id);
            assert(v.nodes[p] == t.nodes[p]);
        }
        lemma_removals_wf(t, v, batch, batch.removals.len() as int);
        law_renumbering_keeps_tree(
            batch.removed(v, batch.removals.len() as int),
            |p: NodeId| batch.affects(t.nodes, p),
        );
    }
}

/// A planned batch and the same batch applied name the same nodes and count the
/// same removals.
pub proof fn law_plan_matches_application(
    planned: crate::tree_batch::AtomicTreeBatchResult,
    applied: crate::tree_batch::AtomicTreeBatchResult,
    batch: TreeBatch,
    nodes: Seq<Node>,
)
    requires
        crate::tree_batch::describes(planned, batch, nodes, true),
        crate::tree_batch::describes(applied, batch, nodes, false),
    ensures
        planned.moved_node_ids@ == applied.moved_node_ids@,
        planned.removed_root_ids@ == applied.removed_root_ids@,
        planned.removed_node_count == applied.removed_node_count,
{
}

/// Pruning keeps exactly the current revision of every node, and the nodes
/// themselves.
pub proof fn law_prune_keeps_heads(t: Tables)
    requires
        t.wf(),
        t.nodes.len() <= u64::MAX,
        t.revisions.len() <= u64::MAX,
        t.prune() is Ok,
    ensures
        ({
            let (u, report) = t.prune()->Ok_0;
            &&& u.wf()
            &&& u.nodes == t.nodes
            &&& u.revisions.len() == t.nodes.len()
            &&& report.revisions_retained == u.revisions.len()
            &&& forall|i: int|
                0 <= i < u.revisions.len() ==> t.is_head(#[trigger] u.revisions[i])
            &&& forall|i: int|
                0 <= i < t.nodes.len() ==> u.head_recorded(#[trigger] t.nodes[i])
            &&& t.revisions.len() > t.nodes.len() ==> u.revision == t.revision + 1
        }),
{
    let (u, report) = t.prune()->Ok_0;
    let keep = |r: RevisionView| t.is_head(r);
    lemma_filter_facts(t.revisions, keep);
    lemma_filter_unique_versions(t.revisions, keep);
    assert(u.revisions == t.revisions.filter(keep));
    assert(u.unique_versions());
    assert(fits_columns(u)) by {
        assert forall|i: int| 0 <= i < u.revisions.len() implies storable(
            (#[trigger] u.revisions[i]).version,
        ) && storable(u.revisions[i].created_at) by {
            assert(u.revisions.contains(u.revisions[i]));
            let a = choose|a: int| 0 <= a < t.revisions.len() && t.revisions[a] == u.revisions[i];
            assert(storable(t.revisions[a].version));
        }
    }
    let unrecorded = |n: Node| !t.head_recorded(n);
    assert forall|i: int| 0 <= i < t.nodes.len() implies u.head_recorded(#[trigger] t.nodes[i]) by {
        lemma_count_zero(t.nodes, unrecorded, t.nodes.len() as int, i);
        assert(!unrecorded(t.nodes[i]));
        let node = t.nodes[i];
        let k = choose|k: int|
            0 <= k < t.revisions.len() && (#[trigger] t.revisions[k]).node_id == node.id
                && t.revisions[k].version == node.version && t.revisions[k].revision_hash
                == node.revision_hash;
        lemma_position(t.nodes, i);
        assert(t.is_head(t.revisions[k]));
        assert(t.revisions.contains(t.revisions[k]));
        assert(u.revisions.contains(t.revisions[k]));
        let q = choose|q: int| 0 <= q < u.revisions.len() && u.revisions[q] == t.revisions[k];
        assert(u.revisions[q].node_id == node.id);
        assert forall|m: int|
            0 <= m < u.revisions.len() && (#[trigger] u.revisions[m]).node_id
                == node.id implies u.revisions[m].version <= node.version by {
            assert(u.revisions.contains(u.revisions[m]));
            let w = choose|w: int| 0 <= w < t.revisions.len() && t.revisions[w] == u.revisions[m];
            assert(t.revisions[w].node_id == node.id);
        }
    }
}

/// Two sequences without repetition that hold the same are equally long.
proof fn lemma_same_length(a: Seq<NodeId>, b: Seq<NodeId>)
    requires
        a.no_duplicates(),
        b.no_duplicates(),
        forall|x: NodeId| #[trigger] a.contains(x) <==> b.contains(x),
    ensures
        a.len() == b.len(),
{
    a.unique_seq_to_set();
    b.unique_seq_to_set();
    assert(a.to_set() =~= b.to_set()) by {
        assert forall|x: NodeId| #[trigger] a.to_set().contains(x) <==> b.to_set().contains(x) by {
            assert(a.contains(x) <==> b.contains(x));
        }
    }
}

/// Where every head is recorded, there are as many heads as nodes.
proof fn lemma_head_count(t: Tables)
    requires
        unique_ids(t.nodes),
        t.unique_versions(),
        t.invalid_heads() == 0,
    ensures
        t.revisions.filter(|r: RevisionView| t.is_head(r)).len() == t.nodes.len(),
{
    let keep = |r: RevisionView| t.is_head(r);
    let kept = t.revisions.filter(keep);
    lemma_filter_facts(t.revisions, keep);
    lemma_filter_unique_versions(t.revisions, keep);
    let heads = Seq::new(kept.len(), |i: int| kept[i].node_id);
    let ids = Seq::new(t.nodes.len(), |i: int| t.nodes[i].id);
    assert(heads.no_duplicates()) by {
        assert forall|i: int, j: int|
            0 <= i < heads.len() && 0 <= j < heads.len() && i != j implies heads[i] != heads[j] by {
            assert(keep(kept[i]) && keep(kept[j]));
        }
    }
    assert(ids.no_duplicates()) by {
        assert forall|i: int, j: int|
            0 <= i < ids.len() && 0 <= j < ids.len() && i != j implies ids[i] != ids[j] by {
            assert(t.nodes[i].id != t.nodes[j].id);
        }
    }
    assert forall|x: NodeId| #[trigger] heads.contains(x) <==> ids.contains(x) by {
        if heads.contains(x) {
            let i = choose|i: int| 0 <= i < heads.len() && heads[i] == x;
            assert(keep(kept[i]));
            let p = position(t.nodes, x);
            assert(t.nodes[p].id == x);
            assert(ids[p] == x);
        }
        if ids.contains(x) {
            let i = choose|i: int| 0 <= i < ids.len() && ids[i] == x;
            let node = t.nodes[i];
            lemma_count_zero(
                t.nodes,
                |n: Node| !t.head_recorded(n),
                t.nodes.len() as int,
                i,
            );
            lemma_position(t.nodes, i);
            let k = choose|k: int|
                0 <= k < t.revisions.len() && (#[trigger] t.revisions[k]).node_id == node.id
                    && t.revisions[k].version == node.version && t.revisions[k].revision_hash
                    == node.revision_hash;
            assert(keep(t.revisions[k]));
            assert(t.revisions.contains(t.revisions[k]));
            assert(kept.contains(t.revisions[k]));
            let q = choose|q: int| 0 <= q < kept.len() && kept[q] == t.revisions[k];
            assert(heads[q] == x);
        }
    }
    lemma_same_length(heads, ids);
}

/// Pruning succeeds whenever it can be planned, with the planned report, as long as the
/// workspace revision can move on; pruning again removes nothing and changes nothing.
pub proof fn law_prune_follows_its_plan(t: Tables)
    requires
        t.wf(),
        t.nodes.len() <= u64::MAX,
        t.revisions.len() <= u64::MAX,
        t.revision < u64::MAX,
        t.prune_report() is Ok,
    ensures
        t.prune() is Ok,
        ({
            let (u, report) = t.prune()->Ok_0;
            &&& t.prune_report() == Ok::<HistoryPruneReport, Refusal>(report)
            &&& u.prune() is Ok
            &&& u.prune()->Ok_0.0 == u
            &&& u.prune()->Ok_0.1.revisions_removed == 0
        }),
{
    lemma_head_count(t);
    let (u, report) = t.prune()->Ok_0;
    law_prune_keeps_heads(t);
    let unrecorded = |n: Node| !u.head_recorded(n);
    lemma_none_counted(u.nodes, unrecorded, u.nodes.len() as int);
    lemma_head_count(u);
    let keep = |r: RevisionView| u.is_head(r);
    assert forall|i: int| 0 <= i < u.revisions.len() implies keep(#[trigger] u.revisions[i]) by {
        assert(t.is_head(u.revisions[i]));
    }
    lemma_filter_keeps_all(u.revisions, keep);
}

proof fn lemma_filter_keeps_all<T>(rows: Seq<T>, keep: spec_fn(T) -> bool)
    requires
        forall|i: int| 0 <= i < rows.len() ==> keep(#[trigger] rows[i]),
    ensures
        rows.filter(keep) == rows,
    decreases rows.len(),
{
    reveal(Seq::filter);
    if rows.len() > 0 {
        let init = rows.drop_last();
        assert forall|i: int| 0 <= i < init.len() implies keep(#[trigger] init[i]) by {
            assert(init[i] == rows[i]);
        }
        lemma_filter_keeps_all(init, keep);
        assert(keep(rows[rows.len() - 1]));
        assert(init.push(rows.last()) =~= rows);
    } else {
        assert(rows.filter(keep) =~= rows);
    }
}

proof fn lemma_none_counted<T>(rows: Seq<T>, pred: spec_fn(T) -> bool, n: int)
    requires
        0 <= n <= rows.len(),
        forall|i: int| 0 <= i < n ==> !pred(#[trigger] rows[i]),
    ensures
        count_where(rows, pred, n) == 0,
    decreases n,
{
    if n > 0 {
        lemma_none_counted(rows, pred, n - 1);
    }
}

proof fn lemma_count_zero<T>(rows: Seq<T>, pred: spec_fn(T) -> bool, n: int, i: int)
    requires
        0 <= i < n <= rows.len(),
        count_where(rows, pred, n) == 0,
    ensures
        !pred(rows[i]),
    decreases n,
{
    if i < n - 1 {
        lemma_count_zero(rows, pred, n - 1, i);
    }
}

/// What a reorder has done to row `i` of the first `n` rows.
spec fn reordered_row(nodes: Seq<Node>, r: Reorder, i: int, n: int, row: Node) -> bool {
    let sibling = nodes[i];
    if i >= n || sibling.parent_id != Some(r.parent) {
        row == sibling
    } else if sibling.id == r.node.id {
        row == (Node { created_at: sibling.created_at, ..r.node })
    } else {
        &&& row.id == sibling.id
        &&& row.parent_id == sibling.parent_id
        &&& row.slug == sibling.slug
        &&& row.metadata == sibling.metadata
        &&& row.markdown_content == sibling.markdown_content
        &&& row.sibling_order == as_order(
            moved_rank(sibling_rank(nodes, sibling) as int, r.from, r.to) as nat,
        )
        &&& row.sibling_order == sibling.sibling_order ==> row == sibling
        &&& row.sibling_order != sibling.sibling_order ==> {
            &&& row.version == sibling.version + 1
            &&& row.content_hash == sibling.content_hash
            &&& row.created_at == sibling.created_at
            &&& row.updated_at == r.revision.created_at
        }
    }
}

proof fn lemma_reorder_rows(t: Tables, r: Reorder, n: int)
    requires
        t.wf(),
        r.node.parent_id == Some(r.parent),
        0 <= n <= t.nodes.len(),
        run(t, n, |u: Tables, i: int| u.reorder_row(t.nodes, r, i)) is Ok,
    ensures
        ({
            let v = run(t, n, |u: Tables, i: int| u.reorder_row(t.nodes, r, i))->Ok_0;
            &&& in_progress(t.nodes, v)
            &&& same_shape(t.nodes, v.nodes)
            &&& forall|i: int|
                0 <= i < t.nodes.len() ==> reordered_row(
                    t.nodes,
                    r,
                    i,
                    n,
                    #[trigger] v.nodes[i],
                )
        }),
    decreases n,
{
    let step = |u: Tables, i: int| u.reorder_row(t.nodes, r, i);
    if n > 0 {
        lemma_reorder_rows(t, r, n - 1);
        let u = run(t, n - 1, step)->Ok_0;
        let v = run(t, n, step)->Ok_0;
        let sibling = t.nodes[n - 1];
        lemma_position(t.nodes, n - 1);
        lemma_progress_ids(t.nodes, u);
        assert(v == u.reorder_row(t.nodes, r, n - 1)->Ok_0);
        assert(reordered_row(t.nodes, r, n - 1, n - 1, u.nodes[n - 1]));
        assert(position(u.nodes, sibling.id) == n - 1);
        if sibling.parent_id == Some(r.parent) {
            if sibling.id == r.node.id {
                lemma_write_progress(t.nodes, u, r.node, r.expected, r.revision, r.derived);
                lemma_write_nodes(u, r.node, r.expected, r.revision, r.derived);
                assert(v.nodes == u.update_node(r.node, r.expected)->Ok_0.nodes);
            } else {
                let order = as_order(
                    moved_rank(sibling_rank(t.nodes, sibling) as int, r.from, r.to) as nat,
                );
                if sibling.sibling_order != order {
                    let hash = crate::reorder::hash_for(
                        r.hashes,
                        sibling.id,
                        r.hashes.len() as int,
                    )->0;
                    let node = reordered_node(sibling, order, hash, r.revision);
                    lemma_sibling_progress(t.nodes, u, v, node, sibling, n - 1, r.revision);
                }
            }
        }
        assert forall|i: int| 0 <= i < t.nodes.len() implies reordered_row(
            t.nodes,
            r,
            i,
            n,
            #[trigger] v.nodes[i],
        ) by {
            assert(reordered_row(t.nodes, r, i, n - 1, u.nodes[i]));
            if i != n - 1 {
                assert(v.nodes[i] == u.nodes[i]);
            }
        }
        assert(same_shape(t.nodes, v.nodes)) by {
            assert forall|i: int| 0 <= i < t.nodes.len() implies (#[trigger] t.nodes[i]).id
                == v.nodes[i].id && t.nodes[i].parent_id == v.nodes[i].parent_id by {
                assert(reordered_row(t.nodes, r, i, n, v.nodes[i]));
            }
        }
    }
}

proof fn lemma_sibling_progress(
    start: Seq<Node>,
    u: Tables,
    v: Tables,
    node: Node,
    sibling: Node,
    p: int,
    cause: RevisionView,
)
    requires
        unique_ids(start),
        in_progress(start, u),
        0 <= p < start.len(),
        start[p] == sibling,
        u.nodes[p] == sibling,
        node.id == sibling.id,
        node.parent_id == sibling.parent_id,
        position(u.nodes, sibling.id) == p,
        u.update_node(node, sibling.version) is Ok,
        u.update_node(node, sibling.version)->Ok_0.insert_revision(
            crate::reorder::reordered_revision(node, cause),
        ) == Ok::<Tables, Refusal>(v),
    ensures
        in_progress(start, v),
        v.nodes == u.nodes.update(p, Node { created_at: sibling.created_at, ..node }),
{
    let row = Node { created_at: sibling.created_at, ..node };
    lemma_progress_ids(start, u);
    lemma_rewrite(u.nodes, p, row);
    assert forall|i: int| 0 <= i < v.nodes.len() && (#[trigger] v.nodes[i]).parent_id is Some implies present(
        v.nodes,
        v.nodes[i].parent_id->0,
    ) by {
        if i != p {
            assert(v.nodes[i] == u.nodes[i]);
        }
        assert(present(u.nodes, u.nodes[i].parent_id->0));
        assert(present(v.nodes, v.nodes[i].parent_id->0) <==> present(
            u.nodes,
            v.nodes[i].parent_id->0,
        ));
    }
    assert forall|i: int| 0 <= i < v.nodes.len() implies storable(
        (#[trigger] v.nodes[i]).version,
    ) by {
        if i != p {
            assert(v.nodes[i] == u.nodes[i]);
        }
    }
    assert forall|i: int| 0 <= i < start.len() implies (#[trigger] v.nodes[i]).id == start[i].id
        && (v.nodes[i].parent_id is None <==> start[i].parent_id is None) by {
        if i != p {
            assert(v.nodes[i] == u.nodes[i]);
        }
    }
}

/// A reorder leaves a well-formed workspace, puts the node at the position it
/// asked for, gives every sibling the position that is left to it, and changes
/// no other node.
pub proof fn law_reorder_positions(
    t: Tables,
    node: Node,
    expected: u64,
    revision: RevisionView,
    derived: DerivedNodeRecords,
    hashes: Seq<SiblingHash>,
)
    requires
        t.wf(),
        t.reorder(node, expected, revision, derived, hashes) is Ok,
        t.reorder(node, expected, revision, derived, hashes)->Ok_0.1 == MutationOutcome::Applied,
    ensures
        ({
            let u = t.reorder(node, expected, revision, derived, hashes)->Ok_0.0;
            let current = node_at(t.nodes, node.id);
            let from = sibling_rank(t.nodes, current) as int;
            let to = node.sibling_order as int;
            &&& u.wf()
            &&& same_shape(t.nodes, u.nodes)
            &&& forall|i: int|
                0 <= i < t.nodes.len() && t.nodes[i].parent_id == current.parent_id
                    ==> (#[trigger] u.nodes[i]).sibling_order == as_order(
                    moved_rank(sibling_rank(t.nodes, t.nodes[i]) as int, from, to) as nat,
                )
            &&& forall|i: int|
                0 <= i < t.nodes.len() && t.nodes[i].parent_id != current.parent_id
                    ==> #[trigger] u.nodes[i] == t.nodes[i]
        }),
{
    let plan = t.reorder_plan(node, expected, revision)->Ok_0->0;
    let (parent, from, to) = plan;
    let r = Reorder { node, expected, revision, derived, parent, from, to, hashes };
    let n = t.nodes.len() as int;
    let step = |u: Tables, i: int| u.reorder_row(t.nodes, r, i);
    let done = t.reorder(node, expected, revision, derived, hashes)->Ok_0.0;
    let u = run(t, n, step)->Ok_0;
    assert(done == u.advanced());
    lemma_reorder_rows(t, r, n);
    lemma_same_shape(t.nodes, u.nodes);
    lemma_progress_tree(t.nodes, u);
    let p = position(t.nodes, node.id);
    assert(t.nodes[p].id == node.id);
    assert forall|i: int|
        0 <= i < t.nodes.len() && t.nodes[i].parent_id == Some(parent) implies (
    #[trigger] u.nodes[i]).sibling_order == as_order(
        moved_rank(sibling_rank(t.nodes, t.nodes[i]) as int, from, to) as nat,
    ) by {
        assert(reordered_row(t.nodes, r, i, n, u.nodes[i]));
        if t.nodes[i].id == node.id {
            assert(t.nodes[i].id == t.nodes[p].id);
            assert(i == p);
        }
    }
    assert forall|i: int|
        0 <= i < t.nodes.len() && t.nodes[i].parent_id != Some(
            parent,
        ) implies #[trigger] u.nodes[i] == t.nodes[i] by {
        assert(reordered_row(t.nodes, r, i, n, u.nodes[i]));
    }
}

/// A reorder makes a new version of the node and of each sibling that gets another position,
/// changes nothing else of them, and leaves every other node as it was.
pub proof fn law_reorder_makes_versions(
    t: Tables,
    node: Node,
    expected: u64,
    revision: RevisionView,
    derived: DerivedNodeRecords,
    hashes: Seq<SiblingHash>,
    i: int,
)
    requires
        t.wf(),
        t.reorder(node, expected, revision, derived, hashes) is Ok,
        t.reorder(node, expected, revision, derived, hashes)->Ok_0.1 == MutationOutcome::Applied,
        0 <= i < t.nodes.len(),
    ensures
        ({
            let u = t.reorder(node, expected, revision, derived, hashes)->Ok_0.0;
            let a = t.nodes[i];
            let b = u.nodes[i];
            if a.id == node.id {
                b == (Node { created_at: a.created_at, ..node }) && b.version == a.version + 1
            } else if b.sibling_order == a.sibling_order {
                b == a
            } else {
                &&& b.version == a.version + 1
                &&& b.slug == a.slug
                &&& b.metadata == a.metadata
                &&& b.markdown_content == a.markdown_content
                &&& b.content_hash == a.content_hash
                &&& b.created_at == a.created_at
                &&& b.updated_at == revision.created_at
            }
        }),
{
    let plan = t.reorder_plan(node, expected, revision)->Ok_0->0;
    let (parent, from, to) = plan;
    let r = Reorder { node, expected, revision, derived, parent, from, to, hashes };
    let n = t.nodes.len() as int;
    let step = |u: Tables, i: int| u.reorder_row(t.nodes, r, i);
    let u = run(t, n, step)->Ok_0;
    lemma_reorder_rows(t, r, n);
    let p = position(t.nodes, node.id);
    assert(t.nodes[p].id == node.id);
    if t.nodes[i].id == node.id {
        assert(t.nodes[i].id == t.nodes[p].id);
    }
    assert(reordered_row(t.nodes, r, i, n, u.nodes[i]));
}

/// Whether identities are unique, `root` is the one node without a parent, and
/// every parent exists; climbing may not end.
pub open spec fn rooted(t: Tables, root: NodeId) -> bool {
    &&& unique_ids(t.nodes)
    &&& present(t.nodes, root)
    &&& forall|i: int|
        0 <= i < t.nodes.len() ==> ((#[trigger] t.nodes[i]).parent_id is None <==> t.nodes[i].id
            == root)
    &&& forall|i: int|
        0 <= i < t.nodes.len() && (#[trigger] t.nodes[i]).parent_id is Some ==> present(
            t.nodes,
            t.nodes[i].parent_id->0,
        )
    &&& t.bounded_versions()
    &&& t.unique_versions()
    &&& t.ascending_rows()
    &&& distinct_slugs(t.nodes)
    &&& fits_columns(t)
}

proof fn lemma_rooted_insert(t: Tables, root: NodeId, node: Node)
    requires
        rooted(t, root),
        node.parent_id is Some,
        t.insert_node(node) is Ok,
    ensures
        rooted(t.insert_node(node)->Ok_0, root),
{
    let u = t.insert_node(node)->Ok_0;
    assert forall|i: int, j: int|
        0 <= i < u.nodes.len() && 0 <= j < u.nodes.len() && #[trigger] u.nodes[i].id
            == #[trigger] u.nodes[j].id implies i == j by {
        if i < t.nodes.len() && j < t.nodes.len() {
            assert(t.nodes[i].id == t.nodes[j].id);
        } else if i < t.nodes.len() {
            assert(t.nodes[i].id == node.id);
        } else if j < t.nodes.len() {
            assert(t.nodes[j].id == node.id);
        }
    }
    assert forall|id: NodeId| present(t.nodes, id) implies #[trigger] present(u.nodes, id) by {
        let p = position(t.nodes, id);
        assert(t.nodes[p].id == id);
        assert(u.nodes[p].id == id);
    }
    assert forall|i: int| 0 <= i < u.nodes.len() implies ((#[trigger] u.nodes[i]).parent_id is None
        <==> u.nodes[i].id == root) by {
        if i < t.nodes.len() {
            assert(u.nodes[i] == t.nodes[i]);
        }
    }
    assert forall|i: int| 0 <= i < u.nodes.len() && (#[trigger] u.nodes[i]).parent_id is Some implies present(
        u.nodes,
        u.nodes[i].parent_id->0,
    ) by {
        if i < t.nodes.len() {
            assert(u.nodes[i] == t.nodes[i]);
            assert(present(t.nodes, t.nodes[i].parent_id->0));
        }
        assert(present(t.nodes, u.nodes[i].parent_id->0));
    }
    assert forall|i: int| 0 <= i < u.nodes.len() implies storable(
        (#[trigger] u.nodes[i]).version,
    ) by {
        if i < t.nodes.len() {
            assert(u.nodes[i] == t.nodes[i]);
        }
    }
}

proof fn lemma_rooted_write(
    t: Tables,
    root: NodeId,
    node: Node,
    expected: u64,
    revision: RevisionView,
    derived: DerivedNodeRecords,
)
    requires
        rooted(t, root),
        node.parent_id is None <==> node.id == root,
        t.write(node, expected, revision, derived) is Ok,
    ensures
        rooted(t.write(node, expected, revision, derived)->Ok_0, root),
{
    lemma_write_nodes(t, node, expected, revision, derived);
    let p = position(t.nodes, node.id);
    let row = Node { created_at: t.nodes[p].created_at, ..node };
    assert(t.nodes[p].id == node.id);
    lemma_rewrite(t.nodes, p, row);
    let u = t.update_node(node, expected)->Ok_0;
    let v = u.insert_revision(revision)->Ok_0;
    lemma_derived_nodes(v, node.id, derived);
    assert(rows_ascend(v.references));
    lemma_derived_ascend(v, node.id, derived);
    let w = v.replace_derived(node.id, derived)->Ok_0;
    assert(w.nodes == t.nodes.update(p, row));
    assert forall|i: int| 0 <= i < w.nodes.len() implies ((#[trigger] w.nodes[i]).parent_id is None
        <==> w.nodes[i].id == root) by {
        if i != p {
            assert(w.nodes[i] == t.nodes[i]);
        }
    }
    assert forall|i: int| 0 <= i < w.nodes.len() && (#[trigger] w.nodes[i]).parent_id is Some implies present(
        w.nodes,
        w.nodes[i].parent_id->0,
    ) by {
        if i != p {
            assert(w.nodes[i] == t.nodes[i]);
            assert(present(t.nodes, t.nodes[i].parent_id->0));
        }
        assert(present(w.nodes, w.nodes[i].parent_id->0) <==> present(
            t.nodes,
            w.nodes[i].parent_id->0,
        ));
    }
    assert forall|i: int| 0 <= i < w.nodes.len() implies storable(
        (#[trigger] w.nodes[i]).version,
    ) by {
        if i != p {
            assert(w.nodes[i] == t.nodes[i]);
        }
    }
    assert(present(w.nodes, root) <==> present(t.nodes, root));
    assert(w.unique_versions());
}

proof fn lemma_rooted_remove(t: Tables, root: NodeId, id: NodeId)
    requires
        rooted(t, root),
        id != root,
    ensures
        rooted(t.remove_below(id), root),
{
    let u = t.remove_below(id);
    let up = links(t.nodes);
    let keep = |n: Node| !below(up, id, n.id);
    lemma_filter_facts(t.nodes, keep);
    assert(u.nodes == t.nodes.filter(keep));
    crate::tree_batch::lemma_removal_keeps_ids(t, id);
    assert forall|x: NodeId| #[trigger] present(u.nodes, x) <==> present(t.nodes, x) && !below(
        up,
        id,
        x,
    ) by {
        if present(u.nodes, x) {
            let k = position(u.nodes, x);
            assert(u.nodes[k].id == x);
            assert(u.nodes.contains(u.nodes[k]));
            let m = choose|m: int| 0 <= m < t.nodes.len() && t.nodes[m] == u.nodes[k];
            assert(t.nodes[m].id == x);
        }
        if present(t.nodes, x) && !below(up, id, x) {
            let m = position(t.nodes, x);
            assert(t.nodes[m].id == x);
            assert(keep(t.nodes[m]));
            assert(t.nodes.contains(t.nodes[m]));
            assert(u.nodes.contains(t.nodes[m]));
            let k = choose|k: int| 0 <= k < u.nodes.len() && u.nodes[k] == t.nodes[m];
            assert(u.nodes[k].id == x);
        }
    }
    let r = position(t.nodes, root);
    assert(t.nodes[r].id == root);
    lemma_position(t.nodes, r);
    crate::tree::lemma_below_parent(up, id, root);
    assert(present(u.nodes, root));
    assert forall|i: int| 0 <= i < u.nodes.len() implies ((#[trigger] u.nodes[i]).parent_id is None
        <==> u.nodes[i].id == root) by {
        assert(u.nodes.contains(u.nodes[i]));
        let m = choose|m: int| 0 <= m < t.nodes.len() && t.nodes[m] == u.nodes[i];
    }
    assert forall|i: int| 0 <= i < u.nodes.len() && (#[trigger] u.nodes[i]).parent_id is Some implies present(
        u.nodes,
        u.nodes[i].parent_id->0,
    ) by {
        assert(u.nodes.contains(u.nodes[i]));
        let m = choose|m: int| 0 <= m < t.nodes.len() && t.nodes[m] == u.nodes[i];
        lemma_position(t.nodes, m);
        let p = u.nodes[i].parent_id->0;
        assert(present(t.nodes, p));
        crate::tree::lemma_below_parent(up, id, u.nodes[i].id);
        assert(keep(u.nodes[i]));
    }
    assert forall|i: int| 0 <= i < u.nodes.len() implies storable(
        (#[trigger] u.nodes[i]).version,
    ) by {
        assert(u.nodes.contains(u.nodes[i]));
        let m = choose|m: int| 0 <= m < t.nodes.len() && t.nodes[m] == u.nodes[i];
    }
    let gone = |x: NodeId| present(t.nodes, x) && below(up, id, x);
    lemma_filter_unique_versions(t.revisions, |r: RevisionView| !gone(r.node_id));
    lemma_filter_slugs(t.nodes, keep);
    lemma_filter_columns(t, u, keep, |r: RevisionView| !gone(r.node_id));
    let loose = crate::edits::unresolved_rows(t.references, gone);
    assert(rows_ascend(loose)) by {
        assert forall|i: int, j: int| 0 <= i < j < loose.len() implies (#[trigger] loose[i]).row_id
            < (#[trigger] loose[j]).row_id by {
            assert(t.references[i].row_id < t.references[j].row_id);
        }
    }
    crate::laws::lemma_filter_ascending(loose, |r: RowView| !gone(r.reference.source_node_id));
}

/// A node cannot become a second root.
proof fn lemma_no_second_root(t: Tables, root: NodeId, node: Node, expected: u64)
    requires
        rooted(t, root),
        node.parent_id is None,
        t.update_node(node, expected) is Ok,
    ensures
        node.id == root,
{
    let k = position(t.nodes, root);
    assert(t.nodes[k].id == root);
    assert(t.nodes[k].parent_id is None);
}

proof fn lemma_operations_rooted(
    t: Tables,
    ops: Seq<PreparedBatchOperation>,
    root: NodeId,
    n: int,
)
    requires
        t.wf(),
        rooted(t, root),
        batch_refusal(t.nodes, ops) is None,
        0 <= n <= ops.len(),
        run(t, n, operation_step(ops)) is Ok,
    ensures
        rooted(run(t, n, operation_step(ops))->Ok_0, root),
    decreases n,
{
    if n > 0 {
        lemma_operations_rooted(t, ops, root, n - 1);
        let u = run(t, n - 1, operation_step(ops))->Ok_0;
        let op = ops[n - 1];
        let check = |i: int| operation_refusal(t.nodes, ops, i);
        lemma_passed(ops.len() as int, check, n - 1);
        assert(operation_refusal(t.nodes, ops, n - 1) is None);
        let r = position(t.nodes, root);
        assert(t.nodes[r].id == root);
        lemma_position(t.nodes, r);
        let q = position(t.nodes, op.id());
        if present(t.nodes, op.id()) {
            assert(t.nodes[q].id == op.id());
        }
        match op {
            PreparedBatchOperation::Create(item) => {
                let v = u.insert_node(item.node)->Ok_0;
                lemma_rooted_insert(u, root, item.node);
                let w = v.insert_revision(item.revision@)->Ok_0;
                lemma_derived_nodes(w, item.node.id, item.derived);
                assert(rows_ascend(w.references));
                lemma_derived_ascend(w, item.node.id, item.derived);
                assert(rooted(w, root));
                let x = w.replace_derived(item.node.id, item.derived)->Ok_0;
                assert(x.nodes == w.nodes);
                assert(rooted(x, root));
            },
            PreparedBatchOperation::Replace { prepared, expected_version } => {
                assert(ops[n - 1].id() == prepared.node.id);
                if prepared.node.parent_id is None {
                    lemma_no_second_root(u, root, prepared.node, expected_version);
                }
                lemma_rooted_write(
                    u,
                    root,
                    prepared.node,
                    expected_version,
                    prepared.revision@,
                    prepared.derived,
                );
            },
            PreparedBatchOperation::SetReferences { prepared, expected_version, references } => {
                assert(ops[n - 1].id() == prepared.node.id);
                if prepared.node.parent_id is None {
                    lemma_no_second_root(u, root, prepared.node, expected_version);
                }
                lemma_rooted_write(
                    u,
                    root,
                    prepared.node,
                    expected_version,
                    prepared.revision@,
                    prepared.derived,
                );
                let v = u.write(
                    prepared.node,
                    expected_version,
                    prepared.revision@,
                    prepared.derived,
                )->Ok_0;
                let cleared = v.clear_explicit(prepared.node.id);
                crate::laws::lemma_filter_ascending(
                    v.references,
                    |r: RowView|
                        !(r.reference.source_node_id == prepared.node.id && r.reference.origin
                            == crate::model::ReferenceOrigin::Explicit),
                );
                assert(rows_ascend(cleared.references));
                let views = crate::tables::reference_views(references@);
                lemma_references_nodes(cleared, views, views.len() as int);
                lemma_insert_references_ascend(cleared, views, views.len() as int);
                let w = cleared.insert_references(views, views.len() as int)->Ok_0;
                assert(w.nodes == v.nodes);
                assert(rooted(w, root));
            },
            PreparedBatchOperation::Remove(removal) => {
                assert(ops[n - 1].id() == removal.node_id);
                lemma_rooted_remove(u, root, removal.node_id);
            },
        }
    }
}

/// Whether every link of `part` is one of `whole`.
spec fn links_among(part: Map<NodeId, NodeId>, whole: Map<NodeId, NodeId>) -> bool {
    forall|x: NodeId| #[trigger]
        part.contains_key(x) ==> whole.contains_key(x) && whole[x] == part[x]
}

proof fn lemma_climb_among(
    part: Map<NodeId, NodeId>,
    whole: Map<NodeId, NodeId>,
    id: NodeId,
    k: nat,
)
    requires
        links_among(part, whole),
    ensures
        climb(part, id, k) is Some ==> climb(whole, id, k) == climb(part, id, k),
    decreases k,
{
    if k > 0 {
        lemma_climb_among(part, whole, id, (k - 1) as nat);
        if climb(part, id, k) is Some {
            let p = climb(part, id, (k - 1) as nat)->0;
            assert(part.contains_key(p));
        }
    }
}

/// Fewer links close no cycle.
proof fn lemma_acyclic_among(part: Map<NodeId, NodeId>, whole: Map<NodeId, NodeId>)
    requires
        links_among(part, whole),
        acyclic(whole),
    ensures
        acyclic(part),
{
    assert forall|id: NodeId| #[trigger] ends(part, id) by {
        assert(ends(whole, id));
        let k = choose|k: nat| #[trigger] climb(whole, id, k) is None;
        lemma_climb_among(part, whole, id, k);
        assert(climb(part, id, k) is None);
    }
}

/// Inserting a node adds its link alone.
proof fn lemma_insert_links(t: Tables, node: Node)
    requires
        unique_ids(t.nodes),
        node.parent_id is Some,
        t.insert_node(node) is Ok,
    ensures
        links(t.insert_node(node)->Ok_0.nodes) == links(t.nodes).insert(
            node.id,
            node.parent_id->0,
        ),
{
    let u = t.insert_node(node)->Ok_0;
    let n = t.nodes.len() as int;
    assert(unique_ids(u.nodes)) by {
        assert forall|i: int, j: int|
            0 <= i < u.nodes.len() && 0 <= j < u.nodes.len() && #[trigger] u.nodes[i].id
                == #[trigger] u.nodes[j].id implies i == j by {
            if i < n && j < n {
                assert(t.nodes[i].id == t.nodes[j].id);
            } else if i < n {
                assert(t.nodes[i].id == node.id);
            } else if j < n {
                assert(t.nodes[j].id == node.id);
            }
        }
    }
    lemma_position(u.nodes, n);
    assert forall|x: NodeId| x != node.id implies (#[trigger] links(u.nodes).contains_key(x)
        <==> links(t.nodes).contains_key(x)) && (links(t.nodes).contains_key(x) ==> links(
        u.nodes,
    )[x] == links(t.nodes)[x]) by {
        if present(t.nodes, x) {
            let i = position(t.nodes, x);
            assert(t.nodes[i].id == x);
            assert(u.nodes[i] == t.nodes[i]);
            lemma_position(u.nodes, i);
            lemma_position(t.nodes, i);
        }
        if present(u.nodes, x) {
            let i = position(u.nodes, x);
            assert(u.nodes[i].id == x);
            assert(t.nodes[i].id == x);
        }
    }
    assert(links(u.nodes) =~= links(t.nodes).insert(node.id, node.parent_id->0));
}

/// Writing a node sets its link alone.
proof fn lemma_write_links(
    t: Tables,
    root: NodeId,
    node: Node,
    expected: u64,
    revision: RevisionView,
    derived: DerivedNodeRecords,
)
    requires
        rooted(t, root),
        node.parent_id is None <==> node.id == root,
        t.write(node, expected, revision, derived) is Ok,
    ensures
        links(t.write(node, expected, revision, derived)->Ok_0.nodes) == match node.parent_id {
            Some(parent) => links(t.nodes).insert(node.id, parent),
            None => links(t.nodes),
        },
{
    lemma_write_nodes(t, node, expected, revision, derived);
    let w = t.write(node, expected, revision, derived)->Ok_0;
    let p = position(t.nodes, node.id);
    let row = Node { created_at: t.nodes[p].created_at, ..node };
    assert(t.nodes[p].id == node.id);
    lemma_rewrite(t.nodes, p, row);
    lemma_position(t.nodes, p);
    assert(w.nodes == t.nodes.update(p, row));
    assert(links(w.nodes) =~= match node.parent_id {
        Some(parent) => links(t.nodes).insert(node.id, parent),
        None => links(t.nodes),
    });
}

/// Removing a subtree adds no link.
proof fn lemma_remove_links(t: Tables, id: NodeId)
    requires
        unique_ids(t.nodes),
    ensures
        links_among(links(t.remove_below(id).nodes), links(t.nodes)),
{
    let u = t.remove_below(id);
    let up = links(t.nodes);
    let keep = |n: Node| !below(up, id, n.id);
    lemma_filter_facts(t.nodes, keep);
    assert(u.nodes == t.nodes.filter(keep));
    crate::tree_batch::lemma_removal_keeps_ids(t, id);
    assert forall|x: NodeId| #[trigger] links(u.nodes).contains_key(x) implies up.contains_key(x)
        && up[x] == links(u.nodes)[x] by {
        let k = position(u.nodes, x);
        assert(u.nodes[k].id == x);
        assert(u.nodes.contains(u.nodes[k]));
        let m = choose|m: int| 0 <= m < t.nodes.len() && t.nodes[m] == u.nodes[k];
        lemma_position(t.nodes, m);
        lemma_position(u.nodes, k);
    }
}

/// The links that the operations leave are among those that were checked.
proof fn lemma_operations_links(
    t: Tables,
    ops: Seq<PreparedBatchOperation>,
    root: NodeId,
    n: int,
)
    requires
        t.wf(),
        rooted(t, root),
        batch_refusal(t.nodes, ops) is None,
        0 <= n <= ops.len(),
        run(t, n, operation_step(ops)) is Ok,
    ensures
        links_among(
            links(run(t, n, operation_step(ops))->Ok_0.nodes),
            batch_links(links(t.nodes), ops, n),
        ),
    decreases n,
{
    if n > 0 {
        lemma_operations_links(t, ops, root, n - 1);
        lemma_operations_rooted(t, ops, root, n - 1);
        let u = run(t, n - 1, operation_step(ops))->Ok_0;
        let op = ops[n - 1];
        lemma_passed(ops.len() as int, |i: int| operation_refusal(t.nodes, ops, i), n - 1);
        assert(operation_refusal(t.nodes, ops, n - 1) is None);
        let r = position(t.nodes, root);
        assert(t.nodes[r].id == root);
        lemma_position(t.nodes, r);
        if present(t.nodes, op.id()) {
            assert(t.nodes[position(t.nodes, op.id())].id == op.id());
        }
        match op {
            PreparedBatchOperation::Create(item) => {
                lemma_insert_links(u, item.node);
                let v = u.insert_node(item.node)->Ok_0;
                let w = v.insert_revision(item.revision@)->Ok_0;
                lemma_derived_nodes(w, item.node.id, item.derived);
            },
            PreparedBatchOperation::Replace { prepared, expected_version } => {
                if prepared.node.parent_id is None {
                    lemma_no_second_root(u, root, prepared.node, expected_version);
                }
                lemma_write_links(
                    u,
                    root,
                    prepared.node,
                    expected_version,
                    prepared.revision@,
                    prepared.derived,
                );
            },
            PreparedBatchOperation::SetReferences { prepared, expected_version, references } => {
                if prepared.node.parent_id is None {
                    lemma_no_second_root(u, root, prepared.node, expected_version);
                }
                lemma_write_links(
                    u,
                    root,
                    prepared.node,
                    expected_version,
                    prepared.revision@,
                    prepared.derived,
                );
                let v = u.write(
                    prepared.node,
                    expected_version,
                    prepared.revision@,
                    prepared.derived,
                )->Ok_0;
                let cleared = v.clear_explicit(prepared.node.id);
                let views = crate::tables::reference_views(references@);
                lemma_references_nodes(cleared, views, views.len() as int);
            },
            PreparedBatchOperation::Remove(removal) => {
                lemma_remove_links(u, removal.node_id);
            },
        }
    }
}

/// A mutation batch whose new parents close no cycle, taken together, leaves a
/// well-formed workspace.
pub proof fn law_mutation_batch_keeps_tree(t: Tables, ops: Seq<PreparedBatchOperation>)
    requires
        t.wf(),
        batch_refusal(t.nodes, ops) is None,
        acyclic(batch_links(links(t.nodes), ops, ops.len() as int)),
    ensures
        t.apply_operations(ops) matches Ok(u) ==> u.wf(),
{
    if t.apply_operations(ops) is Ok {
        lemma_mutation_batch_wf(t, ops);
    }
}

proof fn lemma_mutation_batch_wf(t: Tables, ops: Seq<PreparedBatchOperation>)
    requires
        t.wf(),
        batch_refusal(t.nodes, ops) is None,
        acyclic(batch_links(links(t.nodes), ops, ops.len() as int)),
        t.apply_operations(ops) is Ok,
    ensures
        t.apply_operations(ops)->Ok_0.wf(),
{
    let n = ops.len() as int;
    let r = choose|r: int| is_sole_root(t.nodes, r);
    let root = t.nodes[r].id;
    lemma_position(t.nodes, r);
    assert(rooted(t, root)) by {
        assert forall|i: int| 0 <= i < t.nodes.len() implies ((
        #[trigger] t.nodes[i]).parent_id is None <==> t.nodes[i].id == root) by {
            if t.nodes[i].id == root {
                assert(t.nodes[i].id == t.nodes[r].id);
            }
            assert(t.nodes[i].parent_id is None <==> i == r);
        }
    }
    lemma_operations_rooted(t, ops, root, n);
    let u = run(t, n, operation_step(ops))->Ok_0;
    let w = t.apply_operations(ops)->Ok_0;
    assert(same_shape(u.nodes, w.nodes));
    lemma_same_shape(u.nodes, w.nodes);
    lemma_operations_links(t, ops, root, n);
    lemma_acyclic_among(links(u.nodes), batch_links(links(t.nodes), ops, n));
    assert(w.bounded_versions()) by {
        assert forall|i: int| 0 <= i < w.nodes.len() implies storable(
            (#[trigger] w.nodes[i]).version,
        ) by {
            assert(w.nodes[i].version == u.nodes[i].version);
        }
    }
    let p = position(w.nodes, root);
    assert(present(u.nodes, root));
    assert(present(w.nodes, root));
    assert(w.nodes[p].id == root);
    assert(is_sole_root(w.nodes, p)) by {
        assert forall|i: int| 0 <= i < w.nodes.len() implies (#[trigger] w.nodes[i].parent_id is None
            <==> i == p) by {
            assert(u.nodes[i].id == w.nodes[i].id && u.nodes[i].parent_id == w.nodes[i].parent_id);
            if w.nodes[i].id == root {
                assert(w.nodes[i].id == w.nodes[p].id);
            }
            assert(u.nodes[p].id == w.nodes[p].id);
        }
    }
    assert forall|i: int| 0 <= i < w.nodes.len() && (#[trigger] w.nodes[i]).parent_id is Some implies present(
        w.nodes,
        w.nodes[i].parent_id->0,
    ) by {
        assert(u.nodes[i].parent_id == w.nodes[i].parent_id);
        assert(present(u.nodes, u.nodes[i].parent_id->0));
    }
}

/// The fresh identity of a node that some row of the subtree holds.
proof fn lemma_renamed_some(
    rows: Seq<crate::traverse::Placed>,
    fresh: Seq<NodeId>,
    id: NodeId,
    n: int,
    k: int,
)
    requires
        0 <= k < n <= rows.len(),
        rows[k].node.id == id,
    ensures
        renamed(rows, fresh, id, n) is Some,
    decreases n,
{
    if rows[n - 1].node.id != id {
        lemma_renamed_some(rows, fresh, id, n - 1, k);
    }
}

/// Every cloned node gets a parent: the destination, or the clone of its own
/// parent.
pub proof fn law_clones_have_parents(c: Cloning, nodes: Seq<Node>, i: int)
    requires
        is_forest(nodes),
        c.covers(nodes),
        0 <= i < c.rows.len(),
    ensures
        c.node(nodes, i, NodeHash { high: 0, low: 0 }, NodeHash { high: 0, low: 0 }).parent_id is Some,
{
    let up = links(nodes);
    let source = c.request.source_id;
    let extent = crate::reads::subtree_extent(source);
    let listed = crate::traverse::nodes_of(c.rows);
    let original = c.rows[i].node;
    assert(listed[i] == original);
    assert(listed.contains(original));
    assert(nodes.contains(original) && extent.covers(nodes, original));
    if original.id != source {
        let m = choose|m: int| 0 <= m < nodes.len() && nodes[m] == original;
        lemma_position(nodes, m);
        crate::tree::lemma_below_parent(up, source, original.id);
        assert(up.contains_key(original.id));
        let p = original.parent_id->0;
        assert(present(nodes, p));
        let q = position(nodes, p);
        assert(nodes[q].id == p);
        assert(extent.covers(nodes, nodes[q]));
        assert(nodes.contains(nodes[q]));
        assert(listed.contains(nodes[q]));
        let k = choose|k: int| 0 <= k < listed.len() && listed[k] == nodes[q];
        assert(c.rows[k].node.id == p);
        lemma_renamed_some(c.rows, c.fresh, p, c.rows.len() as int, k);
    }
}

proof fn lemma_clone_steps_wf(
    t: Tables,
    room: Tables,
    c: Cloning,
    records: Seq<CloneRecords>,
    n: int,
)
    requires
        is_forest(t.nodes),
        c.covers(t.nodes),
        room.wf(),
        0 <= n <= c.rows.len(),
        run(room, n, c.step(t.nodes, records)) is Ok,
    ensures
        run(room, n, c.step(t.nodes, records))->Ok_0.wf(),
    decreases n,
{
    if n > 0 {
        lemma_clone_steps_wf(t, room, c, records, n - 1);
        let u = run(room, n - 1, c.step(t.nodes, records))->Ok_0;
        law_clones_have_parents(c, t.nodes, n - 1);
        let node = c.node(
            t.nodes,
            n - 1,
            records[n - 1].content_hash,
            records[n - 1].revision_hash,
        );
        let v = u.insert_node(node)->Ok_0;
        lemma_insert_leaf(u.nodes, node);
        assert forall|i: int| 0 <= i < v.nodes.len() implies storable(
            (#[trigger] v.nodes[i]).version,
        ) by {
            if i < u.nodes.len() {
                assert(v.nodes[i] == u.nodes[i]);
            }
        }
        let w = v.insert_revision(c.revision(node))->Ok_0;
        assert(w.unique_versions());
        assert(rows_ascend(w.references));
        lemma_derived_nodes(w, node.id, records[n - 1].derived);
        lemma_derived_ascend(w, node.id, records[n - 1].derived);
    }
}

/// Making room among the children of a node leaves a well-formed workspace.
proof fn lemma_room_wf(t: Tables, parent: NodeId, from: u32)
    requires
        t.wf(),
    ensures
        (Tables { nodes: shifted(t.nodes, parent, from), ..t }).wf(),
{
    let room = Tables { nodes: shifted(t.nodes, parent, from), ..t };
    assert forall|i: int| 0 <= i < t.nodes.len() implies ({
        let a = #[trigger] t.nodes[i];
        let b = room.nodes[i];
        &&& a.id == b.id && a.parent_id == b.parent_id && a.slug == b.slug
        &&& a.version == b.version && a.created_at == b.created_at && a.updated_at == b.updated_at
    }) by {}
    assert(same_shape(t.nodes, room.nodes));
    lemma_same_shape(t.nodes, room.nodes);
    assert(room.bounded_versions()) by {
        assert forall|i: int| 0 <= i < room.nodes.len() implies storable(
            (#[trigger] room.nodes[i]).version,
        ) by {
            assert(room.nodes[i].version == t.nodes[i].version);
        }
    }
    assert(distinct_slugs(room.nodes)) by {
        assert forall|i: int, j: int|
            0 <= i < room.nodes.len() && 0 <= j < room.nodes.len() && (
            #[trigger] room.nodes[i]).parent_id is Some && room.nodes[i].parent_id == (
            #[trigger] room.nodes[j]).parent_id && room.nodes[i].slug@
                == room.nodes[j].slug@ implies i == j by {
            assert(t.nodes[i].parent_id == t.nodes[j].parent_id);
        }
    }
    assert(fits_columns(room)) by {
        assert forall|i: int| 0 <= i < room.nodes.len() implies storable(
            (#[trigger] room.nodes[i]).created_at,
        ) && storable(room.nodes[i].updated_at) by {
            assert(storable(t.nodes[i].created_at));
        }
    }
}

/// Cloning a subtree leaves a well-formed workspace.
pub proof fn law_clone_keeps_tree(t: Tables, c: Cloning, records: Seq<CloneRecords>)
    requires
        t.wf(),
        c.covers(t.nodes),
    ensures
        c.outcome(t, records) matches Ok(u) ==> u.wf(),
{
    if c.outcome(t, records) is Ok && !c.request.dry_run {
        let room = Tables {
            nodes: shifted(t.nodes, c.request.destination_parent_id, c.position(t.nodes)),
            ..t
        };
        lemma_room_wf(t, c.request.destination_parent_id, c.position(t.nodes));
        let n = c.rows.len() as int;
        lemma_clone_steps_wf(t, room, c, records, n);
        let u = run(room, n, c.step(t.nodes, records))->Ok_0;
        let views = c.all_references(t);
        lemma_references_nodes(u, views, views.len() as int);
        assert(rows_ascend(u.references));
        lemma_insert_references_ascend(u, views, views.len() as int);
    }
}

/// An applied clone has a root.
pub proof fn law_clone_has_root(c: Cloning, nodes: Seq<Node>)
    requires
        is_forest(nodes),
        c.covers(nodes),
        present(nodes, c.request.source_id),
    ensures
        c.rename(c.request.source_id) is Some,
{
    let up = links(nodes);
    let source = c.request.source_id;
    let extent = crate::reads::subtree_extent(source);
    let listed = crate::traverse::nodes_of(c.rows);
    let q = position(nodes, source);
    assert(nodes[q].id == source);
    crate::tree::lemma_below_self(up, source);
    assert(extent.covers(nodes, nodes[q]));
    assert(nodes.contains(nodes[q]));
    assert(listed.contains(nodes[q]));
    let k = choose|k: int| 0 <= k < listed.len() && listed[k] == nodes[q];
    assert(c.rows[k].node.id == source);
    lemma_renamed_some(c.rows, c.fresh, source, c.rows.len() as int, k);
}

} // verus!
