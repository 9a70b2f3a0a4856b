//! What exports, statistics, plans and histories hold.

use crate::clone_laws::{child_total, is_child_of, lemma_child_count};
use crate::effect_laws::taken_away;
use crate::markdown::{equals_end, is_text, spans_from, spans_of};
use crate::model::{
    DerivedNodeRecords, Node, NodeId, ReferenceView, RevisionView, Section,
};
use crate::mutate::MutationOutcome;
use crate::reads::lists_revisions;
use crate::record_laws::lemma_count_is_filter;
use crate::references::{references_of, touches, touching, ReferenceSide};
use crate::relations::describes_tree;
use crate::relations::TreeStatistics;
use crate::reorder::{SiblingHash, SiblingShift};
use crate::search_laws::lemma_sum_contains;
use crate::semantic::lists_sections;
use crate::shape::lemma_filter_facts;
use crate::snapshot::{history_of, links_of, own_history};
use crate::tables::{RowView, Tables};
use crate::tree::{below, is_forest, links, position, present};
use crate::tree_batch::{takes, TreeBatch};
use std::sync::Arc;
use vstd::prelude::*;

verus! {

proof fn lemma_links_of(t: Tables, listed: Seq<Node>, n: int)
    requires
        0 <= n <= listed.len(),
    ensures
        forall|r: ReferenceView| #[trigger]
            links_of(t, listed, n).contains(r) <==> exists|i: int, k: int|
                0 <= i < n && 0 <= k < t.references.len() && (#[trigger] t.references[k]).reference
                    == r && r.source_node_id == (#[trigger] listed[i]).id,
    decreases n,
{
    if n > 0 {
        lemma_links_of(t, listed, n - 1);
        let id = listed[n - 1].id;
        let rows = touching(t, ReferenceSide::Source, id);
        let own = references_of(rows);
        let before = links_of(t, listed, n - 1);
        let keep = |r: RowView| touches(r.reference, ReferenceSide::Source, id);
        lemma_filter_facts(t.references, keep);
        lemma_sum_contains(before, own);
        assert forall|r: ReferenceView| #[trigger]
            links_of(t, listed, n).contains(r) <==> exists|i: int, k: int|
            0 <= i < n && 0 <= k < t.references.len() && (#[trigger] t.references[k]).reference == r
                && r.source_node_id == (#[trigger] listed[i]).id by {
            assert((before + own).contains(r) <==> before.contains(r) || own.contains(r));
            if before.contains(r) {
                let (i, k) = choose|i: int, k: int|
                    0 <= i < n - 1 && 0 <= k < t.references.len() && (
                    #[trigger] t.references[k]).reference == r && r.source_node_id == (
                    #[trigger] listed[i]).id;
                assert(t.references[k].reference == r && r.source_node_id == listed[i].id);
            }
            if own.contains(r) {
                let j = choose|j: int| 0 <= j < own.len() && own[j] == r;
                assert(rows.contains(rows[j]));
                assert(keep(rows[j]));
                let k = choose|k: int| 0 <= k < t.references.len() && t.references[k] == rows[j];
                assert(t.references[k].reference == r && r.source_node_id == listed[n - 1].id);
            }
            if exists|i: int, k: int|
                0 <= i < n && 0 <= k < t.references.len() && (#[trigger] t.references[k]).reference
                    == r && r.source_node_id == (#[trigger] listed[i]).id {
                let (i, k) = choose|i: int, k: int|
                    0 <= i < n && 0 <= k < t.references.len() && (
                    #[trigger] t.references[k]).reference == r && r.source_node_id == (
                    #[trigger] listed[i]).id;
                if i < n - 1 {
                    assert(t.references[k].reference == r && r.source_node_id == listed[i].id);
                    assert(before.contains(r));
                } else {
                    assert(t.references.contains(t.references[k]));
                    assert(keep(t.references[k]));
                    assert(rows.contains(t.references[k]));
                    let j = choose|j: int| 0 <= j < rows.len() && rows[j] == t.references[k];
                    assert(own[j] == r);
                }
            }
        }
    }
}

proof fn lemma_history_of(t: Tables, listed: Seq<Node>, n: int)
    requires
        0 <= n <= listed.len(),
        t.unique_versions(),
    ensures
        forall|r: RevisionView| #[trigger]
            history_of(t, listed, n).contains(r) <==> t.revisions.contains(r) && exists|i: int|
                0 <= i < n && r.node_id == (#[trigger] listed[i]).id,
    decreases n,
{
    if n > 0 {
        lemma_history_of(t, listed, n - 1);
        let id = listed[n - 1].id;
        let own = own_history(t, id);
        let before = history_of(t, listed, n - 1);
        lemma_sum_contains(before, own);
        crate::snapshot_laws::lemma_own_history(t, id);
        assert(lists_revisions(t, id, own));
        let pred = |r: RevisionView| r.node_id == id;
        assert forall|r: RevisionView| #[trigger]
            history_of(t, listed, n).contains(r) <==> t.revisions.contains(r) && exists|i: int|
            0 <= i < n && r.node_id == (#[trigger] listed[i]).id by {
            assert((before + own).contains(r) <==> before.contains(r) || own.contains(r));
            assert(own.contains(r) <==> t.revisions.contains(r) && pred(r));
            if before.contains(r) {
                let i = choose|i: int| 0 <= i < n - 1 && r.node_id == (#[trigger] listed[i]).id;
                assert(r.node_id == listed[i].id);
            }
            if own.contains(r) {
                assert(r.node_id == listed[n - 1].id);
            }
            if t.revisions.contains(r) && exists|i: int|
                0 <= i < n && r.node_id == (#[trigger] listed[i]).id {
                let i = choose|i: int| 0 <= i < n && r.node_id == (#[trigger] listed[i]).id;
                if i < n - 1 {
                    assert(r.node_id == listed[i].id);
                    assert(before.contains(r));
                }
            }
        }
    }
}

/// An export holds every reference that starts at a node, and every revision of a node, and no
/// others.
pub proof fn law_exports_hold_everything(t: Tables, listed: Seq<Node>)
    requires
        t.by_identity(listed),
        t.unique_versions(),
    ensures
        forall|k: int|
            0 <= k < t.references.len() && present(
                t.nodes,
                (#[trigger] t.references[k]).reference.source_node_id,
            ) ==> links_of(t, listed, listed.len() as int).contains(t.references[k].reference),
        forall|k: int|
            0 <= k < t.revisions.len() && present(t.nodes, (#[trigger] t.revisions[k]).node_id)
                ==> history_of(t, listed, listed.len() as int).contains(t.revisions[k]),
        forall|r: ReferenceView| #[trigger]
            links_of(t, listed, listed.len() as int).contains(r) ==> present(
                t.nodes,
                r.source_node_id,
            ) && references_of(t.references).contains(r),
        forall|r: RevisionView| #[trigger]
            history_of(t, listed, listed.len() as int).contains(r) ==> t.revisions.contains(r),
{
    let n = listed.len() as int;
    lemma_links_of(t, listed, n);
    lemma_history_of(t, listed, n);
    let everything = |x: Node| true;
    assert forall|x: NodeId| present(t.nodes, x) implies exists|i: int|
        0 <= i < n && (#[trigger] listed[i]).id == x by {
        let q = position(t.nodes, x);
        assert(t.nodes[q].id == x);
        assert(t.nodes.contains(t.nodes[q]));
        assert(everything(t.nodes[q]));
        assert(listed.contains(t.nodes[q]));
        let i = choose|i: int| 0 <= i < n && listed[i] == t.nodes[q];
        assert(listed[i].id == x);
    }
    assert forall|k: int|
        0 <= k < t.references.len() && present(
            t.nodes,
            (#[trigger] t.references[k]).reference.source_node_id,
        ) implies links_of(t, listed, n).contains(t.references[k].reference) by {
        let r = t.references[k].reference;
        let i = choose|i: int| 0 <= i < n && (#[trigger] listed[i]).id == r.source_node_id;
        assert(t.references[k].reference == r && r.source_node_id == listed[i].id);
    }
    assert forall|k: int|
        0 <= k < t.revisions.len() && present(
            t.nodes,
            (#[trigger] t.revisions[k]).node_id,
        ) implies history_of(t, listed, n).contains(t.revisions[k]) by {
        let r = t.revisions[k];
        assert(t.revisions.contains(r));
        let i = choose|i: int| 0 <= i < n && (#[trigger] listed[i]).id == r.node_id;
        assert(r.node_id == listed[i].id);
    }
    assert forall|r: ReferenceView| #[trigger] links_of(t, listed, n).contains(r) implies present(
        t.nodes,
        r.source_node_id,
    ) && references_of(t.references).contains(r) by {
        let (i, k) = choose|i: int, k: int|
            0 <= i < n && 0 <= k < t.references.len() && (#[trigger] t.references[k]).reference == r
                && r.source_node_id == (#[trigger] listed[i]).id;
        assert(references_of(t.references)[k] == r);
        assert(listed.contains(listed[i]));
        let m = choose|m: int| 0 <= m < t.nodes.len() && t.nodes[m] == listed[i];
        assert(t.nodes[m].id == r.source_node_id);
    }
}

/// Nodes of a subtree.
pub open spec fn is_within_tree(nodes: Seq<Node>, root: NodeId) -> spec_fn(Node) -> bool {
    |n: Node| below(links(nodes), root, n.id)
}

/// Nodes of a subtree without children.
pub open spec fn is_leaf_of(nodes: Seq<Node>, root: NodeId) -> spec_fn(Node) -> bool {
    |n: Node|
        below(links(nodes), root, n.id) && forall|k: int|
            0 <= k < nodes.len() ==> (#[trigger] nodes[k]).parent_id != Some(n.id)
}

pub proof fn lemma_childless(nodes: Seq<Node>, id: NodeId)
    ensures
        crate::reorder::child_count(nodes, id, nodes.len() as int) == 0 <==> forall|k: int|
            0 <= k < nodes.len() ==> (#[trigger] nodes[k]).parent_id != Some(id),
{
    let n = nodes.len() as int;
    lemma_child_count(nodes, id, n);
    assert(nodes.take(n) =~= nodes);
    lemma_filter_facts(nodes, is_child_of(id));
    let kept = nodes.filter(is_child_of(id));
    if kept.len() > 0 {
        assert(kept.contains(kept[0]));
        let k = choose|k: int| 0 <= k < nodes.len() && nodes[k] == kept[0];
        assert(is_child_of(id)(kept[0]));
        assert(nodes[k].parent_id == Some(id));
    } else {
        assert forall|k: int| 0 <= k < nodes.len() implies (#[trigger] nodes[k]).parent_id != Some(
            id,
        ) by {
            if nodes[k].parent_id == Some(id) {
                assert(nodes.contains(nodes[k]));
                assert(is_child_of(id)(nodes[k]));
                assert(kept.contains(nodes[k]));
            }
        }
    }
}

/// The statistics of a node count its children, the nodes of its subtree, as a removal would
/// take them, and those among them without children; and no node of the subtree lies deeper
/// than they say.
pub proof fn law_statistics_count_the_subtree(
    t: Tables,
    id: NodeId,
    stats: TreeStatistics,
    k: int,
    d: nat,
)
    requires
        is_forest(t.nodes),
        describes_tree(t.nodes, id, stats),
        0 <= k < t.nodes.len(),
        crate::tree::climb(links(t.nodes), t.nodes[k].id, d) == Some(id),
    ensures
        stats.direct_child_count == child_total(t.nodes, id),
        stats.subtree_size == t.nodes.filter(is_within_tree(t.nodes, id)).len(),
        stats.subtree_size + t.remove_below(id).nodes.len() == t.nodes.len(),
        stats.leaf_count == t.nodes.filter(is_leaf_of(t.nodes, id)).len(),
        d <= stats.max_relative_depth,
{
    let nodes = t.nodes;
    let n = nodes.len() as int;
    let up = links(nodes);
    assert(nodes.take(n) =~= nodes);
    lemma_child_count(nodes, id, n);
    let counted = |x: Node| below(up, id, x.id);
    lemma_count_is_filter(nodes, counted, is_within_tree(nodes, id), n);
    let leaves = |x: Node|
        below(up, id, x.id) && crate::reorder::child_count(nodes, x.id, n) == 0;
    assert forall|x: Node| #[trigger] leaves(x) <==> is_leaf_of(nodes, id)(x) by {
        lemma_childless(nodes, x.id);
    }
    lemma_count_is_filter(nodes, leaves, is_leaf_of(nodes, id), n);
    crate::record_laws::law_impact_foretells_the_removal(t, id);
    let whole = |x: Node| below(links(t.nodes), id, x.id);
    lemma_count_is_filter(nodes, whole, is_within_tree(nodes, id), n);
    crate::tree::lemma_depth_is(up, id, nodes[k].id, d);
    assert(below(up, id, nodes[k].id));
}

/// The number of removed nodes that a tree batch reports is the number of nodes in the subtrees
/// that it removes.
pub proof fn law_tree_batches_report_what_they_remove(nodes: Seq<Node>, batch: TreeBatch)
    ensures
        batch.removed_count(nodes) == nodes.filter(
            |n: Node| taken_away(nodes, batch, batch.removals.len() as int, n.id),
        ).len(),
{
    let n = nodes.len() as int;
    let r = batch.removals.len() as int;
    let counted = |x: Node| takes(nodes, batch.removals, x.id, batch.removals.len() as int);
    let gone = |n: Node| taken_away(nodes, batch, batch.removals.len() as int, n.id);
    assert forall|x: Node| #[trigger] counted(x) <==> gone(x) by {
        if counted(x) {
            let j = choose|j: int|
                0 <= j < r && below(links(nodes), #[trigger] batch.removals[j].node_id, x.id);
            assert(below(links(nodes), batch.removals[j].node_id, x.id));
        }
        if gone(x) {
            let j = choose|j: int|
                0 <= j < r && below(links(nodes), (#[trigger] batch.removals[j]).node_id, x.id);
            assert(below(links(nodes), batch.removals[j].node_id, x.id));
        }
    }
    lemma_count_is_filter(nodes, counted, gone, n);
    assert(nodes.take(n) =~= nodes);
}

proof fn lemma_shifts(t: Tables, id: NodeId, parent: NodeId, from: int, to: int, n: int)
    requires
        0 <= n <= t.nodes.len(),
    ensures
        ({
            let shifts = t.shifts(id, parent, from, to, n);
            &&& forall|i: int|
                0 <= i < n && (#[trigger] t.nodes[i]).parent_id == Some(parent) && t.nodes[i].id
                    != id && t.nodes[i].sibling_order != moved_order(t, i, from, to)
                    ==> shifts.contains(
                    SiblingShift {
                        node_id: t.nodes[i].id,
                        sibling_order: moved_order(t, i, from, to),
                    },
                )
            &&& forall|s: SiblingShift| #[trigger]
                shifts.contains(s) ==> exists|i: int|
                    0 <= i < n && (#[trigger] t.nodes[i]).parent_id == Some(parent) && t.nodes[i].id
                        != id && t.nodes[i].id == s.node_id && s.sibling_order == moved_order(
                        t,
                        i,
                        from,
                        to,
                    ) && s.sibling_order != t.nodes[i].sibling_order
        }),
    decreases n,
{
    if n > 0 {
        lemma_shifts(t, id, parent, from, to, n - 1);
        let before = t.shifts(id, parent, from, to, n - 1);
        let all = t.shifts(id, parent, from, to, n);
        assert forall|i: int|
            0 <= i < n && (#[trigger] t.nodes[i]).parent_id == Some(parent) && t.nodes[i].id != id
                && t.nodes[i].sibling_order != moved_order(t, i, from, to) implies all.contains(
            SiblingShift { node_id: t.nodes[i].id, sibling_order: moved_order(t, i, from, to) },
        ) by {
            let s = SiblingShift {
                node_id: t.nodes[i].id,
                sibling_order: moved_order(t, i, from, to),
            };
            if i < n - 1 {
                assert(before.contains(s));
                let k = choose|k: int| 0 <= k < before.len() && before[k] == s;
                assert(all[k] == s);
            } else {
                assert(all[before.len() as int] == s);
            }
        }
        assert forall|s: SiblingShift| #[trigger] all.contains(s) implies exists|i: int|
            0 <= i < n && (#[trigger] t.nodes[i]).parent_id == Some(parent) && t.nodes[i].id != id
                && t.nodes[i].id == s.node_id && s.sibling_order == moved_order(t, i, from, to)
                && s.sibling_order != t.nodes[i].sibling_order by {
            let k = choose|k: int| 0 <= k < all.len() && all[k] == s;
            if k < before.len() {
                assert(before[k] == s);
                assert(before.contains(s));
                let i = choose|i: int|
                    0 <= i < n - 1 && (#[trigger] t.nodes[i]).parent_id == Some(parent)
                        && t.nodes[i].id != id && t.nodes[i].id == s.node_id && s.sibling_order
                        == moved_order(t, i, from, to) && s.sibling_order
                        != t.nodes[i].sibling_order;
                assert(t.nodes[i].parent_id == Some(parent));
            } else {
                assert(t.nodes[n - 1].parent_id == Some(parent));
            }
        }
    }
}

spec fn moved_order(t: Tables, i: int, from: int, to: int) -> u32 {
    crate::edits::as_order(
        crate::reorder::moved_rank(
            crate::edits::sibling_rank(t.nodes, t.nodes[i]) as int,
            from,
            to,
        ) as nat,
    )
}

/// The shifts of a planned reorder are what it does to the siblings: each sibling that gets
/// another position is named with it, and no other.
pub proof fn law_shifts_foretell_the_reorder(
    t: Tables,
    node: Node,
    expected: u64,
    revision: RevisionView,
    derived: DerivedNodeRecords,
    hashes: Seq<SiblingHash>,
    i: int,
)
    requires
        t.wf(),
        t.reorder(node, expected, revision, derived, hashes) is Ok,
        t.reorder(node, expected, revision, derived, hashes)->Ok_0.1 == MutationOutcome::Applied,
        0 <= i < t.nodes.len(),
        t.nodes[i].id != node.id,
    ensures
        ({
            let u = t.reorder(node, expected, revision, derived, hashes)->Ok_0.0;
            let (parent, from, to) = t.reorder_plan(node, expected, revision)->Ok_0->0;
            let shifts = t.shifts(node.id, parent, from, to, t.nodes.len() as int);
            u.nodes[i].sibling_order != t.nodes[i].sibling_order <==> shifts.contains(
                SiblingShift {
                    node_id: t.nodes[i].id,
                    sibling_order: u.nodes[i].sibling_order,
                },
            )
        }),
{
    crate::batch_laws::law_reorder_positions(t, node, expected, revision, derived, hashes);
    let u = t.reorder(node, expected, revision, derived, hashes)->Ok_0.0;
    let (parent, from, to) = t.reorder_plan(node, expected, revision)->Ok_0->0;
    let n = t.nodes.len() as int;
    lemma_shifts(t, node.id, parent, from, to, n);
    let q = position(t.nodes, node.id);
    assert(t.nodes[q].id == node.id);
    let shifts = t.shifts(node.id, parent, from, to, n);
    let s = SiblingShift { node_id: t.nodes[i].id, sibling_order: u.nodes[i].sibling_order };
    if t.nodes[i].parent_id == Some(parent) {
        assert(u.nodes[i].sibling_order == moved_order(t, i, from, to));
    } else {
        assert(u.nodes[i] == t.nodes[i]);
    }
    if shifts.contains(s) {
        let k = choose|k: int|
            0 <= k < n && (#[trigger] t.nodes[k]).parent_id == Some(parent) && t.nodes[k].id
                != node.id && t.nodes[k].id == s.node_id && s.sibling_order == moved_order(
                t,
                k,
                from,
                to,
            ) && s.sibling_order != t.nodes[k].sibling_order;
        assert(t.nodes[k].id == t.nodes[i].id);
        assert(k == i);
    }
}

/// The listed sections of a node are exactly its stored ones, by ascending position.
pub proof fn law_sections_are_listed_by_position(
    sections: Seq<Arc<Section>>,
    id: NodeId,
    listed: Seq<Arc<Section>>,
    i: int,
    j: int,
)
    requires
        sections.len() <= usize::MAX,
        lists_sections(sections, id, listed),
        0 <= i < j < listed.len(),
    ensures
        listed[i].position <= listed[j].position,
        listed[i].node_id == id,
        sections.contains(listed[i]),
        forall|k: int|
            0 <= k < sections.len() && (#[trigger] sections[k]).node_id == id ==> listed.contains(
                sections[k],
            ),
{
    let order = choose|order: Seq<usize>| #[trigger]
        crate::semantic::orders_sections(sections, id, order) && listed == Seq::new(
            order.len(),
            |i: int| sections[order[i] as int],
        );
    let rows = crate::semantic::section_rows(sections);
    let pred = |i: usize| sections[i as int].node_id == id;
    let key = |i: usize| seq![sections[i as int].position as u128, i as u128];
    assert(crate::listing::lists(rows, pred, key, order));
    assert(order.contains(order[i]) && order.contains(order[j]));
    assert(pred(order[i]));
    assert(rows.contains(order[i]));
    let m = choose|m: int| 0 <= m < rows.len() && rows[m] == order[i];
    assert(sections.contains(sections[order[i] as int]));
    assert(crate::order::lex_lt(key(order[i]), key(order[j])));
    crate::lookup_laws::lemma_pair_order(key(order[i]), key(order[j]));
    assert forall|k: int| 0 <= k < sections.len() && (
    #[trigger] sections[k]).node_id == id implies listed.contains(sections[k]) by {
        assert(rows[k] == k as usize);
        assert(rows.contains(k as usize));
        assert(pred(k as usize));
        assert(order.contains(k as usize));
        let p = choose|p: int| 0 <= p < order.len() && order[p] == k as usize;
        assert(listed[p] == sections[k]);
    }
}

proof fn lemma_spans_skip(text: Seq<char>, i: int, to: int, open: Option<int>)
    requires
        0 <= i <= to <= text.len(),
        forall|k: int| i <= k < to ==> #[trigger] text[k] != '=',
    ensures
        spans_from(text, i, open) == spans_from(text, to, open),
    decreases to - i,
{
    if i < to {
        lemma_spans_skip(text, i + 1, to, open);
    }
}

proof fn lemma_two_equals(text: Seq<char>, i: int)
    requires
        0 <= i,
        i + 2 <= text.len(),
        text[i] == '=',
        text[i + 1] == '=',
        i + 2 < text.len() ==> text[i + 2] != '=',
    ensures
        equals_end(text, i) == i + 2,
{
    reveal_with_fuel(equals_end, 4);
}

/// A text between two pairs of `=`, that neither begins nor ends with white space, is the one
/// span of a text with no other `=`.
pub proof fn law_a_marked_text_is_a_span(before: Seq<char>, marked: Seq<char>, after: Seq<char>)
    requires
        !before.contains('='),
        !marked.contains('='),
        !after.contains('='),
        marked.len() > 0,
        !crate::words::whitespace(marked[0]),
        !crate::words::whitespace(marked.last()),
    ensures
        spans_of(before + seq!['=', '='] + marked + seq!['=', '='] + after) == seq![
            (before.len() as int, (before.len() + 2 + marked.len()) as int),
        ],
{
    let text = before + seq!['=', '='] + marked + seq!['=', '='] + after;
    let a = before.len() as int;
    let b = a + 2 + marked.len();
    assert forall|k: int| 0 <= k < a implies #[trigger] text[k] != '=' by {
        assert(text[k] == before[k]);
        assert(before.contains(before[k]));
    }
    assert forall|k: int| a + 2 <= k < b implies #[trigger] text[k] != '=' by {
        assert(text[k] == marked[k - a - 2]);
        assert(marked.contains(marked[k - a - 2]));
    }
    assert forall|k: int| b + 2 <= k < text.len() implies #[trigger] text[k] != '=' by {
        assert(text[k] == after[k - b - 2]);
        assert(after.contains(after[k - b - 2]));
    }
    assert(text[a] == '=' && text[a + 1] == '=' && text[b] == '=' && text[b + 1] == '=');
    lemma_spans_skip(text, 0, a, None);
    lemma_two_equals(text, a);
    assert(text[a + 2] == marked[0]);
    assert(is_text(text, a + 2));
    assert(spans_from(text, a, None) == spans_from(text, a + 2, Some(a)));
    lemma_spans_skip(text, a + 2, b, Some(a));
    lemma_two_equals(text, b);
    assert(text[b - 1] == marked.last());
    assert(is_text(text, b - 1));
    assert(spans_from(text, b, Some(a)) == seq![(a, b)] + spans_from(text, b + 2, None));
    lemma_spans_skip(text, b + 2, text.len() as int, None);
    assert(spans_from(text, text.len() as int, None) =~= Seq::<(int, int)>::empty());
    assert(seq![(a, b)] + Seq::<(int, int)>::empty() =~= seq![(a, b)]);
}

} // verus!
