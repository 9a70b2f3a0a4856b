//! What the scopes and filters of a search let through.

use crate::model::{Node, NodeId, TargetView};
use crate::pages::StructuralPredicate;
use crate::references::{touching, ReferenceSide};
use crate::search::{in_scope, SearchRequest, SearchScope};
use crate::shape::lemma_filter_facts;
use crate::tables::{RowView, Tables};
use crate::tree::{is_forest, lemma_below_parent, lemma_position, links, present};
use vstd::prelude::*;

verus! {

/// Whether a reference row resolves to a node.
pub open spec fn leads_to(row: RowView, id: NodeId) -> bool {
    row.reference.target matches TargetView::Resolved { node_id, .. } && node_id == id
}

/// Whether some reference leads from one node to another.
pub open spec fn refers(t: Tables, from: NodeId, to: NodeId) -> bool {
    exists|r: RowView| #[trigger]
        t.references.contains(r) && r.reference.source_node_id == from && leads_to(r, to)
}

/// The linked scope of a node covers the node, the targets of its outgoing references and
/// the sources of its backlinks, as the reference reads give them, and nothing else.
pub proof fn law_linked_scope_follows_references(t: Tables, a: NodeId, b: NodeId)
    ensures
        in_scope(t, SearchScope::Linked, Some(a), b) <==> {
            ||| b == a
            ||| exists|r: RowView| #[trigger]
                touching(t, ReferenceSide::Source, a).contains(r) && leads_to(r, b)
            ||| exists|r: RowView| #[trigger]
                touching(t, ReferenceSide::Target, a).contains(r) && r.reference.source_node_id == b
        },
        in_scope(t, SearchScope::Linked, Some(a), b) <==> b == a || refers(t, a, b) || refers(
            t,
            b,
            a,
        ),
{
    let out = |r: RowView| crate::references::touches(r.reference, ReferenceSide::Source, a);
    let back = |r: RowView| crate::references::touches(r.reference, ReferenceSide::Target, a);
    lemma_filter_facts(t.references, out);
    lemma_filter_facts(t.references, back);
    assert(touching(t, ReferenceSide::Source, a) == t.references.filter(out));
    assert(touching(t, ReferenceSide::Target, a) == t.references.filter(back));
    if in_scope(t, SearchScope::Linked, Some(a), b) && b != a {
        let i = choose|i: int|
            0 <= i < t.references.len() && crate::search::link_between(
                #[trigger] t.references[i],
                a,
                b,
            );
        let r = t.references[i];
        assert(t.references.contains(r));
        if r.reference.source_node_id == a {
            assert(touching(t, ReferenceSide::Source, a).contains(r) || touching(
                t,
                ReferenceSide::Target,
                a,
            ).contains(r));
        } else {
            assert(touching(t, ReferenceSide::Target, a).contains(r));
        }
    }
    assert forall|r: RowView| #[trigger]
        t.references.contains(r) && (r.reference.target matches TargetView::Resolved {
            node_id,
            ..
        } && ((r.reference.source_node_id == a && node_id == b) || (r.reference.source_node_id == b
            && node_id == a))) implies in_scope(t, SearchScope::Linked, Some(a), b) by {
        let i = choose|i: int| 0 <= i < t.references.len() && t.references[i] == r;
        assert(crate::search::link_between(t.references[i], a, b));
    }
    assert forall|r: RowView| #[trigger]
        touching(t, ReferenceSide::Source, a).contains(r) implies t.references.contains(r)
        && r.reference.source_node_id == a by {}
    assert forall|r: RowView| #[trigger]
        touching(t, ReferenceSide::Target, a).contains(r) implies t.references.contains(r) && (
    r.reference.target matches TargetView::Resolved { node_id, .. } && node_id == a) by {}
}

/// What is linked with a node is linked with it the other way as well.
pub proof fn law_linked_scope_is_symmetric(t: Tables, a: NodeId, b: NodeId)
    ensures
        in_scope(t, SearchScope::Linked, Some(a), b) == in_scope(
            t,
            SearchScope::Linked,
            Some(b),
            a,
        ),
{
    law_linked_scope_follows_references(t, a, b);
    law_linked_scope_follows_references(t, b, a);
}

/// The subtree scope of a node covers the node, and a node whose parent it covers; the
/// scope of the current node covers that node alone, and the workspace scope every node.
pub proof fn law_subtree_scope_goes_down(t: Tables, a: NodeId, b: Node)
    requires
        is_forest(t.nodes),
        t.nodes.contains(b),
    ensures
        in_scope(t, SearchScope::Subtree, Some(a), b.id) <==> b.id == a || (
        b.parent_id matches Some(p) && in_scope(t, SearchScope::Subtree, Some(a), p)),
        in_scope(t, SearchScope::CurrentNode, Some(a), b.id) <==> b.id == a,
        in_scope(t, SearchScope::Workspace, Some(a), b.id),
        in_scope(t, SearchScope::Workspace, None, b.id),
{
    let i = choose|i: int| 0 <= i < t.nodes.len() && t.nodes[i] == b;
    lemma_position(t.nodes, i);
    lemma_below_parent(links(t.nodes), a, b.id);
}

/// The siblings scope covers the nodes with the same parent, a root only itself; the
/// scope of the parent's subtree is the subtree scope of the parent, of a root its own.
pub proof fn law_sibling_scopes_share_the_parent(t: Tables, a: Node, b: Node)
    requires
        is_forest(t.nodes),
        t.nodes.contains(a),
        t.nodes.contains(b),
    ensures
        a.parent_id is Some ==> (in_scope(t, SearchScope::Siblings, Some(a.id), b.id)
            <==> b.parent_id == a.parent_id),
        a.parent_id is None ==> (in_scope(t, SearchScope::Siblings, Some(a.id), b.id) <==> b.id
            == a.id),
        in_scope(t, SearchScope::ParentSubtree, Some(a.id), b.id) == in_scope(
            t,
            SearchScope::Subtree,
            Some(
                match a.parent_id {
                    Some(p) => p,
                    None => a.id,
                },
            ),
            b.id,
        ),
{
    let i = choose|i: int| 0 <= i < t.nodes.len() && t.nodes[i] == a;
    let j = choose|j: int| 0 <= j < t.nodes.len() && t.nodes[j] == b;
    lemma_position(t.nodes, i);
    lemma_position(t.nodes, j);
    if a.parent_id is Some {
        assert(t.nodes[i].parent_id is Some);
        assert(present(t.nodes, t.nodes[i].parent_id->0));
    }
}

/// A scope with a smaller reach lies within the larger one.
pub proof fn law_scopes_nest(t: Tables, a: Node, b: Node)
    requires
        is_forest(t.nodes),
        t.nodes.contains(a),
        t.nodes.contains(b),
    ensures
        in_scope(t, SearchScope::CurrentNode, Some(a.id), b.id) ==> in_scope(
            t,
            SearchScope::Siblings,
            Some(a.id),
            b.id,
        ) && in_scope(t, SearchScope::Subtree, Some(a.id), b.id) && in_scope(
            t,
            SearchScope::Linked,
            Some(a.id),
            b.id,
        ),
        in_scope(t, SearchScope::Siblings, Some(a.id), b.id) ==> in_scope(
            t,
            SearchScope::ParentSubtree,
            Some(a.id),
            b.id,
        ),
        in_scope(t, SearchScope::Subtree, Some(a.id), b.id) ==> in_scope(
            t,
            SearchScope::ParentSubtree,
            Some(a.id),
            b.id,
        ),
{
    let i = choose|i: int| 0 <= i < t.nodes.len() && t.nodes[i] == a;
    let j = choose|j: int| 0 <= j < t.nodes.len() && t.nodes[j] == b;
    lemma_position(t.nodes, i);
    lemma_position(t.nodes, j);
    if t.nodes[i].id == t.nodes[j].id {
        assert(i == j);
    }
    law_sibling_scopes_share_the_parent(t, a, b);
    law_subtree_scope_goes_down(t, a.id, b);
    let up = links(t.nodes);
    if let Some(p) = a.parent_id {
        crate::tree::lemma_below_self(up, p);
        lemma_below_parent(up, p, b.id);
        if crate::tree::below(up, a.id, b.id) {
            let k = choose|k: nat| #[trigger] crate::tree::climb(up, b.id, k) == Some(a.id);
            assert(crate::tree::climb(up, b.id, k + 1) == Some(p));
        }
    } else {
        crate::tree::lemma_below_self(up, a.id);
    }
}

/// Whether one of the texts is that text.
pub open spec fn mentions(list: Seq<String>, text: Seq<char>) -> bool {
    exists|i: int| 0 <= i < list.len() && (#[trigger] list[i])@ == text
}

/// What a search finds passes each of its filters, and what passes them all within the
/// scope is found: the node has one of the types if any are asked for, all of the tags,
/// one of the relations if any are asked for, dates within the bounds, and children or
/// none as asked for.
pub proof fn law_filters_mean_what_they_say(t: Tables, request: SearchRequest, node: Node)
    requires
        is_forest(t.nodes),
        t.nodes.contains(node),
        request.filters.min_depth is None,
        request.filters.max_depth is None,
    ensures
        request.covers(t, node.id) <==> {
            let f = request.filters;
            &&& in_scope(t, request.scope, request.scope_node, node.id)
            &&& f.node_types@.len() == 0 || (node.metadata.node_type matches Some(kind)
                && mentions(f.node_types@, kind@))
            &&& forall|i: int|
                0 <= i < f.tags@.len() ==> mentions(
                    node.metadata.tags@,
                    (#[trigger] f.tags@[i])@,
                )
            &&& f.statuses@.len() == 0 || exists|r: RowView, i: int|
                #![trigger t.references.contains(r), f.statuses@[i]]
                t.references.contains(r) && r.reference.source_node_id == node.id && 0 <= i
                    < f.statuses@.len() && f.statuses@[i]@ == r.reference.reference_type
            &&& f.structure matches Some(StructuralPredicate::Leaf) ==> !(exists|x: Node|
                t.nodes.contains(x) && (#[trigger] x.parent_id) == Some(node.id))
            &&& f.structure matches Some(StructuralPredicate::Internal) ==> exists|x: Node|
                t.nodes.contains(x) && (#[trigger] x.parent_id) == Some(node.id)
            &&& f.created_from matches Some(m) ==> m <= node.created_at
            &&& f.created_to matches Some(m) ==> node.created_at <= m
            &&& f.updated_from matches Some(m) ==> m <= node.updated_at
            &&& f.updated_to matches Some(m) ==> node.updated_at <= m
        },
{
    let at = choose|at: int| 0 <= at < t.nodes.len() && t.nodes[at] == node;
    lemma_position(t.nodes, at);
    let f = request.filters;
    lemma_has_children(t.nodes, node.id, t.nodes.len() as int);
    assert(f.admits_status(t, node) <==> (f.statuses@.len() == 0 || exists|r: RowView, i: int|
        #![trigger t.references.contains(r), f.statuses@[i]]
        t.references.contains(r) && r.reference.source_node_id == node.id && 0 <= i
            < f.statuses@.len() && f.statuses@[i]@ == r.reference.reference_type)) by {
        if f.statuses@.len() > 0 && f.admits_status(t, node) {
            let k = choose|k: int|
                0 <= k < t.references.len() && (
                #[trigger] t.references[k]).reference.source_node_id == node.id
                    && crate::search::holds(
                    f.statuses@,
                    t.references[k].reference.reference_type,
                );
            let r = t.references[k];
            let i = choose|i: int|
                0 <= i < f.statuses@.len() && (#[trigger] f.statuses@[i])@
                    == r.reference.reference_type;
            assert(t.references.contains(r) && f.statuses@[i]@ == r.reference.reference_type);
        }
        if exists|r: RowView, i: int|
            #![trigger t.references.contains(r), f.statuses@[i]]
            t.references.contains(r) && r.reference.source_node_id == node.id && 0 <= i
                < f.statuses@.len() && f.statuses@[i]@ == r.reference.reference_type {
            let (r, i) = choose|r: RowView, i: int|
                #![trigger t.references.contains(r), f.statuses@[i]]
                t.references.contains(r) && r.reference.source_node_id == node.id && 0 <= i
                    < f.statuses@.len() && f.statuses@[i]@ == r.reference.reference_type;
            let k = choose|k: int| 0 <= k < t.references.len() && t.references[k] == r;
            assert(t.references[k].reference.source_node_id == node.id);
            assert(f.statuses@[i]@ == t.references[k].reference.reference_type);
        }
    }
    assert(f.admits_structure(t, node) <==> {
        &&& f.structure matches Some(StructuralPredicate::Leaf) ==> !(exists|x: Node|
            t.nodes.contains(x) && (#[trigger] x.parent_id) == Some(node.id))
        &&& f.structure matches Some(StructuralPredicate::Internal) ==> exists|x: Node|
            t.nodes.contains(x) && (#[trigger] x.parent_id) == Some(node.id)
    });
    assert forall|list: Seq<String>, text: Seq<char>| #[trigger] mentions(list, text)
        <==> crate::search::holds(list, text) by {}
    assert(forall|i: int|
        0 <= i < f.tags@.len() ==> (mentions(node.metadata.tags@, (#[trigger] f.tags@[i])@)
            <==> crate::search::holds(node.metadata.tags@, f.tags@[i]@)));
}

proof fn lemma_has_children(nodes: Seq<Node>, id: NodeId, n: int)
    requires
        0 <= n <= nodes.len(),
    ensures
        crate::reorder::child_count(nodes, id, n) > 0 <==> exists|i: int|
            0 <= i < n && (#[trigger] nodes[i]).parent_id == Some(id),
        n == nodes.len() ==> (crate::reorder::child_count(nodes, id, n) > 0 <==> exists|x: Node|
            nodes.contains(x) && (#[trigger] x.parent_id) == Some(id)),
    decreases n,
{
    if n > 0 {
        lemma_has_children(nodes, id, n - 1);
        if nodes[n - 1].parent_id == Some(id) {
            assert(nodes.contains(nodes[n - 1]));
        }
        if exists|i: int| 0 <= i < n - 1 && (#[trigger] nodes[i]).parent_id == Some(id) {
            let i = choose|i: int| 0 <= i < n - 1 && (#[trigger] nodes[i]).parent_id == Some(id);
            assert(nodes.contains(nodes[i]));
            assert(nodes[i].parent_id == Some(id));
        }
    }
    if n == nodes.len() {
        if exists|x: Node| nodes.contains(x) && (#[trigger] x.parent_id) == Some(id) {
            let x = choose|x: Node| nodes.contains(x) && (#[trigger] x.parent_id) == Some(id);
            let i = choose|i: int| 0 <= i < nodes.len() && nodes[i] == x;
            assert(nodes[i].parent_id == Some(id));
        }
        if exists|i: int| 0 <= i < n && (#[trigger] nodes[i]).parent_id == Some(id) {
            let i = choose|i: int| 0 <= i < n && (#[trigger] nodes[i]).parent_id == Some(id);
            assert(nodes.contains(nodes[i]) && nodes[i].parent_id == Some(id));
        }
    }
}

} // verus!
