//! What a context tells of a node, and what it leaves out under a budget.

use crate::context::{
    ancestors_of, describe_all, describes, describes_convention, estimate_of, reads_context,
    writes_context, Budget, ReadContext, ReadParts, Reading, WriteContext, WriteParts,
    ESTIMATE_ROUNDS,
};
use crate::diagnostics::texts;
use crate::model::{Node, NodeId, ReferenceView, StoreError};
use crate::pages::lists_siblings;
use crate::reads::{above, level, lists_children};
use crate::references::{references_of, touches, touching, ReferenceSide};
use crate::tables::{reference_views, RowView, Tables};
use crate::tree::{ends, is_forest, lemma_height, links, lookup, position, present};
use vstd::prelude::*;

verus! {

proof fn lemma_ancestors(nodes: Seq<Node>, id: NodeId, i: int)
    requires
        is_forest(nodes),
        present(nodes, id),
        0 <= i < ancestors_of(nodes, id).len(),
    ensures
        ({
            let listed = ancestors_of(nodes, id);
            &&& nodes.contains(listed[i])
            &&& i == 0 ==> listed[i].parent_id is None
            &&& i + 1 < listed.len() ==> listed[i + 1].parent_id == Some(listed[i].id)
            &&& i + 1 == listed.len() ==> lookup(nodes, id)->0.parent_id == Some(listed[i].id)
        }),
{
    let n = level(nodes, id) as int;
    assert(ends(links(nodes), id));
    lemma_height(links(nodes), id);
    crate::lookup_laws::law_way_up_follows_parents(nodes, id, n - 1 - i);
    crate::lookup_laws::law_way_up_follows_parents(nodes, id, n - 2 - i);
    let listed = ancestors_of(nodes, id);
    assert(listed[i] == above(nodes, id, n - 1 - i));
    if i + 1 < listed.len() {
        assert(listed[i + 1] == above(nodes, id, n - 2 - i));
    } else {
        assert(n - 2 - i == 0);
        assert(crate::tree::climb(links(nodes), id, 0) == Some(id));
        assert(above(nodes, id, 0) == lookup(nodes, id)->0);
    }
}

/// Whether a context tells of the node's ancestors from the root on: the first has no parent,
/// each is the parent of the next, and the last is the parent of the node.
pub open spec fn leads_down(nodes: Seq<Node>, id: NodeId, ids: Seq<NodeId>) -> bool {
    &&& ids.len() == 0 <==> lookup(nodes, id)->0.parent_id is None
    &&& forall|i: int| 0 <= i < ids.len() ==> present(nodes, #[trigger] ids[i])
    &&& ids.len() > 0 ==> {
        &&& lookup(nodes, ids[0])->0.parent_id is None
        &&& lookup(nodes, id)->0.parent_id == Some(ids.last())
    }
    &&& forall|i: int, j: int|
        0 <= i < ids.len() && j == i + 1 && j < ids.len() ==> lookup(
            nodes,
            #[trigger] ids[j],
        )->0.parent_id == Some(#[trigger] ids[i])
}

proof fn lemma_leads_down(nodes: Seq<Node>, id: NodeId, ids: Seq<NodeId>)
    requires
        is_forest(nodes),
        present(nodes, id),
        ids.len() == ancestors_of(nodes, id).len(),
        forall|i: int| 0 <= i < ids.len() ==> #[trigger] ids[i] == ancestors_of(nodes, id)[i].id,
    ensures
        leads_down(nodes, id, ids),
{
    let listed = ancestors_of(nodes, id);
    let n = level(nodes, id) as int;
    assert(ends(links(nodes), id));
    lemma_height(links(nodes), id);
    crate::lookup_laws::law_way_up_follows_parents(nodes, id, 0);
    assert(crate::tree::climb(links(nodes), id, 0) == Some(id));
    assert forall|i: int| 0 <= i < ids.len() implies present(nodes, #[trigger] ids[i]) && lookup(
        nodes,
        ids[i],
    ) == Some(listed[i]) by {
        lemma_ancestors(nodes, id, i);
        let m = choose|m: int| 0 <= m < nodes.len() && nodes[m] == listed[i];
        crate::tree::lemma_position(nodes, m);
    }
    if ids.len() > 0 {
        lemma_ancestors(nodes, id, 0);
        lemma_ancestors(nodes, id, ids.len() - 1);
        assert(ids[0] == listed[0].id);
        assert(ids.last() == listed[ids.len() - 1].id);
    }
    assert forall|i: int, j: int| 0 <= i < ids.len() && j == i + 1 && j < ids.len() implies lookup(
        nodes,
        #[trigger] ids[j],
    )->0.parent_id == Some(#[trigger] ids[i]) by {
        lemma_ancestors(nodes, id, i);
    }
}

/// Whether the references are exactly those that start at the node.
pub open spec fn starts_at(t: Tables, id: NodeId, references: Seq<ReferenceView>) -> bool {
    &&& forall|k: int|
        0 <= k < t.references.len() && (#[trigger] t.references[k]).reference.source_node_id == id
            ==> references.contains(t.references[k].reference)
    &&& forall|i: int|
        0 <= i < references.len() ==> (#[trigger] references[i]).source_node_id == id
}

proof fn lemma_starts_at(t: Tables, id: NodeId)
    ensures
        starts_at(t, id, references_of(touching(t, ReferenceSide::Source, id))),
{
    let rows = touching(t, ReferenceSide::Source, id);
    let keep = |r: RowView| touches(r.reference, ReferenceSide::Source, id);
    crate::shape::lemma_filter_facts(t.references, keep);
    let references = references_of(rows);
    assert forall|k: int| 0 <= k < t.references.len() && (
    #[trigger] t.references[k]).reference.source_node_id == id implies references.contains(
        t.references[k].reference,
    ) by {
        assert(t.references.contains(t.references[k]));
        assert(keep(t.references[k]));
        assert(rows.contains(t.references[k]));
        let i = choose|i: int| 0 <= i < rows.len() && rows[i] == t.references[k];
        assert(references[i] == t.references[k].reference);
    }
    assert forall|i: int| 0 <= i < references.len() implies (
    #[trigger] references[i]).source_node_id == id by {
        assert(keep(rows[i]));
    }
}

/// A read context tells of the node, of its content, of its ancestors from the root on, of all
/// its children in order, and of all its references.
pub proof fn law_read_contexts_are_complete(
    t: Tables,
    id: NodeId,
    result: Result<ReadContext, StoreError>,
)
    requires
        is_forest(t.nodes),
        present(t.nodes, id),
        reads_context(t, id, result),
    ensures
        result matches Ok(context) && {
            let node = lookup(t.nodes, id)->0;
            &&& context.node.node_id == id
            &&& context.node.title@ == node.metadata.title@
            &&& context.content matches Some(text) && text@ == node.markdown_content@
            &&& exists|ids: Seq<NodeId>|
                {
                    &&& #[trigger] leads_down(t.nodes, id, ids)
                    &&& ids.len() == context.ancestors@.len()
                    &&& forall|i: int|
                        0 <= i < ids.len() ==> (#[trigger] context.ancestors@[i]).node_id == ids[i]
                }
            &&& forall|k: int|
                0 <= k < t.nodes.len() && (#[trigger] t.nodes[k]).parent_id == Some(id)
                    ==> exists|i: int|
                    0 <= i < context.children@.len() && (#[trigger] context.children@[i]).node_id
                        == t.nodes[k].id && context.children@[i].title@
                        == t.nodes[k].metadata.title@
            &&& forall|i: int, j: int|
                0 <= i < j < context.children@.len() ==> {
                    let a = lookup(t.nodes, (#[trigger] context.children@[i]).node_id)->0;
                    let b = lookup(t.nodes, (#[trigger] context.children@[j]).node_id)->0;
                    &&& a.parent_id == Some(id)
                    &&& a.sibling_order <= b.sibling_order
                    &&& a.id != b.id
                }
            &&& starts_at(t, id, reference_views(context.references@))
        },
{
    let nodes = t.nodes;
    let context = result->Ok_0;
    let q = position(nodes, id);
    assert(nodes[q].id == id);
    let listed = ancestors_of(nodes, id);
    let ids = Seq::new(listed.len(), |i: int| listed[i].id);
    lemma_leads_down(nodes, id, ids);
    assert forall|i: int| 0 <= i < ids.len() implies (
    #[trigger] context.ancestors@[i]).node_id == ids[i] by {
        assert(describes(nodes, listed[i], context.ancestors@[i]));
    }
    lemma_starts_at(t, id);
    let children = choose|children: Seq<Node>| #[trigger]
        lists_children(nodes, id, children) && describe_all(nodes, children, context.children@);
    assert forall|k: int| 0 <= k < nodes.len() && (#[trigger] nodes[k]).parent_id == Some(
        id,
    ) implies exists|i: int|
        0 <= i < context.children@.len() && (#[trigger] context.children@[i]).node_id == nodes[k].id
            && context.children@[i].title@ == nodes[k].metadata.title@ by {
        assert(nodes.contains(nodes[k]));
        crate::search_laws::lemma_listed_child(nodes, id, children, nodes[k]);
        let i = choose|i: int| 0 <= i < children.len() && children[i] == nodes[k];
        assert(describes(nodes, children[i], context.children@[i]));
    }
    assert forall|i: int, j: int| 0 <= i < j < context.children@.len() implies ({
        let a = lookup(nodes, (#[trigger] context.children@[i]).node_id)->0;
        let b = lookup(nodes, (#[trigger] context.children@[j]).node_id)->0;
        &&& a.parent_id == Some(id)
        &&& a.sibling_order <= b.sibling_order
        &&& a.id != b.id
    }) by {
        crate::lookup_laws::law_children_are_listed_in_order(nodes, id, children, i, j);
        assert(describes(nodes, children[i], context.children@[i]));
        assert(describes(nodes, children[j], context.children@[j]));
        assert(children.contains(children[i]) && children.contains(children[j]));
        crate::search_laws::lemma_listed_child(nodes, id, children, children[i]);
        crate::search_laws::lemma_listed_child(nodes, id, children, children[j]);
        let m = choose|m: int| 0 <= m < nodes.len() && nodes[m] == children[i];
        let p = choose|p: int| 0 <= p < nodes.len() && nodes[p] == children[j];
        crate::tree::lemma_position(nodes, m);
        crate::tree::lemma_position(nodes, p);
    }
}

/// A write context tells the node's own rules, those of its ancestors from the root on, all its
/// siblings but itself, and all its references.
pub proof fn law_write_contexts_are_complete(
    t: Tables,
    id: NodeId,
    result: Result<WriteContext, StoreError>,
)
    requires
        is_forest(t.nodes),
        present(t.nodes, id),
        writes_context(t, id, result),
    ensures
        result matches Ok(context) && {
            let node = lookup(t.nodes, id)->0;
            &&& context.target.node_id == id
            &&& context.version == node.version
            &&& context.content_hash == node.content_hash
            &&& texts(context.owns@) == texts(node.metadata.owns@)
            &&& texts(context.excludes@) == texts(node.metadata.excludes@)
            &&& texts(context.accepts_children@) == texts(node.metadata.accepts_children@)
            &&& exists|ids: Seq<NodeId>|
                {
                    &&& #[trigger] leads_down(t.nodes, id, ids)
                    &&& ids.len() == context.ancestor_conventions@.len()
                    &&& forall|i: int|
                        0 <= i < ids.len() ==> {
                            let said = #[trigger] context.ancestor_conventions@[i];
                            let ancestor = lookup(t.nodes, ids[i])->0;
                            &&& said.node.node_id == ids[i]
                            &&& texts(said.owns@) == texts(ancestor.metadata.owns@)
                            &&& texts(said.excludes@) == texts(ancestor.metadata.excludes@)
                        }
                }
            &&& forall|k: int|
                0 <= k < t.nodes.len() && (#[trigger] t.nodes[k]).parent_id == node.parent_id
                    && node.parent_id is Some && t.nodes[k].id != id ==> exists|i: int|
                    0 <= i < context.sibling_examples@.len() && (
                    #[trigger] context.sibling_examples@[i]).node_id == t.nodes[k].id
            &&& forall|i: int|
                0 <= i < context.sibling_examples@.len() ==> {
                    let said = (#[trigger] context.sibling_examples@[i]).node_id;
                    &&& said != id
                    &&& present(t.nodes, said)
                    &&& lookup(t.nodes, said)->0.parent_id == node.parent_id
                }
            &&& starts_at(t, id, reference_views(context.references@))
        },
{
    let nodes = t.nodes;
    let context = result->Ok_0;
    let q = position(nodes, id);
    assert(nodes[q].id == id);
    let node = nodes[q];
    let listed = ancestors_of(nodes, id);
    let ids = Seq::new(listed.len(), |i: int| listed[i].id);
    lemma_leads_down(nodes, id, ids);
    assert forall|i: int| 0 <= i < ids.len() implies ({
        let said = #[trigger] context.ancestor_conventions@[i];
        let ancestor = lookup(nodes, ids[i])->0;
        &&& said.node.node_id == ids[i]
        &&& texts(said.owns@) == texts(ancestor.metadata.owns@)
        &&& texts(said.excludes@) == texts(ancestor.metadata.excludes@)
    }) by {
        assert(describes_convention(nodes, listed[i], context.ancestor_conventions@[i]));
        lemma_ancestors(nodes, id, i);
        let m = choose|m: int| 0 <= m < nodes.len() && nodes[m] == listed[i];
        crate::tree::lemma_position(nodes, m);
    }
    lemma_starts_at(t, id);
    let all = choose|all: Seq<Node>| #[trigger]
        lists_siblings(nodes, node, all) && describe_all(
            nodes,
            all.filter(|n: Node| n.id != id),
            context.sibling_examples@,
        );
    let others = |n: Node| n.id != id;
    let kept = all.filter(others);
    crate::shape::lemma_filter_facts(all, others);
    assert forall|k: int|
        0 <= k < nodes.len() && (#[trigger] nodes[k]).parent_id == node.parent_id
            && node.parent_id is Some && nodes[k].id != id implies exists|i: int|
        0 <= i < context.sibling_examples@.len() && (
        #[trigger] context.sibling_examples@[i]).node_id == nodes[k].id by {
        assert(nodes.contains(nodes[k]));
        crate::search_laws::lemma_listed_child(nodes, node.parent_id->0, all, nodes[k]);
        assert(others(nodes[k]));
        assert(kept.contains(nodes[k]));
        let i = choose|i: int| 0 <= i < kept.len() && kept[i] == nodes[k];
        assert(describes(nodes, kept[i], context.sibling_examples@[i]));
    }
    assert forall|i: int| 0 <= i < context.sibling_examples@.len() implies ({
        let said = (#[trigger] context.sibling_examples@[i]).node_id;
        &&& said != id
        &&& present(nodes, said)
        &&& lookup(nodes, said)->0.parent_id == node.parent_id
    }) by {
        assert(describes(nodes, kept[i], context.sibling_examples@[i]));
        assert(others(kept[i]));
        assert(kept.contains(kept[i]));
        assert(all.contains(kept[i]));
        if node.parent_id is Some {
            crate::search_laws::lemma_listed_child(nodes, node.parent_id->0, all, kept[i]);
            let m = choose|m: int| 0 <= m < nodes.len() && nodes[m] == kept[i];
            crate::tree::lemma_position(nodes, m);
        } else {
            let m = choose|m: int| 0 <= m < all.len() && all[m] == kept[i];
            assert(all[m] == node);
        }
    }
}

/// What a read context leaves out it names. It takes away references first, then children, then
/// the content, then ancestors one by one, the nearest first; it adds and changes nothing.
pub proof fn law_omissions_are_named(parts: ReadParts)
    ensures
        ({
            let after = parts.shrunk();
            &&& after.references != parts.references ==> after.references.len() == 0
                && after.omitted.contains("references"@)
            &&& after.children != parts.children ==> after.children.len() == 0
                && after.omitted.contains("children"@)
            &&& after.content != parts.content ==> after.content is None && after.omitted.contains(
                "content"@,
            )
            &&& after.ancestors != parts.ancestors ==> after.ancestors == parts.ancestors.take(
                parts.ancestors.len() - 1,
            ) && after.omitted.contains("ancestor summaries"@)
            &&& !parts.bare() ==> forall|label: Seq<char>| #[trigger]
                parts.omitted.contains(label) ==> after.omitted.contains(label)
            &&& parts.references.len() > 0 ==> after.references.len() == 0 && after.children
                == parts.children && after.content == parts.content && after.ancestors
                == parts.ancestors
        }),
{
    let after = parts.shrunk();
    lemma_label(parts.omitted, "references"@);
    lemma_label(parts.omitted, "children"@);
    lemma_label(parts.omitted, "content"@);
    lemma_label(parts.omitted, "ancestor summaries"@);
    if parts.ancestors.len() > 0 {
        assert(parts.ancestors.drop_last() =~= parts.ancestors.take(parts.ancestors.len() - 1));
    }
}

proof fn lemma_label(labels: Seq<Seq<char>>, label: Seq<char>)
    ensures
        crate::context::with_label(labels, label).contains(label),
        forall|x: Seq<char>| #[trigger]
            labels.contains(x) ==> crate::context::with_label(labels, label).contains(x),
{
    let after = crate::context::with_label(labels, label);
    if !labels.contains(label) {
        assert(after[labels.len() as int] == label);
    }
    assert forall|x: Seq<char>| #[trigger] labels.contains(x) implies after.contains(x) by {
        let i = choose|i: int| 0 <= i < labels.len() && labels[i] == x;
        assert(after[i] == x);
    }
}

/// What a write context leaves out it names: references first, then siblings, then the rules of
/// ancestors, each from the end.
pub proof fn law_write_omissions_are_named(parts: WriteParts)
    ensures
        ({
            let after = parts.shrunk();
            &&& after.references != parts.references ==> after.references.len() == 0
                && after.omitted.contains("references"@)
            &&& after.sibling_examples != parts.sibling_examples ==> parts.references.len() == 0
                && after.sibling_examples == parts.sibling_examples.take(
                parts.sibling_examples.len() - 1,
            ) && after.omitted.contains("sibling examples"@)
            &&& after.ancestor_conventions != parts.ancestor_conventions ==> parts.references.len()
                == 0 && parts.sibling_examples.len() == 0 && after.ancestor_conventions
                == parts.ancestor_conventions.take(parts.ancestor_conventions.len() - 1)
                && after.omitted.contains("ancestor conventions"@)
            &&& !parts.bare() ==> forall|label: Seq<char>| #[trigger]
                parts.omitted.contains(label) ==> after.omitted.contains(label)
        }),
{
    lemma_label(parts.omitted, "references"@);
    lemma_label(parts.omitted, "sibling examples"@);
    lemma_label(parts.omitted, "ancestor conventions"@);
    if parts.sibling_examples.len() > 0 {
        assert(parts.sibling_examples.drop_last() =~= parts.sibling_examples.take(
            parts.sibling_examples.len() - 1,
        ));
    }
    if parts.ancestor_conventions.len() > 0 {
        assert(parts.ancestor_conventions.drop_last() =~= parts.ancestor_conventions.take(
            parts.ancestor_conventions.len() - 1,
        ));
    }
}

/// An estimate counts one token for every four bytes begun.
pub proof fn law_estimates_count_four_bytes_a_token(length: usize)
    requires
        length <= usize::MAX - 3,
    ensures
        4 * estimate_of(length) >= length,
        4 * estimate_of(length) < length + 4,
{
}

/// A context whose estimate is settled fits exactly when it is not longer than the budget. One
/// that is longer is shortened, unless nothing is left to leave out; only then is the budget
/// exceeded. An estimate that is off is corrected first, as long as rounds are left.
pub proof fn law_budgets_admit_what_fits(budget: Budget, tokens: u64, length: usize)
    ensures
        budget.round >= ESTIMATE_ROUNDS || tokens == estimate_of(length) ==> {
            &&& budget.reading(tokens, length) == Reading::Fits <==> length <= budget.byte_limit
            &&& budget.reading(tokens, length) == Reading::Exceeded <==> length > budget.byte_limit
                && budget.compacted
            &&& budget.reading(tokens, length) == Reading::TooLong <==> length > budget.byte_limit
                && !budget.compacted
        },
        budget.round < ESTIMATE_ROUNDS && tokens != estimate_of(length) ==> budget.reading(
            tokens,
            length,
        ) == Reading::Corrected,
{
}

} // verus!
