//! What commands and summaries make of a node.

use crate::clone_laws::{child_total, is_child_of, lemma_child_count, slug_in_use};
use crate::commands::{
    create_draft, move_draft, move_target, reorder_draft, update_draft, DraftView, SlugChoice,
};
use crate::lookup::SelectorText;
use crate::model::{Node, NodeId, NodeMetadata, TargetView};
use crate::reads::{above, level, next_order, resolved};
use crate::references::{references_of, touching, ReferenceSide};
use crate::summaries::{ancestor_texts, node_summary, path_text, slug_path, TargetSummaryView};
use crate::tables::{RowView, Tables};
use crate::tree::{
    below, climb, ends, is_forest, lemma_height, links, lookup, present,
};
use vstd::prelude::*;

verus! {

/// Whether a draft leaves alone what a change of a node must leave alone: its identity, its
/// metadata and its creation time; and whether it is the node's next version.
pub open spec fn continues(draft: DraftView, node: Node, now: u64) -> bool {
    &&& draft.id == node.id
    &&& draft.metadata == *node.metadata
    &&& draft.created_at == node.created_at
    &&& draft.updated_at == now
    &&& draft.version == node.version + 1
    &&& draft.created_by is None
}

/// Whether the selector names the node.
pub open spec fn is_selected(nodes: Seq<Node>, selector: SelectorText, node: Node) -> bool {
    match selector.parsed {
        Err(_) => false,
        Ok(s) => match resolved(nodes, s) {
            Ok(Some(found)) => found == node,
            _ => false,
        },
    }
}

/// An update is accepted exactly under the node's version, and changes the content alone.
pub proof fn law_updates_change_the_content(
    nodes: Seq<Node>,
    selector: SelectorText,
    node: Node,
    content: Seq<char>,
    expected_version: u64,
    now: u64,
)
    requires
        is_selected(nodes, selector, node),
        node.version < u64::MAX,
    ensures
        update_draft(nodes, selector, content, expected_version, now) is Ok <==> node.version
            == expected_version,
        update_draft(nodes, selector, content, expected_version, now) matches Ok(draft) ==> {
            &&& continues(draft, node, now)
            &&& draft.markdown_content == content
            &&& draft.parent_id == node.parent_id
            &&& draft.slug == node.slug@
            &&& draft.sibling_order == node.sibling_order
        },
{
}

/// A reorder is accepted exactly of a node with a parent, under its version. It changes the
/// position alone: to the one asked for, or the last one where there is no such position.
pub proof fn law_reorders_change_the_position(
    nodes: Seq<Node>,
    selector: SelectorText,
    node: Node,
    order: u32,
    expected_version: u64,
    now: u64,
)
    requires
        is_selected(nodes, selector, node),
        nodes.contains(node),
        nodes.len() <= u32::MAX,
        node.version < u64::MAX,
    ensures
        reorder_draft(nodes, selector, order, expected_version, now) is Ok <==> node.version
            == expected_version && node.parent_id is Some,
        reorder_draft(nodes, selector, order, expected_version, now) matches Ok(draft) ==> {
            &&& continues(draft, node, now)
            &&& draft.markdown_content == node.markdown_content@
            &&& draft.parent_id == node.parent_id
            &&& draft.slug == node.slug@
            &&& draft.sibling_order <= order
            &&& draft.sibling_order < child_total(nodes, node.parent_id->0)
            &&& order < child_total(nodes, node.parent_id->0) ==> draft.sibling_order == order
            &&& order >= child_total(nodes, node.parent_id->0) ==> draft.sibling_order + 1
                == child_total(nodes, node.parent_id->0)
        },
{
    if node.parent_id is Some {
        let parent = node.parent_id->0;
        let n = nodes.len() as int;
        lemma_child_count(nodes, parent, n);
        assert(nodes.take(n) =~= nodes);
        crate::shape::lemma_filter_facts(nodes, is_child_of(parent));
        assert(is_child_of(parent)(node));
        assert(nodes.filter(is_child_of(parent)).contains(node));
    }
}

/// A move is accepted exactly of a node with a parent, under its version, to a parent that is
/// neither the node nor below it.
pub proof fn law_moves_close_no_cycle(
    nodes: Seq<Node>,
    selector: SelectorText,
    new_parent: SelectorText,
    node: Node,
    parent: Node,
    expected_version: u64,
)
    requires
        is_selected(nodes, selector, node),
        is_selected(nodes, new_parent, parent),
    ensures
        move_target(nodes, selector, new_parent, expected_version) is Ok <==> {
            &&& node.parent_id is Some
            &&& node.version == expected_version
            &&& forall|k: nat| #[trigger] climb(links(nodes), parent.id, k) != Some(node.id)
        },
        move_target(nodes, selector, new_parent, expected_version) matches Ok((n, p)) ==> n == node
            && p == parent.id,
{
    crate::tree::lemma_below_self(links(nodes), parent.id);
    if forall|k: nat| #[trigger] climb(links(nodes), parent.id, k) != Some(node.id) {
        assert(climb(links(nodes), parent.id, 0) != Some(node.id));
        assert(!below(links(nodes), node.id, parent.id));
    }
}

/// A moved node goes behind the children of its new parent and keeps its content.
pub proof fn law_moved_nodes_go_last(
    nodes: Seq<Node>,
    node: Node,
    parent: NodeId,
    slug: Seq<char>,
    now: u64,
    k: int,
)
    requires
        node.version < u64::MAX,
        0 <= k < nodes.len(),
        nodes[k].parent_id == Some(parent),
        nodes[k].sibling_order < u32::MAX,
    ensures
        ({
            let draft = move_draft(nodes, node, parent, slug, now);
            &&& continues(draft, node, now)
            &&& draft.parent_id == Some(parent)
            &&& draft.slug == slug
            &&& draft.markdown_content == node.markdown_content@
            &&& draft.sibling_order > nodes[k].sibling_order
        }),
{
    crate::lookup_laws::law_next_position_is_behind_the_last(nodes, parent);
}

/// A created node gets the slug asked for, unless a child of the parent has it. It starts at
/// its first version behind the other children, with the content given or its title as heading.
pub proof fn law_created_nodes_start_below_their_parent(
    nodes: Seq<Node>,
    parent: NodeId,
    choice: SlugChoice,
    id: NodeId,
    metadata: NodeMetadata,
    content: Option<Seq<char>>,
    now: u64,
)
    ensures
        create_draft(nodes, parent, choice, id, metadata, content, now) matches Ok(draft) ==> {
            &&& draft.id == id
            &&& draft.parent_id == Some(parent)
            &&& draft.metadata == metadata
            &&& draft.version == 1
            &&& draft.created_at == now && draft.updated_at == now
            &&& content is Some ==> draft.markdown_content == content->0
            &&& content is None ==> draft.markdown_content == "# "@ + metadata.title@ + "\n"@
            &&& draft.sibling_order == next_order(nodes, parent)
            &&& choice matches SlugChoice::Generated(slug) ==> draft.slug == slug@
            &&& choice matches SlugChoice::Requested(Ok(slug)) ==> draft.slug == slug@
                && !slug_in_use(nodes, parent, slug@)
        },
        choice matches SlugChoice::Requested(Ok(slug)) ==> (create_draft(
            nodes,
            parent,
            choice,
            id,
            metadata,
            content,
            now,
        ) is Err <==> slug_in_use(nodes, parent, slug@)),
        choice is Generated ==> create_draft(nodes, parent, choice, id, metadata, content, now) is Ok,
        choice matches SlugChoice::Requested(Err(_)) ==> create_draft(
            nodes,
            parent,
            choice,
            id,
            metadata,
            content,
            now,
        ) is Err,
{
    if let SlugChoice::Requested(Ok(slug)) = choice {
        crate::clone_laws::lemma_child_named(nodes, parent, slug@);
    }
}

/// A summary names the node, counts its children, and describes each of its outgoing references
/// in order.
pub proof fn law_summaries_describe_the_node(t: Tables, node: Node, i: int)
    ensures
        node_summary(t, node).id == node.id.text(),
        node_summary(t, node).slug == node.slug@,
        node_summary(t, node).title == node.metadata.title@,
        node_summary(t, node).version == node.version,
        node_summary(t, node).path == path_text(t.nodes, node.id),
        node_summary(t, node).children_count == child_total(t.nodes, node.id),
        node_summary(t, node).references.len() == touching(
            t,
            ReferenceSide::Source,
            node.id,
        ).len(),
        0 <= i < node_summary(t, node).references.len() ==> {
            let row = touching(t, ReferenceSide::Source, node.id)[i];
            let said = node_summary(t, node).references[i];
            &&& t.references.contains(row)
            &&& row.reference.source_node_id == node.id
            &&& said.reference_type == row.reference.reference_type
            &&& match row.reference.target {
                TargetView::Unresolved { target_ref } => said.target == (
                TargetSummaryView::Unresolved { target_ref }),
                TargetView::Resolved { node_id, target_ref, .. } => match said.target {
                    TargetSummaryView::Resolved { node_id: told, title, path } => present(
                        t.nodes,
                        node_id,
                    ) && told == node_id.text() && title == lookup(
                        t.nodes,
                        node_id,
                    )->0.metadata.title@ && path == path_text(t.nodes, node_id),
                    TargetSummaryView::Unresolved { target_ref: text } => !present(t.nodes, node_id)
                        && text == match target_ref {
                        Some(written) => written,
                        None => node_id.text(),
                    },
                },
            }
        },
{
    let n = t.nodes.len() as int;
    lemma_child_count(t.nodes, node.id, n);
    assert(t.nodes.take(n) =~= t.nodes);
    let rows = touching(t, ReferenceSide::Source, node.id);
    if 0 <= i < rows.len() {
        let keep = |r: RowView|
            crate::references::touches(r.reference, ReferenceSide::Source, node.id);
        crate::shape::lemma_filter_facts(t.references, keep);
        assert(rows.contains(rows[i]));
        assert(keep(rows[i]));
        assert(references_of(rows)[i] == rows[i].reference);
    }
}

/// A slug path begins with the slug of a node without a parent, ends with the node's own, and
/// goes down from parent to child; the ancestor identities are those of the nodes before the
/// last.
pub proof fn law_slug_paths_go_down_to_the_node(nodes: Seq<Node>, id: NodeId)
    requires
        is_forest(nodes),
        present(nodes, id),
    ensures
        ({
            let slugs = slug_path(nodes, id);
            let ids = ancestor_texts(nodes, id);
            &&& slugs.len() == ids.len() + 1
            &&& slugs.last() == lookup(nodes, id)->0.slug@
            &&& exists|way: Seq<Node>|
                {
                    &&& #[trigger] way.len() == slugs.len()
                    &&& way[0].parent_id is None
                    &&& way.last().id == id
                    &&& forall|i: int|
                        0 <= i < way.len() ==> nodes.contains(#[trigger] way[i]) && slugs[i]
                            == way[i].slug@
                    &&& forall|i: int|
                        0 <= i < ids.len() ==> #[trigger] ids[i] == way[i].id.text()
                    &&& forall|i: int, j: int|
                        0 <= i < way.len() && j == i + 1 && j < way.len() ==> (
                        #[trigger] way[j]).parent_id == Some((#[trigger] way[i]).id)
                }
        }),
{
    let n = level(nodes, id) as int;
    assert(ends(links(nodes), id));
    lemma_height(links(nodes), id);
    let slugs = slug_path(nodes, id);
    let ids = ancestor_texts(nodes, id);
    let way = Seq::new(n as nat, |i: int| above(nodes, id, n - 1 - i));
    crate::lookup_laws::law_way_up_follows_parents(nodes, id, n - 1);
    crate::lookup_laws::law_way_up_follows_parents(nodes, id, 0);
    assert(way.last() == above(nodes, id, 0));
    assert forall|i: int| 0 <= i < way.len() implies nodes.contains(#[trigger] way[i]) && slugs[i]
        == way[i].slug@ by {
        crate::lookup_laws::law_way_up_follows_parents(nodes, id, n - 1 - i);
    }
    assert forall|i: int, j: int| 0 <= i < way.len() && j == i + 1 && j < way.len() implies (
    #[trigger] way[j]).parent_id == Some((#[trigger] way[i]).id) by {
        crate::lookup_laws::law_way_up_follows_parents(nodes, id, n - 1 - j);
    }
    assert(way.len() == slugs.len());
}

} // verus!
