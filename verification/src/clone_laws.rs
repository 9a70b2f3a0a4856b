//! What a clone has in common with its original, and what it leaves alone.

use crate::clone::{renamed, CloneRecords, Cloning, ClonePlan};
use crate::edits::shifted;
use crate::model::{Node, NodeId, ReferenceOrigin, ReferenceView, RevisionView, TargetView};
use crate::mutate::run;
use crate::reads::{first_from, is_child_named, subtree_extent};
use crate::reorder::{child_count, lemma_derived_nodes, lemma_references_nodes};
use crate::shape::lemma_filter_facts;
use crate::tables::{RowView, Tables};
use crate::traverse::{nodes_of, Placed};
use crate::tree::{
    below, is_forest, lemma_below_parent, lemma_position, links, lookup, position, present,
    unique_ids,
};
use vstd::prelude::*;

verus! {

/// The rows of a subtree are the stored nodes at and below the source, each once.
pub proof fn law_a_clone_covers_the_subtree(c: Cloning, nodes: Seq<Node>)
    requires
        is_forest(nodes),
        c.covers(nodes),
    ensures
        forall|i: int|
            0 <= i < c.rows.len() ==> lookup(nodes, (#[trigger] c.rows[i]).node.id) == Some(
                c.rows[i].node,
            ) && below(links(nodes), c.request.source_id, c.rows[i].node.id),
        forall|i: int, j: int|
            0 <= i < c.rows.len() && 0 <= j < c.rows.len() && (#[trigger] c.rows[i]).node.id == (
            #[trigger] c.rows[j]).node.id ==> i == j,
        forall|x: NodeId|
            present(nodes, x) && #[trigger] below(links(nodes), c.request.source_id, x)
                ==> exists|i: int| 0 <= i < c.rows.len() && (#[trigger] c.rows[i]).node.id == x,
{
    let source = c.request.source_id;
    let extent = subtree_extent(source);
    let listed = nodes_of(c.rows);
    let key = |n: Node| extent.key(nodes, n);
    assert(crate::listing::increasing(listed, key));
    assert forall|i: int| 0 <= i < c.rows.len() implies lookup(
        nodes,
        (#[trigger] c.rows[i]).node.id,
    ) == Some(c.rows[i].node) && below(links(nodes), source, c.rows[i].node.id) by {
        assert(listed[i] == c.rows[i].node);
        assert(listed.contains(listed[i]));
        assert(nodes.contains(listed[i]) && extent.covers(nodes, listed[i]));
        let m = choose|m: int| 0 <= m < nodes.len() && nodes[m] == listed[i];
        lemma_position(nodes, m);
    }
    assert forall|i: int, j: int|
        0 <= i < c.rows.len() && 0 <= j < c.rows.len() && (#[trigger] c.rows[i]).node.id == (
        #[trigger] c.rows[j]).node.id implies i == j by {
        assert(c.rows[i].node == c.rows[j].node);
        assert(listed[i] == listed[j]);
        crate::order::lemma_lex_irreflexive(key(listed[i]));
        if i < j {
            assert(crate::order::lex_lt(key(listed[i]), key(listed[j])));
        }
        if j < i {
            assert(crate::order::lex_lt(key(listed[j]), key(listed[i])));
        }
    }
    assert forall|x: NodeId|
        present(nodes, x) && #[trigger] below(
            links(nodes),
            source,
            x,
        ) implies exists|i: int| 0 <= i < c.rows.len() && (#[trigger] c.rows[i]).node.id == x by {
        let q = position(nodes, x);
        assert(nodes[q].id == x);
        assert(extent.covers(nodes, nodes[q]));
        assert(nodes.contains(nodes[q]));
        assert(listed.contains(nodes[q]));
        let i = choose|i: int| 0 <= i < listed.len() && listed[i] == nodes[q];
        assert(c.rows[i].node.id == x);
    }
}

proof fn lemma_renamed(rows: Seq<Placed>, fresh: Seq<NodeId>, id: NodeId, n: int)
    requires
        0 <= n <= rows.len(),
    ensures
        match renamed(rows, fresh, id, n) {
            Some(f) => exists|k: int|
                0 <= k < n && (#[trigger] rows[k]).node.id == id && fresh[k] == f,
            None => forall|k: int| 0 <= k < n ==> (#[trigger] rows[k]).node.id != id,
        },
    decreases n,
{
    if n > 0 && rows[n - 1].node.id != id {
        lemma_renamed(rows, fresh, id, n - 1);
    }
}

proof fn lemma_renames(c: Cloning, nodes: Seq<Node>, k: int)
    requires
        is_forest(nodes),
        c.covers(nodes),
        0 <= k < c.rows.len(),
    ensures
        c.rename(c.rows[k].node.id) == Some(c.fresh[k]),
{
    law_a_clone_covers_the_subtree(c, nodes);
    lemma_renamed(c.rows, c.fresh, c.rows[k].node.id, c.rows.len() as int);
}

pub proof fn lemma_found_from<T>(items: Seq<T>, pred: spec_fn(T) -> bool, i: int)
    requires
        0 <= i,
    ensures
        first_from(items, pred, i) is Some <==> exists|k: int|
            i <= k < items.len() && pred(#[trigger] items[k]),
    decreases items.len() - i,
{
    if i < items.len() && !pred(items[i]) {
        lemma_found_from(items, pred, i + 1);
    }
}

/// Whether a child of the parent has the slug.
pub open spec fn slug_in_use(nodes: Seq<Node>, parent: NodeId, slug: Seq<char>) -> bool {
    exists|k: int|
        0 <= k < nodes.len() && (#[trigger] nodes[k]).parent_id == Some(parent) && nodes[k].slug@
            == slug
}

pub proof fn lemma_child_named(nodes: Seq<Node>, parent: NodeId, slug: Seq<char>)
    ensures
        crate::reads::child_named(nodes, parent, slug) is Some <==> slug_in_use(
            nodes,
            parent,
            slug,
        ),
{
    let pred = is_child_named(parent, slug);
    lemma_found_from(nodes, pred, 0);
    if slug_in_use(nodes, parent, slug) {
        let k = choose|k: int|
            0 <= k < nodes.len() && (#[trigger] nodes[k]).parent_id == Some(parent)
                && nodes[k].slug@ == slug;
        assert(pred(nodes[k]));
    }
    if first_from(nodes, pred, 0) is Some {
        let k = choose|k: int| 0 <= k < nodes.len() && pred(#[trigger] nodes[k]);
        assert(nodes[k].parent_id == Some(parent) && nodes[k].slug@ == slug);
    }
}

/// The children of a node.
pub open spec fn is_child_of(parent: NodeId) -> spec_fn(Node) -> bool {
    |n: Node| n.parent_id == Some(parent)
}

/// Number of children of a node.
pub open spec fn child_total(nodes: Seq<Node>, parent: NodeId) -> nat {
    nodes.filter(is_child_of(parent)).len()
}

pub proof fn lemma_child_count(nodes: Seq<Node>, parent: NodeId, n: int)
    requires
        0 <= n <= nodes.len(),
    ensures
        child_count(nodes, parent, n) == nodes.take(n).filter(is_child_of(parent)).len(),
    decreases n,
{
    reveal(Seq::filter);
    if n > 0 {
        lemma_child_count(nodes, parent, n - 1);
        assert(nodes.take(n).drop_last() =~= nodes.take(n - 1));
        assert(nodes.take(n).last() == nodes[n - 1]);
    }
}

/// Whether a node is the clone of another: it has the same content under another identity,
/// hangs below the clone of the other's parent, or below the destination where the other is
/// the source, and starts its own history.
pub open spec fn is_clone_of(c: Cloning, nodes: Seq<Node>, original: Node, clone: Node) -> bool {
    let source = c.request.source_id;
    let destination = c.request.destination_parent_id;
    &&& clone.metadata == original.metadata
    &&& clone.markdown_content == original.markdown_content
    &&& clone.version == 1
    &&& clone.created_at == c.request.created_at
    &&& clone.updated_at == c.request.created_at
    &&& original.id != source ==> {
        &&& clone.slug == original.slug
        &&& clone.sibling_order == original.sibling_order
        &&& original.parent_id is Some
        &&& exists|j: int|
            0 <= j < c.rows.len() && Some((#[trigger] c.rows[j]).node.id) == original.parent_id
                && clone.parent_id == Some(c.fresh[j])
    }
    &&& original.id == source ==> {
        &&& clone.parent_id == Some(destination)
        &&& clone.slug == if slug_in_use(nodes, destination, original.slug@) {
            c.fallback
        } else {
            original.slug
        }
        &&& clone.sibling_order == match c.request.sibling_order {
            Some(k) if k < child_total(nodes, destination) => k as int,
            _ => child_total(nodes, destination) as int,
        }
    }
}

proof fn lemma_planned_clone(
    c: Cloning,
    nodes: Seq<Node>,
    i: int,
    content_hash: crate::model::NodeHash,
    revision_hash: crate::model::NodeHash,
)
    requires
        is_forest(nodes),
        nodes.len() <= u32::MAX,
        c.covers(nodes),
        0 <= i < c.rows.len(),
    ensures
        is_clone_of(c, nodes, c.rows[i].node, c.node(nodes, i, content_hash, revision_hash)),
{
    law_a_clone_covers_the_subtree(c, nodes);
    let up = links(nodes);
    let source = c.request.source_id;
    let destination = c.request.destination_parent_id;
    let original = c.rows[i].node;
    let m = position(nodes, original.id);
    assert(nodes[m].id == original.id && nodes[m] == original);
    lemma_position(nodes, m);
    if original.id != source {
        lemma_below_parent(up, source, original.id);
        assert(up.contains_key(original.id));
        let p = original.parent_id->0;
        assert(present(nodes, nodes[m].parent_id->0));
        assert(below(up, source, p));
        let j = choose|j: int| 0 <= j < c.rows.len() && (#[trigger] c.rows[j]).node.id == p;
        lemma_renames(c, nodes, j);
    } else {
        let slug = original.slug@;
        lemma_child_named(nodes, destination, slug);
        assert(crate::tree::node_at(nodes, source) == original);
        lemma_child_count(nodes, destination, nodes.len() as int);
        assert(nodes.take(nodes.len() as int) =~= nodes);
        lemma_filter_facts(nodes, is_child_of(destination));
        assert(child_count(nodes, destination, nodes.len() as int) == child_total(
            nodes,
            destination,
        ));
    }
}

/// Every draft of a planned clone carries the content of its own original: there is one for
/// each node at and below the source, in the order of the rows, with that node's metadata and
/// Markdown, below the clone of that node's parent.
pub proof fn law_clone_plans_copy_the_originals(
    t: Tables,
    c: Cloning,
    plan: ClonePlan,
    i: int,
)
    requires
        is_forest(t.nodes),
        t.nodes.len() <= u32::MAX,
        c.covers(t.nodes),
        c.plans(t, plan),
        0 <= i < c.rows.len(),
    ensures
        plan.drafts.len() == c.rows.len(),
        lookup(t.nodes, c.rows[i].node.id) is Some,
        ({
            let original = lookup(t.nodes, c.rows[i].node.id)->0;
            let draft = plan.drafts@[i];
            &&& draft.id == c.fresh[i]
            &&& draft.metadata == original.metadata
            &&& draft.markdown_content == original.markdown_content
            &&& draft.version == 1
            &&& draft.created_at == c.request.created_at
            &&& original.id != c.request.source_id ==> draft.slug == original.slug
                && draft.sibling_order == original.sibling_order
            &&& original.id == c.request.source_id ==> draft.parent_id == Some(
                c.request.destination_parent_id,
            )
            &&& forall|j: int|
                0 <= j < c.rows.len() && original.id != c.request.source_id && Some(
                    (#[trigger] c.rows[j]).node.id,
                ) == original.parent_id ==> draft.parent_id == Some(plan.drafts@[j].id)
        }),
{
    law_a_clone_covers_the_subtree(c, t.nodes);
    let zero = crate::model::NodeHash { high: 0, low: 0 };
    lemma_planned_clone(c, t.nodes, i, zero, zero);
    assert(c.drafts(t.nodes, plan.drafts@[i], i));
    assert forall|j: int|
        0 <= j < c.rows.len() && Some((#[trigger] c.rows[j]).node.id)
            == c.rows[i].node.parent_id implies c.drafts(t.nodes, plan.drafts@[j], j) by {
        assert(c.drafts(t.nodes, plan.drafts@[j], j));
    }
}

/// The clone of the `i`-th row as it is stored.
spec fn stored(c: Cloning, nodes: Seq<Node>, records: Seq<CloneRecords>, i: int) -> Node {
    c.node(nodes, i, records[i].content_hash, records[i].revision_hash)
}

spec fn stored_nodes(c: Cloning, nodes: Seq<Node>, records: Seq<CloneRecords>, n: int) -> Seq<
    Node,
> {
    Seq::new(n as nat, |i: int| stored(c, nodes, records, i))
}

spec fn stored_revisions(c: Cloning, nodes: Seq<Node>, records: Seq<CloneRecords>, n: int) -> Seq<
    RevisionView,
> {
    Seq::new(n as nat, |i: int| c.revision(stored(c, nodes, records, i)))
}

proof fn lemma_push_unique(nodes: Seq<Node>, node: Node)
    requires
        unique_ids(nodes),
        !present(nodes, node.id),
    ensures
        unique_ids(nodes.push(node)),
{
    let all = nodes.push(node);
    assert forall|i: int, j: int|
        0 <= i < all.len() && 0 <= j < all.len() && #[trigger] all[i].id
            == #[trigger] all[j].id implies i == j by {
        if i < nodes.len() {
            assert(nodes[i].id == all[i].id);
        }
        if j < nodes.len() {
            assert(nodes[j].id == all[j].id);
        }
    }
}

proof fn lemma_clone_rows(
    room: Tables,
    c: Cloning,
    nodes: Seq<Node>,
    records: Seq<CloneRecords>,
    n: int,
)
    requires
        unique_ids(room.nodes),
        0 <= n <= c.rows.len(),
        run(room, n, c.step(nodes, records)) is Ok,
    ensures
        ({
            let u = run(room, n, c.step(nodes, records))->Ok_0;
            &&& u.nodes == room.nodes + stored_nodes(c, nodes, records, n)
            &&& u.revisions == room.revisions + stored_revisions(c, nodes, records, n)
            &&& unique_ids(u.nodes)
        }),
    decreases n,
{
    let u = run(room, n, c.step(nodes, records))->Ok_0;
    if n > 0 {
        lemma_clone_rows(room, c, nodes, records, n - 1);
        let before = run(room, n - 1, c.step(nodes, records))->Ok_0;
        let node = stored(c, nodes, records, n - 1);
        let v = before.insert_node(node)->Ok_0;
        let w = v.insert_revision(c.revision(node))->Ok_0;
        lemma_derived_nodes(w, node.id, records[n - 1].derived);
        lemma_push_unique(before.nodes, node);
        assert(u.nodes =~= room.nodes + stored_nodes(c, nodes, records, n));
        assert(u.revisions =~= room.revisions + stored_revisions(c, nodes, records, n));
    } else {
        assert(u.nodes =~= room.nodes + stored_nodes(c, nodes, records, n));
        assert(u.revisions =~= room.revisions + stored_revisions(c, nodes, records, n));
    }
}

proof fn lemma_shifted_unique(nodes: Seq<Node>, parent: NodeId, from: u32)
    requires
        unique_ids(nodes),
    ensures
        unique_ids(shifted(nodes, parent, from)),
{
    let all = shifted(nodes, parent, from);
    assert forall|i: int, j: int|
        0 <= i < all.len() && 0 <= j < all.len() && #[trigger] all[i].id
            == #[trigger] all[j].id implies i == j by {
        assert(nodes[i].id == nodes[j].id);
    }
}

proof fn lemma_applied_rows(t: Tables, c: Cloning, records: Seq<CloneRecords>)
    requires
        unique_ids(t.nodes),
        c.apply(t, records) is Ok,
    ensures
        ({
            let u = c.apply(t, records)->Ok_0;
            let n = c.rows.len() as int;
            &&& u.nodes == shifted(
                t.nodes,
                c.request.destination_parent_id,
                c.position(t.nodes),
            ) + stored_nodes(c, t.nodes, records, n)
            &&& u.revisions == t.revisions + stored_revisions(c, t.nodes, records, n)
            &&& unique_ids(u.nodes)
        }),
{
    let destination = c.request.destination_parent_id;
    let room = Tables { nodes: shifted(t.nodes, destination, c.position(t.nodes)), ..t };
    lemma_shifted_unique(t.nodes, destination, c.position(t.nodes));
    let n = c.rows.len() as int;
    lemma_clone_rows(room, c, t.nodes, records, n);
    let u = run(room, n, c.step(t.nodes, records))->Ok_0;
    let views = c.all_references(t);
    lemma_references_nodes(u, views, views.len() as int);
}

/// After a clone each node at and below the source has a clone of its own, stored under its
/// fresh identity with the node's own metadata and Markdown, and one first revision of it.
pub proof fn law_clones_carry_their_originals(
    t: Tables,
    c: Cloning,
    records: Seq<CloneRecords>,
    i: int,
)
    requires
        is_forest(t.nodes),
        t.nodes.len() <= u32::MAX,
        c.covers(t.nodes),
        c.apply(t, records) is Ok,
        0 <= i < c.rows.len(),
    ensures
        ({
            let u = c.apply(t, records)->Ok_0;
            let clone = lookup(u.nodes, c.fresh[i]);
            let original = lookup(t.nodes, c.rows[i].node.id);
            &&& original is Some
            &&& clone is Some
            &&& !present(t.nodes, c.fresh[i])
            &&& is_clone_of(c, t.nodes, original->0, clone->0)
            &&& exists|r: RevisionView| #[trigger]
                u.revisions.contains(r) && r.node_id == c.fresh[i] && r.version == 1
                    && r.markdown_content == original->0.markdown_content@ && r.metadata
                    == *original->0.metadata && r.created_at == c.request.created_at
        }),
{
    let u = c.apply(t, records)->Ok_0;
    law_a_clone_covers_the_subtree(c, t.nodes);
    lemma_applied_rows(t, c, records);
    let n = c.rows.len() as int;
    let old_len = t.nodes.len() as int;
    let made = stored(c, t.nodes, records, i);
    assert(stored_nodes(c, t.nodes, records, n)[i] == made);
    assert(u.nodes[old_len + i] == made);
    lemma_position(u.nodes, old_len + i);
    lemma_planned_clone(
        c,
        t.nodes,
        i,
        records[i].content_hash,
        records[i].revision_hash,
    );
    if present(t.nodes, c.fresh[i]) {
        let k = position(t.nodes, c.fresh[i]);
        assert(t.nodes[k].id == c.fresh[i]);
        assert(u.nodes[k].id == t.nodes[k].id);
        assert(u.nodes[k].id == u.nodes[old_len + i].id);
    }
    let r = c.revision(made);
    assert(stored_revisions(c, t.nodes, records, n)[i] == r);
    assert(u.revisions[t.revisions.len() as int + i] == r);
    assert(u.revisions.contains(r));
}

/// A clone adds its nodes and nothing else: every node that was there stays as it was, but for
/// the position of the destination's children at and behind the clone, which move by one.
pub proof fn law_cloning_leaves_the_rest(t: Tables, c: Cloning, records: Seq<CloneRecords>, k: int)
    requires
        is_forest(t.nodes),
        t.nodes.len() <= u32::MAX,
        c.covers(t.nodes),
        present(t.nodes, c.request.source_id),
        c.apply(t, records) is Ok,
        0 <= k < t.nodes.len(),
    ensures
        ({
            let u = c.apply(t, records)->Ok_0;
            let old_node = t.nodes[k];
            let node = lookup(u.nodes, old_node.id);
            let root = lookup(u.nodes, c.rename(c.request.source_id)->0);
            &&& u.nodes.len() == t.nodes.len() + c.rows.len()
            &&& root is Some
            &&& node is Some
            &&& node->0 == (Node { sibling_order: node->0.sibling_order, ..old_node })
            &&& old_node.parent_id != Some(c.request.destination_parent_id) ==> node->0 == old_node
            &&& old_node.sibling_order < root->0.sibling_order ==> node->0 == old_node
            &&& old_node.parent_id == Some(c.request.destination_parent_id)
                && old_node.sibling_order >= root->0.sibling_order && old_node.sibling_order
                < u32::MAX ==> node->0.sibling_order == old_node.sibling_order + 1
            &&& forall|r: RevisionView| #[trigger]
                t.revisions.contains(r) ==> u.revisions.contains(r)
            &&& u.revisions.len() == t.revisions.len() + c.rows.len()
        }),
{
    let u = c.apply(t, records)->Ok_0;
    let n = c.rows.len() as int;
    lemma_applied_rows(t, c, records);
    law_a_clone_covers_the_subtree(c, t.nodes);
    crate::tree::lemma_below_self(links(t.nodes), c.request.source_id);
    let i = choose|i: int|
        0 <= i < c.rows.len() && (#[trigger] c.rows[i]).node.id == c.request.source_id;
    lemma_renames(c, t.nodes, i);
    let old_len = t.nodes.len() as int;
    assert(u.nodes[old_len + i] == stored_nodes(c, t.nodes, records, n)[i]);
    lemma_position(u.nodes, old_len + i);
    lemma_position(t.nodes, k);
    assert(u.nodes[k].id == t.nodes[k].id);
    lemma_position(u.nodes, k);
    assert forall|r: RevisionView| #[trigger]
        t.revisions.contains(r) implies u.revisions.contains(r) by {
        let m = choose|m: int| 0 <= m < t.revisions.len() && t.revisions[m] == r;
        assert(u.revisions[m] == r);
    }
}

/// Whether a reference is one that a clone copies: neither extracted from text nor inferred.
pub open spec fn is_own(origin: ReferenceOrigin) -> bool {
    &&& origin != ReferenceOrigin::Markdown
    &&& origin != ReferenceOrigin::Wikilink
    &&& origin != ReferenceOrigin::Inferred
}

/// Whether a target of a cloned reference is that of the original, followed into the clone
/// where it lies inside the subtree.
pub open spec fn follows(c: Cloning, before: TargetView, after: TargetView) -> bool {
    match before {
        TargetView::Unresolved { target_ref } => after == before,
        TargetView::Resolved { node_id, target_ref, anchor } => match after {
            TargetView::Unresolved { .. } => false,
            TargetView::Resolved { node_id: to, target_ref: text, anchor: at } => {
                &&& text == target_ref
                &&& at == anchor
                &&& forall|j: int|
                    0 <= j < c.rows.len() && (#[trigger] c.rows[j]).node.id == node_id ==> to
                        == c.fresh[j]
                &&& (forall|j: int| 0 <= j < c.rows.len() ==> (#[trigger] c.rows[j]).node.id != node_id)
                    ==> to == node_id
            },
        },
    }
}

proof fn lemma_remap(c: Cloning, nodes: Seq<Node>, reference: ReferenceView, i: int)
    requires
        is_forest(nodes),
        c.covers(nodes),
        0 <= i < c.rows.len(),
        reference.source_node_id == c.rows[i].node.id,
    ensures
        ({
            let made = c.remap(reference);
            &&& made.source_node_id == c.fresh[i]
            &&& made.source_section_id is None
            &&& made.reference_type == reference.reference_type
            &&& made.origin == reference.origin
            &&& made.metadata == reference.metadata
            &&& follows(c, reference.target, made.target)
        }),
{
    lemma_renames(c, nodes, i);
    law_a_clone_covers_the_subtree(c, nodes);
    match reference.target {
        TargetView::Resolved { node_id, target_ref, anchor } => {
            lemma_renamed(c.rows, c.fresh, node_id, c.rows.len() as int);
            assert forall|j: int|
                0 <= j < c.rows.len() && (#[trigger] c.rows[j]).node.id == node_id implies c.rename(
                node_id,
            ) == Some(c.fresh[j]) by {
                lemma_renames(c, nodes, j);
            }
        },
        TargetView::Unresolved { target_ref } => {},
    }
}

proof fn lemma_from_has(c: Cloning, table: Seq<RowView>, id: NodeId, m: int, k: int)
    requires
        0 <= k < m <= table.len(),
        table[k].reference.source_node_id == id,
        is_own(table[k].reference.origin),
    ensures
        c.references_from(table, id, m).contains(c.remap(table[k].reference)),
    decreases m,
{
    let before = c.references_from(table, id, m - 1);
    let all = c.references_from(table, id, m);
    let made = c.remap(table[k].reference);
    if k == m - 1 {
        assert(all.last() == made);
        assert(all[all.len() - 1] == made);
    } else {
        lemma_from_has(c, table, id, m - 1, k);
        let i = choose|i: int| 0 <= i < before.len() && before[i] == made;
        assert(all[i] == made);
    }
}

proof fn lemma_from_only(c: Cloning, table: Seq<RowView>, id: NodeId, m: int, made: ReferenceView)
    requires
        0 <= m <= table.len(),
        c.references_from(table, id, m).contains(made),
    ensures
        exists|k: int|
            0 <= k < m && (#[trigger] table[k]).reference.source_node_id == id && is_own(
                table[k].reference.origin,
            ) && made == c.remap(table[k].reference),
    decreases m,
{
    if m > 0 {
        let before = c.references_from(table, id, m - 1);
        let all = c.references_from(table, id, m);
        let i = choose|i: int| 0 <= i < all.len() && all[i] == made;
        if i < before.len() {
            assert(before[i] == made);
            assert(before.contains(made));
            lemma_from_only(c, table, id, m - 1, made);
            let k = choose|k: int|
                0 <= k < m - 1 && (#[trigger] table[k]).reference.source_node_id == id && is_own(
                    table[k].reference.origin,
                ) && made == c.remap(table[k].reference);
            assert(table[k].reference.source_node_id == id);
        } else {
            assert(table[m - 1].reference.source_node_id == id);
        }
    }
}

proof fn lemma_all_have(c: Cloning, table: Seq<RowView>, n: int, i: int, k: int)
    requires
        0 <= i < n <= c.rows.len(),
        0 <= k < table.len(),
        table[k].reference.source_node_id == c.rows[i].node.id,
        is_own(table[k].reference.origin),
    ensures
        c.references(table, n).contains(c.remap(table[k].reference)),
    decreases n,
{
    let made = c.remap(table[k].reference);
    let before = c.references(table, n - 1);
    let last = c.references_from(table, c.rows[n - 1].node.id, table.len() as int);
    let all = c.references(table, n);
    if i == n - 1 {
        lemma_from_has(c, table, c.rows[i].node.id, table.len() as int, k);
        let q = choose|q: int| 0 <= q < last.len() && last[q] == made;
        assert(all[before.len() + q] == made);
    } else {
        lemma_all_have(c, table, n - 1, i, k);
        let q = choose|q: int| 0 <= q < before.len() && before[q] == made;
        assert(all[q] == made);
    }
}

proof fn lemma_all_only(c: Cloning, table: Seq<RowView>, n: int, made: ReferenceView)
    requires
        0 <= n <= c.rows.len(),
        c.references(table, n).contains(made),
    ensures
        exists|i: int, k: int|
            0 <= i < n && 0 <= k < table.len() && (#[trigger] table[k]).reference.source_node_id
                == (#[trigger] c.rows[i]).node.id && is_own(table[k].reference.origin) && made
                == c.remap(table[k].reference),
    decreases n,
{
    if n > 0 {
        let before = c.references(table, n - 1);
        let id = c.rows[n - 1].node.id;
        let last = c.references_from(table, id, table.len() as int);
        let all = c.references(table, n);
        let q = choose|q: int| 0 <= q < all.len() && all[q] == made;
        if q < before.len() {
            assert(before[q] == made);
            assert(before.contains(made));
            lemma_all_only(c, table, n - 1, made);
            let (i, k) = choose|i: int, k: int|
                0 <= i < n - 1 && 0 <= k < table.len() && (
                #[trigger] table[k]).reference.source_node_id == (#[trigger] c.rows[i]).node.id
                    && is_own(table[k].reference.origin) && made == c.remap(table[k].reference);
            assert(table[k].reference.source_node_id == c.rows[i].node.id);
        } else {
            assert(last[q - before.len()] == made);
            assert(last.contains(made));
            lemma_from_only(c, table, id, table.len() as int, made);
            let k = choose|k: int|
                0 <= k < table.len() && (#[trigger] table[k]).reference.source_node_id == id
                    && is_own(table[k].reference.origin) && made == c.remap(table[k].reference);
            assert(table[k].reference.source_node_id == c.rows[n - 1].node.id);
        }
    }
}

/// Whether one reference is the copy of another that starts at the `i`-th node of the subtree.
pub open spec fn is_copy_of(c: Cloning, before: ReferenceView, after: ReferenceView, i: int) -> bool {
    &&& before.source_node_id == c.rows[i].node.id
    &&& is_own(before.origin)
    &&& after.source_node_id == c.fresh[i]
    &&& after.source_section_id is None
    &&& after.reference_type == before.reference_type
    &&& after.origin == before.origin
    &&& after.metadata == before.metadata
    &&& follows(c, before.target, after.target)
}

/// Each reference of the subtree that was neither extracted nor inferred is copied to the clone
/// of its source; a target inside the subtree becomes that node's clone, any other stays.
/// Nothing else is copied.
pub proof fn law_cloned_references_follow_the_clone(t: Tables, c: Cloning)
    requires
        is_forest(t.nodes),
        c.covers(t.nodes),
    ensures
        forall|k: int, i: int|
            0 <= k < t.references.len() && 0 <= i < c.rows.len() && (
            #[trigger] t.references[k]).reference.source_node_id == (#[trigger] c.rows[i]).node.id
                && is_own(t.references[k].reference.origin) ==> exists|made: ReferenceView| #[trigger]
                c.all_references(t).contains(made) && is_copy_of(
                    c,
                    t.references[k].reference,
                    made,
                    i,
                ),
        forall|made: ReferenceView| #[trigger]
            c.all_references(t).contains(made) ==> exists|k: int, i: int|
                0 <= k < t.references.len() && 0 <= i < c.rows.len() && is_copy_of(
                    c,
                    (#[trigger] t.references[k]).reference,
                    made,
                    i,
                ) && (#[trigger] c.rows[i]).node.id == t.references[k].reference.source_node_id,
{
    let n = c.rows.len() as int;
    let table = t.references;
    assert forall|k: int, i: int|
        0 <= k < table.len() && 0 <= i < n && (#[trigger] table[k]).reference.source_node_id == (
        #[trigger] c.rows[i]).node.id && is_own(
            table[k].reference.origin,
        ) implies exists|made: ReferenceView| #[trigger]
        c.all_references(t).contains(made) && is_copy_of(c, table[k].reference, made, i) by {
        lemma_all_have(c, table, n, i, k);
        lemma_remap(c, t.nodes, table[k].reference, i);
        let made = c.remap(table[k].reference);
        assert(c.all_references(t).contains(made));
    }
    assert forall|made: ReferenceView| #[trigger]
        c.all_references(t).contains(made) implies exists|k: int, i: int|
        0 <= k < table.len() && 0 <= i < n && is_copy_of(
            c,
            (#[trigger] table[k]).reference,
            made,
            i,
        ) && (#[trigger] c.rows[i]).node.id == table[k].reference.source_node_id by {
        lemma_all_only(c, table, n, made);
        let (i, k) = choose|i: int, k: int|
            0 <= i < n && 0 <= k < table.len() && (#[trigger] table[k]).reference.source_node_id
                == (#[trigger] c.rows[i]).node.id && is_own(table[k].reference.origin) && made
                == c.remap(table[k].reference);
        lemma_remap(c, t.nodes, table[k].reference, i);
        assert(is_copy_of(c, table[k].reference, made, i));
        assert(c.rows[i].node.id == table[k].reference.source_node_id);
    }
}

proof fn lemma_inserted(t: Tables, references: Seq<ReferenceView>, n: int)
    requires
        0 <= n <= references.len(),
        t.insert_references(references, n) is Ok,
    ensures
        ({
            let u = t.insert_references(references, n)->Ok_0;
            &&& u.references.len() == t.references.len() + n
            &&& forall|i: int|
                0 <= i < t.references.len() ==> u.references[i] == #[trigger] t.references[i]
            &&& forall|i: int|
                0 <= i < n ==> u.references[t.references.len() + i].reference
                    == #[trigger] references[i]
        }),
    decreases n,
{
    if n > 0 {
        lemma_inserted(t, references, n - 1);
    }
}

/// The copied references are stored once the clone is applied.
pub proof fn law_cloned_references_are_stored(
    t: Tables,
    c: Cloning,
    records: Seq<CloneRecords>,
    k: int,
    i: int,
)
    requires
        is_forest(t.nodes),
        c.covers(t.nodes),
        c.apply(t, records) is Ok,
        0 <= k < t.references.len(),
        0 <= i < c.rows.len(),
        t.references[k].reference.source_node_id == c.rows[i].node.id,
        is_own(t.references[k].reference.origin),
    ensures
        exists|row: RowView| #[trigger]
            c.apply(t, records)->Ok_0.references.contains(row) && is_copy_of(
                c,
                t.references[k].reference,
                row.reference,
                i,
            ),
{
    let destination = c.request.destination_parent_id;
    let room = Tables { nodes: shifted(t.nodes, destination, c.position(t.nodes)), ..t };
    let n = c.rows.len() as int;
    let u = run(room, n, c.step(t.nodes, records))->Ok_0;
    let views = c.all_references(t);
    let v = u.insert_references(views, views.len() as int)->Ok_0;
    lemma_inserted(u, views, views.len() as int);
    let before = t.references[k].reference;
    let made = c.remap(before);
    lemma_all_have(c, t.references, n, i, k);
    lemma_remap(c, t.nodes, before, i);
    let q = choose|q: int| 0 <= q < views.len() && views[q] == made;
    assert(v.references[u.references.len() + q].reference == views[q]);
    let row = v.references[u.references.len() + q];
    assert(v.references.contains(row));
    assert(c.apply(t, records)->Ok_0.references == v.references);
    assert(is_copy_of(c, before, row.reference, i));
}

/// After a clone the documents of the destination have the context that the tree now gives it.
pub proof fn law_cloning_renews_the_destination(
    t: Tables,
    c: Cloning,
    records: Seq<CloneRecords>,
    i: int,
)
    requires
        c.apply(t, records) is Ok,
        0 <= i < c.apply(t, records)->Ok_0.fts.len(),
        c.apply(t, records)->Ok_0.fts[i].document.node_id == c.request.destination_parent_id,
    ensures
        ({
            let u = c.apply(t, records)->Ok_0;
            u.fts[i].context == crate::fts::context_of(u.nodes, c.request.destination_parent_id)
        }),
{
}

} // verus!
