//! What happens to the records that hang on nodes: sections, documents, references, history.

use crate::chunk_laws::{
    lemma_filter_all, lemma_filter_none, lemma_filter_of_filter, lemma_filter_of_sum,
};
use crate::create::{derive_step, insert_node_step, insert_revision_step, planned, restores};
use crate::edits::unresolved_rows;
use crate::fts::{context_of, only, refreshed, FtsRowView};
use crate::model::{
    DerivedNodeRecords, FtsDocument, Node, NodeHash, NodeId, ReferenceOrigin, ReferenceView,
    RevisionView, Section, TargetView,
};
use crate::mutate::{run, MutationOutcome, PreparedNodeMutation};
use crate::reorder::{lemma_derived_nodes, lemma_references_nodes};
use crate::shape::lemma_filter_facts;
use crate::tables::{is_extracted, reference_views, RowView, Tables};
use crate::tree::{below, links, lookup, present, unique_ids};
use std::sync::Arc;
use vstd::prelude::*;

verus! {

/// Sections of one node.
pub open spec fn section_of(id: NodeId) -> spec_fn(Arc<Section>) -> bool {
    |s: Arc<Section>| s.node_id == id
}

/// Sections of every node but one.
pub open spec fn section_of_others(id: NodeId) -> spec_fn(Arc<Section>) -> bool {
    |s: Arc<Section>| s.node_id != id
}

/// The stored documents of some rows.
pub open spec fn documents(rows: Seq<FtsRowView>) -> Seq<Arc<FtsDocument>> {
    Seq::new(rows.len(), |i: int| rows[i].document)
}

/// Documents of one node.
pub open spec fn document_of(id: NodeId) -> spec_fn(FtsRowView) -> bool {
    |f: FtsRowView| f.document.node_id == id
}

/// Documents of every node but one.
pub open spec fn document_of_others(id: NodeId) -> spec_fn(FtsRowView) -> bool {
    |f: FtsRowView| f.document.node_id != id
}

/// Whether everything derived belongs to the node.
pub open spec fn belongs(derived: DerivedNodeRecords, id: NodeId) -> bool {
    &&& forall|i: int|
        0 <= i < derived.sections@.len() ==> (#[trigger] derived.sections@[i]).node_id == id
    &&& forall|i: int|
        0 <= i < derived.fts_documents@.len() ==> (#[trigger] derived.fts_documents@[i]).node_id
            == id
    &&& forall|i: int|
        0 <= i < derived.references@.len() ==> {
            let r = (#[trigger] derived.references@[i])@;
            r.source_node_id == id && (r.origin == ReferenceOrigin::Markdown || r.origin
                == ReferenceOrigin::Wikilink)
        }
}

proof fn lemma_documents_push(rows: Seq<FtsRowView>, row: FtsRowView)
    ensures
        documents(rows.push(row)) == documents(rows).push(row.document),
{
    assert(documents(rows.push(row)) =~= documents(rows).push(row.document));
}

proof fn lemma_refreshed_filter(
    rows: Seq<FtsRowView>,
    nodes: Seq<Node>,
    id: NodeId,
    other: NodeId,
)
    ensures
        documents(refreshed(rows, nodes, only(id)).filter(document_of(other))) == documents(
            rows.filter(document_of(other)),
        ),
        refreshed(rows, nodes, only(id)).filter(document_of_others(id)) == rows.filter(
            document_of_others(id),
        ),
    decreases rows.len(),
{
    reveal(Seq::filter);
    let after = refreshed(rows, nodes, only(id));
    if rows.len() > 0 {
        lemma_refreshed_filter(rows.drop_last(), nodes, id, other);
        assert(after.drop_last() =~= refreshed(rows.drop_last(), nodes, only(id)));
        assert(after.last().document == rows.last().document);
        lemma_documents_push(rows.drop_last().filter(document_of(other)), rows.last());
        lemma_documents_push(after.drop_last().filter(document_of(other)), after.last());
        assert(documents(after.filter(document_of(other))) =~= documents(
            rows.filter(document_of(other)),
        ));
    } else {
        assert(documents(after.filter(document_of(other))) =~= documents(
            rows.filter(document_of(other)),
        ));
    }
}

/// Replacing the derived records of a node puts exactly the new sections and documents in the
/// place of its old ones, in order, with the context that the tree gives the node. The
/// sections and documents of every other node stay as they were.
pub proof fn law_derived_records_replace_the_old(t: Tables, id: NodeId, derived: DerivedNodeRecords)
    requires
        belongs(derived, id),
        t.replace_derived(id, derived) is Ok,
    ensures
        ({
            let u = t.replace_derived(id, derived)->Ok_0;
            &&& u.nodes == t.nodes
            &&& u.sections.filter(section_of(id)) == derived.sections@
            &&& u.sections.filter(section_of_others(id)) == t.sections.filter(section_of_others(id))
            &&& documents(u.fts.filter(document_of(id))) == derived.fts_documents@
            &&& u.fts.filter(document_of_others(id)) == t.fts.filter(document_of_others(id))
            &&& forall|i: int|
                0 <= i < u.fts.len() && (#[trigger] u.fts[i]).document.node_id == id
                    ==> u.fts[i].context == context_of(t.nodes, id)
        }),
{
    let u = t.replace_derived(id, derived)->Ok_0;
    lemma_derived_nodes(t, id, derived);
    let keep_section = |s: Arc<Section>| s.node_id != id;
    let keep_document = |f: FtsRowView| f.document.node_id != id;
    let cleared = Tables {
        references: t.references.filter(|r: RowView| !is_extracted(r.reference, id)),
        sections: t.sections.filter(keep_section),
        fts: t.fts.filter(keep_document),
        ..t
    };
    let views = reference_views(derived.references@);
    lemma_references_nodes(cleared, views, derived.references@.len() as int);
    let kept = t.sections.filter(keep_section);
    assert(u.sections == kept + derived.sections@);
    lemma_filter_facts(t.sections, keep_section);
    lemma_filter_of_sum(kept, derived.sections@, section_of(id));
    lemma_filter_none(kept, section_of(id));
    lemma_filter_all(derived.sections@, section_of(id));
    lemma_filter_of_sum(kept, derived.sections@, section_of_others(id));
    lemma_filter_none(derived.sections@, section_of_others(id));
    lemma_filter_of_filter(t.sections, section_of_others(id), keep_section);
    assert(u.sections.filter(section_of(id)) =~= derived.sections@);
    let left = t.fts.filter(keep_document);
    let added = crate::fts::fresh_rows(derived.fts_documents@);
    assert(u.fts == refreshed(left + added, t.nodes, only(id)));
    lemma_refreshed_filter(left + added, t.nodes, id, id);
    lemma_filter_facts(t.fts, keep_document);
    lemma_filter_of_sum(left, added, document_of(id));
    lemma_filter_none(left, document_of(id));
    lemma_filter_all(added, document_of(id));
    lemma_filter_of_sum(left, added, document_of_others(id));
    lemma_filter_none(added, document_of_others(id));
    lemma_filter_of_filter(t.fts, document_of_others(id), keep_document);
    assert((left + added).filter(document_of(id)) =~= added);
    assert(documents(added) =~= derived.fts_documents@);
}

/// References that stay when what was extracted from a node is replaced.
pub open spec fn other_reference(id: NodeId) -> spec_fn(RowView) -> bool {
    |r: RowView|
        r.reference.source_node_id != id || (r.reference.origin != ReferenceOrigin::Markdown
            && r.reference.origin != ReferenceOrigin::Wikilink)
}

/// References that were extracted from the Markdown of a node.
pub open spec fn extracted_reference(id: NodeId) -> spec_fn(RowView) -> bool {
    |r: RowView|
        r.reference.source_node_id == id && (r.reference.origin == ReferenceOrigin::Markdown
            || r.reference.origin == ReferenceOrigin::Wikilink)
}

pub proof fn lemma_inserted_rows(t: Tables, references: Seq<ReferenceView>, n: int) -> (added: Seq<
    RowView,
>)
    requires
        0 <= n <= references.len(),
        t.insert_references(references, n) is Ok,
    ensures
        t.insert_references(references, n)->Ok_0.references == t.references + added,
        added.len() == n,
        forall|i: int| 0 <= i < n ==> (#[trigger] added[i]).reference == references[i],
    decreases n,
{
    if n > 0 {
        let before = lemma_inserted_rows(t, references, n - 1);
        let u = t.insert_references(references, n - 1)->Ok_0;
        let added = before.push(
            RowView { row_id: u.next_row_id() as u64, reference: references[n - 1] },
        );
        assert(t.insert_references(references, n)->Ok_0.references =~= t.references + added);
        added
    } else {
        assert(t.references + Seq::<RowView>::empty() =~= t.references);
        Seq::empty()
    }
}

/// Replacing the derived records of a node replaces exactly the references that were extracted
/// from its Markdown; all other references stay, in their order.
pub proof fn law_extracted_references_replace_the_old(
    t: Tables,
    id: NodeId,
    derived: DerivedNodeRecords,
)
    requires
        belongs(derived, id),
        t.replace_derived(id, derived) is Ok,
    ensures
        ({
            let u = t.replace_derived(id, derived)->Ok_0;
            let extracted = u.references.filter(extracted_reference(id));
            &&& u.references.filter(other_reference(id)) == t.references.filter(other_reference(id))
            &&& extracted.len() == derived.references@.len()
            &&& forall|i: int|
                0 <= i < extracted.len() ==> (#[trigger] extracted[i]).reference
                    == derived.references@[i]@
        }),
{
    let u = t.replace_derived(id, derived)->Ok_0;
    let keep = |r: RowView| !is_extracted(r.reference, id);
    let kept = t.references.filter(keep);
    let cleared = Tables {
        references: kept,
        sections: t.sections.filter(|s: Arc<Section>| s.node_id != id),
        fts: t.fts.filter(|f: FtsRowView| f.document.node_id != id),
        ..t
    };
    let views = reference_views(derived.references@);
    let added = lemma_inserted_rows(cleared, views, derived.references@.len() as int);
    assert(u.references == kept + added);
    let other = other_reference(id);
    let mine = extracted_reference(id);
    lemma_filter_facts(t.references, keep);
    lemma_filter_of_sum(kept, added, other);
    lemma_filter_of_sum(kept, added, mine);
    lemma_filter_of_filter(t.references, other, keep);
    assert forall|i: int| 0 <= i < added.len() implies mine(#[trigger] added[i]) && !other(
        added[i],
    ) by {
        assert(added[i].reference == views[i]);
        assert(views[i] == derived.references@[i]@);
    }
    lemma_filter_none(added, other);
    lemma_filter_all(added, mine);
    assert forall|i: int| 0 <= i < kept.len() implies !mine(#[trigger] kept[i]) by {
        assert(keep(kept[i]));
    }
    lemma_filter_none(kept, mine);
    assert(u.references.filter(mine) =~= added);
}

/// Whether a node goes when another is removed: it is the other or below it.
pub open spec fn goes(t: Tables, id: NodeId, x: NodeId) -> bool {
    present(t.nodes, x) && below(links(t.nodes), id, x)
}

/// What is left of a reference when a subtree is removed: the reference itself, unless it led
/// into the subtree. Then only the text that it was written as is left, or else the identity.
pub open spec fn loosened(t: Tables, id: NodeId, before: ReferenceView, after: ReferenceView) -> bool {
    &&& after.source_node_id == before.source_node_id
    &&& after.source_section_id == before.source_section_id
    &&& after.reference_type == before.reference_type
    &&& after.origin == before.origin
    &&& after.metadata == before.metadata
    &&& match before.target {
        TargetView::Unresolved { .. } => after.target == before.target,
        TargetView::Resolved { node_id, target_ref, .. } => if goes(t, id, node_id) {
            match target_ref {
                Some(text) => after.target == (TargetView::Unresolved { target_ref: text }),
                None => after.target == (TargetView::Unresolved { target_ref: node_id.text() }),
            }
        } else {
            after.target == before.target
        },
    }
}

/// Removing a subtree keeps exactly the references that start outside of it, under their row
/// identities. One that led into the subtree stays as text.
pub proof fn law_removal_loosens_references(t: Tables, id: NodeId)
    ensures
        ({
            let u = t.remove_below(id);
            &&& forall|k: int|
                0 <= k < t.references.len() && !goes(
                    t,
                    id,
                    (#[trigger] t.references[k]).reference.source_node_id,
                ) ==> exists|row: RowView| #[trigger]
                    u.references.contains(row) && row.row_id == t.references[k].row_id && loosened(
                        t,
                        id,
                        t.references[k].reference,
                        row.reference,
                    )
            &&& forall|row: RowView| #[trigger]
                u.references.contains(row) ==> !goes(t, id, row.reference.source_node_id)
                    && exists|k: int|
                    0 <= k < t.references.len() && (#[trigger] t.references[k]).row_id == row.row_id
                        && loosened(t, id, t.references[k].reference, row.reference)
        }),
{
    let u = t.remove_below(id);
    let up = links(t.nodes);
    let gone = |x: NodeId| present(t.nodes, x) && below(up, id, x);
    let rows = unresolved_rows(t.references, gone);
    let keep = |r: RowView| !gone(r.reference.source_node_id);
    assert(u.references == rows.filter(keep));
    lemma_filter_facts(rows, keep);
    assert forall|k: int|
        0 <= k < t.references.len() && !goes(
            t,
            id,
            (#[trigger] t.references[k]).reference.source_node_id,
        ) implies exists|row: RowView| #[trigger]
        u.references.contains(row) && row.row_id == t.references[k].row_id && loosened(
            t,
            id,
            t.references[k].reference,
            row.reference,
        ) by {
        let row = rows[k];
        assert(rows.contains(row));
        assert(keep(row));
        assert(u.references.contains(row));
    }
    assert forall|row: RowView| #[trigger]
        u.references.contains(row) implies !goes(t, id, row.reference.source_node_id)
        && exists|k: int|
        0 <= k < t.references.len() && (#[trigger] t.references[k]).row_id == row.row_id
            && loosened(t, id, t.references[k].reference, row.reference) by {
        assert(rows.contains(row) && keep(row));
        let k = choose|k: int| 0 <= k < rows.len() && rows[k] == row;
        assert(t.references[k].row_id == row.row_id);
        assert(loosened(t, id, t.references[k].reference, row.reference));
    }
}

/// Removing a subtree takes with it exactly the revisions, sections and documents of its nodes.
pub proof fn law_removal_takes_the_records(t: Tables, id: NodeId)
    ensures
        ({
            let u = t.remove_below(id);
            &&& forall|r: RevisionView| #[trigger]
                u.revisions.contains(r) <==> t.revisions.contains(r) && !goes(t, id, r.node_id)
            &&& forall|s: Arc<Section>| #[trigger]
                u.sections.contains(s) <==> t.sections.contains(s) && !goes(t, id, s.node_id)
            &&& forall|f: FtsRowView| #[trigger]
                u.fts.contains(f) <==> t.fts.contains(f) && !goes(t, id, f.document.node_id)
            &&& u.receipts == t.receipts
        }),
{
    let up = links(t.nodes);
    let gone = |x: NodeId| present(t.nodes, x) && below(up, id, x);
    lemma_filter_facts(t.revisions, |r: RevisionView| !gone(r.node_id));
    lemma_filter_facts(t.sections, |s: Arc<Section>| !gone(s.node_id));
    lemma_filter_facts(t.fts, |f: FtsRowView| !gone(f.document.node_id));
}

proof fn lemma_count_and_rest<T>(
    rows: Seq<T>,
    counted: spec_fn(T) -> bool,
    kept: spec_fn(T) -> bool,
    n: int,
)
    requires
        0 <= n <= rows.len(),
        forall|x: T| #[trigger] counted(x) <==> !kept(x),
    ensures
        crate::removal::count_where(rows, counted, n) + rows.take(n).filter(kept).len() == n,
    decreases n,
{
    reveal(Seq::filter);
    if n > 0 {
        lemma_count_and_rest(rows, counted, kept, n - 1);
        assert(rows.take(n).drop_last() =~= rows.take(n - 1));
        assert(rows.take(n).last() == rows[n - 1]);
        assert(counted(rows[n - 1]) <==> !kept(rows[n - 1]));
    }
}

/// The impact of a removal foretells it: as many nodes as it counts are gone afterwards.
pub proof fn law_impact_foretells_the_removal(t: Tables, id: NodeId)
    ensures
        t.impact(id).0 + t.remove_below(id).nodes.len() == t.nodes.len(),
{
    let up = links(t.nodes);
    let n = t.nodes.len() as int;
    let counted = |x: Node| below(links(t.nodes), id, x.id);
    let kept = |x: Node| !below(up, id, x.id);
    assert(t.remove_below(id).nodes == t.nodes.filter(kept));
    lemma_count_and_rest(t.nodes, counted, kept, n);
    assert(t.nodes.take(n) =~= t.nodes);
}

/// References from outside a subtree that lead into it.
pub open spec fn leads_in(t: Tables, id: NodeId) -> spec_fn(RowView) -> bool {
    |r: RowView|
        !goes(t, id, r.reference.source_node_id) && match r.reference.target {
            TargetView::Resolved { node_id, .. } => goes(t, id, node_id),
            TargetView::Unresolved { .. } => false,
        }
}

pub proof fn lemma_count_is_filter<T>(
    rows: Seq<T>,
    counted: spec_fn(T) -> bool,
    kept: spec_fn(T) -> bool,
    n: int,
)
    requires
        0 <= n <= rows.len(),
        forall|x: T| #[trigger] counted(x) <==> kept(x),
    ensures
        crate::removal::count_where(rows, counted, n) == rows.take(n).filter(kept).len(),
    decreases n,
{
    reveal(Seq::filter);
    if n > 0 {
        lemma_count_is_filter(rows, counted, kept, n - 1);
        assert(rows.take(n).drop_last() =~= rows.take(n - 1));
        assert(rows.take(n).last() == rows[n - 1]);
        assert(counted(rows[n - 1]) <==> kept(rows[n - 1]));
    }
}

/// The incoming references that an impact counts are those that the removal loosens: they
/// start outside the subtree and lead into it.
pub proof fn law_impact_counts_incoming_references(t: Tables, id: NodeId)
    ensures
        t.impact(id).1 == t.references.filter(leads_in(t, id)).len(),
{
    let n = t.references.len() as int;
    let counted = |r: RowView| t.enters(id, r);
    lemma_count_is_filter(t.references, counted, leads_in(t, id), n);
    assert(t.references.take(n) =~= t.references);
}

/// Restoring a version makes the content of the node, under its next version, that of the
/// revision that was recorded under the version; the identity and the creation time stay.
pub proof fn law_restoring_brings_content_back(
    t: Tables,
    id: NodeId,
    target_version: u64,
    expected: u64,
    created_at: u64,
    content_hash: NodeHash,
    revision_hash: NodeHash,
    restored: Node,
    revision: RevisionView,
    derived: DerivedNodeRecords,
)
    requires
        unique_ids(t.nodes),
        t.unique_versions(),
        present(t.nodes, id),
        restores(
            t,
            lookup(t.nodes, id)->0,
            target_version,
            created_at,
            content_hash,
            revision_hash,
            restored,
        ),
        t.replace(restored, expected, revision, derived) is Ok,
        t.replace(restored, expected, revision, derived)->Ok_0.1 == MutationOutcome::Applied,
    ensures
        ({
            let u = t.replace(restored, expected, revision, derived)->Ok_0.0;
            let before = lookup(t.nodes, id)->0;
            let after = lookup(u.nodes, id)->0;
            &&& lookup(u.nodes, id) is Some
            &&& after.version == before.version + 1
            &&& after.created_at == before.created_at
            &&& after.updated_at == created_at
            &&& forall|i: int|
                0 <= i < t.revisions.len() && (#[trigger] t.revisions[i]).node_id == id
                    && t.revisions[i].version == target_version ==> {
                    &&& after.parent_id == t.revisions[i].parent_id
                    &&& after.slug@ == t.revisions[i].slug
                    &&& *after.metadata == t.revisions[i].metadata
                    &&& after.markdown_content@ == t.revisions[i].markdown_content
                    &&& after.sibling_order == t.revisions[i].sibling_order
                }
            &&& exists|i: int|
                0 <= i < t.revisions.len() && (#[trigger] t.revisions[i]).node_id == id
                    && t.revisions[i].version == target_version
        }),
{
    let current = lookup(t.nodes, id)->0;
    let q = crate::tree::position(t.nodes, id);
    assert(t.nodes[q].id == id);
    assert(current.id == id);
    crate::read_laws::law_update_is_read_back(t, restored, expected, revision, derived, id);
    let i = choose|i: int|
        {
            &&& 0 <= i < t.revisions.len()
            &&& (#[trigger] t.revisions[i]).node_id == current.id
            &&& t.revisions[i].version == target_version
            &&& t.revisions[i].parent_id == restored.parent_id
            &&& t.revisions[i].slug == restored.slug@
            &&& t.revisions[i].metadata == *restored.metadata
            &&& t.revisions[i].markdown_content == restored.markdown_content@
            &&& t.revisions[i].sibling_order == restored.sibling_order
        };
    assert(t.revisions[i].node_id == id);
}

proof fn lemma_planned_none(parts: Seq<PreparedNodeMutation>, id: NodeId, n: int)
    requires
        0 <= n <= parts.len(),
        forall|k: int| 0 <= k < n ==> (#[trigger] parts[k]).node.id != id,
    ensures
        planned(parts, id, n) is None,
    decreases n,
{
    if n > 0 {
        lemma_planned_none(parts, id, n - 1);
        assert(parts[n - 1].node.id != id);
    }
}

proof fn lemma_steps_keep_nodes(t: Tables, parts: Seq<PreparedNodeMutation>, n: int)
    requires
        0 <= n <= parts.len(),
        run(t, n, insert_revision_step(parts)) is Ok,
    ensures
        run(t, n, insert_revision_step(parts))->Ok_0.nodes == t.nodes,
        run(t, n, insert_revision_step(parts))->Ok_0.fts == t.fts,
    decreases n,
{
    if n > 0 {
        lemma_steps_keep_nodes(t, parts, n - 1);
    }
}

/// Whether the documents of a node have the context that the tree gives the node.
pub open spec fn up_to_date(fts: Seq<FtsRowView>, nodes: Seq<Node>, id: NodeId) -> bool {
    forall|i: int|
        0 <= i < fts.len() && (#[trigger] fts[i]).document.node_id == id ==> fts[i].context
            == context_of(nodes, id)
}

proof fn lemma_derive_context(t: Tables, id: NodeId, derived: DerivedNodeRecords, x: NodeId)
    requires
        belongs(derived, id),
        t.replace_derived(id, derived) is Ok,
    ensures
        t.replace_derived(id, derived)->Ok_0.nodes == t.nodes,
        x == id || up_to_date(t.fts, t.nodes, x) ==> up_to_date(
            t.replace_derived(id, derived)->Ok_0.fts,
            t.nodes,
            x,
        ),
{
    let u = t.replace_derived(id, derived)->Ok_0;
    law_derived_records_replace_the_old(t, id, derived);
    let others = document_of_others(id);
    lemma_filter_facts(u.fts, others);
    lemma_filter_facts(t.fts, others);
    if x != id && up_to_date(t.fts, t.nodes, x) {
        assert forall|i: int| 0 <= i < u.fts.len() && (#[trigger] u.fts[i]).document.node_id
            == x implies u.fts[i].context == context_of(t.nodes, x) by {
            let row = u.fts[i];
            assert(others(row));
            assert(u.fts.contains(row));
            assert(u.fts.filter(others).contains(row));
            assert(t.fts.filter(others).contains(row));
            assert(t.fts.contains(row));
            let m = choose|m: int| 0 <= m < t.fts.len() && t.fts[m] == row;
            assert(t.fts[m].document.node_id == x);
        }
    }
}

proof fn lemma_derive_contexts(t: Tables, parts: Seq<PreparedNodeMutation>, n: int, k: int)
    requires
        0 <= n <= parts.len(),
        0 <= k < parts.len(),
        run(t, n, derive_step(parts)) is Ok,
        forall|k: int|
            0 <= k < parts.len() ==> belongs((#[trigger] parts[k]).derived, parts[k].node.id),
    ensures
        run(t, n, derive_step(parts))->Ok_0.nodes == t.nodes,
        k < n ==> up_to_date(run(t, n, derive_step(parts))->Ok_0.fts, t.nodes, parts[k].node.id),
    decreases n,
{
    if n > 0 {
        lemma_derive_contexts(t, parts, n - 1, k);
        let before = run(t, n - 1, derive_step(parts))->Ok_0;
        assert(belongs(parts[n - 1].derived, parts[n - 1].node.id));
        lemma_derive_context(
            before,
            parts[n - 1].node.id,
            parts[n - 1].derived,
            parts[k].node.id,
        );
    }
}

/// After nodes are created, the documents of every created node and of every node that got one
/// of them as a child have the context that the tree now gives the node.
pub proof fn law_creation_renews_contexts(
    t: Tables,
    parts: Seq<PreparedNodeMutation>,
    i: int,
    k: int,
)
    requires
        t.create(parts) is Ok,
        forall|k: int|
            0 <= k < parts.len() ==> belongs((#[trigger] parts[k]).derived, parts[k].node.id),
        0 <= i < t.create(parts)->Ok_0.fts.len(),
        0 <= k < parts.len(),
        ({
            let p = t.create(parts)->Ok_0.fts[i].document.node_id;
            p == parts[k].node.id || (present(t.nodes, p) && parts[k].node.parent_id == Some(p))
        }),
    ensures
        ({
            let u = t.create(parts)->Ok_0;
            u.fts[i].context == context_of(u.nodes, u.fts[i].document.node_id)
        }),
{
    let n = parts.len() as int;
    let u = t.create(parts)->Ok_0;
    let a = run(t, n, insert_node_step(parts))->Ok_0;
    let b = run(a, n, insert_revision_step(parts))->Ok_0;
    let c = run(b, n, derive_step(parts))->Ok_0;
    lemma_steps_keep_nodes(a, parts, n);
    lemma_derive_contexts(b, parts, n, k);
    let external = |p: NodeId| crate::create::is_external_parent(parts, p, n);
    assert(u.fts == refreshed(c.fts, c.nodes, external));
    let p = u.fts[i].document.node_id;
    if p == parts[k].node.id {
        assert(c.fts[i].document.node_id == parts[k].node.id);
    } else {
        let check = |i: int| t.creation_refusal(parts, i);
        assert forall|m: int| 0 <= m < n implies (#[trigger] parts[m]).node.id != p by {
            crate::tree_batch::lemma_passed(n, check, m);
            assert(t.creation_refusal(parts, m) is None);
        }
        lemma_planned_none(parts, p, k);
        assert(parts[k].node.parent_id == Some(p));
        assert(external(p));
    }
}

} // verus!
