//! What a read gives back of a write.

use crate::create::{derive_step, insert_node_step, insert_revision_step};
use crate::model::{DerivedNodeRecords, Node, NodeId, ReferenceOrigin, ReferenceView, RevisionView};
use crate::mutate::{run, MutationOutcome, PreparedNodeMutation};
use crate::references::{references_of, touches, touching, ReferenceSide};
use crate::reorder::{lemma_derived_nodes, lemma_write_nodes};
use crate::shape::lemma_filter_facts;
use crate::tables::{RowView, Tables};
use crate::tree::{lemma_position, lookup, node_at, position, present, unique_ids};
use vstd::prelude::*;

verus! {

/// An applied update is what a read gives back, with the creation time that the node
/// always had; every other node reads as before.
pub proof fn law_update_is_read_back(
    t: Tables,
    node: Node,
    expected: u64,
    revision: RevisionView,
    derived: DerivedNodeRecords,
    other: NodeId,
)
    requires
        unique_ids(t.nodes),
        t.replace(node, expected, revision, derived) is Ok,
        t.replace(node, expected, revision, derived)->Ok_0.1 == MutationOutcome::Applied,
    ensures
        ({
            let u = t.replace(node, expected, revision, derived)->Ok_0.0;
            &&& lookup(u.nodes, node.id) == Some(
                Node { created_at: node_at(t.nodes, node.id).created_at, ..node },
            )
            &&& other != node.id ==> lookup(u.nodes, other) == lookup(t.nodes, other)
        }),
{
    lemma_write_nodes(t, node, expected, revision, derived);
    let p = position(t.nodes, node.id);
    let row = Node { created_at: node_at(t.nodes, node.id).created_at, ..node };
    assert(t.nodes[p].id == node.id);
    let after = t.nodes.update(p, row);
    crate::shape::lemma_rewrite(t.nodes, p, row);
    lemma_position(after, p);
    if other != node.id {
        if present(t.nodes, other) {
            let q = position(t.nodes, other);
            assert(t.nodes[q].id == other);
            assert(after[q] == t.nodes[q]);
            lemma_position(after, q);
            lemma_position(t.nodes, q);
        } else if present(after, other) {
            let q = position(after, other);
            assert(after[q].id == other);
            assert(t.nodes[q].id == other);
        }
    }
}

/// Created nodes are what reads give back; every other node reads as before.
pub proof fn law_creation_is_read_back(
    t: Tables,
    parts: Seq<PreparedNodeMutation>,
    i: int,
    other: NodeId,
)
    requires
        t.wf(),
        t.create(parts) is Ok,
        0 <= i < parts.len(),
        forall|k: int| 0 <= k < parts.len() ==> (#[trigger] parts[k]).node.id != other,
    ensures
        lookup(t.create(parts)->Ok_0.nodes, parts[i].node.id) == Some(parts[i].node),
        lookup(t.create(parts)->Ok_0.nodes, other) == lookup(t.nodes, other),
{
    let n = parts.len() as int;
    let a = run(t, n, insert_node_step(parts))->Ok_0;
    lemma_inserted(t, parts, n);
    let b = run(a, n, insert_revision_step(parts))->Ok_0;
    lemma_revisions_keep_nodes(a, parts, n);
    lemma_records_keep_nodes(b, parts, n);
    let u = t.create(parts)->Ok_0;
    assert(u.nodes == a.nodes);
    crate::laws::law_creation_keeps_tree(t, parts);
    let at = t.nodes.len() + i;
    assert(u.nodes[at] == parts[i].node);
    lemma_position(u.nodes, at);
    if present(t.nodes, other) {
        let q = position(t.nodes, other);
        assert(t.nodes[q].id == other);
        assert(u.nodes[q] == t.nodes[q]);
        lemma_position(u.nodes, q);
        lemma_position(t.nodes, q);
    } else if present(u.nodes, other) {
        let q = position(u.nodes, other);
        assert(u.nodes[q].id == other);
        if q < t.nodes.len() {
            assert(t.nodes[q].id == other);
        } else {
            assert(u.nodes[q] == parts[q - t.nodes.len()].node);
        }
    }
}

/// Inserted nodes stand behind those that were there, in order.
proof fn lemma_inserted(t: Tables, parts: Seq<PreparedNodeMutation>, n: int)
    requires
        0 <= n <= parts.len(),
        run(t, n, insert_node_step(parts)) is Ok,
    ensures
        ({
            let u = run(t, n, insert_node_step(parts))->Ok_0;
            &&& u.nodes.len() == t.nodes.len() + n
            &&& forall|k: int| 0 <= k < t.nodes.len() ==> #[trigger] u.nodes[k] == t.nodes[k]
            &&& forall|k: int|
                t.nodes.len() <= k < u.nodes.len() ==> #[trigger] u.nodes[k] == parts[k
                    - t.nodes.len()].node
        }),
    decreases n,
{
    if n > 0 {
        lemma_inserted(t, parts, n - 1);
    }
}

proof fn lemma_revisions_keep_nodes(t: Tables, parts: Seq<PreparedNodeMutation>, n: int)
    requires
        run(t, n, insert_revision_step(parts)) is Ok,
    ensures
        run(t, n, insert_revision_step(parts))->Ok_0.nodes == t.nodes,
    decreases n,
{
    if n > 0 {
        lemma_revisions_keep_nodes(t, parts, n - 1);
    }
}

proof fn lemma_records_keep_nodes(t: Tables, parts: Seq<PreparedNodeMutation>, n: int)
    requires
        run(t, n, derive_step(parts)) is Ok,
    ensures
        run(t, n, derive_step(parts))->Ok_0.nodes == t.nodes,
    decreases n,
{
    if n > 0 {
        lemma_records_keep_nodes(t, parts, n - 1);
        let v = run(t, n - 1, derive_step(parts))->Ok_0;
        lemma_derived_nodes(v, parts[n - 1].node.id, parts[n - 1].derived);
    }
}

/// Whether a row holds an explicit reference that starts at the node.
pub open spec fn is_explicit_from(row: RowView, id: NodeId) -> bool {
    row.reference.source_node_id == id && row.reference.origin == ReferenceOrigin::Explicit
}

/// The explicit references that start at a node, in persisted order.
pub open spec fn explicit_references(t: Tables, id: NodeId) -> Seq<ReferenceView> {
    references_of(t.references.filter(|r: RowView| is_explicit_from(r, id)))
}

/// Explicit references that were set are what reads give back, in their order.
pub proof fn law_explicit_references_are_read_back(
    t: Tables,
    node: Node,
    expected: u64,
    revision: RevisionView,
    derived: DerivedNodeRecords,
    references: Seq<ReferenceView>,
)
    requires
        t.set_references(node, expected, revision, derived, references) is Ok,
        t.set_references(node, expected, revision, derived, references)->Ok_0.1
            == MutationOutcome::Applied,
    ensures
        explicit_references(
            t.set_references(node, expected, revision, derived, references)->Ok_0.0,
            node.id,
        ) == references,
{
    let n = references.len() as int;
    let check = |i: int| t.explicit_refusal(node.id, references, i);
    assert forall|i: int| 0 <= i < n implies (#[trigger] references[i]).source_node_id == node.id
        && references[i].origin == ReferenceOrigin::Explicit by {
        crate::tree_batch::lemma_passed(n, check, i);
        assert(check(i) == t.explicit_refusal(node.id, references, i));
    }
    let v = t.write(node, expected, revision, derived)->Ok_0;
    let cleared = v.clear_explicit(node.id);
    let wanted = |r: RowView| is_explicit_from(r, node.id);
    lemma_none_explicit(v.references, node.id);
    assert(references_of(cleared.references.filter(wanted)) =~= references.take(0));
    lemma_explicit_inserted(cleared, references, node.id, n);
    assert(references.take(n) =~= references);
}

/// What was cleared holds no explicit reference of the node.
proof fn lemma_none_explicit(rows: Seq<RowView>, id: NodeId)
    ensures
        rows.filter(
            |r: RowView|
                !(r.reference.source_node_id == id && r.reference.origin
                    == ReferenceOrigin::Explicit),
        ).filter(|r: RowView| is_explicit_from(r, id)).len() == 0,
{
    let keep = |r: RowView|
        !(r.reference.source_node_id == id && r.reference.origin == ReferenceOrigin::Explicit);
    let wanted = |r: RowView| is_explicit_from(r, id);
    let kept = rows.filter(keep);
    let both = kept.filter(wanted);
    if both.len() > 0 {
        lemma_filter_facts(kept, wanted);
        assert(wanted(both[0]));
        assert(both.contains(both[0]));
        kept.lemma_filter_contains_rev(wanted, both[0]);
        let i = choose|i: int| 0 <= i < kept.len() && kept[i] == both[0];
        lemma_filter_facts(rows, keep);
        assert(keep(kept[i]));
    }
}

proof fn lemma_explicit_inserted(t: Tables, references: Seq<ReferenceView>, id: NodeId, n: int)
    requires
        0 <= n <= references.len(),
        t.insert_references(references, n) is Ok,
        t.references.filter(|r: RowView| is_explicit_from(r, id)).len() == 0,
        forall|i: int|
            0 <= i < references.len() ==> (#[trigger] references[i]).source_node_id == id
                && references[i].origin == ReferenceOrigin::Explicit,
    ensures
        explicit_references(t.insert_references(references, n)->Ok_0, id) == references.take(n),
    decreases n,
{
    let wanted = |r: RowView| is_explicit_from(r, id);
    if n == 0 {
        assert(explicit_references(t, id) =~= references.take(0));
    } else {
        lemma_explicit_inserted(t, references, id, n - 1);
        let v = t.insert_references(references, n - 1)->Ok_0;
        let u = t.insert_references(references, n)->Ok_0;
        let row = u.references.last();
        assert(u.references =~= v.references.push(row));
        assert(row.reference == references[n - 1]);
        assert(u.references.drop_last() =~= v.references);
        reveal(Seq::filter);
        assert(u.references.filter(wanted) =~= v.references.filter(wanted).push(row));
        assert(explicit_references(u, id) =~= explicit_references(v, id).push(references[n - 1]));
        assert(references.take(n) =~= references.take(n - 1).push(references[n - 1]));
    }
}

/// A reference that starts at one node and resolves to another is a backlink of the
/// other, and the other way round.
pub proof fn law_backlinks_mirror_references(t: Tables, row: RowView, source: NodeId, target: NodeId)
    requires
        row.reference.source_node_id == source,
        touches(row.reference, ReferenceSide::Target, target),
    ensures
        touching(t, ReferenceSide::Source, source).contains(row) <==> touching(
            t,
            ReferenceSide::Target,
            target,
        ).contains(row),
{
    let out = |r: RowView| touches(r.reference, ReferenceSide::Source, source);
    let back = |r: RowView| touches(r.reference, ReferenceSide::Target, target);
    if touching(t, ReferenceSide::Source, source).contains(row) {
        t.references.lemma_filter_contains_rev(out, row);
        let i = choose|i: int| 0 <= i < t.references.len() && t.references[i] == row;
        lemma_filter_facts(t.references, back);
        assert(back(t.references[i]));
    }
    if touching(t, ReferenceSide::Target, target).contains(row) {
        t.references.lemma_filter_contains_rev(back, row);
        let i = choose|i: int| 0 <= i < t.references.len() && t.references[i] == row;
        lemma_filter_facts(t.references, out);
        assert(out(t.references[i]));
    }
}

} // verus!
