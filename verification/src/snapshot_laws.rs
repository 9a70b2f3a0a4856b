//! What an import gives back of an export.

use crate::laws::{
    lemma_derived_ascend, lemma_insert_references_ascend, lemma_revision_unique, rows_ascend,
};
use crate::listing::{lemma_listing, lemma_lists_unique};
use crate::model::{
    DerivedNodeRecords, Node, NodeId, ReferenceView, Refusal, RevisionView, Section,
};
use crate::mutate::run;
use crate::order::{
    lemma_lex_asymmetric, lemma_lex_irreflexive, lemma_lex_le_transitive, lemma_lex_total, lex_le,
    lex_lt,
};
use crate::reads::{first_from, lists_revisions};
use crate::references::{references_of, touches, touching, ReferenceSide};
use crate::reorder::{lemma_derived_nodes, lemma_references_nodes};
use crate::shape::lemma_filter_facts;
use crate::snapshot::{
    history_of, import_derived_step, import_node_step, import_revision_step, imported,
    imported_history, links_of, own_history, snapshot_root, sorted_by_text, Snapshot,
};
use crate::tables::{
    distinct_slugs, fits_columns, is_extracted, reference_views, revision_views, storable, RowView,
    Tables,
};
use crate::text::{code_points, lemma_code_points_injective};
use crate::tree::{
    is_sole_root, is_tree, lemma_position, links, node_at, position, present, unique_ids,
};
use crate::workspace::{empty_tables, initialized, law_new_workspace_is_tree, unstorable};
use std::sync::Arc;
use vstd::prelude::*;
use vstd::relations::*;

verus! {

/// Whether a snapshot holds the nodes of a workspace by identity with their whole
/// history.
pub open spec fn captures(t: Tables, snapshot: Snapshot) -> bool {
    &&& t.by_identity(snapshot.nodes@)
    &&& revision_views(snapshot.revisions@) == history_of(
        t,
        snapshot.nodes@,
        snapshot.nodes@.len() as int,
    )
}

/// Whether a snapshot holds the references of a workspace that start at its nodes, in
/// any order.
pub open spec fn captures_references(t: Tables, snapshot: Snapshot) -> bool {
    reference_views(snapshot.references@).to_multiset() == links_of(
        t,
        snapshot.nodes@,
        snapshot.nodes@.len() as int,
    ).to_multiset()
}

/// Whether records can be those of a node: its sections belong to it and their
/// offsets fit their columns.
pub open spec fn fits_node(records: DerivedNodeRecords, id: NodeId) -> bool {
    forall|i: int|
        0 <= i < records.sections@.len() ==> (#[trigger] records.sections@[i]).node_id == id
            && storable(records.sections@[i].start_byte) && storable(
            records.sections@[i].end_byte,
        )
}

/// How many references the first `n` records hold.
pub open spec fn reference_count(derived: Seq<DerivedNodeRecords>, n: int) -> nat
    decreases n,
{
    if n <= 0 {
        0
    } else {
        reference_count(derived, n - 1) + derived[n - 1].references@.len()
    }
}

/// Importing what was exported succeeds and gives back every node and every revision:
/// the new workspace is captured by the same snapshot. Where the Markdown of no node
/// yields references of its own, it holds exactly the references of the snapshot, in
/// their order, and exports them again.
pub proof fn law_import_restores_export(
    t: Tables,
    snapshot: Snapshot,
    derived: Seq<DerivedNodeRecords>,
)
    requires
        t.wf(),
        captures(t, snapshot),
        snapshot.revisions@.len() > 0,
        derived.len() == snapshot.nodes@.len(),
        forall|i: int|
            0 <= i < derived.len() ==> fits_node(#[trigger] derived[i], snapshot.nodes@[i].id),
        reference_count(derived, derived.len() as int) + snapshot.references@.len() <= u64::MAX,
    ensures
        ({
            let nodes = snapshot.nodes@;
            let r = snapshot_root(nodes)->0;
            let started = initialized(nodes[r], derived[r]);
            let result = imported(started->Ok_0, snapshot, derived);
            &&& snapshot_root(nodes) is Some
            &&& unstorable(nodes[r]) is None
            &&& started is Ok
            &&& result is Ok
            &&& result->Ok_0.wf()
            &&& captures(result->Ok_0, snapshot)
            &&& reference_count(derived, derived.len() as int) == 0 ==> references_of(
                result->Ok_0.references,
            ) == reference_views(snapshot.references@)
            &&& reference_count(derived, derived.len() as int) == 0 && captures_references(
                t,
                snapshot,
            ) ==> captures_references(result->Ok_0, snapshot)
        }),
{
    let nodes = snapshot.nodes@;
    let n = nodes.len() as int;
    lemma_listed_nodes(t, nodes);
    let q = choose|q: int| is_sole_root(t.nodes, q);
    assert(t.nodes.contains(t.nodes[q]));
    assert(nodes.contains(t.nodes[q]));
    let k = choose|k: int| 0 <= k < n && nodes[k] == t.nodes[q];
    let pred = |x: Node| x.parent_id is None;
    lemma_some_first(nodes, pred, 0, k);
    crate::commands::lemma_first_from(nodes, pred, 0);
    let r = snapshot_root(nodes)->0;
    let root = nodes[r];
    assert(t.nodes.contains(root)) by {
        assert(nodes.contains(root));
    }
    lemma_count_bounds(derived, n, r);
    lemma_initializes(t, root, derived[r]);
    let start = initialized(root, derived[r])->Ok_0;
    lemma_initialized(root, derived[r], start);
    lemma_adds_nodes(t, start, nodes, r, n);
    let a = run(start, n, import_node_step(nodes))->Ok_0;
    lemma_imported_nodes(start, nodes, n, a);
    assert forall|x: Node| #[trigger] a.nodes.contains(x) <==> t.nodes.contains(x) by {
        if t.nodes.contains(x) {
            assert(nodes.contains(x));
            let i = choose|i: int| 0 <= i < n && nodes[i] == x;
            if nodes[i].parent_id is None {
                lemma_one_root(t.nodes, x, root);
                assert(start.nodes[0] == root);
            }
        }
        if a.nodes.contains(x) {
            if start.nodes.contains(x) {
                assert(x == root);
            } else {
                let i = choose|i: int|
                    0 <= i < n && #[trigger] nodes[i] == x && nodes[i].parent_id is Some;
                assert(nodes.contains(x));
            }
        }
    }
    lemma_same_tree(t.nodes, a.nodes);
    let history = imported_history(snapshot);
    let bare = Tables { revisions: Seq::empty(), ..a };
    lemma_adds_revisions(t, bare, nodes, history, history.len() as int);
    let b = run(bare, history.len() as int, import_revision_step(history))->Ok_0;
    lemma_imported_revisions(bare, history, history.len() as int, b);
    let clear = Tables { references: Seq::empty(), sections: Seq::empty(), fts: Seq::empty(), ..b };
    assert forall|i: int| 0 <= i < n implies present(clear.nodes, #[trigger] nodes[i].id) by {
        assert(nodes.contains(nodes[i]));
        assert(a.nodes.contains(nodes[i]));
        let j = choose|j: int| 0 <= j < a.nodes.len() && a.nodes[j] == nodes[i];
        assert(clear.nodes[j].id == nodes[i].id);
    }
    lemma_adds_records(clear, nodes, derived, n);
    let c = run(clear, n, import_derived_step(nodes, derived))->Ok_0;
    let references = reference_views(snapshot.references@);
    lemma_adds_references(c, references, references.len() as int);
    let u = c.insert_references(references, references.len() as int)->Ok_0;
    assert(imported(start, snapshot, derived) == Ok::<Tables, Refusal>(u));
    law_import_keeps_tree(snapshot, derived, start, u);
    lemma_import_captured(t, snapshot, derived, start, u);
    if reference_count(derived, n) == 0 {
        assert forall|i: int| 0 <= i < derived.len() implies (
        #[trigger] derived[i]).references@.len() == 0 by {
            lemma_count_bounds(derived, n, i);
        }
        lemma_import_references(start, snapshot, derived, u);
        if captures_references(t, snapshot) {
            lemma_references_captured(t, u, snapshot);
        }
    }
}

/// The serialized texts of some references.
pub open spec fn texts_of(
    references: Seq<ReferenceView>,
    text: spec_fn(ReferenceView) -> Seq<char>,
) -> Seq<Seq<char>> {
    Seq::new(references.len(), |i: int| text(references[i]))
}

/// Whether a snapshot is the export of a workspace: its nodes by identity, their whole
/// history, and their references in the order of their serialized texts.
pub open spec fn is_export(
    t: Tables,
    name: Seq<char>,
    text: spec_fn(ReferenceView) -> Seq<char>,
    snapshot: Snapshot,
) -> bool {
    let links = links_of(t, snapshot.nodes@, snapshot.nodes@.len() as int);
    &&& snapshot.format@ == "mdtree-snapshot"@
    &&& snapshot.workspace_name@ == name
    &&& snapshot.workspace_format_version == crate::migrations::WORKSPACE_FORMAT_VERSION
    &&& captures(t, snapshot)
    &&& exists|order: Seq<usize>| #[trigger]
        sorted_by_text(
            reference_views(snapshot.references@),
            links,
            texts_of(links, text),
            order,
        )
}

/// The order of references by their texts.
spec fn text_order(text: spec_fn(ReferenceView) -> Seq<char>) -> spec_fn(
    ReferenceView,
    ReferenceView,
) -> bool {
    |x: ReferenceView, y: ReferenceView| lex_le(code_points(text(x)), code_points(text(y)))
}

/// Taking each item once, in another order, keeps how often each occurs.
proof fn lemma_permuted<T>(sorted: Seq<T>, items: Seq<T>, order: Seq<usize>)
    requires
        items.len() <= usize::MAX,
        order.len() == items.len(),
        sorted.len() == items.len(),
        order.no_duplicates(),
        forall|p: usize| p < items.len() ==> #[trigger] order.contains(p),
        forall|i: int|
            0 <= i < order.len() ==> (#[trigger] order[i]) < items.len() && sorted[i]
                == items[order[i] as int],
    ensures
        sorted.to_multiset() == items.to_multiset(),
    decreases items.len(),
{
    broadcast use vstd::seq_lib::group_to_multiset_ensures;

    if items.len() == 0 {
        assert(sorted =~= items);
    } else {
        let last = (items.len() - 1) as usize;
        assert(order.contains(last));
        let k = choose|k: int| 0 <= k < order.len() && order[k] == last;
        let rest = order.remove(k);
        let fewer = items.drop_last();
        let others = sorted.remove(k);
        assert forall|p: usize| p < fewer.len() implies #[trigger] rest.contains(p) by {
            assert(order.contains(p));
            let m = choose|m: int| 0 <= m < order.len() && order[m] == p;
            if m < k {
                assert(rest[m] == p);
            } else {
                assert(m != k);
                assert(rest[m - 1] == p);
            }
        }
        assert(rest.no_duplicates()) by {
            assert forall|i: int, j: int|
                0 <= i < rest.len() && 0 <= j < rest.len() && i != j implies rest[i] != rest[j] by {
                let a = if i < k {
                    i
                } else {
                    i + 1
                };
                let b = if j < k {
                    j
                } else {
                    j + 1
                };
                assert(order[a] != order[b]);
            }
        }
        assert forall|i: int| 0 <= i < rest.len() implies (#[trigger] rest[i]) < fewer.len()
            && others[i] == fewer[rest[i] as int] by {
            let a = if i < k {
                i
            } else {
                i + 1
            };
            assert(rest[i] == order[a] && others[i] == sorted[a]);
            assert(order[a] != order[k]);
        }
        lemma_permuted(others, fewer, rest);
        assert(sorted[k] == items.last());
        assert(fewer.push(items.last()) =~= items);
        assert(others.to_multiset() == sorted.to_multiset().remove(sorted[k]));
        assert(sorted.contains(sorted[k]));
        assert(sorted.to_multiset().count(sorted[k]) > 0);
        assert(sorted.to_multiset() =~= others.to_multiset().insert(sorted[k]));
    }
}

/// References that are the same but for their order are sorted alike, where different
/// ones have different texts.
proof fn lemma_sorted_alike(
    a: Seq<ReferenceView>,
    from_a: Seq<ReferenceView>,
    order_a: Seq<usize>,
    b: Seq<ReferenceView>,
    from_b: Seq<ReferenceView>,
    order_b: Seq<usize>,
    text: spec_fn(ReferenceView) -> Seq<char>,
)
    requires
        from_a.len() <= usize::MAX,
        from_b.len() <= usize::MAX,
        from_a.to_multiset() == from_b.to_multiset(),
        sorted_by_text(a, from_a, texts_of(from_a, text), order_a),
        sorted_by_text(b, from_b, texts_of(from_b, text), order_b),
        forall|x: ReferenceView, y: ReferenceView|
            #[trigger] text(x) == #[trigger] text(y) ==> x == y,
    ensures
        a == b,
{
    let leq = text_order(text);
    lemma_permuted(a, from_a, order_a);
    lemma_permuted(b, from_b, order_b);
    lemma_sorts(a, from_a, order_a, text);
    lemma_sorts(b, from_b, order_b, text);
    assert forall|x: ReferenceView| #[trigger] leq(x, x) by {}
    assert forall|x: ReferenceView, y: ReferenceView| #[trigger] leq(x, y) && #[trigger] leq(
        y,
        x,
    ) implies x == y by {
        let p = code_points(text(x));
        let q = code_points(text(y));
        if p != q {
            lemma_lex_asymmetric(p, q);
        }
        lemma_code_points_injective(text(x), text(y));
    }
    assert forall|x: ReferenceView, y: ReferenceView, z: ReferenceView| #[trigger] leq(x, y)
        && #[trigger] leq(y, z) implies leq(x, z) by {
        lemma_lex_le_transitive(
            code_points(text(x)),
            code_points(text(y)),
            code_points(text(z)),
        );
    }
    assert forall|x: ReferenceView, y: ReferenceView| #[trigger] leq(x, y) || #[trigger] leq(y, x) by {
        lemma_lex_total(code_points(text(x)), code_points(text(y)));
    }
    vstd::seq_lib::lemma_sorted_unique(a, b, leq);
}

proof fn lemma_sorts(
    a: Seq<ReferenceView>,
    from: Seq<ReferenceView>,
    order: Seq<usize>,
    text: spec_fn(ReferenceView) -> Seq<char>,
)
    requires
        sorted_by_text(a, from, texts_of(from, text), order),
    ensures
        sorted_by(a, text_order(text)),
{
    let keys = texts_of(from, text);
    let leq = text_order(text);
    assert forall|i: int, j: int| 0 <= i < j < a.len() implies #[trigger] leq(a[i], a[j]) by {
        assert(order[i] < from.len() && order[j] < from.len());
        assert(lex_le(
            code_points(keys[order[i] as int]),
            code_points(keys[order[j] as int]),
        ));
    }
}

/// Exporting a workspace, importing the export where the Markdown of no node yields
/// references of its own, and exporting again gives the same snapshot, as long as
/// different references are serialized as different texts.
pub proof fn law_export_survives_import(
    t: Tables,
    name: Seq<char>,
    text: spec_fn(ReferenceView) -> Seq<char>,
    snapshot: Snapshot,
    derived: Seq<DerivedNodeRecords>,
    again: Snapshot,
)
    requires
        t.wf(),
        is_export(t, name, text, snapshot),
        snapshot.revisions@.len() > 0,
        derived.len() == snapshot.nodes@.len(),
        forall|i: int|
            0 <= i < derived.len() ==> fits_node(#[trigger] derived[i], snapshot.nodes@[i].id)
                && derived[i].references@.len() == 0,
        forall|x: ReferenceView, y: ReferenceView|
            #[trigger] text(x) == #[trigger] text(y) ==> x == y,
        ({
            let r = snapshot_root(snapshot.nodes@)->0;
            let started = initialized(snapshot.nodes@[r], derived[r])->Ok_0;
            is_export(imported(started, snapshot, derived)->Ok_0, name, text, again)
        }),
    ensures
        again.format@ == snapshot.format@,
        again.workspace_name@ == snapshot.workspace_name@,
        again.workspace_format_version == snapshot.workspace_format_version,
        again.nodes@ == snapshot.nodes@,
        revision_views(again.revisions@) == revision_views(snapshot.revisions@),
        reference_views(again.references@) == reference_views(snapshot.references@),
{
    let nodes = snapshot.nodes@;
    let n = nodes.len() as int;
    lemma_nothing_counted(derived, n);
    assert(reference_views(snapshot.references@).len() == snapshot.references.len());
    law_import_restores_export(t, snapshot, derived);
    let r = snapshot_root(nodes)->0;
    let u = imported(initialized(nodes[r], derived[r])->Ok_0, snapshot, derived)->Ok_0;
    lemma_lists_unique(
        u.nodes,
        |x: Node| true,
        |x: Node| seq![x.id.value],
        again.nodes@,
        nodes,
    );
    let of_t = links_of(t, nodes, n);
    let of_u = links_of(u, nodes, n);
    let a = reference_views(snapshot.references@);
    let b = reference_views(again.references@);
    let order_a = choose|order: Seq<usize>| #[trigger]
        sorted_by_text(a, of_t, texts_of(of_t, text), order);
    let order_b = choose|order: Seq<usize>| #[trigger]
        sorted_by_text(b, of_u, texts_of(of_u, text), order);
    assert(b.len() == again.references.len());
    lemma_permuted(a, of_t, order_a);
    assert(captures_references(t, snapshot));
    assert(captures_references(u, snapshot));
    lemma_sorted_alike(a, of_t, order_a, b, of_u, order_b, text);
}

proof fn lemma_nothing_counted(derived: Seq<DerivedNodeRecords>, n: int)
    requires
        0 <= n <= derived.len(),
        forall|i: int| 0 <= i < derived.len() ==> (#[trigger] derived[i]).references@.len() == 0,
    ensures
        reference_count(derived, n) == 0,
    decreases n,
{
    if n > 0 {
        lemma_nothing_counted(derived, n - 1);
    }
}

/// A listing by identity holds every node once.
pub proof fn lemma_listed_nodes(t: Tables, nodes: Seq<Node>)
    requires
        t.by_identity(nodes),
    ensures
        unique_ids(nodes),
        forall|x: Node| #[trigger] nodes.contains(x) <==> t.nodes.contains(x),
{
    let key = |n: Node| seq![n.id.value];
    assert forall|i: int, j: int| 0 <= i < j < nodes.len() implies #[trigger] nodes[i].id
        != #[trigger] nodes[j].id by {
        assert(lex_lt(key(nodes[i]), key(nodes[j])));
        if nodes[i].id == nodes[j].id {
            lemma_lex_irreflexive(key(nodes[i]));
        }
    }
    assert forall|x: Node| #[trigger] nodes.contains(x) <==> t.nodes.contains(x) && true by {}
}

proof fn lemma_some_first(nodes: Seq<Node>, pred: spec_fn(Node) -> bool, i: int, k: int)
    requires
        0 <= i <= k < nodes.len(),
        pred(nodes[k]),
    ensures
        first_from(nodes, pred, i) is Some,
    decreases k - i,
{
    if i < k && !pred(nodes[i]) {
        lemma_some_first(nodes, pred, i + 1, k);
    }
}

proof fn lemma_count_bounds(derived: Seq<DerivedNodeRecords>, n: int, i: int)
    requires
        0 <= i < n <= derived.len(),
    ensures
        derived[i].references@.len() <= reference_count(derived, n),
    decreases n,
{
    if i < n - 1 {
        lemma_count_bounds(derived, n - 1, i);
    }
}

proof fn lemma_sections_fit(t: Tables, records: DerivedNodeRecords, id: NodeId, n: int)
    requires
        fits_node(records, id),
        present(t.nodes, id),
        0 <= n <= records.sections@.len(),
    ensures
        t.section_refusal(records.sections@, n) is None,
    decreases n,
{
    if n > 0 {
        lemma_sections_fit(t, records, id, n - 1);
        assert(records.sections@[n - 1].node_id == id);
    }
}

/// References fit as long as their row identities do.
proof fn lemma_adds_references(t: Tables, references: Seq<ReferenceView>, n: int)
    requires
        0 <= n <= references.len(),
        t.next_row_id() + n - 1 <= u64::MAX,
        t.next_row_id() >= 1,
    ensures
        t.insert_references(references, n) is Ok,
        t.insert_references(references, n)->Ok_0.next_row_id() == t.next_row_id() + n,
    decreases n,
{
    if n > 0 {
        lemma_adds_references(t, references, n - 1);
    }
}

proof fn lemma_filter_row_ids(t: Tables, u: Tables, keep: spec_fn(RowView) -> bool)
    requires
        rows_ascend(t.references),
        u.references == t.references.filter(keep),
    ensures
        1 <= u.next_row_id() <= t.next_row_id(),
{
    lemma_filter_facts(t.references, keep);
    let kept = u.references;
    if kept.len() > 0 {
        assert(kept.contains(kept.last()));
        let k = choose|k: int| 0 <= k < t.references.len() && t.references[k] == kept.last();
        if k < t.references.len() - 1 {
            assert(t.references[k].row_id < t.references[t.references.len() - 1].row_id);
        }
    }
}

proof fn lemma_adds_records_of(t: Tables, id: NodeId, records: DerivedNodeRecords)
    requires
        rows_ascend(t.references),
        fits_node(records, id),
        present(t.nodes, id),
        t.next_row_id() + records.references@.len() - 1 <= u64::MAX,
    ensures
        t.replace_derived(id, records) is Ok,
        t.replace_derived(id, records)->Ok_0.next_row_id() <= t.next_row_id()
            + records.references@.len(),
        t.replace_derived(id, records)->Ok_0.next_row_id() >= 1,
{
    let keep = |r: RowView| !is_extracted(r.reference, id);
    let cleared = Tables {
        references: t.references.filter(keep),
        sections: t.sections.filter(|s: Arc<Section>| s.node_id != id),
        fts: t.fts.filter(|f: crate::fts::FtsRowView| f.document.node_id != id),
        ..t
    };
    lemma_sections_fit(t, records, id, records.sections@.len() as int);
    lemma_filter_row_ids(t, cleared, keep);
    lemma_adds_references(
        cleared,
        reference_views(records.references@),
        records.references@.len() as int,
    );
}

proof fn lemma_adds_records(
    t: Tables,
    nodes: Seq<Node>,
    derived: Seq<DerivedNodeRecords>,
    n: int,
)
    requires
        0 <= n <= nodes.len(),
        derived.len() == nodes.len(),
        t.references.len() == 0,
        forall|i: int| 0 <= i < nodes.len() ==> present(t.nodes, #[trigger] nodes[i].id),
        forall|i: int| 0 <= i < derived.len() ==> fits_node(#[trigger] derived[i], nodes[i].id),
        reference_count(derived, n) <= u64::MAX,
    ensures
        run(t, n, import_derived_step(nodes, derived)) is Ok,
        ({
            let u = run(t, n, import_derived_step(nodes, derived))->Ok_0;
            &&& u.nodes == t.nodes
            &&& rows_ascend(u.references)
            &&& 1 <= u.next_row_id() <= 1 + reference_count(derived, n)
        }),
    decreases n,
{
    if n > 0 {
        lemma_adds_records(t, nodes, derived, n - 1);
        let v = run(t, n - 1, import_derived_step(nodes, derived))->Ok_0;
        assert(present(t.nodes, nodes[n - 1].id));
        assert(fits_node(derived[n - 1], nodes[n - 1].id));
        lemma_adds_records_of(v, nodes[n - 1].id, derived[n - 1]);
        lemma_derived_nodes(v, nodes[n - 1].id, derived[n - 1]);
        lemma_derived_ascend(v, nodes[n - 1].id, derived[n - 1]);
    }
}

/// A workspace can be created from its root.
proof fn lemma_initializes(t: Tables, root: Node, records: DerivedNodeRecords)
    requires
        fits_columns(t),
        t.bounded_versions(),
        t.nodes.contains(root),
        root.parent_id is None,
        fits_node(records, root.id),
        records.references@.len() <= u64::MAX,
    ensures
        unstorable(root) is None,
        initialized(root, records) is Ok,
{
    let i = choose|i: int| 0 <= i < t.nodes.len() && t.nodes[i] == root;
    assert(storable(t.nodes[i].version));
    let a = empty_tables().insert_node(root)->Ok_0;
    assert(a.nodes[0].id == root.id);
    let b = a.insert_revision(crate::workspace::root_revision(root))->Ok_0;
    lemma_adds_records_of(b, root.id, records);
}

/// Every node but the root can be added to a workspace that holds the root.
proof fn lemma_adds_nodes(t: Tables, start: Tables, nodes: Seq<Node>, r: int, n: int)
    requires
        t.wf(),
        fits_columns(t),
        distinct_slugs(t.nodes),
        unique_ids(nodes),
        forall|x: Node| #[trigger] nodes.contains(x) <==> t.nodes.contains(x),
        0 <= r < nodes.len(),
        nodes[r].parent_id is None,
        start.nodes == seq![nodes[r]],
        0 <= n <= nodes.len(),
    ensures
        run(start, n, import_node_step(nodes)) is Ok,
        unique_ids(run(start, n, import_node_step(nodes))->Ok_0.nodes),
    decreases n,
{
    if n > 0 {
        lemma_adds_nodes(t, start, nodes, r, n - 1);
        let v = run(start, n - 1, import_node_step(nodes))->Ok_0;
        lemma_imported_nodes(start, nodes, n - 1, v);
        let node = nodes[n - 1];
        assert(t.nodes.contains(node)) by {
            assert(nodes.contains(node));
        }
        let at = choose|at: int| 0 <= at < t.nodes.len() && t.nodes[at] == node;
        assert(storable(t.nodes[at].version));
        if node.parent_id is Some {
            assert forall|k: int| 0 <= k < v.nodes.len() implies #[trigger] v.nodes[k].id
                != node.id && !(v.nodes[k].parent_id == node.parent_id && v.nodes[k].slug@
                == node.slug@) by {
                let other = v.nodes[k];
                assert(v.nodes.contains(other));
                if start.nodes.contains(other) {
                    assert(other == nodes[r]);
                } else {
                    let i = choose|i: int|
                        0 <= i < n - 1 && #[trigger] nodes[i] == other && nodes[i].parent_id
                            is Some;
                    assert(nodes[i].id != nodes[n - 1].id);
                    assert(nodes.contains(other));
                    let b = choose|b: int| 0 <= b < t.nodes.len() && t.nodes[b] == other;
                    if t.nodes[at].parent_id == t.nodes[b].parent_id && t.nodes[at].slug@
                        == t.nodes[b].slug@ {
                        assert(at == b);
                    }
                }
            }
            assert(!present(v.nodes, node.id));
            assert(!v.slug_taken(node));
            assert(!v.root_taken(node));
        }
    }
}

/// Node rows that are the same but for their order form the same tree.
proof fn lemma_same_tree(a: Seq<Node>, b: Seq<Node>)
    requires
        is_tree(a),
        unique_ids(b),
        forall|x: Node| #[trigger] b.contains(x) <==> a.contains(x),
    ensures
        is_tree(b),
{
    assert forall|id: NodeId| #[trigger] present(b, id) <==> present(a, id) by {
        if present(b, id) {
            assert(b.contains(b[position(b, id)]));
            let i = choose|i: int| 0 <= i < a.len() && a[i] == b[position(b, id)];
            assert(a[i].id == id);
        }
        if present(a, id) {
            assert(a.contains(a[position(a, id)]));
            assert(b.contains(a[position(a, id)]));
            let i = choose|i: int| 0 <= i < b.len() && b[i] == a[position(a, id)];
            assert(b[i].id == id);
        }
    }
    assert forall|id: NodeId| present(a, id) implies #[trigger] node_at(b, id) == node_at(
        a,
        id,
    ) by {
        assert(a.contains(a[position(a, id)]));
        assert(b.contains(a[position(a, id)]));
        let i = choose|i: int| 0 <= i < b.len() && b[i] == a[position(a, id)];
        lemma_position(b, i);
    }
    assert(links(b) =~= links(a));
    assert forall|i: int| 0 <= i < b.len() && (#[trigger] b[i]).parent_id is Some implies present(
        b,
        b[i].parent_id->0,
    ) by {
        assert(b.contains(b[i]));
        let j = choose|j: int| 0 <= j < a.len() && a[j] == b[i];
        assert(a[j].parent_id is Some);
    }
    let q = choose|q: int| is_sole_root(a, q);
    assert(a.contains(a[q]));
    assert(b.contains(a[q]));
    let r = choose|r: int| 0 <= r < b.len() && b[r] == a[q];
    assert forall|i: int| 0 <= i < b.len() implies (#[trigger] b[i].parent_id is None <==> i == r) by {
        assert(b.contains(b[i]));
        let j = choose|j: int| 0 <= j < a.len() && a[j] == b[i];
        assert(a[j].parent_id is None <==> j == q);
        assert(a[q].parent_id is None);
        if j == q {
            assert(b[i].id == b[r].id);
        }
    }
    assert(is_sole_root(b, r));
}

/// No two entries of a history are the same version of one node.
proof fn lemma_history_unique(t: Tables, nodes: Seq<Node>, n: int)
    requires
        t.unique_versions(),
        unique_ids(nodes),
        0 <= n <= nodes.len(),
    ensures
        ({
            let all = history_of(t, nodes, n);
            &&& forall|i: int, j: int|
                0 <= i < j < all.len() && (#[trigger] all[i]).node_id == (
                #[trigger] all[j]).node_id ==> all[i].version != all[j].version
            &&& forall|i: int| 0 <= i < all.len() ==> t.revisions.contains(#[trigger] all[i])
            &&& forall|i: int|
                0 <= i < all.len() ==> exists|k: int|
                    0 <= k < n && (#[trigger] nodes[k]).id == (#[trigger] all[i]).node_id
        }),
    decreases n,
{
    if n > 0 {
        lemma_history_unique(t, nodes, n - 1);
        let id = nodes[n - 1].id;
        lemma_own_history(t, id);
        let before = history_of(t, nodes, n - 1);
        let own = own_history(t, id);
        let all = history_of(t, nodes, n);
        let key = |r: RevisionView| seq![r.version as u128];
        assert forall|i: int| 0 <= i < all.len() implies t.revisions.contains(#[trigger] all[i])
            && exists|k: int| 0 <= k < n && (#[trigger] nodes[k]).id == all[i].node_id by {
            if i < before.len() {
                assert(all[i] == before[i]);
                let k = choose|k: int|
                    0 <= k < n - 1 && (#[trigger] nodes[k]).id == before[i].node_id;
                assert(nodes[k].id == all[i].node_id);
            } else {
                assert(all[i] == own[i - before.len()]);
                assert(own.contains(all[i]));
                assert(nodes[n - 1].id == all[i].node_id);
            }
        }
        assert forall|i: int, j: int|
            0 <= i < j < all.len() && (#[trigger] all[i]).node_id == (
            #[trigger] all[j]).node_id implies all[i].version != all[j].version by {
            if j < before.len() {
                assert(all[i] == before[i] && all[j] == before[j]);
            } else if i < before.len() {
                assert(all[i] == before[i] && all[j] == own[j - before.len()]);
                assert(own.contains(all[j]));
                let k = choose|k: int|
                    0 <= k < n - 1 && (#[trigger] nodes[k]).id == before[i].node_id;
                assert(nodes[k].id == nodes[n - 1].id);
            } else {
                let x = own[i - before.len()];
                let y = own[j - before.len()];
                assert(all[i] == x && all[j] == y);
                assert(lex_lt(key(x), key(y)));
                if x.version == y.version {
                    lemma_lex_irreflexive(key(x));
                }
            }
        }
    }
}

/// The whole history can be added to a workspace that has none.
proof fn lemma_adds_revisions(
    t: Tables,
    bare: Tables,
    nodes: Seq<Node>,
    history: Seq<RevisionView>,
    n: int,
)
    requires
        t.unique_versions(),
        fits_columns(t),
        unique_ids(nodes),
        bare.revisions.len() == 0,
        history == history_of(t, nodes, nodes.len() as int),
        0 <= n <= history.len(),
    ensures
        run(bare, n, import_revision_step(history)) is Ok,
    decreases n,
{
    if n > 0 {
        lemma_adds_revisions(t, bare, nodes, history, n - 1);
        lemma_history_unique(t, nodes, nodes.len() as int);
        let v = run(bare, n - 1, import_revision_step(history))->Ok_0;
        lemma_imported_revisions(bare, history, n - 1, v);
        assert(v.revisions =~= history.take(n - 1));
        let added = history[n - 1];
        assert(t.revisions.contains(added));
        let i = choose|i: int| 0 <= i < t.revisions.len() && t.revisions[i] == added;
        assert(storable(t.revisions[i].version));
        assert forall|k: int| 0 <= k < v.revisions.len() implies !((
        #[trigger] v.revisions[k]).node_id == added.node_id && v.revisions[k].version
            == added.version) by {
            assert(v.revisions[k] == history[k]);
        }
        assert(!v.has_version(added.node_id, added.version));
    }
}

/// How often a reference occurs among the rows that start at a node.
proof fn lemma_own_references(rows: Seq<RowView>, id: NodeId, x: ReferenceView)
    ensures
        references_of(
            rows.filter(|r: RowView| touches(r.reference, ReferenceSide::Source, id)),
        ).to_multiset().count(x) == if x.source_node_id == id {
            references_of(rows).to_multiset().count(x)
        } else {
            0
        },
    decreases rows.len(),
{
    broadcast use vstd::seq_lib::group_to_multiset_ensures;

    let pred = |r: RowView| touches(r.reference, ReferenceSide::Source, id);
    reveal(Seq::filter);
    let kept = rows.filter(pred);
    if rows.len() > 0 {
        let init = rows.drop_last();
        let last = rows.last();
        lemma_own_references(init, id, x);
        assert(references_of(rows) =~= references_of(init).push(last.reference));
        if pred(last) {
            assert(references_of(kept) =~= references_of(init.filter(pred)).push(last.reference));
        }
    } else {
        assert(references_of(kept) =~= Seq::<ReferenceView>::empty());
        assert(references_of(rows) =~= Seq::<ReferenceView>::empty());
    }
}

/// How often a reference occurs among those of the first `n` nodes.
proof fn lemma_links_count(t: Tables, nodes: Seq<Node>, n: int, x: ReferenceView)
    requires
        unique_ids(nodes),
        0 <= n <= nodes.len(),
    ensures
        links_of(t, nodes, n).to_multiset().count(x) == if exists|i: int|
            0 <= i < n && (#[trigger] nodes[i]).id == x.source_node_id {
            references_of(t.references).to_multiset().count(x)
        } else {
            0
        },
    decreases n,
{
    broadcast use vstd::seq_lib::group_to_multiset_ensures;

    if n > 0 {
        lemma_links_count(t, nodes, n - 1, x);
        let id = nodes[n - 1].id;
        lemma_own_references(t.references, id, x);
        let before = links_of(t, nodes, n - 1);
        let own = references_of(touching(t, ReferenceSide::Source, id));
        vstd::seq_lib::lemma_multiset_commutative(before, own);
        if exists|i: int| 0 <= i < n - 1 && (#[trigger] nodes[i]).id == x.source_node_id {
            let i = choose|i: int|
                0 <= i < n - 1 && (#[trigger] nodes[i]).id == x.source_node_id;
            assert(nodes[i].id != nodes[n - 1].id);
        }
        if id == x.source_node_id {
            assert(nodes[n - 1].id == x.source_node_id);
        }
    }
}

/// A workspace that holds exactly the references of a snapshot exports them again.
proof fn lemma_references_captured(t: Tables, u: Tables, snapshot: Snapshot)
    requires
        t.by_identity(snapshot.nodes@),
        captures_references(t, snapshot),
        references_of(u.references) == reference_views(snapshot.references@),
    ensures
        captures_references(u, snapshot),
{
    let nodes = snapshot.nodes@;
    let n = nodes.len() as int;
    lemma_listed_nodes(t, nodes);
    let all = reference_views(snapshot.references@).to_multiset();
    let out = links_of(u, nodes, n).to_multiset();
    assert forall|x: ReferenceView| #[trigger] all.count(x) == out.count(x) by {
        lemma_links_count(t, nodes, n, x);
        lemma_links_count(u, nodes, n, x);
    }
    assert(all =~= out);
}

proof fn lemma_import_captured(
    t: Tables,
    snapshot: Snapshot,
    derived: Seq<DerivedNodeRecords>,
    start: Tables,
    u: Tables,
)
    requires
        t.wf(),
        captures(t, snapshot),
        snapshot.revisions@.len() > 0,
        snapshot_root(snapshot.nodes@) is Some,
        initialized(
            snapshot.nodes@[snapshot_root(snapshot.nodes@)->0],
            derived[snapshot_root(snapshot.nodes@)->0],
        ) == Ok::<Tables, Refusal>(start),
        imported(start, snapshot, derived) == Ok::<Tables, Refusal>(u),
    ensures
        captures(u, snapshot),
{
    let nodes = snapshot.nodes@;
    let n = nodes.len() as int;
    let r = snapshot_root(nodes)->0;
    let root = nodes[r];
    crate::commands::lemma_first_from(nodes, |x: Node| x.parent_id is None, 0);
    lemma_initialized(root, derived[r], start);
    let a = run(start, n, import_node_step(nodes))->Ok_0;
    lemma_imported_nodes(start, nodes, n, a);
    let history = imported_history(snapshot);
    let bare = Tables { revisions: Seq::empty(), ..a };
    let b = run(bare, history.len() as int, import_revision_step(history))->Ok_0;
    lemma_imported_revisions(bare, history, history.len() as int, b);
    let clear = Tables { references: Seq::empty(), sections: Seq::empty(), fts: Seq::empty(), ..b };
    let c = run(clear, n, import_derived_step(nodes, derived))->Ok_0;
    lemma_imported_records(clear, nodes, derived, n, c);
    let references = reference_views(snapshot.references@);
    lemma_references_only(c, references, references.len() as int, u);
    assert(u.nodes == a.nodes);
    assert(history.take(history.len() as int) =~= history);
    assert(bare.revisions + history =~= history);
    assert(u.revisions == history);
    assert forall|x: Node| #[trigger] nodes.contains(x) <==> u.nodes.contains(x) by {
        if nodes.contains(x) {
            let i = choose|i: int| 0 <= i < n && nodes[i] == x;
            if nodes[i].parent_id is None {
                assert(t.nodes.contains(nodes[i]) && t.nodes.contains(root)) by {
                    assert(nodes.contains(nodes[i]) && nodes.contains(root));
                }
                lemma_one_root(t.nodes, nodes[i], root);
                assert(start.nodes.contains(root)) by {
                    assert(start.nodes[0] == root);
                }
            }
        }
        if u.nodes.contains(x) && start.nodes.contains(x) {
            assert(x == root);
        }
    }
    assert forall|x: Node| #[trigger] nodes.contains(x) <==> u.nodes.contains(x) && true by {}
    assert(u.by_identity(nodes));
    lemma_same_history(t, u, nodes, n);
}

/// Importing a snapshot, whatever it holds, leaves a well-formed workspace or none.
pub proof fn law_import_keeps_tree(
    snapshot: Snapshot,
    derived: Seq<DerivedNodeRecords>,
    start: Tables,
    u: Tables,
)
    requires
        snapshot_root(snapshot.nodes@) is Some,
        initialized(
            snapshot.nodes@[snapshot_root(snapshot.nodes@)->0],
            derived[snapshot_root(snapshot.nodes@)->0],
        ) == Ok::<Tables, Refusal>(start),
        imported(start, snapshot, derived) == Ok::<Tables, Refusal>(u),
    ensures
        u.wf(),
{
    let nodes = snapshot.nodes@;
    let n = nodes.len() as int;
    let r = snapshot_root(nodes)->0;
    crate::commands::lemma_first_from(nodes, |x: Node| x.parent_id is None, 0);
    law_new_workspace_is_tree(nodes[r], derived[r]);
    lemma_nodes_wf(start, nodes, n);
    let a = run(start, n, import_node_step(nodes))->Ok_0;
    let history = imported_history(snapshot);
    let bare = Tables { revisions: Seq::empty(), ..a };
    lemma_revisions_wf(bare, history, history.len() as int);
    let b = run(bare, history.len() as int, import_revision_step(history))->Ok_0;
    let clear = Tables { references: Seq::empty(), sections: Seq::empty(), fts: Seq::empty(), ..b };
    lemma_records_wf(clear, nodes, derived, n);
    let c = run(clear, n, import_derived_step(nodes, derived))->Ok_0;
    let references = reference_views(snapshot.references@);
    lemma_references_nodes(c, references, references.len() as int);
    lemma_insert_references_ascend(c, references, references.len() as int);
    assert(u.ascending_rows());
}

proof fn lemma_nodes_wf(t: Tables, nodes: Seq<Node>, n: int)
    requires
        t.bounded_versions(),
        distinct_slugs(t.nodes),
        fits_columns(t),
        run(t, n, import_node_step(nodes)) is Ok,
    ensures
        ({
            let u = run(t, n, import_node_step(nodes))->Ok_0;
            &&& u.bounded_versions()
            &&& distinct_slugs(u.nodes)
            &&& fits_columns(u)
            &&& u.revisions == t.revisions
            &&& u.references == t.references
        }),
    decreases n,
{
    if n > 0 {
        lemma_nodes_wf(t, nodes, n - 1);
    }
}

proof fn lemma_revisions_wf(t: Tables, history: Seq<RevisionView>, n: int)
    requires
        t.wf(),
        run(t, n, import_revision_step(history)) is Ok,
    ensures
        run(t, n, import_revision_step(history))->Ok_0.wf(),
    decreases n,
{
    if n > 0 {
        lemma_revisions_wf(t, history, n - 1);
        let v = run(t, n - 1, import_revision_step(history))->Ok_0;
        lemma_revision_unique(v, history[n - 1]);
    }
}

proof fn lemma_records_wf(
    t: Tables,
    nodes: Seq<Node>,
    derived: Seq<DerivedNodeRecords>,
    n: int,
)
    requires
        t.wf(),
        run(t, n, import_derived_step(nodes, derived)) is Ok,
    ensures
        run(t, n, import_derived_step(nodes, derived))->Ok_0.wf(),
    decreases n,
{
    if n > 0 {
        lemma_records_wf(t, nodes, derived, n - 1);
        let v = run(t, n - 1, import_derived_step(nodes, derived))->Ok_0;
        lemma_derived_nodes(v, nodes[n - 1].id, derived[n - 1]);
        lemma_derived_ascend(v, nodes[n - 1].id, derived[n - 1]);
    }
}

proof fn lemma_import_references(
    start: Tables,
    snapshot: Snapshot,
    derived: Seq<DerivedNodeRecords>,
    u: Tables,
)
    requires
        derived.len() == snapshot.nodes@.len(),
        forall|i: int| 0 <= i < derived.len() ==> (#[trigger] derived[i]).references@.len() == 0,
        imported(start, snapshot, derived) == Ok::<Tables, Refusal>(u),
    ensures
        references_of(u.references) == reference_views(snapshot.references@),
{
    let nodes = snapshot.nodes@;
    let n = nodes.len() as int;
    let a = run(start, n, import_node_step(nodes))->Ok_0;
    let history = imported_history(snapshot);
    let bare = Tables { revisions: Seq::empty(), ..a };
    let b = run(bare, history.len() as int, import_revision_step(history))->Ok_0;
    let clear = Tables { references: Seq::empty(), sections: Seq::empty(), fts: Seq::empty(), ..b };
    let c = run(clear, n, import_derived_step(nodes, derived))->Ok_0;
    lemma_no_references(clear, nodes, derived, n, c);
    let references = reference_views(snapshot.references@);
    lemma_references_only(c, references, references.len() as int, u);
    assert(references.take(references.len() as int) =~= references);
    assert(references_of(u.references) =~= references);
}

proof fn lemma_no_references(
    t: Tables,
    nodes: Seq<Node>,
    derived: Seq<DerivedNodeRecords>,
    n: int,
    u: Tables,
)
    requires
        0 <= n <= derived.len(),
        t.references.len() == 0,
        forall|i: int| 0 <= i < derived.len() ==> (#[trigger] derived[i]).references@.len() == 0,
        run(t, n, import_derived_step(nodes, derived)) == Ok::<Tables, Refusal>(u),
    ensures
        u.references.len() == 0,
    decreases n,
{
    if n > 0 {
        let v = run(t, n - 1, import_derived_step(nodes, derived))->Ok_0;
        lemma_no_references(t, nodes, derived, n - 1, v);
        let id = nodes[n - 1].id;
        let keep = |r: RowView| !crate::tables::is_extracted(r.reference, id);
        reveal(Seq::filter);
        assert(v.references.filter(keep).len() == 0);
        assert(derived[n - 1].references@.len() == 0);
    }
}

proof fn lemma_one_root(nodes: Seq<Node>, a: Node, b: Node)
    requires
        is_tree(nodes),
        nodes.contains(a),
        nodes.contains(b),
        a.parent_id is None,
        b.parent_id is None,
    ensures
        a == b,
{
    let i = choose|i: int| 0 <= i < nodes.len() && nodes[i] == a;
    let j = choose|j: int| 0 <= j < nodes.len() && nodes[j] == b;
    assert(nodes[i].parent_id is None && nodes[j].parent_id is None);
}

proof fn lemma_initialized(root: Node, derived: DerivedNodeRecords, start: Tables)
    requires
        initialized(root, derived) == Ok::<Tables, Refusal>(start),
    ensures
        start.nodes == seq![root],
{
    let t = empty_tables().insert_node(root)->Ok_0;
    assert(t.nodes =~= seq![root]);
    let v = t.insert_revision(crate::workspace::root_revision(root))->Ok_0;
    lemma_derived_nodes(v, root.id, derived);
}

/// Inserting references touches nothing else.
proof fn lemma_references_only(t: Tables, references: Seq<ReferenceView>, n: int, u: Tables)
    requires
        0 <= n <= references.len(),
        t.insert_references(references, n) == Ok::<Tables, Refusal>(u),
    ensures
        u.nodes == t.nodes,
        u.revisions == t.revisions,
        references_of(u.references) == references_of(t.references) + references.take(n),
    decreases n,
{
    if n > 0 {
        let v = t.insert_references(references, n - 1)->Ok_0;
        lemma_references_only(t, references, n - 1, v);
        assert(references_of(u.references) =~= references_of(v.references).push(
            references[n - 1],
        ));
        assert(references.take(n) =~= references.take(n - 1).push(references[n - 1]));
        assert(references_of(u.references) =~= references_of(t.references) + references.take(n));
    } else {
        assert(references_of(u.references) =~= references_of(t.references) + references.take(0));
    }
}

/// After the nodes are imported, the workspace holds those it started with and the
/// imported ones below a parent.
proof fn lemma_imported_nodes(t: Tables, nodes: Seq<Node>, n: int, u: Tables)
    requires
        0 <= n <= nodes.len(),
        run(t, n, import_node_step(nodes)) == Ok::<Tables, Refusal>(u),
    ensures
        u.revisions == t.revisions,
        forall|x: Node| #[trigger]
            u.nodes.contains(x) <==> t.nodes.contains(x) || exists|i: int|
                0 <= i < n && #[trigger] nodes[i] == x && nodes[i].parent_id is Some,
    decreases n,
{
    if n > 0 {
        let v = run(t, n - 1, import_node_step(nodes))->Ok_0;
        lemma_imported_nodes(t, nodes, n - 1, v);
        let last = nodes[n - 1];
        assert forall|x: Node| #[trigger] u.nodes.contains(x) <==> t.nodes.contains(x) || exists|
            i: int,
        |
            0 <= i < n && #[trigger] nodes[i] == x && nodes[i].parent_id is Some by {
            if last.parent_id is Some {
                assert(u.nodes =~= v.nodes.push(last));
                if u.nodes.contains(x) {
                    let k = choose|k: int| 0 <= k < u.nodes.len() && u.nodes[k] == x;
                    if k < v.nodes.len() {
                        assert(v.nodes[k] == x);
                    } else {
                        assert(nodes[n - 1] == x);
                    }
                }
                if v.nodes.contains(x) {
                    let k = choose|k: int| 0 <= k < v.nodes.len() && v.nodes[k] == x;
                    assert(u.nodes[k] == x);
                }
                assert(u.nodes[v.nodes.len() as int] == last);
            } else {
                assert(u == v);
            }
            assert(v.nodes.contains(x) <==> t.nodes.contains(x) || exists|i: int|
                0 <= i < n - 1 && #[trigger] nodes[i] == x && nodes[i].parent_id is Some);
            if exists|i: int| 0 <= i < n && #[trigger] nodes[i] == x && nodes[i].parent_id is Some {
                let i = choose|i: int|
                    0 <= i < n && #[trigger] nodes[i] == x && nodes[i].parent_id is Some;
                if i < n - 1 {
                    assert(v.nodes.contains(x));
                }
            }
        }
    }
}

/// After the revisions are imported, they stand behind those that were there.
proof fn lemma_imported_revisions(t: Tables, history: Seq<RevisionView>, n: int, u: Tables)
    requires
        0 <= n <= history.len(),
        run(t, n, import_revision_step(history)) == Ok::<Tables, Refusal>(u),
    ensures
        u.nodes == t.nodes,
        u.revisions == t.revisions + history.take(n),
    decreases n,
{
    if n > 0 {
        let v = run(t, n - 1, import_revision_step(history))->Ok_0;
        lemma_imported_revisions(t, history, n - 1, v);
        assert(u.revisions =~= v.revisions.push(history[n - 1]));
        assert(u.revisions =~= t.revisions + history.take(n));
    } else {
        assert(u.revisions =~= t.revisions + history.take(0));
    }
}

proof fn lemma_imported_records(
    t: Tables,
    nodes: Seq<Node>,
    derived: Seq<DerivedNodeRecords>,
    n: int,
    u: Tables,
)
    requires
        0 <= n,
        run(t, n, import_derived_step(nodes, derived)) == Ok::<Tables, Refusal>(u),
    ensures
        u.nodes == t.nodes,
        u.revisions == t.revisions,
    decreases n,
{
    if n > 0 {
        let v = run(t, n - 1, import_derived_step(nodes, derived))->Ok_0;
        lemma_imported_records(t, nodes, derived, n - 1, v);
        lemma_derived_nodes(v, nodes[n - 1].id, derived[n - 1]);
    }
}

/// The revisions of a node can be listed.
pub proof fn lemma_own_history(t: Tables, id: NodeId)
    requires
        t.unique_versions(),
    ensures
        lists_revisions(t, id, own_history(t, id)),
{
    let pred = |r: RevisionView| r.node_id == id;
    let key = |r: RevisionView| seq![r.version as u128];
    assert forall|i: int, j: int|
        0 <= i < j < t.revisions.len() && pred(#[trigger] t.revisions[i]) && pred(
            #[trigger] t.revisions[j],
        ) implies key(t.revisions[i]) != key(t.revisions[j]) by {
        assert(key(t.revisions[i])[0] == t.revisions[i].version as u128);
        assert(key(t.revisions[j])[0] == t.revisions[j].version as u128);
    }
    let own = lemma_listing(t.revisions, pred, key, t.revisions.len() as int);
    assert(t.revisions.take(t.revisions.len() as int) =~= t.revisions);
    assert(lists_revisions(t, id, own));
}

proof fn lemma_history_contains(t: Tables, nodes: Seq<Node>, n: int, x: RevisionView)
    requires
        0 <= n <= nodes.len(),
    ensures
        history_of(t, nodes, n).contains(x) <==> exists|i: int|
            0 <= i < n && own_history(t, (#[trigger] nodes[i]).id).contains(x),
    decreases n,
{
    if n > 0 {
        let before = history_of(t, nodes, n - 1);
        let own = own_history(t, nodes[n - 1].id);
        lemma_history_contains(t, nodes, n - 1, x);
        let all = before + own;
        if all.contains(x) {
            let k = choose|k: int| 0 <= k < all.len() && all[k] == x;
            if k < before.len() {
                assert(before[k] == x);
                let i = choose|i: int|
                    0 <= i < n - 1 && own_history(t, (#[trigger] nodes[i]).id).contains(x);
                assert(own_history(t, nodes[i].id).contains(x));
            } else {
                assert(own[k - before.len()] == x);
                assert(own_history(t, nodes[n - 1].id).contains(x));
            }
        }
        if before.contains(x) {
            let k = choose|k: int| 0 <= k < before.len() && before[k] == x;
            assert(all[k] == x);
        }
        if own.contains(x) {
            let k = choose|k: int| 0 <= k < own.len() && own[k] == x;
            assert(all[before.len() + k] == x);
        }
    } else {
        assert(!history_of(t, nodes, n).contains(x));
    }
}

proof fn lemma_same_history(t: Tables, u: Tables, nodes: Seq<Node>, n: int)
    requires
        t.unique_versions(),
        0 <= n <= nodes.len(),
        u.revisions == history_of(t, nodes, nodes.len() as int),
    ensures
        history_of(u, nodes, n) == history_of(t, nodes, n),
    decreases n,
{
    if n > 0 {
        lemma_same_history(t, u, nodes, n - 1);
        let id = nodes[n - 1].id;
        let own = own_history(t, id);
        lemma_own_history(t, id);
        assert forall|x: RevisionView| #[trigger] own.contains(x) <==> u.revisions.contains(x)
            && x.node_id == id by {
            lemma_history_contains(t, nodes, nodes.len() as int, x);
            if own.contains(x) {
                assert(own_history(t, nodes[n - 1].id).contains(x));
            }
            if u.revisions.contains(x) && x.node_id == id {
                let i = choose|i: int|
                    0 <= i < nodes.len() && own_history(t, (#[trigger] nodes[i]).id).contains(x);
                lemma_own_history(t, nodes[i].id);
                assert(x.node_id == nodes[i].id);
            }
        }
        assert(lists_revisions(u, id, own));
        lemma_lists_unique(
            u.revisions,
            |r: RevisionView| r.node_id == id,
            |r: RevisionView| seq![r.version as u128],
            own,
            own_history(u, id),
        );
    }
}

} // verus!
