//! When single requests are admitted, and what they leave alone.

use crate::admission_laws::{lemma_takes_type, takes_type};
use crate::chunk_laws::{lemma_filter_none, lemma_filter_of_filter, lemma_filter_of_sum};
use crate::clone::Cloning;
use crate::model::{
    DerivedNodeRecords, Node, NodeId, ReferenceOrigin, ReferenceView, Refusal, RevisionView,
};
use crate::mutate::MutationOutcome;
use crate::pages::{
    depth_text, filter_request, traversal_request, StructuralPredicate,
};
use crate::record_laws::belongs;
use crate::relations::{count_at, describes_tree, TreeStatistics};
use crate::search::{scope_refusal, SearchRequest, SearchScope};
use crate::shape::lemma_filter_facts;
use crate::tables::{RowView, Tables};
use crate::text::decimal;
use crate::text_laws::law_numerals_stand_for_their_number;
use crate::traverse::TraversalOrder;
use crate::tree::{climb, is_forest, lemma_depth_is, links, lookup, present};
use crate::workspace::initialized;
use vstd::prelude::*;

verus! {

/// References that setting those of a node leaves alone: the ones of other nodes, and the
/// inferred ones.
pub open spec fn is_untouched(id: NodeId) -> spec_fn(RowView) -> bool {
    |r: RowView|
        r.reference.source_node_id != id || (r.reference.origin != ReferenceOrigin::Explicit
            && r.reference.origin != ReferenceOrigin::Markdown && r.reference.origin
            != ReferenceOrigin::Wikilink)
}

/// Setting the explicit references of a node leaves every reference of other nodes, in order,
/// and whatever of its own is neither explicit nor extracted.
pub proof fn law_setting_references_leaves_the_others(
    t: Tables,
    node: Node,
    expected: u64,
    revision: RevisionView,
    derived: DerivedNodeRecords,
    references: Seq<ReferenceView>,
)
    requires
        belongs(derived, node.id),
        t.set_references(node, expected, revision, derived, references) is Ok,
        t.set_references(node, expected, revision, derived, references)->Ok_0.1
            == MutationOutcome::Applied,
    ensures
        t.set_references(
            node,
            expected,
            revision,
            derived,
            references,
        )->Ok_0.0.references.filter(is_untouched(node.id)) == t.references.filter(
            is_untouched(node.id),
        ),
{
    let id = node.id;
    let n = references.len() as int;
    let a = t.update_node(node, expected)->Ok_0;
    let b = a.insert_revision(revision)->Ok_0;
    let v = b.replace_derived(id, derived)->Ok_0;
    assert(t.write(node, expected, revision, derived)->Ok_0 == v);
    assert(b.references == t.references);
    crate::record_laws::law_extracted_references_replace_the_old(b, id, derived);
    let other = crate::record_laws::other_reference(id);
    let untouched = is_untouched(id);
    lemma_filter_of_filter(v.references, untouched, other);
    lemma_filter_of_filter(t.references, untouched, other);
    let keep = |r: RowView|
        !(r.reference.source_node_id == id && r.reference.origin == ReferenceOrigin::Explicit);
    let cleared = v.clear_explicit(id);
    assert(cleared.references == v.references.filter(keep));
    lemma_filter_of_filter(v.references, untouched, keep);
    let added = crate::record_laws::lemma_inserted_rows(cleared, references, n);
    crate::admission_laws::law_explicit_references_are_admitted(t, id, references);
    assert forall|i: int| 0 <= i < added.len() implies !untouched(#[trigger] added[i]) by {
        assert(added[i].reference == references[i]);
        assert(references[i].source_node_id == id);
    }
    lemma_filter_none(added, untouched);
    lemma_filter_of_sum(cleared.references, added, untouched);
    let u = t.set_references(node, expected, revision, derived, references)->Ok_0.0;
    assert(u.references == cleared.references + added);
    assert(u.references.filter(untouched) =~= t.references.filter(untouched));
}

/// A removal is admitted exactly of a node that is there, has a parent, and is of the expected
/// version.
pub proof fn law_removals_are_admitted(t: Tables, id: NodeId, expected: u64)
    ensures
        t.removal_check(id, expected) is None <==> {
            &&& present(t.nodes, id)
            &&& lookup(t.nodes, id)->0.parent_id is Some
            &&& lookup(t.nodes, id)->0.version == expected
        },
        !present(t.nodes, id) ==> t.removal_check(id, expected) == Some(
            Refusal::NotFound(id.text()),
        ),
{
}

/// A replacement of a node that is not there is refused, and so is one under another version.
/// One that changes nothing is taken without effect. What is applied is the next version.
pub proof fn law_replacements_are_admitted(
    t: Tables,
    node: Node,
    expected: u64,
    revision: RevisionView,
    derived: DerivedNodeRecords,
)
    ensures
        !present(t.nodes, node.id) ==> t.replace(node, expected, revision, derived) == Err::<
            (Tables, MutationOutcome),
            Refusal,
        >(Refusal::NotFound(node.id.text())),
        present(t.nodes, node.id) && lookup(t.nodes, node.id)->0.version != expected ==> t.replace(
            node,
            expected,
            revision,
            derived,
        ) is Err,
        present(t.nodes, node.id) && lookup(t.nodes, node.id)->0.version == expected && lookup(
            t.nodes,
            node.id,
        )->0.revision_hash == node.revision_hash ==> t.replace(node, expected, revision, derived)
            == Ok::<(Tables, MutationOutcome), Refusal>((t, MutationOutcome::NoOp)),
        t.replace(node, expected, revision, derived) matches Ok((u, MutationOutcome::Applied)) ==> {
            &&& lookup(t.nodes, node.id)->0.revision_hash != node.revision_hash
            &&& node.version == lookup(t.nodes, node.id)->0.version + 1
            &&& revision.version == node.version
            &&& revision.node_id == node.id
            &&& t.revision < u64::MAX ==> u.revision == t.revision + 1
        },
{
    if t.replace(node, expected, revision, derived) is Ok && t.replace(
        node,
        expected,
        revision,
        derived,
    )->Ok_0.1 == MutationOutcome::Applied {
        let v = t.update_node(node, expected)->Ok_0;
        let w = v.insert_revision(revision)->Ok_0;
        crate::reorder::lemma_derived_nodes(w, node.id, derived);
    }
}

/// A clone is admitted exactly when the source is there under the expected version, the
/// destination is there and takes its type, the subtree is not too large, and there are
/// identities for all of it.
pub proof fn law_clones_are_admitted(c: Cloning, nodes: Seq<Node>)
    ensures
        c.refusal(nodes) is None <==> {
            &&& present(nodes, c.request.source_id)
            &&& lookup(nodes, c.request.source_id)->0.version == c.request.expected_version
            &&& present(nodes, c.request.destination_parent_id)
            &&& takes_type(
                lookup(nodes, c.request.destination_parent_id)->0,
                lookup(nodes, c.request.source_id)->0,
            )
            &&& c.rows.len() <= 100
            &&& c.fresh.len() >= c.rows.len()
        },
{
    if present(nodes, c.request.source_id) && present(nodes, c.request.destination_parent_id) {
        lemma_takes_type(
            lookup(nodes, c.request.destination_parent_id)->0,
            lookup(nodes, c.request.source_id)->0,
        );
    }
}

/// Nodes at a number of links below a root.
pub open spec fn is_at_depth(nodes: Seq<Node>, root: NodeId, d: nat) -> spec_fn(Node) -> bool {
    |n: Node| climb(links(nodes), n.id, d) == Some(root)
}

proof fn lemma_count_at(nodes: Seq<Node>, root: NodeId, d: nat)
    requires
        is_forest(nodes),
    ensures
        count_at(nodes, root, d) == nodes.filter(is_at_depth(nodes, root, d)).len(),
{
    let up = links(nodes);
    let n = nodes.len() as int;
    let counted = |x: Node|
        crate::tree::below(links(nodes), root, x.id) && crate::tree::depth_below(
            links(nodes),
            root,
            x.id,
        ) == d;
    assert forall|x: Node| #[trigger] counted(x) <==> is_at_depth(nodes, root, d)(x) by {
        if crate::tree::below(up, root, x.id) {
            let k = choose|k: nat| #[trigger] climb(up, x.id, k) == Some(root);
            assert(crate::tree::ends(up, x.id));
            lemma_depth_is(up, root, x.id, k);
            if climb(up, x.id, d) == Some(root) {
                lemma_depth_is(up, root, x.id, d);
            }
        }
        if climb(up, x.id, d) == Some(root) {
            assert(crate::tree::below(up, root, x.id));
        }
    }
    crate::record_laws::lemma_count_is_filter(
        nodes,
        counted,
        is_at_depth(nodes, root, d),
        n,
    );
    assert(nodes.take(n) =~= nodes);
}

/// The greatest depth and the greatest width that statistics give are those of some level, and
/// no level goes beyond them.
pub proof fn law_statistics_bound_the_levels(
    nodes: Seq<Node>,
    id: NodeId,
    stats: TreeStatistics,
    d: nat,
)
    requires
        is_forest(nodes),
        describes_tree(nodes, id, stats),
    ensures
        nodes.filter(is_at_depth(nodes, id, d)).len() <= stats.max_width,
        d > stats.max_relative_depth ==> nodes.filter(is_at_depth(nodes, id, d)).len() == 0,
        nodes.filter(is_at_depth(nodes, id, stats.max_relative_depth as nat)).len() > 0,
        exists|e: nat|
            nodes.filter(#[trigger] is_at_depth(nodes, id, e)).len() == stats.max_width,
{
    let up = links(nodes);
    lemma_count_at(nodes, id, d);
    assert(count_at(nodes, id, d) <= stats.max_width);
    let e = choose|e: nat| #[trigger] count_at(nodes, id, e) == stats.max_width;
    lemma_count_at(nodes, id, e);
    assert(nodes.filter(is_at_depth(nodes, id, e)).len() == stats.max_width);
    lemma_filter_facts(nodes, is_at_depth(nodes, id, d));
    let kept = nodes.filter(is_at_depth(nodes, id, d));
    if d > stats.max_relative_depth && kept.len() > 0 {
        assert(kept.contains(kept[0]));
        assert(is_at_depth(nodes, id, d)(kept[0]));
        let k = choose|k: int| 0 <= k < nodes.len() && nodes[k] == kept[0];
        assert(crate::tree::below(up, id, nodes[k].id));
        lemma_depth_is(up, id, nodes[k].id, d);
    }
    let m = stats.max_relative_depth as nat;
    let i = choose|i: int|
        0 <= i < nodes.len() && crate::tree::below(up, id, (#[trigger] nodes[i]).id)
            && crate::tree::depth_below(up, id, nodes[i].id) == stats.max_relative_depth;
    assert(climb(up, nodes[i].id, m) == Some(id));
    lemma_filter_facts(nodes, is_at_depth(nodes, id, m));
    assert(nodes.contains(nodes[i]));
    assert(is_at_depth(nodes, id, m)(nodes[i]));
    assert(nodes.filter(is_at_depth(nodes, id, m)).contains(nodes[i]));
}

proof fn lemma_decimals_apart(a: nat, b: nat)
    requires
        decimal(a) == decimal(b),
    ensures
        a == b,
{
    law_numerals_stand_for_their_number(a);
    law_numerals_stand_for_their_number(b);
}

proof fn lemma_depths_apart(a: Option<u32>, b: Option<u32>)
    requires
        depth_text(a) == depth_text(b),
    ensures
        a == b,
{
    reveal_strlit(";max_depth=");
    let mark = ";max_depth="@;
    match (a, b) {
        (Some(x), Some(y)) => {
            let p = decimal(x as nat);
            let q = decimal(y as nat);
            assert(mark + p == mark + q);
            assert((mark + p).skip(mark.len() as int) =~= p);
            assert((mark + q).skip(mark.len() as int) =~= q);
            lemma_decimals_apart(x as nat, y as nat);
        },
        (Some(x), None) => {
            assert(depth_text(a).len() > 0);
        },
        (None, Some(y)) => {
            assert(depth_text(b).len() > 0);
        },
        (None, None) => {},
    }
}

proof fn lemma_tails_apart(head: Seq<char>, a: Seq<char>, b: Seq<char>)
    requires
        head + a == head + b,
    ensures
        a == b,
{
    assert((head + a).skip(head.len() as int) =~= a);
    assert((head + b).skip(head.len() as int) =~= b);
}

/// Requests for traversals in another order or to another depth have other keys, so that a
/// cursor of one does not continue the other.
pub proof fn law_traversals_are_told_apart(
    a: TraversalOrder,
    b: TraversalOrder,
    d: Option<u32>,
    e: Option<u32>,
)
    requires
        traversal_request(a, d) == traversal_request(b, e),
    ensures
        a == b,
        d == e,
{
    reveal_strlit("canonical_");
    reveal_strlit("dfs");
    reveal_strlit("bfs");
    reveal_strlit("_order");
    let x = traversal_request(a, d);
    let y = traversal_request(b, e);
    let p = crate::pages::order_text(a);
    let q = crate::pages::order_text(b);
    assert(x[10] == p[0] && y[10] == q[0]);
    assert("dfs"@[0] == 'd' && "bfs"@[0] == 'b');
    assert(a == b);
    let head = "canonical_"@ + p + "_order"@;
    assert(x == head + depth_text(d));
    assert(y == head + depth_text(e));
    lemma_tails_apart(head, depth_text(d), depth_text(e));
    lemma_depths_apart(d, e);
}

/// Requests for filtered subtrees with another predicate or to another depth have other keys.
pub proof fn law_filters_are_told_apart(
    a: StructuralPredicate,
    b: StructuralPredicate,
    d: Option<u32>,
    e: Option<u32>,
)
    requires
        filter_request(a, d) == filter_request(b, e),
    ensures
        a == b,
        d == e,
{
    reveal_strlit("canonical_dfs_order;predicate=");
    reveal_strlit("leaf");
    reveal_strlit("internal");
    let start = "canonical_dfs_order;predicate="@;
    let x = filter_request(a, d);
    let y = filter_request(b, e);
    let p = crate::pages::predicate_text(a);
    let q = crate::pages::predicate_text(b);
    let n = start.len() as int;
    assert(x[n] == p[0] && y[n] == q[0]);
    assert("leaf"@[0] == 'l' && "internal"@[0] == 'i');
    assert(a == b);
    lemma_tails_apart(start + p, depth_text(d), depth_text(e));
    lemma_depths_apart(d, e);
}

/// A search of the whole workspace needs no node; every other scope does, and that of siblings
/// needs one that is there. Depths are not counted along references.
pub proof fn law_searches_are_admitted(request: SearchRequest, nodes: Seq<Node>)
    ensures
        scope_refusal(nodes, request.scope, request.scope_node) is None <==> (request.scope
            == SearchScope::Workspace || (request.scope_node is Some && (request.scope
            == SearchScope::Siblings ==> present(nodes, request.scope_node->0)))),
        request.refusal(nodes) is None ==> scope_refusal(
            nodes,
            request.scope,
            request.scope_node,
        ) is None,
        request.scope == SearchScope::Linked && (request.filters.min_depth is Some
            || request.filters.max_depth is Some) ==> request.refusal(nodes) is Some,
        scope_refusal(nodes, request.scope, request.scope_node) is None
            && request.filters.min_depth is None && request.filters.max_depth is None
            ==> request.refusal(nodes) is None,
{
}

/// A new workspace holds one node, its root, and one revision, the root's.
pub proof fn law_new_workspaces_hold_their_root(root: Node, derived: DerivedNodeRecords)
    requires
        initialized(root, derived) is Ok,
    ensures
        ({
            let t = initialized(root, derived)->Ok_0;
            &&& t.nodes == seq![root]
            &&& t.revisions.len() == 1
            &&& t.revisions[0].node_id == root.id
            &&& t.revisions[0].version == root.version
            &&& t.revisions[0].markdown_content == root.markdown_content@
            &&& t.revisions[0].metadata == *root.metadata
            &&& t.revisions[0].created_at == root.created_at
            &&& t.receipts.len() == 0
        }),
{
    let empty = crate::workspace::empty_tables();
    let a = empty.insert_node(root)->Ok_0;
    let b = a.insert_revision(crate::workspace::root_revision(root))->Ok_0;
    let t = initialized(root, derived)->Ok_0;
    crate::reorder::lemma_derived_nodes(b, root.id, derived);
    assert(t.nodes =~= seq![root]);
}

} // verus!
