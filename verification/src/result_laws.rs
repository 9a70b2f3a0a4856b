//! What single reads answer.

use crate::destinations::{locates, LocateAction, LocateResult, LocateStatus};
use crate::history::reads_history;
use crate::model::{Node, NodeId, RevisionView, StoreError, TargetView};
use crate::pages::{lists_fitting, serves_filtered, NodeDepthProjection, RevisionSummary, StructuralPredicate};
use crate::paging::{page_items, Page, PageCursor, PageLimit, PageReadError};
use crate::query::QueryView;
use crate::reads::{lists_children, lists_revisions};
use crate::relations::{
    are_adjacent, counts_children, is_child_at, is_lca, law_lowest_common_ancestor_is_unique,
    measures, related, AdjacentSiblings, IndexedChild, NodeChildCount, TreeDistance,
};
use crate::search::SearchMatch;
use crate::shape::lemma_filter_facts;
use crate::tables::{RowView, Tables};
use crate::traverse::{nodes_of, Extent, Placed, TraversalOrder};
use crate::tree::{
    below, climb, depth_below, is_forest, lemma_depth_is, lemma_position, links, lookup, position,
    present,
};
use crate::web_search::{is_plan, SearchMode, SearchPlan};
use crate::workspace::{describes_workspace, WorkspaceStatus};
use vstd::prelude::*;

verus! {

/// A page of a history holds revisions of the node alone, the newer before the older.
pub proof fn law_histories_begin_with_the_newest(
    t: Tables,
    id: NodeId,
    limit: PageLimit,
    cursor: Option<&PageCursor>,
    result: Result<Page<RevisionSummary>, PageReadError>,
    i: int,
    j: int,
)
    requires
        reads_history(t, id, limit, cursor, result),
        result is Ok,
        limit.size() >= 0,
        0 <= i < j < result->Ok_0.items@.len(),
    ensures
        ({
            let items = result->Ok_0.items@;
            &&& items[i].version > items[j].version
            &&& items[i].node_id == id
            &&& exists|k: int|
                0 <= k < t.revisions.len() && (#[trigger] t.revisions[k]).node_id == id
                    && t.revisions[k].version == items[i].version && t.revisions[k].content_hash
                    == items[i].content_hash && t.revisions[k].created_at == items[i].created_at
        }),
{
    let items = result->Ok_0.items@;
    let start = crate::integrity::offset_start(
        cursor,
        crate::history::history_scope(id),
        t.revision,
    )->Ok_0;
    let oldest = choose|oldest_first: Seq<RevisionView>|
        {
            &&& #[trigger] lists_revisions(t, id, oldest_first)
            &&& crate::history::serves_history(
                t,
                id,
                oldest_first.reverse(),
                start as int,
                limit,
                result,
            )
        };
    let newest = oldest.reverse();
    let page = page_items(newest, start as int, limit.size());
    assert(crate::pages::summarizes(items[i], page[i]));
    assert(crate::pages::summarizes(items[j], page[j]));
    let n = oldest.len() as int;
    assert(page[i] == newest[start + i] && page[j] == newest[start + j]);
    assert(newest[start + i] == oldest[n - 1 - (start + i)]);
    assert(newest[start + j] == oldest[n - 1 - (start + j)]);
    crate::lookup_laws::law_histories_are_listed_by_version(
        t,
        id,
        oldest,
        n - 1 - (start + j),
        n - 1 - (start + i),
    );
    let x = oldest[n - 1 - (start + i)];
    assert(oldest.contains(x));
    let pred = |r: RevisionView| r.node_id == id;
    assert(t.revisions.contains(x) && pred(x));
    let k = choose|k: int| 0 <= k < t.revisions.len() && t.revisions[k] == x;
    assert(t.revisions[k].node_id == id);
}

/// Whether one node stands before another in sibling order.
pub open spec fn stands_ahead(a: Node, b: Node) -> bool {
    a.sibling_order < b.sibling_order || (a.sibling_order == b.sibling_order && a.id.value
        < b.id.value)
}

/// The previous sibling stands before the node and the next one behind it; no sibling stands
/// between them and the node. There is none exactly where no sibling stands on that side.
pub proof fn law_adjacent_siblings_touch_the_node(
    t: Tables,
    id: NodeId,
    result: Result<AdjacentSiblings, StoreError>,
    k: int,
)
    requires
        is_forest(t.nodes),
        present(t.nodes, id),
        lookup(t.nodes, id)->0.parent_id is Some,
        are_adjacent(t, id, result),
        0 <= k < t.nodes.len(),
        t.nodes[k].parent_id == lookup(t.nodes, id)->0.parent_id,
        t.nodes[k].id != id,
    ensures
        result matches Ok(found) && {
            let node = lookup(t.nodes, id)->0;
            let other = t.nodes[k];
            &&& found.node_id == id
            &&& found.previous matches Some(p) ==> p.parent_id == node.parent_id && stands_ahead(
                p,
                node,
            ) && (other == p || stands_ahead(other, p) || stands_ahead(node, other))
            &&& found.next matches Some(x) ==> x.parent_id == node.parent_id && stands_ahead(node, x)
                && (other == x || stands_ahead(x, other) || stands_ahead(other, node))
            &&& found.previous is None ==> stands_ahead(node, other)
            &&& found.next is None ==> stands_ahead(other, node)
        },
{
    let node = lookup(t.nodes, id)->0;
    let parent = node.parent_id->0;
    let q = position(t.nodes, id);
    assert(t.nodes[q].id == id);
    let (all, i) = choose|all: Seq<Node>, i: int|
        {
            &&& #[trigger] lists_children(t.nodes, parent, all)
            &&& 0 <= i < all.len()
            &&& #[trigger] all[i] == node
            &&& result->Ok_0 == (AdjacentSiblings {
                node_id: id,
                previous: if i > 0 {
                    Some(all[i - 1])
                } else {
                    None
                },
                next: if i + 1 < all.len() {
                    Some(all[i + 1])
                } else {
                    None
                },
            })
        };
    let other = t.nodes[k];
    assert(t.nodes.contains(other));
    crate::search_laws::lemma_listed_child(t.nodes, parent, all, other);
    let j = choose|j: int| 0 <= j < all.len() && all[j] == other;
    lemma_listed_ahead(t.nodes, parent, all, i, j);
    if i > 0 {
        lemma_listed_ahead(t.nodes, parent, all, i - 1, i);
        lemma_listed_ahead(t.nodes, parent, all, i - 1, j);
    }
    if i + 1 < all.len() {
        lemma_listed_ahead(t.nodes, parent, all, i, i + 1);
        lemma_listed_ahead(t.nodes, parent, all, i + 1, j);
    }
}

proof fn lemma_listed_ahead(nodes: Seq<Node>, parent: NodeId, all: Seq<Node>, i: int, j: int)
    requires
        lists_children(nodes, parent, all),
        0 <= i < all.len(),
        0 <= j < all.len(),
    ensures
        i < j ==> stands_ahead(all[i], all[j]),
        j < i ==> stands_ahead(all[j], all[i]),
        all[i].parent_id == Some(parent),
        all[j].parent_id == Some(parent),
{
    if i < j {
        crate::lookup_laws::law_children_are_listed_in_order(nodes, parent, all, i, j);
    }
    if j < i {
        crate::lookup_laws::law_children_are_listed_in_order(nodes, parent, all, j, i);
    }
    assert(all.contains(all[i]) && all.contains(all[j]));
    crate::search_laws::lemma_listed_child(nodes, parent, all, all[i]);
    crate::search_laws::lemma_listed_child(nodes, parent, all, all[j]);
}

/// Whether a node of the page is a stored one below the root that has children exactly where
/// the predicate asks for it.
pub open spec fn is_fitting(
    nodes: Seq<Node>,
    root: NodeId,
    predicate: StructuralPredicate,
    max_depth: Option<u32>,
    row: Placed,
) -> bool {
    &&& nodes.contains(row.node)
    &&& climb(links(nodes), row.node.id, row.depth as nat) == Some(root)
    &&& max_depth matches Some(m) ==> row.depth <= m
    &&& match predicate {
        StructuralPredicate::Leaf => forall|k: int|
            0 <= k < nodes.len() ==> (#[trigger] nodes[k]).parent_id != Some(row.node.id),
        StructuralPredicate::Internal => exists|k: int|
            0 <= k < nodes.len() && (#[trigger] nodes[k]).parent_id == Some(row.node.id),
    }
}

/// Every node of a filtered page lies below the root within the depth, and has no children where
/// leaves are asked for, and children where inner nodes are.
pub proof fn law_filtered_pages_hold_fitting_nodes(
    t: Tables,
    id: NodeId,
    predicate: StructuralPredicate,
    max_depth: Option<u32>,
    limit: PageLimit,
    cursor: Option<&PageCursor>,
    result: Result<Page<NodeDepthProjection>, PageReadError>,
    i: int,
)
    requires
        is_forest(t.nodes),
        limit.size() >= 0,
        serves_filtered(t, id, predicate, max_depth, limit, cursor, result),
        result is Ok,
        0 <= i < result->Ok_0.items@.len(),
    ensures
        is_fitting(t.nodes, id, predicate, max_depth, result->Ok_0.items@[i]),
{
    let nodes = t.nodes;
    let items = result->Ok_0.items@;
    let scope = crate::paging::ScopeView {
        operation: "filter_nodes"@,
        node_id: Some(id),
        request_key: crate::pages::filter_request(predicate, max_depth),
    };
    let after = crate::pages::resume_point(cursor, scope, t.revision)->Ok_0;
    let all = choose|all: Seq<Placed>|
        {
            &&& #[trigger] lists_fitting(nodes, id, predicate, max_depth, all)
            &&& crate::pages::is_page(
                result,
                all,
                crate::pages::traversal_start(TraversalOrder::Dfs, all, after),
                limit.size(),
                t.revision,
                scope,
                |p: Placed| crate::pages::traversal_position(TraversalOrder::Dfs, p),
            )
        };
    let start = crate::pages::traversal_start(TraversalOrder::Dfs, all, after)->0;
    lemma_start(all, after);
    assert(items[i] == all[start + i]);
    let extent = Extent { root: id, include_root: true, max_depth, order: TraversalOrder::Dfs };
    let walked = choose|walked: Seq<Placed>|
        {
            &&& #[trigger] (Extent {
                root: id,
                include_root: true,
                max_depth,
                order: TraversalOrder::Dfs,
            }).walks(nodes, walked)
            &&& crate::pages::same_rows(
                walked.filter(|p: Placed| crate::pages::fits(nodes, predicate, p.node)),
                all,
            )
        };
    let keep = |p: Placed| crate::pages::fits(nodes, predicate, p.node);
    let kept = walked.filter(keep);
    lemma_filter_facts(walked, keep);
    let row = kept[start + i];
    assert(row.node == all[start + i].node && row.depth == all[start + i].depth);
    assert(keep(row));
    assert(kept.contains(row));
    assert(walked.contains(row));
    let w = choose|w: int| 0 <= w < walked.len() && walked[w] == row;
    let listed = nodes_of(walked);
    assert(listed[w] == row.node);
    assert(listed.contains(row.node));
    assert(nodes.contains(row.node) && extent.covers(nodes, row.node));
    let d = choose|d: nat| #[trigger] climb(links(nodes), row.node.id, d) == Some(id);
    lemma_depth_is(links(nodes), id, row.node.id, d);
    assert(walked[w].depth == d);
    crate::report_laws::lemma_childless(nodes, row.node.id);
    if predicate == StructuralPredicate::Internal {
        assert(exists|k: int|
            0 <= k < nodes.len() && (#[trigger] nodes[k]).parent_id == Some(row.node.id));
    }
}

proof fn lemma_start(all: Seq<Placed>, after: Option<crate::paging::PositionView>)
    ensures
        crate::pages::traversal_start(TraversalOrder::Dfs, all, after) matches Some(s) ==> s >= 0,
{
    if let Some(crate::paging::PositionView::Traversal { ordering_path, node_id }) = after {
        crate::commands::lemma_first_from(
            all,
            |p: Placed|
                crate::pages::placed_after(TraversalOrder::Dfs, 0, ordering_path, p),
            0,
        );
    }
}

/// The distance between two nodes is the same in both directions, over the same lowest common
/// ancestor; it is zero from a node to itself alone, and one between a node and its parent.
pub proof fn law_distances_are_symmetric(
    t: Tables,
    a: NodeId,
    b: NodeId,
    there: Result<TreeDistance, StoreError>,
    back: Result<TreeDistance, StoreError>,
)
    requires
        is_forest(t.nodes),
        measures(t, a, b, there),
        measures(t, b, a, back),
    ensures
        there is Ok <==> back is Ok,
        there is Ok ==> {
            &&& there->Ok_0.from_id == a && there->Ok_0.to_id == b
            &&& there->Ok_0.distance == back->Ok_0.distance
            &&& there->Ok_0.lowest_common_ancestor_id == back->Ok_0.lowest_common_ancestor_id
            &&& there->Ok_0.distance == 0 <==> a == b
            &&& lookup(t.nodes, a)->0.parent_id == Some(b) ==> there->Ok_0.distance == 1
                && there->Ok_0.lowest_common_ancestor_id == b
        },
{
    let up = links(t.nodes);
    if related(t.nodes, a, b) {
        let x = choose|x: NodeId| #[trigger] below(up, x, a) && below(up, x, b);
        assert(below(up, x, b) && below(up, x, a));
        assert(related(t.nodes, b, a));
    }
    if related(t.nodes, b, a) {
        let x = choose|x: NodeId| #[trigger] below(up, x, b) && below(up, x, a);
        assert(below(up, x, a) && below(up, x, b));
        assert(related(t.nodes, a, b));
    }
    if related(t.nodes, a, b) {
        let l = choose|l: NodeId|
            {
                let sum = depth_below(up, l, a) + depth_below(up, l, b);
                &&& #[trigger] is_lca(links(t.nodes), a, b, l)
                &&& if sum > usize::MAX {
                    there is Err && there->Err_0@ == crate::model::Refusal::InvalidData(
                        "tree distance overflow"@,
                    )
                } else {
                    there == Ok::<TreeDistance, StoreError>(
                        TreeDistance {
                            from_id: a,
                            to_id: b,
                            lowest_common_ancestor_id: l,
                            distance: sum as usize,
                        },
                    )
                }
            };
        let m = choose|m: NodeId|
            {
                let sum = depth_below(up, m, b) + depth_below(up, m, a);
                &&& #[trigger] is_lca(links(t.nodes), b, a, m)
                &&& if sum > usize::MAX {
                    back is Err && back->Err_0@ == crate::model::Refusal::InvalidData(
                        "tree distance overflow"@,
                    )
                } else {
                    back == Ok::<TreeDistance, StoreError>(
                        TreeDistance {
                            from_id: b,
                            to_id: a,
                            lowest_common_ancestor_id: m,
                            distance: sum as usize,
                        },
                    )
                }
            };
        assert(is_lca(up, a, b, m));
        law_lowest_common_ancestor_is_unique(up, a, b, l, m);
        let i = choose|i: nat| #[trigger] climb(up, a, i) == Some(l);
        let j = choose|j: nat| #[trigger] climb(up, b, j) == Some(l);
        lemma_depth_is(up, l, a, i);
        lemma_depth_is(up, l, b, j);
        if a == b {
            crate::tree::lemma_below_self(up, a);
            assert(below(up, a, l));
            let k = choose|k: nat| #[trigger] climb(up, l, k) == Some(a);
            crate::tree::lemma_climb_add(up, a, i, k);
            assert(climb(up, a, i + k) == Some(a));
            if i + k > 0 {
                crate::tree::lemma_no_return(up, a, i + k);
            }
        }
        if i == 0 && j == 0 {
            assert(climb(up, a, 0) == Some(a) && climb(up, b, 0) == Some(b));
        }
        if lookup(t.nodes, a)->0.parent_id == Some(b) {
            let q = position(t.nodes, a);
            assert(t.nodes[q].id == a);
            lemma_position(t.nodes, q);
            assert(up.contains_key(a) && up[a] == b);
            crate::tree::lemma_below_self(up, b);
            crate::tree::lemma_below_parent(up, b, a);
            assert(below(up, b, l));
            let k = choose|k: nat| #[trigger] climb(up, l, k) == Some(b);
            crate::tree::lemma_climb_add(up, b, j, k);
            assert(climb(up, b, j + k) == Some(b));
            if j + k > 0 {
                crate::tree::lemma_no_return(up, b, j + k);
            }
            assert(climb(up, b, 0) == Some(b));
            assert(l == b);
            crate::tree::lemma_climb_shift(up, a, 0);
            lemma_depth_is(up, b, a, 1);
        }
    }
}

/// References that lead to no node.
pub open spec fn leads_nowhere() -> spec_fn(RowView) -> bool {
    |r: RowView|
        match r.reference.target {
            TargetView::Resolved { .. } => false,
            TargetView::Unresolved { .. } => true,
        }
}

/// The status of a workspace names a node without a parent, counts the rows of each table, and
/// counts as unresolved the references that lead to no node.
pub proof fn law_the_status_counts_the_workspace(
    t: Tables,
    format_version: u32,
    schema_version: u32,
    search_index_present: bool,
    result: Result<WorkspaceStatus, StoreError>,
)
    requires
        t.nodes.len() <= u64::MAX,
        t.sections.len() <= u64::MAX,
        t.references.len() <= u64::MAX,
        describes_workspace(t, format_version, schema_version, search_index_present, result),
    ensures
        result is Err <==> forall|k: int|
            0 <= k < t.nodes.len() ==> (#[trigger] t.nodes[k]).parent_id is Some,
        result matches Ok(status) ==> {
            &&& exists|k: int|
                0 <= k < t.nodes.len() && (#[trigger] t.nodes[k]).parent_id is None && t.nodes[k].id
                    == status.root_id
            &&& status.node_count == t.nodes.len()
            &&& status.section_count == t.sections.len()
            &&& status.reference_count == t.references.len()
            &&& status.unresolved_reference_count == t.references.filter(leads_nowhere()).len()
            &&& status.format_version == format_version
            &&& status.schema_version == schema_version
            &&& status.search_index_present == search_index_present
        },
{
    let pred = |n: Node| n.parent_id is None;
    crate::clone_laws::lemma_found_from(t.nodes, pred, 0);
    crate::commands::lemma_first_from(t.nodes, pred, 0);
    match crate::reads::root_of(t.nodes) {
        Some(root) => {
            let f = crate::reads::first_from(t.nodes, pred, 0)->0;
            assert(t.nodes[f].parent_id is None);
        },
        None => {
            assert forall|k: int| 0 <= k < t.nodes.len() implies (
            #[trigger] t.nodes[k]).parent_id is Some by {
                assert(!pred(t.nodes[k]));
            }
        },
    }
    let n = t.references.len() as int;
    let counted = |r: RowView| r.reference.target is Unresolved;
    crate::record_laws::lemma_count_is_filter(t.references, counted, leads_nowhere(), n);
    assert(t.references.take(n) =~= t.references);
    lemma_filter_facts(t.references, leads_nowhere());
}

/// Without a candidate nothing is located. With candidates the first one decides: a child is
/// created where it accepts one, else the node is appended to. The result is ambiguous exactly
/// where there is a second candidate that nearly ties.
pub proof fn law_the_first_candidate_decides(
    query: Seq<char>,
    accepts: Seq<Option<bool>>,
    near_tie: bool,
    result: LocateResult,
)
    requires
        locates(query, accepts, near_tie, result),
    ensures
        result.status == LocateStatus::NotFound <==> accepts.len() == 0,
        result.action is None <==> accepts.len() == 0,
        result.status == LocateStatus::Ambiguous <==> accepts.len() >= 2 && near_tie,
        result.ambiguity is Some <==> result.status == LocateStatus::Ambiguous,
        accepts.len() > 0 ==> (result.action == Some(LocateAction::CreateChild) <==> accepts[0]
            == Some(true)),
        accepts.len() == 0 ==> result.suggested_title is None,
{
}

/// A query that asks nothing plans nothing. A fallback is for hybrid searches alone. A search by
/// meaning looks for the text part of the query, or else for the unqualified part.
pub proof fn law_plans_follow_the_mode(
    query: QueryView,
    mode: SearchMode,
    hybrid_fallback: bool,
    plan: SearchPlan,
)
    requires
        is_plan(query, mode, hybrid_fallback, plan),
    ensures
        query.workspace is None && query.slug is None && query.text is None && query.default is None
            ==> plan is Empty,
        plan is FallbackWithoutHybrid ==> hybrid_fallback && mode != SearchMode::Hybrid,
        plan is Lexical ==> mode == SearchMode::Lexical,
        plan matches SearchPlan::Semantic(text) ==> {
            &&& mode != SearchMode::Lexical
            &&& query.text is Some ==> text@ == query.text->0
            &&& query.text is None ==> query.default == Some(text@)
        },
        !hybrid_fallback && mode == SearchMode::Lexical && (query.slug is Some || query.text is Some
            || query.default is Some || query.workspace is Some) ==> plan is Lexical,
        mode == SearchMode::Hybrid && query.text is Some && crate::query::trimmed(
            query.text->0,
        ).len() > 0 ==> plan is Semantic,
{
    if plan is Semantic && query.text is None && query.default is None {
        let empty = Seq::<char>::empty();
        crate::text_laws::law_trimming_takes_white_space(empty);
        assert(crate::query::trimmed(empty).len() == 0);
    }
}

/// Children are found at the indices from zero on: each child at one, in sibling order, and none
/// behind the last.
pub proof fn law_children_are_found_by_index(
    t: Tables,
    parent: NodeId,
    i: u32,
    j: u32,
    first: Result<IndexedChild, StoreError>,
    second: Result<IndexedChild, StoreError>,
)
    requires
        present(t.nodes, parent),
        is_child_at(t, parent, i, first),
        is_child_at(t, parent, j, second),
        i < j,
    ensures
        first is Ok && second is Ok,
        second->Ok_0.node is Some ==> first->Ok_0.node is Some && stands_ahead(
            first->Ok_0.node->0,
            second->Ok_0.node->0,
        ),
        first->Ok_0.node matches Some(n) ==> n.parent_id == Some(parent) && t.nodes.contains(n),
        i == 0 && first->Ok_0.node is None ==> forall|k: int|
            0 <= k < t.nodes.len() ==> (#[trigger] t.nodes[k]).parent_id != Some(parent),
        i == 0 && first->Ok_0.node is Some ==> forall|k: int|
            0 <= k < t.nodes.len() && (#[trigger] t.nodes[k]).parent_id == Some(parent)
                ==> t.nodes[k] == first->Ok_0.node->0 || stands_ahead(
                first->Ok_0.node->0,
                t.nodes[k],
            ),
{
    let a = choose|all: Seq<Node>|
        {
            &&& #[trigger] lists_children(t.nodes, parent, all)
            &&& first->Ok_0 == (IndexedChild {
                parent_id: parent,
                index: i,
                node: if i < all.len() {
                    Some(all[i as int])
                } else {
                    None
                },
            })
        };
    let b = choose|all: Seq<Node>|
        {
            &&& #[trigger] lists_children(t.nodes, parent, all)
            &&& second->Ok_0 == (IndexedChild {
                parent_id: parent,
                index: j,
                node: if j < all.len() {
                    Some(all[j as int])
                } else {
                    None
                },
            })
        };
    crate::fts::lemma_children_of(t.nodes, parent, a);
    crate::fts::lemma_children_of(t.nodes, parent, b);
    assert(a == b);
    if j < a.len() {
        lemma_listed_ahead(t.nodes, parent, a, i as int, j as int);
    }
    if i < a.len() {
        assert(a.contains(a[i as int]));
        crate::search_laws::lemma_listed_child(t.nodes, parent, a, a[i as int]);
    }
    if i == 0 {
        assert forall|k: int| 0 <= k < t.nodes.len() && (#[trigger] t.nodes[k]).parent_id == Some(
            parent,
        ) implies a.len() > 0 && (t.nodes[k] == a[0] || stands_ahead(a[0], t.nodes[k])) by {
            assert(t.nodes.contains(t.nodes[k]));
            crate::search_laws::lemma_listed_child(t.nodes, parent, a, t.nodes[k]);
            let m = choose|m: int| 0 <= m < a.len() && a[m] == t.nodes[k];
            lemma_listed_ahead(t.nodes, parent, a, 0, m);
        }
    }
}

/// Children are counted for each of the nodes asked for, in their order.
pub proof fn law_children_are_counted(
    t: Tables,
    ids: Seq<NodeId>,
    result: Result<Vec<NodeChildCount>, StoreError>,
    i: int,
)
    requires
        t.nodes.len() <= u32::MAX,
        counts_children(t, ids, result),
        0 <= i < ids.len(),
    ensures
        result is Ok,
        result->Ok_0@.len() == ids.len(),
        result->Ok_0@[i].node_id == ids[i],
        result->Ok_0@[i].child_count == crate::clone_laws::child_total(t.nodes, ids[i]),
{
    let n = t.nodes.len() as int;
    assert(t.nodes.take(n) =~= t.nodes);
    assert forall|k: int| 0 <= k < ids.len() implies crate::reorder::child_count(
        t.nodes,
        #[trigger] ids[k],
        n,
    ) <= u32::MAX by {
        crate::clone_laws::lemma_child_count(t.nodes, ids[k], n);
        lemma_filter_facts(t.nodes, crate::clone_laws::is_child_of(ids[k]));
    }
    crate::clone_laws::lemma_child_count(t.nodes, ids[i], n);
    assert(result->Ok_0@[i].node_id == ids[i]);
}

/// A match presents its node: identity, title, summary, type and the number of its children.
pub proof fn law_matches_present_their_node(nodes: Seq<Node>, node: Node, item: SearchMatch)
    requires
        crate::search::presents(nodes, node, item),
    ensures
        item.node_id == node.id,
        item.title@ == node.metadata.title@,
        crate::text::text_of(item.summary) == crate::text::text_of(node.metadata.summary),
        crate::text::text_of(item.node_type) == crate::text::text_of(node.metadata.node_type),
        item.child_count == crate::clone_laws::child_total(nodes, node.id),
{
    let n = nodes.len() as int;
    assert(nodes.take(n) =~= nodes);
    crate::clone_laws::lemma_child_count(nodes, node.id, n);
}

} // verus!
