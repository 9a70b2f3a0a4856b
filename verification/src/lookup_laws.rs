//! What reads give back: selectors, children, ancestors, walks and histories.

use crate::clone_laws::lemma_found_from;
use crate::listing::{increasing, lists};
use crate::model::{Node, NodeId, Refusal, RevisionView};
use crate::order::lex_lt;
use crate::reads::{
    above, child_named, descend, first_from, is_breadcrumb, is_child_named, is_slug_path, level,
    lists_children, lists_revisions, max_order, next_order, resolved, resolved_slug, root_of,
    NodeSelector,
};
use crate::relations::projected;
use crate::tables::{distinct_slugs, Tables};
use crate::traverse::{nodes_of, Extent, Placed, TraversalOrder};
use crate::tree::{
    below, climb, depth_below, ends, is_forest, is_sole_root, is_tree, lemma_climb_exists,
    lemma_depth_is, lemma_height, lemma_position, links, lookup, node_at, ordering_path, position,
    present, sibling_key,
};
use vstd::prelude::*;

verus! {

/// An identity finds the node that has it, and nothing where none has it.
pub proof fn law_identities_find_their_node(nodes: Seq<Node>, id: NodeId)
    ensures
        match resolved(nodes, NodeSelector::Id(id)) {
            Ok(Some(n)) => nodes.contains(n) && n.id == id,
            Ok(None) => forall|i: int| 0 <= i < nodes.len() ==> (#[trigger] nodes[i]).id != id,
            Err(_) => false,
        },
{
    if present(nodes, id) {
        let k = position(nodes, id);
        assert(nodes[k].id == id);
        assert(nodes.contains(nodes[k]));
    } else {
        assert forall|i: int| 0 <= i < nodes.len() implies (#[trigger] nodes[i]).id != id by {}
    }
}

/// A slug that one node has finds that node, one that no node has finds nothing, and one that
/// several have is ambiguous.
pub proof fn law_slugs_find_the_only_bearer(nodes: Seq<Node>, slug: String, i: int, j: int)
    ensures
        (0 <= i < nodes.len() && nodes[i].slug@ == slug@ && forall|k: int|
            0 <= k < nodes.len() && k != i ==> (#[trigger] nodes[k]).slug@ != slug@) ==> resolved(
            nodes,
            NodeSelector::Slug(slug),
        ) == Ok::<Option<Node>, Refusal>(Some(nodes[i])),
        (forall|k: int| 0 <= k < nodes.len() ==> (#[trigger] nodes[k]).slug@ != slug@) ==> resolved(
            nodes,
            NodeSelector::Slug(slug),
        ) == Ok::<Option<Node>, Refusal>(None),
        0 <= i < j < nodes.len() && nodes[i].slug@ == slug@ && nodes[j].slug@ == slug@ ==> resolved(
            nodes,
            NodeSelector::Slug(slug),
        ) == Err::<Option<Node>, Refusal>(Refusal::Ambiguous(slug@)),
{
    let named = |n: Node| n.slug@ == slug@;
    lemma_found_from(nodes, named, 0);
    crate::commands::lemma_first_from(nodes, named, 0);
    assert(resolved(nodes, NodeSelector::Slug(slug)) == resolved_slug(nodes, slug@));
    match first_from(nodes, named, 0) {
        Some(a) => {
            lemma_found_from(nodes, named, a + 1);
            crate::commands::lemma_first_from(nodes, named, a + 1);
            assert(named(nodes[a]));
            lemma_nothing_before(nodes, named, 0, a);
            if 0 <= i < j < nodes.len() && nodes[i].slug@ == slug@ && nodes[j].slug@ == slug@ {
                assert(named(nodes[i]) && named(nodes[j]));
            }
        },
        None => {
            if 0 <= i < nodes.len() && nodes[i].slug@ == slug@ {
                assert(named(nodes[i]));
            }
        },
    }
}

proof fn lemma_nothing_before<T>(items: Seq<T>, pred: spec_fn(T) -> bool, i: int, a: int)
    requires
        0 <= i,
        first_from(items, pred, i) == Some(a),
    ensures
        forall|k: int| i <= k < a ==> !pred(#[trigger] items[k]),
    decreases items.len() - i,
{
    if i < items.len() && !pred(items[i]) {
        lemma_nothing_before(items, pred, i + 1, a);
    }
}

/// The nodes on the way up from a node: first the node itself, then each one's parent, and at
/// last one without a parent.
pub proof fn law_way_up_follows_parents(nodes: Seq<Node>, id: NodeId, k: int)
    requires
        is_forest(nodes),
        present(nodes, id),
        0 <= k < level(nodes, id),
    ensures
        nodes.contains(above(nodes, id, k)),
        climb(links(nodes), id, k as nat) == Some(above(nodes, id, k).id),
        k == 0 ==> above(nodes, id, k).id == id,
        k + 1 < level(nodes, id) ==> above(nodes, id, k).parent_id == Some(
            above(nodes, id, k + 1).id,
        ),
        k + 1 == level(nodes, id) ==> above(nodes, id, k).parent_id is None,
{
    let up = links(nodes);
    assert(ends(up, id));
    lemma_height(up, id);
    lemma_climb_exists(nodes, id, k as nat);
    let x = climb(up, id, k as nat)->0;
    let q = position(nodes, x);
    assert(nodes[q].id == x);
    lemma_position(nodes, q);
    assert(nodes.contains(nodes[q]));
    if k + 1 < level(nodes, id) {
        assert(climb(up, id, (k + 1) as nat) is Some);
        lemma_climb_exists(nodes, id, (k + 1) as nat);
        let y = climb(up, id, (k + 1) as nat)->0;
        let m = position(nodes, y);
        assert(nodes[m].id == y);
        lemma_position(nodes, m);
    } else {
        assert(climb(up, id, (k + 1) as nat) is None);
    }
}

proof fn lemma_descend_back(nodes: Seq<Node>, id: NodeId, slugs: Seq<String>, k: int)
    requires
        is_forest(nodes),
        distinct_slugs(nodes),
        present(nodes, id),
        is_slug_path(nodes, id, slugs),
        1 <= k <= slugs.len(),
    ensures
        descend(nodes, above(nodes, id, slugs.len() - k), slugs, k) == lookup(nodes, id),
    decreases slugs.len() - k,
{
    let n = slugs.len() as int;
    law_way_up_follows_parents(nodes, id, n - k);
    if k < n {
        let from = above(nodes, id, n - k);
        law_way_up_follows_parents(nodes, id, n - k - 1);
        let next = above(nodes, id, n - 1 - k);
        let pred = is_child_named(from.id, slugs[k]@);
        assert(slugs[k]@ == next.slug@);
        assert(pred(next));
        let m = choose|m: int| 0 <= m < nodes.len() && nodes[m] == next;
        lemma_found_from(nodes, pred, 0);
        crate::commands::lemma_first_from(nodes, pred, 0);
        let f = first_from(nodes, pred, 0)->0;
        assert(pred(nodes[m]));
        assert(pred(nodes[f]));
        assert(nodes[f].parent_id == nodes[m].parent_id && nodes[f].slug@ == nodes[m].slug@);
        assert(f == m);
        assert(child_named(nodes, from.id, slugs[k]@) == Some(next));
        lemma_descend_back(nodes, id, slugs, k + 1);
    } else {
        assert(climb(links(nodes), id, 0) == Some(id));
    }
}

/// The canonical path of a node resolves to the node.
pub proof fn law_canonical_paths_resolve_back(nodes: Seq<Node>, id: NodeId, slugs: Vec<String>)
    requires
        is_tree(nodes),
        distinct_slugs(nodes),
        present(nodes, id),
        is_slug_path(nodes, id, slugs@),
    ensures
        resolved(nodes, NodeSelector::Path(slugs)) == Ok::<Option<Node>, Refusal>(
            lookup(nodes, id),
        ),
{
    let n = slugs@.len() as int;
    assert(ends(links(nodes), id));
    lemma_height(links(nodes), id);
    law_way_up_follows_parents(nodes, id, n - 1);
    let top = above(nodes, id, n - 1);
    let r = choose|r: int| is_sole_root(nodes, r);
    let m = choose|m: int| 0 <= m < nodes.len() && nodes[m] == top;
    assert(nodes[m].parent_id is None);
    assert(m == r);
    let pred = |n: Node| n.parent_id is None;
    lemma_found_from(nodes, pred, 0);
    crate::commands::lemma_first_from(nodes, pred, 0);
    assert(pred(nodes[m]));
    let f = first_from(nodes, pred, 0)->0;
    assert(nodes[f].parent_id is None);
    assert(f == r);
    assert(root_of(nodes) == Some(top));
    assert(slugs@[0]@ == above(nodes, id, slugs@.len() - 1 - 0).slug@);
    lemma_descend_back(nodes, id, slugs@, 1);
}

/// A breadcrumb begins with the title of a node without a parent, ends with the node's own
/// title, and goes from each title to that of a child.
pub proof fn law_breadcrumbs_go_down_to_the_node(nodes: Seq<Node>, id: NodeId, titles: Seq<String>)
    requires
        is_forest(nodes),
        present(nodes, id),
        is_breadcrumb(nodes, id, titles),
    ensures
        titles.len() > 0,
        titles.last()@ == lookup(nodes, id)->0.metadata.title@,
        exists|way: Seq<Node>|
            {
                &&& #[trigger] way.len() == titles.len()
                &&& way[0].parent_id is None
                &&& way.last().id == id
                &&& forall|i: int|
                    0 <= i < way.len() ==> nodes.contains(#[trigger] way[i]) && titles[i]@
                        == way[i].metadata.title@
                &&& forall|i: int, j: int|
                    0 <= i < way.len() && j == i + 1 && j < way.len() ==> (
                    #[trigger] way[j]).parent_id == Some((#[trigger] way[i]).id)
            },
{
    let n = titles.len() as int;
    assert(ends(links(nodes), id));
    lemma_height(links(nodes), id);
    let way = Seq::new(titles.len(), |i: int| above(nodes, id, n - 1 - i));
    law_way_up_follows_parents(nodes, id, n - 1);
    law_way_up_follows_parents(nodes, id, 0);
    assert(way.last() == above(nodes, id, 0));
    assert forall|i: int| 0 <= i < way.len() implies nodes.contains(#[trigger] way[i]) && titles[i]@
        == way[i].metadata.title@ by {
        law_way_up_follows_parents(nodes, id, n - 1 - i);
        assert(titles[i]@ == above(nodes, id, n - 1 - i).metadata.title@);
    }
    assert forall|i: int, j: int| 0 <= i < way.len() && j == i + 1 && j < way.len() implies (
    #[trigger] way[j]).parent_id == Some((#[trigger] way[i]).id) by {
        law_way_up_follows_parents(nodes, id, n - 1 - j);
    }
    assert(titles[n - 1]@ == above(nodes, id, 0).metadata.title@);
    assert(way.len() == titles.len());
}

pub proof fn lemma_pair_order(a: Seq<u128>, b: Seq<u128>)
    requires
        a.len() == 2,
        b.len() == 2,
    ensures
        lex_lt(a, b) <==> a[0] < b[0] || (a[0] == b[0] && a[1] < b[1]),
{
    reveal_with_fuel(lex_lt, 3);
    assert(a.skip(1).len() == 1 && b.skip(1).len() == 1);
    assert(a.skip(1)[0] == a[1] && b.skip(1)[0] == b[1]);
}

/// A listing of children holds exactly the nodes with that parent, each once, by ascending
/// position and by ascending identity where positions are the same.
pub proof fn law_children_are_listed_in_order(
    nodes: Seq<Node>,
    parent: NodeId,
    listed: Seq<Node>,
    i: int,
    j: int,
)
    requires
        lists_children(nodes, parent, listed),
        0 <= i < j < listed.len(),
    ensures
        nodes.contains(listed[i]) && listed[i].parent_id == Some(parent),
        listed[i].sibling_order < listed[j].sibling_order || (listed[i].sibling_order
            == listed[j].sibling_order && listed[i].id.value < listed[j].id.value),
        forall|k: int|
            0 <= k < nodes.len() && (#[trigger] nodes[k]).parent_id == Some(parent)
                ==> listed.contains(nodes[k]),
{
    let key = |n: Node| sibling_key(n);
    assert(increasing(listed, key));
    assert(lex_lt(key(listed[i]), key(listed[j])));
    lemma_pair_order(sibling_key(listed[i]), sibling_key(listed[j]));
    assert(listed.contains(listed[i]));
    crate::search_laws::lemma_listed_child(nodes, parent, listed, listed[i]);
    assert forall|k: int| 0 <= k < nodes.len() && (#[trigger] nodes[k]).parent_id == Some(
        parent,
    ) implies listed.contains(nodes[k]) by {
        assert(nodes.contains(nodes[k]));
        crate::search_laws::lemma_listed_child(nodes, parent, listed, nodes[k]);
    }
}

/// A history lists exactly the revisions of the node, by ascending version.
pub proof fn law_histories_are_listed_by_version(
    t: Tables,
    id: NodeId,
    listed: Seq<RevisionView>,
    i: int,
    j: int,
)
    requires
        lists_revisions(t, id, listed),
        0 <= i < j < listed.len(),
    ensures
        listed[i].version < listed[j].version,
        t.revisions.contains(listed[i]) && listed[i].node_id == id,
        forall|k: int|
            0 <= k < t.revisions.len() && (#[trigger] t.revisions[k]).node_id == id
                ==> listed.contains(t.revisions[k]),
{
    let pred = |r: RevisionView| r.node_id == id;
    let key = |r: RevisionView| seq![r.version as u128];
    assert(lists(t.revisions, pred, key, listed));
    assert(lex_lt(key(listed[i]), key(listed[j])));
    let a = key(listed[i]);
    let b = key(listed[j]);
    reveal_with_fuel(lex_lt, 2);
    assert(a[0] == listed[i].version as u128 && b[0] == listed[j].version as u128);
    assert(a.skip(1).len() == 0 && b.skip(1).len() == 0);
    assert(listed.contains(listed[i]));
    assert(pred(listed[i]));
    assert forall|k: int| 0 <= k < t.revisions.len() && (
    #[trigger] t.revisions[k]).node_id == id implies listed.contains(t.revisions[k]) by {
        assert(t.revisions.contains(t.revisions[k]));
        assert(pred(t.revisions[k]));
    }
}

proof fn lemma_max_order(nodes: Seq<Node>, parent: NodeId, n: int)
    requires
        0 <= n <= nodes.len(),
    ensures
        match max_order(nodes, parent, n) {
            Some(m) => {
                &&& exists|k: int|
                    0 <= k < n && (#[trigger] nodes[k]).parent_id == Some(parent)
                        && nodes[k].sibling_order == m
                &&& forall|k: int|
                    0 <= k < n && (#[trigger] nodes[k]).parent_id == Some(parent)
                        ==> nodes[k].sibling_order <= m
            },
            None => forall|k: int|
                0 <= k < n ==> (#[trigger] nodes[k]).parent_id != Some(parent),
        },
    decreases n,
{
    if n > 0 {
        lemma_max_order(nodes, parent, n - 1);
        let last = nodes[n - 1];
        if last.parent_id == Some(parent) {
            match max_order(nodes, parent, n - 1) {
                Some(m) => {
                    if last.sibling_order <= m {
                        let k = choose|k: int|
                            0 <= k < n - 1 && (#[trigger] nodes[k]).parent_id == Some(parent)
                                && nodes[k].sibling_order == m;
                        assert(nodes[k].parent_id == Some(parent));
                    } else {
                        assert(nodes[n - 1].parent_id == Some(parent));
                    }
                },
                None => {
                    assert(nodes[n - 1].parent_id == Some(parent));
                },
            }
        } else if max_order(nodes, parent, n - 1) is Some {
            let m = max_order(nodes, parent, n - 1)->0;
            let k = choose|k: int|
                0 <= k < n - 1 && (#[trigger] nodes[k]).parent_id == Some(parent)
                    && nodes[k].sibling_order == m;
            assert(nodes[k].parent_id == Some(parent));
        }
    }
}

/// The next position below a node is behind every child, right behind the last one, and zero
/// where there is none.
pub proof fn law_next_position_is_behind_the_last(nodes: Seq<Node>, parent: NodeId)
    ensures
        forall|k: int|
            0 <= k < nodes.len() && (#[trigger] nodes[k]).parent_id == Some(parent) && (
            nodes[k].sibling_order < u32::MAX) ==> nodes[k].sibling_order < next_order(
                nodes,
                parent,
            ),
        next_order(nodes, parent) > 0 ==> exists|k: int|
            0 <= k < nodes.len() && (#[trigger] nodes[k]).parent_id == Some(parent) && (
            nodes[k].sibling_order + 1 == next_order(nodes, parent) || nodes[k].sibling_order
                == u32::MAX),
        (forall|k: int| 0 <= k < nodes.len() ==> (#[trigger] nodes[k]).parent_id != Some(parent))
            ==> next_order(nodes, parent) == 0,
{
    lemma_max_order(nodes, parent, nodes.len() as int);
}

/// Identities that are present.
pub open spec fn is_present(nodes: Seq<Node>) -> spec_fn(NodeId) -> bool {
    |id: NodeId| present(nodes, id)
}

proof fn lemma_projected(nodes: Seq<Node>, ids: Seq<NodeId>, n: int)
    requires
        0 <= n <= ids.len(),
    ensures
        ({
            let kept = ids.take(n).filter(is_present(nodes));
            let listed = projected(nodes, ids, n);
            &&& listed.len() == kept.len()
            &&& forall|i: int| 0 <= i < kept.len() ==> Some(#[trigger] listed[i]) == lookup(nodes, kept[i])
        }),
    decreases n,
{
    reveal(Seq::filter);
    if n > 0 {
        lemma_projected(nodes, ids, n - 1);
        assert(ids.take(n).drop_last() =~= ids.take(n - 1));
        assert(ids.take(n).last() == ids[n - 1]);
    }
}

/// A projection holds the nodes of the present identities, in the order of the identities.
pub proof fn law_projections_skip_missing_nodes(nodes: Seq<Node>, ids: Seq<NodeId>)
    ensures
        ({
            let kept = ids.filter(is_present(nodes));
            let listed = projected(nodes, ids, ids.len() as int);
            &&& listed.len() == kept.len()
            &&& forall|i: int| 0 <= i < kept.len() ==> Some(#[trigger] listed[i]) == lookup(nodes, kept[i])
        }),
{
    lemma_projected(nodes, ids, ids.len() as int);
    assert(ids.take(ids.len() as int) =~= ids);
}

/// A walk holds exactly the nodes below its root that lie within its depth, each with the
/// number of links between it and the root.
pub proof fn law_walks_cover_their_extent(
    nodes: Seq<Node>,
    extent: Extent,
    walked: Seq<Placed>,
    k: int,
    d: nat,
)
    requires
        is_forest(nodes),
        extent.walks(nodes, walked),
        0 <= k < nodes.len(),
        climb(links(nodes), nodes[k].id, d) == Some(extent.root),
    ensures
        (exists|i: int| 0 <= i < walked.len() && (#[trigger] walked[i]).node == nodes[k]) <==> (
        extent.include_root || d > 0) && (extent.max_depth matches Some(m) ==> d <= m),
        forall|i: int|
            0 <= i < walked.len() && (#[trigger] walked[i]).node == nodes[k] ==> walked[i].depth
                == d,
{
    let up = links(nodes);
    let id = nodes[k].id;
    lemma_depth_is(up, extent.root, id, d);
    assert(below(up, extent.root, id));
    let listed = nodes_of(walked);
    let pred = |n: Node| extent.covers(nodes, n);
    assert(nodes.contains(nodes[k]));
    assert(listed.contains(nodes[k]) <==> pred(nodes[k]));
    if listed.contains(nodes[k]) {
        let i = choose|i: int| 0 <= i < listed.len() && listed[i] == nodes[k];
        assert(walked[i].node == nodes[k]);
    }
    if exists|i: int| 0 <= i < walked.len() && (#[trigger] walked[i]).node == nodes[k] {
        let i = choose|i: int| 0 <= i < walked.len() && (#[trigger] walked[i]).node == nodes[k];
        assert(listed[i] == nodes[k]);
    }
}

/// A walk meets each node before its children; breadth first it meets no node before one that
/// is nearer to the root.
pub proof fn law_walks_meet_parents_first(
    nodes: Seq<Node>,
    extent: Extent,
    walked: Seq<Placed>,
    i: int,
    j: int,
)
    requires
        is_forest(nodes),
        extent.walks(nodes, walked),
        0 <= i < walked.len(),
        0 <= j < walked.len(),
        nodes.len() <= u64::MAX,
    ensures
        walked[j].node.parent_id == Some(walked[i].node.id) && walked[j].node.id != extent.root
            ==> i < j && walked[j].depth == walked[i].depth + 1,
        extent.order == TraversalOrder::Bfs && i < j ==> walked[i].depth <= walked[j].depth,
{
    let up = links(nodes);
    let listed = nodes_of(walked);
    let key = |n: Node| extent.key(nodes, n);
    assert(increasing(listed, key));
    assert(listed[i] == walked[i].node && listed[j] == walked[j].node);
    assert(listed.contains(listed[i]) && listed.contains(listed[j]));
    let a = walked[i].node;
    let b = walked[j].node;
    assert(nodes.contains(a) && nodes.contains(b));
    let m = choose|m: int| 0 <= m < nodes.len() && nodes[m] == b;
    lemma_position(nodes, m);
    assert(extent.covers(nodes, a) && extent.covers(nodes, b));
    let d = depth_below(up, extent.root, a.id);
    let e = depth_below(up, extent.root, b.id);
    assert(walked[i].depth == d && walked[j].depth == e);
    if b.parent_id == Some(a.id) && b.id != extent.root {
        assert(up.contains_key(b.id) && up[b.id] == a.id);
        let k = choose|k: nat| #[trigger] climb(up, a.id, k) == Some(extent.root);
        lemma_depth_is(up, extent.root, a.id, k);
        crate::tree::lemma_climb_shift(up, b.id, k);
        assert(climb(up, b.id, k + 1) == Some(extent.root));
        lemma_depth_is(up, extent.root, b.id, k + 1);
        assert(e == d + 1);
        let p = ordering_path(nodes, extent.root, a.id);
        let q = ordering_path(nodes, extent.root, b.id);
        assert(q == p + sibling_key(node_at(nodes, b.id)));
        if i == j {
            assert(d == e);
        }
        if j < i {
            assert(lex_lt(key(b), key(a)));
            match extent.order {
                TraversalOrder::Dfs => {
                    crate::run_laws::lemma_lex_prefix(p, sibling_key(node_at(nodes, b.id)));
                    crate::order::lemma_lex_asymmetric(p, q);
                },
                TraversalOrder::Bfs => {
                    let x = key(b);
                    let y = key(a);
                    assert(x[0] == e as u128 && y[0] == d as u128);
                    assert(walked[j].depth as u128 == e as u128);
                },
            }
        }
    }
    if extent.order == TraversalOrder::Bfs && i < j {
        assert(lex_lt(key(a), key(b)));
        let x = key(a);
        let y = key(b);
        assert(x[0] == d as u128 && y[0] == e as u128);
    }
}

} // verus!
