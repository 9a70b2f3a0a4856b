//! Whole runs of pages: each continued from the one before, until none is left.

use crate::integrity::offset_start;
use crate::listing::{lemma_lists_unique, lists};
use crate::model::{Node, NodeId, Reference};
use crate::order::lex_lt;
use crate::page_laws::{
    law_children_resume, law_references_resume, law_traversal_resumes, lemma_resume_behind,
};
use crate::pages::{
    children_page_of, is_page, lists_siblings, page_extent, resume_point, same_rows,
    serves_traversal, siblings_page_of, sibling_position, sibling_scope, sibling_start, start_of, traversal_position, traversal_scope,
    traversal_start, NodeDepthProjection, NodeProjection,
};
use crate::paging::{
    cursor_view, page_items, CursorView, Page, PageCursor, PageLimit, PaginationError,
    PositionView, ScopeView,
};
use crate::reads::lists_children;
use crate::references::{
    reference_scope, references_of, serves_references, touching, ReferenceSide,
};
use crate::search::{
    is_best, is_match, listing_refusal, presents_hits, ranks_hits, result_key, serves_search,
    HitView, SearchMatch,
};
use crate::shape::lemma_filter_facts;
use crate::tables::{reference_views, RowView, Tables};
use crate::traverse::{nodes_of, Extent, Placed, TraversalOrder};
use crate::tree::{
    climb, depth_below, is_forest, lemma_below_self, lemma_climb_exists, lemma_climb_shift,
    lemma_depth_is, lemma_path_key_last, lemma_position, links, node_at, ordering_path, path_key,
    position, present, sibling_key,
};
use vstd::prelude::*;

verus! {

/// The items of the first `n` pages, in order.
pub open spec fn joined<T>(pages: Seq<Page<T>>, n: int) -> Seq<T>
    decreases n,
{
    if n <= 0 {
        Seq::empty()
    } else {
        joined(pages, n - 1) + pages[n - 1].items@
    }
}

/// The cursor with which the `k`-th page of a run is read.
pub open spec fn cursor_of<'a, T>(pages: Seq<Page<T>>, k: int) -> Option<&'a PageCursor> {
    if k <= 0 {
        None
    } else {
        match pages[k - 1].next_cursor {
            Some(cursor) => Some(&cursor),
            None => None,
        }
    }
}

/// Whether a run of pages goes on until no page follows: every page but the last
/// names its continuation.
pub open spec fn is_whole<T>(pages: Seq<Page<T>>) -> bool {
    &&& pages.len() > 0
    &&& forall|k: int| 0 <= k < pages.len() - 1 ==> (#[trigger] pages[k]).next_cursor is Some
    &&& pages.last().next_cursor is None
}

/// Pages that are cut one behind the other, the last one at the end, are the listing.
proof fn lemma_cut_pages<T>(all: Seq<T>, cut: Seq<Seq<T>>, limit: int, n: int)
    requires
        1 <= limit,
        0 < n <= cut.len(),
        forall|k: int| 0 <= k < cut.len() ==> #[trigger] cut[k] == page_items(all, k * limit, limit),
        forall|k: int| 0 <= k < n - 1 ==> (#[trigger] identity(k) + 1) * limit < all.len(),
    ensures
        flat(cut, n) == if n * limit < all.len() {
            all.take(n * limit)
        } else {
            all
        },
    decreases n,
{
    let start = (n - 1) * limit;
    assert(n * limit == start + limit) by (nonlinear_arith)
        requires
            start == (n - 1) * limit,
    ;
    assert(start >= 0) by (nonlinear_arith)
        requires
            start == (n - 1) * limit,
            n > 0,
            limit >= 1,
    ;
    assert(cut[n - 1] == page_items(all, start, limit));
    if n > 1 {
        lemma_cut_pages(all, cut, limit, n - 1);
        assert((identity(n - 2) + 1) * limit < all.len());
        assert(flat(cut, n - 1) == all.take(start));
    } else {
        assert(start == 0) by (nonlinear_arith)
            requires
                start == (n - 1) * limit,
                n == 1,
        ;
        assert(flat(cut, 0) =~= all.take(0));
        assert(flat(cut, n - 1) =~= all.take(start));
    }
    if n * limit < all.len() {
        assert(all.take(start) + all.subrange(start, start + limit) =~= all.take(start + limit));
    } else {
        assert(start <= all.len());
        assert(all.take(start) + all.skip(start) =~= all);
        if start == all.len() {
            assert(page_items(all, start, limit) =~= all.skip(start));
        }
    }
}

/// The first `n` parts, one behind the other.
spec fn flat<T>(cut: Seq<Seq<T>>, n: int) -> Seq<T>
    decreases n,
{
    if n <= 0 {
        Seq::empty()
    } else {
        flat(cut, n - 1) + cut[n - 1]
    }
}

spec fn identity(k: int) -> int {
    k
}

pub proof fn lemma_lex_prefix(a: Seq<u128>, b: Seq<u128>)
    requires
        b.len() > 0,
    ensures
        lex_lt(a, a + b),
    decreases a.len(),
{
    if a.len() > 0 {
        lemma_lex_prefix(a.skip(1), b);
        assert((a + b).skip(1) =~= a.skip(1) + b);
    }
}

/// An ordering path begins with the sibling key of the node where it starts.
proof fn lemma_path_begins(nodes: Seq<Node>, id: NodeId, k: nat)
    requires
        climb(links(nodes), id, k) is Some,
    ensures
        path_key(nodes, id, k).len() == 2 * (k + 1),
        path_key(nodes, id, k).take(2) == sibling_key(
            node_at(nodes, climb(links(nodes), id, k)->0),
        ),
    decreases k,
{
    lemma_path_key_last(nodes, id, k);
    let own = sibling_key(node_at(nodes, id));
    if k == 0 {
        assert(own.take(2) =~= own);
    } else {
        lemma_climb_shift(links(nodes), id, (k - 1) as nat);
        let parent = links(nodes)[id];
        lemma_path_begins(nodes, parent, (k - 1) as nat);
        assert((path_key(nodes, parent, (k - 1) as nat) + own).take(2) =~= path_key(
            nodes,
            parent,
            (k - 1) as nat,
        ).take(2));
    }
}

/// The same extent with its root.
spec fn rooted_extent(extent: Extent) -> Extent {
    Extent { include_root: true, ..extent }
}

/// A depth-first listing with its root is the root and then the listing without it.
proof fn lemma_rooted_listing(nodes: Seq<Node>, extent: Extent, bare: Seq<Node>, full: Seq<Node>)
    requires
        is_forest(nodes),
        !extent.include_root,
        extent.order == TraversalOrder::Dfs,
        bare.len() > 0,
        lists(
            nodes,
            |n: Node| extent.covers(nodes, n),
            |n: Node| extent.key(nodes, n),
            bare,
        ),
        lists(
            nodes,
            |n: Node| rooted_extent(extent).covers(nodes, n),
            |n: Node| rooted_extent(extent).key(nodes, n),
            full,
        ),
    ensures
        full == seq![node_at(nodes, extent.root)] + bare,
{
    let up = links(nodes);
    let with = rooted_extent(extent);
    let key = |n: Node| with.key(nodes, n);
    let root = node_at(nodes, extent.root);
    assert(bare.contains(bare[0]));
    assert(nodes.contains(bare[0]) && extent.covers(nodes, bare[0]));
    let b = choose|b: int| 0 <= b < nodes.len() && nodes[b] == bare[0];
    lemma_position(nodes, b);
    let d = depth_below(up, extent.root, bare[0].id);
    assert(climb(up, bare[0].id, d) == Some(extent.root));
    lemma_climb_exists(nodes, bare[0].id, d);
    let r = position(nodes, extent.root);
    assert(nodes[r].id == extent.root);
    lemma_position(nodes, r);
    lemma_below_self(up, extent.root);
    assert(climb(up, extent.root, 0) == Some(extent.root));
    lemma_depth_is(up, extent.root, extent.root, 0);
    assert(with.covers(nodes, root));
    let guess = seq![root] + bare;
    assert forall|x: Node| #[trigger] guess.contains(x) <==> nodes.contains(x) && with.covers(
        nodes,
        x,
    ) by {
        if guess.contains(x) {
            let i = choose|i: int| 0 <= i < guess.len() && guess[i] == x;
            if i > 0 {
                assert(bare[i - 1] == x);
                assert(bare.contains(x));
            }
        }
        if nodes.contains(x) && with.covers(nodes, x) {
            let m = choose|m: int| 0 <= m < nodes.len() && nodes[m] == x;
            lemma_position(nodes, m);
            if depth_below(up, extent.root, x.id) > 0 {
                assert(extent.covers(nodes, x));
                assert(bare.contains(x));
                let i = choose|i: int| 0 <= i < bare.len() && bare[i] == x;
                assert(guess[i + 1] == x);
            } else {
                assert(climb(up, x.id, 0) == Some(extent.root));
                assert(x == root);
                assert(guess[0] == x);
            }
        }
    }
    assert forall|i: int, j: int| 0 <= i < j < guess.len() implies lex_lt(
        key(#[trigger] guess[i]),
        key(#[trigger] guess[j]),
    ) by {
        if i > 0 {
            assert(guess[i] == bare[i - 1] && guess[j] == bare[j - 1]);
            let bare_key = |n: Node| extent.key(nodes, n);
            assert(lex_lt(bare_key(bare[i - 1]), bare_key(bare[j - 1])));
        } else {
            let x = bare[j - 1];
            assert(guess[j] == x);
            assert(bare.contains(x));
            let k = depth_below(up, extent.root, x.id);
            assert(climb(up, x.id, k) == Some(extent.root));
            lemma_path_begins(nodes, x.id, k);
            let path = path_key(nodes, x.id, k);
            assert(path =~= path.take(2) + path.skip(2));
            lemma_lex_prefix(path.take(2), path.skip(2));
            assert(key(root) == sibling_key(root));
        }
    }
    lemma_lists_unique(nodes, |n: Node| with.covers(nodes, n), key, guess, full);
}

/// Where a traversal stands at a node.
spec fn node_position(nodes: Seq<Node>, extent: Extent, node: Node) -> PositionView {
    match extent.order {
        TraversalOrder::Dfs => PositionView::Traversal {
            ordering_path: ordering_path(nodes, extent.root, node.id),
            node_id: node.id,
        },
        TraversalOrder::Bfs => PositionView::BreadthTraversal {
            depth: depth_below(links(nodes), extent.root, node.id) as usize,
            ordering_path: ordering_path(nodes, extent.root, node.id),
            node_id: node.id,
        },
    }
}

/// Whether the pages are read one after the other from one traversal.
pub open spec fn is_traversal_run(
    t: Tables,
    operation: Seq<char>,
    extent: Extent,
    limit: PageLimit,
    pages: Seq<Page<NodeDepthProjection>>,
) -> bool {
    &&& is_whole(pages)
    &&& forall|k: int|
        0 <= k < pages.len() ==> serves_traversal(
            t,
            operation,
            extent,
            limit,
            cursor_of(pages, k),
            Ok(#[trigger] pages[k]),
        )
}

/// Whether a page holds the `k`-th cut of a listing, with the depths and paths of its
/// nodes, and names the continuation behind it.
spec fn is_cut(
    t: Tables,
    operation: Seq<char>,
    extent: Extent,
    limit: PageLimit,
    listed: Seq<Node>,
    page: Page<NodeDepthProjection>,
    k: int,
) -> bool {
    &&& nodes_of(page.items@) == page_items(listed, k * limit.size(), limit.size())
    &&& forall|i: int|
        0 <= i < page.items@.len() ==> (#[trigger] page.items@[i]).depth == depth_below(
            links(t.nodes),
            extent.root,
            page.items@[i].node.id,
        ) && page.items@[i].path@ == ordering_path(t.nodes, extent.root, page.items@[i].node.id)
    &&& cursor_view(page.next_cursor) == if (k + 1) * limit.size() < listed.len() {
        Some(
            CursorView {
                revision: t.revision,
                scope: traversal_scope(operation, extent),
                position: node_position(
                    t.nodes,
                    extent,
                    listed[(k + 1) * limit.size() - 1],
                ),
            },
        )
    } else {
        None
    }
}

/// A page that starts at `start` of its listing, which stands `shift` nodes before the
/// listing of the run, is the cut of the run.
proof fn lemma_is_cut(
    t: Tables,
    operation: Seq<char>,
    extent: Extent,
    limit: PageLimit,
    listed: Seq<Node>,
    read: Extent,
    all: Seq<Placed>,
    shift: int,
    page: Page<NodeDepthProjection>,
    k: int,
)
    requires
        1 <= limit.size(),
        0 <= k,
        0 <= shift,
        read.root == extent.root && read.order == extent.order,
        read.walks(t.nodes, all),
        all.len() == listed.len() + shift,
        k * limit.size() < listed.len() || k == 0,
        forall|i: int| 0 <= i < listed.len() ==> (#[trigger] listed[i]) == all[i + shift].node,
        is_page(
            Ok(page),
            all,
            Some(k * limit.size() + shift),
            limit.size(),
            t.revision,
            traversal_scope(operation, extent),
            |p: Placed| traversal_position(extent.order, p),
        ),
    ensures
        is_cut(t, operation, extent, limit, listed, page, k),
{
    let size = limit.size();
    let start = k * size;
    assert(start >= 0) by (nonlinear_arith)
        requires
            start == k * size,
            k >= 0,
            size >= 1,
    ;
    assert((k + 1) * size == start + size) by (nonlinear_arith)
        requires
            start == k * size,
    ;
    let items = page.items@;
    let cut = page_items(listed, start, size);
    assert(items.len() == cut.len());
    assert forall|i: int| 0 <= i < items.len() implies items[i] == all[start + shift + i]
        && cut[i] == listed[start + i] by {}
    assert(nodes_of(items) =~= cut) by {
        assert forall|i: int| 0 <= i < items.len() implies nodes_of(items)[i] == cut[i] by {
            assert(listed[start + i] == all[start + i + shift].node);
        }
    }
    assert forall|i: int| 0 <= i < items.len() implies (#[trigger] items[i]).depth == depth_below(
        links(t.nodes),
        extent.root,
        items[i].node.id,
    ) && items[i].path@ == ordering_path(t.nodes, extent.root, items[i].node.id) by {
        assert(items[i] == all[start + shift + i]);
    }
    if start + size < listed.len() {
        let last = all[start + shift + size - 1];
        assert(listed[start + size - 1] == last.node);
        assert(last.depth == depth_below(links(t.nodes), extent.root, last.node.id));
        assert(traversal_position(extent.order, last) == node_position(
            t.nodes,
            extent,
            last.node,
        ));
    }
}

/// A walk continued after a node of its listing goes on behind it.
proof fn lemma_continues_behind(
    nodes: Seq<Node>,
    extent: Extent,
    read: Extent,
    all: Seq<Placed>,
    e: int,
)
    requires
        read.root == extent.root && read.order == extent.order,
        read.walks(nodes, all),
        0 < e <= all.len(),
    ensures
        traversal_start(
            extent.order,
            all,
            Some(node_position(nodes, extent, all[e - 1].node)),
        ) == Some(e),
{
    law_traversal_resumes(nodes, read, all, e);
    let last = all[e - 1];
    assert(last.depth == depth_below(links(nodes), extent.root, last.node.id));
    assert(traversal_position(extent.order, last) == node_position(nodes, extent, last.node));
}

proof fn lemma_run_cut(
    t: Tables,
    operation: Seq<char>,
    extent: Extent,
    limit: PageLimit,
    pages: Seq<Page<NodeDepthProjection>>,
    whole: Seq<Placed>,
    k: int,
)
    requires
        is_forest(t.nodes),
        1 <= limit.size(),
        is_traversal_run(t, operation, extent, limit, pages),
        extent.walks(t.nodes, whole),
        0 <= k < pages.len(),
    ensures
        is_cut(t, operation, extent, limit, nodes_of(whole), pages[k], k),
        k < pages.len() - 1 ==> (k + 1) * limit.size() < whole.len(),
    decreases k,
{
    let nodes = t.nodes;
    let size = limit.size();
    let scope = traversal_scope(operation, extent);
    let listed = nodes_of(whole);
    let covered = |n: Node| extent.covers(nodes, n);
    let key = |n: Node| extent.key(nodes, n);
    let cursor = cursor_of(pages, k);
    assert(serves_traversal(t, operation, extent, limit, cursor, Ok(pages[k])));
    if k == 0 {
        let all = choose|all: Seq<Placed>|
            {
                &&& #[trigger] page_extent(extent, false).walks(nodes, all)
                &&& is_page(
                    Ok(pages[0]),
                    all,
                    traversal_start(extent.order, all, None),
                    size,
                    t.revision,
                    scope,
                    |p: Placed| traversal_position(extent.order, p),
                )
            };
        assert(page_extent(extent, false) == extent);
        lemma_lists_unique(nodes, covered, key, nodes_of(all), listed);
        assert forall|i: int| 0 <= i < listed.len() implies (#[trigger] listed[i]) == all[i
            + 0].node by {
            assert(nodes_of(all)[i] == all[i].node);
        }
        assert(0 * size + 0 == 0);
        assert(nodes_of(all).len() == all.len());
        lemma_is_cut(t, operation, extent, limit, listed, extent, all, 0, pages[0], 0);
    } else {
        lemma_run_cut(t, operation, extent, limit, pages, whole, k - 1);
        assert(pages[k - 1].next_cursor is Some);
        let e = k * size;
        assert((k - 1 + 1) * size == e);
        assert(e < listed.len());
        assert(e > 0) by (nonlinear_arith)
            requires
                e == k * size,
                k > 0,
                size >= 1,
        ;
        let after = node_position(nodes, extent, listed[e - 1]);
        assert(resume_point(cursor, scope, t.revision) == Ok::<
            Option<PositionView>,
            PaginationError,
        >(Some(after)));
        let read = page_extent(extent, true);
        let all = choose|all: Seq<Placed>|
            {
                &&& #[trigger] page_extent(extent, true).walks(nodes, all)
                &&& is_page(
                    Ok(pages[k]),
                    all,
                    traversal_start(extent.order, all, Some(after)),
                    size,
                    t.revision,
                    scope,
                    |p: Placed| traversal_position(extent.order, p),
                )
            };
        let full = nodes_of(all);
        assert(full.len() == all.len());
        let shift: int = if read == extent {
            0
        } else {
            1
        };
        if read == extent {
            lemma_lists_unique(nodes, covered, key, full, listed);
        } else {
            assert(read == rooted_extent(extent));
            lemma_rooted_listing(nodes, extent, listed, full);
        }
        assert forall|i: int| 0 <= i < listed.len() implies (#[trigger] listed[i]) == all[i
            + shift].node by {
            assert(full[i + shift] == all[i + shift].node);
        }
        assert(listed[e - 1] == all[e - 1 + shift].node);
        lemma_continues_behind(nodes, extent, read, all, e + shift);
        lemma_is_cut(t, operation, extent, limit, listed, read, all, shift, pages[k], k);
    }
}

/// Read page after page until none follows, a traversal comes out whole: every row
/// once, in order, and no page is longer than the limit.
pub proof fn law_traversal_run(
    t: Tables,
    operation: Seq<char>,
    extent: Extent,
    limit: PageLimit,
    pages: Seq<Page<NodeDepthProjection>>,
    whole: Seq<Placed>,
)
    requires
        is_forest(t.nodes),
        1 <= limit.size(),
        is_traversal_run(t, operation, extent, limit, pages),
        extent.walks(t.nodes, whole),
    ensures
        same_rows(joined(pages, pages.len() as int), whole),
        forall|k: int|
            0 <= k < pages.len() ==> (#[trigger] pages[k]).items@.len() <= limit.size(),
{
    let n = pages.len() as int;
    let size = limit.size();
    let listed = nodes_of(whole);
    let cut = Seq::new(pages.len(), |k: int| nodes_of(pages[k].items@));
    assert forall|k: int| 0 <= k < n implies is_cut(
        t,
        operation,
        extent,
        limit,
        listed,
        #[trigger] pages[k],
        k,
    ) && (k < n - 1 ==> (k + 1) * size < listed.len()) by {
        lemma_run_cut(t, operation, extent, limit, pages, whole, k);
    }
    assert forall|k: int| 0 <= k < n implies (#[trigger] pages[k]).items@.len() <= size by {
        assert(is_cut(t, operation, extent, limit, listed, pages[k], k));
        assert(nodes_of(pages[k].items@).len() == pages[k].items@.len());
        assert(k * size >= 0) by (nonlinear_arith)
            requires
                k >= 0,
                size >= 1,
        ;
    }
    assert forall|k: int| 0 <= k < cut.len() implies #[trigger] cut[k] == page_items(
        listed,
        k * size,
        size,
    ) by {
        assert(is_cut(t, operation, extent, limit, listed, pages[k], k));
    }
    assert forall|k: int| 0 <= k < n - 1 implies (#[trigger] identity(k) + 1) * size
        < listed.len() by {
        assert(is_cut(t, operation, extent, limit, listed, pages[k], k));
    }
    lemma_cut_pages(listed, cut, size, n);
    assert(is_cut(t, operation, extent, limit, listed, pages[n - 1], n - 1));
    assert((n - 1 + 1) * size == n * size);
    assert(!(n * size < listed.len()));
    let all = joined(pages, n);
    lemma_joined(t, extent, pages, cut, n);
    assert(nodes_of(all) == listed);
    assert(nodes_of(all).len() == all.len());
    assert forall|i: int| 0 <= i < all.len() implies (#[trigger] all[i]).node == (
    #[trigger] whole[i]).node && all[i].depth == whole[i].depth && all[i].path@
        == whole[i].path@ by {
        assert(nodes_of(all)[i] == listed[i]);
    }
}

proof fn lemma_joined(
    t: Tables,
    extent: Extent,
    pages: Seq<Page<NodeDepthProjection>>,
    cut: Seq<Seq<Node>>,
    n: int,
)
    requires
        0 <= n <= pages.len(),
        cut == Seq::new(pages.len(), |k: int| nodes_of(pages[k].items@)),
        forall|k: int, i: int|
            #![trigger pages[k].items@[i]]
            0 <= k < pages.len() && 0 <= i < pages[k].items@.len() ==> pages[k].items@[i].depth
                == depth_below(links(t.nodes), extent.root, pages[k].items@[i].node.id)
                && pages[k].items@[i].path@ == ordering_path(
                t.nodes,
                extent.root,
                pages[k].items@[i].node.id,
            ),
    ensures
        nodes_of(joined(pages, n)) == flat(cut, n),
        forall|i: int|
            0 <= i < joined(pages, n).len() ==> (#[trigger] joined(pages, n)[i]).depth
                == depth_below(links(t.nodes), extent.root, joined(pages, n)[i].node.id) && joined(
                pages,
                n,
            )[i].path@ == ordering_path(t.nodes, extent.root, joined(pages, n)[i].node.id),
    decreases n,
{
    if n > 0 {
        lemma_joined(t, extent, pages, cut, n - 1);
        let before = joined(pages, n - 1);
        let last = pages[n - 1].items@;
        assert(nodes_of(before + last) =~= nodes_of(before) + nodes_of(last));
        assert forall|i: int| 0 <= i < joined(pages, n).len() implies (
        #[trigger] joined(pages, n)[i]).depth == depth_below(
            links(t.nodes),
            extent.root,
            joined(pages, n)[i].node.id,
        ) && joined(pages, n)[i].path@ == ordering_path(
            t.nodes,
            extent.root,
            joined(pages, n)[i].node.id,
        ) by {
            if i < before.len() {
                assert(joined(pages, n)[i] == before[i]);
            } else {
                assert(joined(pages, n)[i] == pages[n - 1].items@[i - before.len()]);
            }
        }
    } else {
        assert(nodes_of(joined(pages, n)) =~= flat(cut, n));
    }
}

/// Whether the `k`-th page is a cut of the listing from where its cursor points to.
spec fn is_cut_of<T>(
    all: Seq<T>,
    pages: Seq<Page<T>>,
    limit: int,
    revision: u64,
    scope: ScopeView,
    position: spec_fn(T) -> PositionView,
    start: spec_fn(Option<PositionView>) -> Option<int>,
    k: int,
) -> bool {
    match resume_point(cursor_of(pages, k), scope, revision) {
        Err(_) => false,
        Ok(after) => is_page(Ok(pages[k]), all, start(after), limit, revision, scope, position),
    }
}

proof fn lemma_cut_of<T>(
    all: Seq<T>,
    pages: Seq<Page<T>>,
    limit: int,
    revision: u64,
    scope: ScopeView,
    position: spec_fn(T) -> PositionView,
    start: spec_fn(Option<PositionView>) -> Option<int>,
    k: int,
)
    requires
        1 <= limit,
        is_whole(pages),
        start(None) == Some(0int),
        forall|e: int|
            0 < e <= all.len() ==> start(Some(position(#[trigger] all[e - 1]))) == Some(e),
        forall|k: int|
            0 <= k < pages.len() ==> is_cut_of(
                all,
                pages,
                limit,
                revision,
                scope,
                position,
                start,
                #[trigger] identity(k),
            ),
        0 <= k < pages.len(),
    ensures
        pages[k].items@ == page_items(all, k * limit, limit),
        cursor_view(pages[k].next_cursor) == if (k + 1) * limit < all.len() {
            Some(
                CursorView { revision, scope, position: position(all[(k + 1) * limit - 1]) },
            )
        } else {
            None
        },
    decreases k,
{
    let from = k * limit;
    assert((k + 1) * limit == from + limit) by (nonlinear_arith)
        requires
            from == k * limit,
    ;
    assert(is_cut_of(all, pages, limit, revision, scope, position, start, identity(k)));
    if k == 0 {
        assert(from == 0) by (nonlinear_arith)
            requires
                from == k * limit,
                k == 0,
        ;
    } else {
        lemma_cut_of(all, pages, limit, revision, scope, position, start, k - 1);
        assert(pages[k - 1].next_cursor is Some);
        assert((k - 1 + 1) * limit == from);
        assert(from > 0) by (nonlinear_arith)
            requires
                from == k * limit,
                k > 0,
                limit >= 1,
        ;
        assert(start(Some(position(all[from - 1]))) == Some(from));
    }
}

/// Pages that continue each other are the listing.
proof fn lemma_run_of_pages<T>(
    all: Seq<T>,
    pages: Seq<Page<T>>,
    limit: int,
    revision: u64,
    scope: ScopeView,
    position: spec_fn(T) -> PositionView,
    start: spec_fn(Option<PositionView>) -> Option<int>,
)
    requires
        1 <= limit,
        is_whole(pages),
        start(None) == Some(0int),
        forall|e: int|
            0 < e <= all.len() ==> start(Some(position(#[trigger] all[e - 1]))) == Some(e),
        forall|k: int|
            0 <= k < pages.len() ==> is_cut_of(
                all,
                pages,
                limit,
                revision,
                scope,
                position,
                start,
                #[trigger] identity(k),
            ),
    ensures
        joined(pages, pages.len() as int) == all,
        forall|k: int| 0 <= k < pages.len() ==> (#[trigger] pages[k]).items@.len() <= limit,
{
    let n = pages.len() as int;
    let cut = Seq::new(pages.len(), |k: int| pages[k].items@);
    assert forall|k: int| 0 <= k < n implies (#[trigger] pages[k]).items@ == page_items(
        all,
        k * limit,
        limit,
    ) && (k < n - 1 ==> (k + 1) * limit < all.len()) && pages[k].items@.len() <= limit by {
        lemma_cut_of(all, pages, limit, revision, scope, position, start, k);
        assert(k * limit >= 0) by (nonlinear_arith)
            requires
                k >= 0,
                limit >= 1,
        ;
    }
    assert forall|k: int| 0 <= k < cut.len() implies #[trigger] cut[k] == page_items(
        all,
        k * limit,
        limit,
    ) by {
        assert(pages[k].items@ == page_items(all, k * limit, limit));
    }
    assert forall|k: int| 0 <= k < n - 1 implies (#[trigger] identity(k) + 1) * limit
        < all.len() by {
        assert(pages[k].items@.len() <= limit);
    }
    lemma_cut_pages(all, cut, limit, n);
    lemma_cut_of(all, pages, limit, revision, scope, position, start, n - 1);
    assert((n - 1 + 1) * limit == n * limit);
    lemma_joined_flat(pages, cut, n);
}

proof fn lemma_joined_flat<T>(pages: Seq<Page<T>>, cut: Seq<Seq<T>>, n: int)
    requires
        0 <= n <= pages.len(),
        cut == Seq::new(pages.len(), |k: int| pages[k].items@),
    ensures
        joined(pages, n) == flat(cut, n),
    decreases n,
{
    if n > 0 {
        lemma_joined_flat(pages, cut, n - 1);
    }
}

/// Whether the pages are read one after the other from the children of a node.
pub open spec fn is_children_run(
    t: Tables,
    id: NodeId,
    limit: PageLimit,
    pages: Seq<Page<NodeProjection>>,
) -> bool {
    &&& is_whole(pages)
    &&& forall|k: int|
        0 <= k < pages.len() ==> children_page_of(
            t,
            id,
            limit.size(),
            cursor_of(pages, k),
            Ok(#[trigger] pages[k]),
        )
}

/// Read page after page until none follows, the children of a node come out whole: each
/// once, in sibling order, and no page is longer than the limit.
pub proof fn law_children_run(
    t: Tables,
    id: NodeId,
    limit: PageLimit,
    pages: Seq<Page<NodeProjection>>,
    whole: Seq<Node>,
)
    requires
        1 <= limit.size(),
        is_children_run(t, id, limit, pages),
        lists_children(t.nodes, id, whole),
    ensures
        joined(pages, pages.len() as int) == whole,
        forall|k: int|
            0 <= k < pages.len() ==> (#[trigger] pages[k]).items@.len() <= limit.size(),
{
    let scope = sibling_scope("children"@, id);
    let position = |n: Node| sibling_position(n);
    let start = |after: Option<PositionView>| sibling_start(whole, after);
    assert forall|e: int| 0 < e <= whole.len() implies start(
        Some(position(#[trigger] whole[e - 1])),
    ) == Some(e) by {
        law_children_resume(t.nodes, id, whole, e);
    }
    assert forall|k: int| 0 <= k < pages.len() implies is_cut_of(
        whole,
        pages,
        limit.size(),
        t.revision,
        scope,
        position,
        start,
        #[trigger] identity(k),
    ) by {
        let cursor = cursor_of(pages, k);
        assert(children_page_of(t, id, limit.size(), cursor, Ok(pages[k])));
        let after = resume_point(cursor, scope, t.revision)->Ok_0;
        let all = choose|all: Seq<Node>|
            {
                &&& #[trigger] lists_children(t.nodes, id, all)
                &&& is_page(
                    Ok(pages[k]),
                    all,
                    sibling_start(all, after),
                    limit.size(),
                    t.revision,
                    scope,
                    |n: Node| sibling_position(n),
                )
            };
        lemma_lists_unique(
            t.nodes,
            |n: Node| n.parent_id == Some(id),
            |n: Node| sibling_key(n),
            all,
            whole,
        );
    }
    lemma_run_of_pages(whole, pages, limit.size(), t.revision, scope, position, start);
}

/// Whether the pages are read one after the other from the siblings of a node.
pub open spec fn is_siblings_run(
    t: Tables,
    id: NodeId,
    limit: PageLimit,
    pages: Seq<Page<NodeProjection>>,
) -> bool {
    &&& is_whole(pages)
    &&& forall|k: int|
        0 <= k < pages.len() ==> siblings_page_of(
            t,
            id,
            limit.size(),
            cursor_of(pages, k),
            Ok(#[trigger] pages[k]),
        )
}

/// Read page after page until none follows, a node and its siblings come out whole: each
/// once, in sibling order, and no page is longer than the limit.
pub proof fn law_siblings_run(
    t: Tables,
    id: NodeId,
    limit: PageLimit,
    pages: Seq<Page<NodeProjection>>,
    whole: Seq<Node>,
)
    requires
        1 <= limit.size(),
        is_siblings_run(t, id, limit, pages),
        present(t.nodes, id),
        lists_siblings(t.nodes, node_at(t.nodes, id), whole),
    ensures
        joined(pages, pages.len() as int) == whole,
        forall|k: int|
            0 <= k < pages.len() ==> (#[trigger] pages[k]).items@.len() <= limit.size(),
{
    let scope = sibling_scope("siblings"@, id);
    let node = node_at(t.nodes, id);
    let key = |n: Node| sibling_key(n);
    let position = |n: Node| sibling_position(n);
    let start = |after: Option<PositionView>| sibling_start(whole, after);
    assert forall|e: int| 0 < e <= whole.len() implies start(
        Some(position(#[trigger] whole[e - 1])),
    ) == Some(e) by {
        lemma_resume_behind(whole, key, e);
        let last = whole[e - 1];
        assert((|x: Node| lex_lt(key(whole[e - 1]), key(x))) =~= (|n: Node|
            lex_lt(seq![last.sibling_order as u128, last.id.value], sibling_key(n))));
    }
    assert forall|k: int| 0 <= k < pages.len() implies is_cut_of(
        whole,
        pages,
        limit.size(),
        t.revision,
        scope,
        position,
        start,
        #[trigger] identity(k),
    ) by {
        let cursor = cursor_of(pages, k);
        assert(siblings_page_of(t, id, limit.size(), cursor, Ok(pages[k])));
        let after = resume_point(cursor, scope, t.revision)->Ok_0;
        let all = choose|all: Seq<Node>|
            {
                &&& #[trigger] lists_siblings(t.nodes, node, all)
                &&& is_page(
                    Ok(pages[k]),
                    all,
                    sibling_start(all, after),
                    limit.size(),
                    t.revision,
                    scope,
                    |n: Node| sibling_position(n),
                )
            };
        if let Some(parent) = node.parent_id {
            lemma_lists_unique(
                t.nodes,
                |n: Node| n.parent_id == Some(parent),
                key,
                all,
                whole,
            );
        }
    }
    lemma_run_of_pages(whole, pages, limit.size(), t.revision, scope, position, start);
}

/// Whether the pages are read one after the other from the references on one side of a
/// node.
pub open spec fn is_reference_run(
    t: Tables,
    operation: Seq<char>,
    side: ReferenceSide,
    id: NodeId,
    limit: PageLimit,
    pages: Seq<Page<Reference>>,
) -> bool {
    &&& is_whole(pages)
    &&& forall|k: int|
        0 <= k < pages.len() ==> serves_references(
            t,
            operation,
            side,
            id,
            limit,
            cursor_of(pages, k),
            Ok(#[trigger] pages[k]),
        )
}

proof fn lemma_reference_cut(
    t: Tables,
    operation: Seq<char>,
    side: ReferenceSide,
    id: NodeId,
    limit: PageLimit,
    pages: Seq<Page<Reference>>,
    k: int,
)
    requires
        1 <= limit.size(),
        t.ascending_rows(),
        forall|i: int| 0 <= i < t.references.len() ==> (#[trigger] t.references[i]).row_id > 0,
        is_reference_run(t, operation, side, id, limit, pages),
        0 <= k < pages.len(),
    ensures
        reference_views(pages[k].items@) == references_of(
            page_items(touching(t, side, id), k * limit.size(), limit.size()),
        ),
        cursor_view(pages[k].next_cursor) == if (k + 1) * limit.size() < touching(
            t,
            side,
            id,
        ).len() {
            Some(
                CursorView {
                    revision: t.revision,
                    scope: reference_scope(operation, id),
                    position: PositionView::Reference {
                        row_id: touching(t, side, id)[(k + 1) * limit.size() - 1].row_id,
                    },
                },
            )
        } else {
            None
        },
    decreases k,
{
    let size = limit.size();
    let all = touching(t, side, id);
    let from = k * size;
    let cursor = cursor_of(pages, k);
    assert((k + 1) * size == from + size) by (nonlinear_arith)
        requires
            from == k * size,
    ;
    assert(serves_references(t, operation, side, id, limit, cursor, Ok(pages[k])));
    if k == 0 {
        assert(from == 0) by (nonlinear_arith)
            requires
                from == k * size,
                k == 0,
        ;
        let pred = |r: RowView| r.row_id > 0u64;
        lemma_filter_facts(
            t.references,
            |r: RowView| crate::references::touches(r.reference, side, id),
        );
        if all.len() > 0 {
            assert(all.contains(all[0]));
            let m = choose|m: int| 0 <= m < t.references.len() && t.references[m] == all[0];
            assert(t.references[m].row_id > 0);
            assert(pred(all[0]));
        }
        assert(start_of(all, pred) == 0);
        assert((|r: RowView| r.row_id > 0) =~= pred);
    } else {
        lemma_reference_cut(t, operation, side, id, limit, pages, k - 1);
        assert(pages[k - 1].next_cursor is Some);
        assert((k - 1 + 1) * size == from);
        assert(from > 0) by (nonlinear_arith)
            requires
                from == k * size,
                k > 0,
                size >= 1,
        ;
        law_references_resume(t, side, id, from);
    }
}

/// Read page after page until none follows, the references on one side of a node come
/// out whole: each once, in stored order, and no page is longer than the limit.
pub proof fn law_reference_run(
    t: Tables,
    operation: Seq<char>,
    side: ReferenceSide,
    id: NodeId,
    limit: PageLimit,
    pages: Seq<Page<Reference>>,
)
    requires
        1 <= limit.size(),
        t.ascending_rows(),
        forall|i: int| 0 <= i < t.references.len() ==> (#[trigger] t.references[i]).row_id > 0,
        is_reference_run(t, operation, side, id, limit, pages),
    ensures
        reference_views(joined(pages, pages.len() as int)) == references_of(
            touching(t, side, id),
        ),
        forall|k: int|
            0 <= k < pages.len() ==> (#[trigger] pages[k]).items@.len() <= limit.size(),
{
    let n = pages.len() as int;
    let size = limit.size();
    let all = touching(t, side, id);
    let cut = Seq::new(pages.len(), |k: int| page_items(all, k * size, size));
    assert forall|k: int| 0 <= k < n implies reference_views((#[trigger] pages[k]).items@)
        == references_of(cut[k]) && (k < n - 1 ==> (k + 1) * size < all.len())
        && pages[k].items@.len() <= size by {
        lemma_reference_cut(t, operation, side, id, limit, pages, k);
        assert(reference_views(pages[k].items@).len() == pages[k].items@.len());
        assert(references_of(cut[k]).len() == cut[k].len());
        assert(k * size >= 0) by (nonlinear_arith)
            requires
                k >= 0,
                size >= 1,
        ;
    }
    assert forall|k: int| 0 <= k < n - 1 implies (#[trigger] identity(k) + 1) * size
        < all.len() by {
        assert(pages[k].items@.len() <= size);
    }
    lemma_cut_pages(all, cut, size, n);
    lemma_reference_cut(t, operation, side, id, limit, pages, n - 1);
    assert((n - 1 + 1) * size == n * size);
    lemma_joined_references(pages, cut, n);
}

proof fn lemma_joined_references(pages: Seq<Page<Reference>>, cut: Seq<Seq<RowView>>, n: int)
    requires
        0 <= n <= pages.len(),
        cut.len() == pages.len(),
        forall|k: int|
            0 <= k < pages.len() ==> reference_views((#[trigger] pages[k]).items@)
                == references_of(cut[k]),
    ensures
        reference_views(joined(pages, n)) == references_of(flat(cut, n)),
    decreases n,
{
    if n > 0 {
        lemma_joined_references(pages, cut, n - 1);
        assert(reference_views(pages[n - 1].items@) == references_of(cut[n - 1]));
        assert(reference_views(joined(pages, n)) =~= reference_views(joined(pages, n - 1))
            + reference_views(pages[n - 1].items@));
        assert(references_of(flat(cut, n)) =~= references_of(flat(cut, n - 1)) + references_of(
            cut[n - 1],
        ));
    } else {
        assert(reference_views(joined(pages, n)) =~= references_of(flat(cut, n)));
    }
}

/// Whether the pages are read one after the other from one content search.
pub open spec fn is_search_run(
    t: Tables,
    scope: ScopeView,
    hits: Seq<HitView>,
    scores: Seq<u64>,
    limit: PageLimit,
    pages: Seq<Page<SearchMatch>>,
) -> bool {
    &&& is_whole(pages)
    &&& forall|k: int|
        0 <= k < pages.len() ==> serves_search(
            t,
            scope,
            hits,
            scores,
            limit,
            cursor_of(pages, k),
            Ok(#[trigger] pages[k]),
        )
}

proof fn lemma_search_cut(
    t: Tables,
    scope: ScopeView,
    hits: Seq<HitView>,
    scores: Seq<u64>,
    limit: PageLimit,
    pages: Seq<Page<SearchMatch>>,
    listed: Seq<usize>,
    k: int,
)
    requires
        1 <= limit.size(),
        is_search_run(t, scope, hits, scores, limit, pages),
        ranks_hits(hits, scores, listed),
        listed.len() <= u32::MAX,
        0 <= k < pages.len(),
    ensures
        presents_hits(
            t.nodes,
            hits,
            scores,
            page_items(listed, k * limit.size(), limit.size()),
            pages[k].items@,
        ),
        k * limit.size() <= u32::MAX,
        cursor_view(pages[k].next_cursor) == if (k + 1) * limit.size() < listed.len() {
            Some(
                CursorView {
                    revision: t.revision,
                    scope,
                    position: PositionView::Search { offset: ((k + 1) * limit.size()) as u32 },
                },
            )
        } else {
            None
        },
    decreases k,
{
    let size = limit.size();
    let cursor = cursor_of(pages, k);
    let start = k * size;
    assert((k + 1) * size == start + size) by (nonlinear_arith)
        requires
            start == k * size,
    ;
    assert(serves_search(t, scope, hits, scores, limit, cursor, Ok(pages[k])));
    if k > 0 {
        lemma_search_cut(t, scope, hits, scores, limit, pages, listed, k - 1);
        assert(pages[k - 1].next_cursor is Some);
        assert((k - 1 + 1) * size == start);
        assert(start > 0) by (nonlinear_arith)
            requires
                start == k * size,
                k > 0,
                size >= 1,
        ;
    } else {
        assert(start == 0) by (nonlinear_arith)
            requires
                start == k * size,
                k == 0,
        ;
    }
    assert(offset_start(cursor, scope, t.revision) == Ok::<u32, PaginationError>(start as u32));
    let own = choose|own: Seq<usize>|
        {
            &&& #[trigger] ranks_hits(hits, scores, own)
            &&& match listing_refusal(t.nodes, hits, own, own.len() as int) {
                Some(e) => false,
                None => {
                    &&& presents_hits(
                        t.nodes,
                        hits,
                        scores,
                        page_items(own, start, size),
                        pages[k].items@,
                    )
                    &&& cursor_view(pages[k].next_cursor) == if start + size < own.len() {
                        Some(
                            CursorView {
                                revision: t.revision,
                                scope,
                                position: PositionView::Search {
                                    offset: crate::search::moved_offset(start, size),
                                },
                            },
                        )
                    } else {
                        None
                    }
                },
            }
        };
    lemma_lists_unique(
        Seq::new(hits.len(), |i: int| i as usize),
        |i: usize| is_best(hits, scores, i as int),
        |i: usize| result_key(hits, scores, i as int),
        own,
        listed,
    );
}

/// Read page after page until none follows, the matches of a content search come out
/// whole: every ranked hit once, in rank order, and no page is longer than the limit.
pub proof fn law_search_run(
    t: Tables,
    scope: ScopeView,
    hits: Seq<HitView>,
    scores: Seq<u64>,
    limit: PageLimit,
    pages: Seq<Page<SearchMatch>>,
    listed: Seq<usize>,
)
    requires
        1 <= limit.size(),
        is_search_run(t, scope, hits, scores, limit, pages),
        ranks_hits(hits, scores, listed),
        listed.len() <= u32::MAX,
    ensures
        presents_hits(t.nodes, hits, scores, listed, joined(pages, pages.len() as int)),
        forall|k: int|
            0 <= k < pages.len() ==> (#[trigger] pages[k]).items@.len() <= limit.size(),
{
    let n = pages.len() as int;
    let size = limit.size();
    let cut = Seq::new(pages.len(), |k: int| page_items(listed, k * size, size));
    assert forall|k: int| 0 <= k < n implies presents_hits(
        t.nodes,
        hits,
        scores,
        cut[k],
        (#[trigger] pages[k]).items@,
    ) && pages[k].items@.len() <= size && (k < n - 1 ==> (k + 1) * size < listed.len()) by {
        lemma_search_cut(t, scope, hits, scores, limit, pages, listed, k);
        assert(k * size >= 0) by (nonlinear_arith)
            requires
                k >= 0,
                size >= 1,
        ;
    }
    assert forall|k: int| 0 <= k < n - 1 implies (#[trigger] identity(k) + 1) * size
        < listed.len() by {
        assert(pages[k].items@.len() <= size);
    }
    lemma_cut_pages(listed, cut, size, n);
    lemma_search_cut(t, scope, hits, scores, limit, pages, listed, n - 1);
    assert((n - 1 + 1) * size == n * size);
    lemma_joined_matches(t.nodes, hits, scores, pages, cut, n);
}

proof fn lemma_joined_matches(
    nodes: Seq<Node>,
    hits: Seq<HitView>,
    scores: Seq<u64>,
    pages: Seq<Page<SearchMatch>>,
    cut: Seq<Seq<usize>>,
    n: int,
)
    requires
        0 <= n <= pages.len(),
        cut.len() == pages.len(),
        forall|k: int|
            0 <= k < pages.len() ==> presents_hits(
                nodes,
                hits,
                scores,
                cut[k],
                (#[trigger] pages[k]).items@,
            ),
    ensures
        presents_hits(nodes, hits, scores, flat(cut, n), joined(pages, n)),
    decreases n,
{
    if n > 0 {
        lemma_joined_matches(nodes, hits, scores, pages, cut, n - 1);
        let before = joined(pages, n - 1);
        let all = joined(pages, n);
        assert(presents_hits(nodes, hits, scores, cut[n - 1], pages[n - 1].items@));
        assert forall|i: int| 0 <= i < all.len() implies is_match(
            nodes,
            hits[flat(cut, n)[i] as int],
            scores[flat(cut, n)[i] as int],
            #[trigger] all[i],
        ) by {
            if i < before.len() {
                assert(all[i] == before[i]);
                assert(flat(cut, n)[i] == flat(cut, n - 1)[i]);
            } else {
                assert(all[i] == pages[n - 1].items@[i - before.len()]);
                assert(flat(cut, n)[i] == cut[n - 1][i - before.len()]);
            }
        }
    }
}

} // verus!
