//! Resumable pages of children, siblings, subtrees, references and history.

use crate::model::{not_found, Node, NodeHash, NodeId, Refusal, RevisionView};
use crate::order::{lex_less, lex_lt};
use crate::paging::{
    cursor_view, page_items, CursorScope, CursorView, Page, PageCursor, PageLimit, PagePosition,
    PageReadError, PaginationError, PositionView, ScopeView,
};
use crate::reads::{first_from, lists_children};
use crate::reorder::{child_count, count_children};
use crate::tables::{SqliteStore, Tables};
use crate::text::{decimal, push_decimal, text_of};
use crate::traverse::{
    copy_key, make_position_key, position_key, walk, Extent, Placed, TraversalOrder,
};
use crate::tree::{find, is_forest, lookup, present, sibling_key, unique_ids};
use vstd::prelude::*;

verus! {

/// Canonical fields of one node, as reads hand them out.
pub type NodeProjection = Node;

/// The canonical traversal row that pages hand out.
pub type NodeDepthProjection = Placed;

/// Selects nodes by whether they have children.
#[derive(Clone, Copy, Debug, PartialEq, Eq, Structural)]
pub enum StructuralPredicate {
    /// Nodes without children.
    Leaf,
    /// Nodes with children.
    Internal,
}

/// Compact identity of one retained revision.
#[derive(Debug)]
pub struct RevisionSummary {
    pub node_id: NodeId,
    pub version: u64,
    pub created_by: Option<String>,
    pub created_at: u64,
    pub change_summary: Option<String>,
    pub content_hash: NodeHash,
    pub revision_hash: NodeHash,
}

/// Whether the summary is that of the revision.
pub open spec fn summarizes(summary: RevisionSummary, revision: RevisionView) -> bool {
    &&& summary.node_id == revision.node_id
    &&& summary.version == revision.version
    &&& text_of(summary.created_by) == revision.created_by
    &&& summary.created_at == revision.created_at
    &&& text_of(summary.change_summary) == revision.change_summary
    &&& summary.content_hash == revision.content_hash
    &&& summary.revision_hash == revision.revision_hash
}

/// The position of the first item that satisfies `pred`, or the end.
pub open spec fn start_of<T>(all: Seq<T>, pred: spec_fn(T) -> bool) -> int {
    match first_from(all, pred, 0) {
        Some(i) => i,
        None => all.len() as int,
    }
}

/// The continuation after a page: present when more items follow, and then
/// naming the page's last item.
pub open spec fn continues<T>(
    all: Seq<T>,
    start: int,
    limit: int,
    revision: u64,
    scope: ScopeView,
    position: spec_fn(T) -> PositionView,
    next: Option<PageCursor>,
) -> bool {
    cursor_view(next) == if start + limit < all.len() {
        Some(CursorView { revision, scope, position: position(all[start + limit - 1]) })
    } else {
        None
    }
}

/// Cuts one page out of a listing.
pub fn take_page<T>(all: Vec<T>, start: usize, limit: u32) -> (items: Vec<T>)
    requires
        start <= all.len(),
    ensures
        items@ == page_items(all@, start as int, limit as int),
{
    let ghost whole = all@;
    let mut all = all;
    let mut items = all.split_off(start);
    assert(items@ =~= whole.skip(start as int));
    if (limit as u64) < items.len() as u64 {
        items.truncate(limit as usize);
        assert(items@ =~= whole.subrange(start as int, start + limit));
    } else {
        assert(items@ =~= page_items(whole, start as int, limit as int));
    }
    assert(items@ =~= page_items(whole, start as int, limit as int));
    items
}

/// What a page of siblings continues after.
pub open spec fn sibling_start(all: Seq<Node>, after: Option<PositionView>) -> Option<int> {
    match after {
        None => Some(0),
        Some(PositionView::Sibling { sibling_order, node_id }) => Some(
            start_of(
                all,
                |n: Node|
                    lex_lt(seq![sibling_order as u128, node_id.value], sibling_key(n)),
            ),
        ),
        Some(_) => None,
    }
}

pub open spec fn sibling_position(node: Node) -> PositionView {
    PositionView::Sibling { sibling_order: node.sibling_order, node_id: node.id }
}

/// What a cursor continues, or why it cannot.
pub open spec fn resume_point(
    cursor: Option<&PageCursor>,
    scope: ScopeView,
    revision: u64,
) -> Result<Option<PositionView>, PaginationError> {
    match cursor {
        None => Ok(None),
        Some(c) => match c@.resumed(scope, revision) {
            Ok(position) => Ok(Some(position)),
            Err(e) => Err(e),
        },
    }
}

/// The outcome of one page read over a listing in a known order.
pub open spec fn is_page<T>(
    result: Result<Page<T>, PageReadError>,
    all: Seq<T>,
    start: Option<int>,
    limit: int,
    revision: u64,
    scope: ScopeView,
    position: spec_fn(T) -> PositionView,
) -> bool {
    match start {
        None => result matches Err(PageReadError::Pagination(e)) && e
            == PaginationError::InvalidCursorPosition,
        Some(s) => result is Ok && result->Ok_0.items@ == page_items(all, s, limit)
            && result->Ok_0.consistent() && continues(
            all,
            s,
            limit,
            revision,
            scope,
            position,
            result->Ok_0.next_cursor,
        ),
    }
}

/// Whether the read failed with this pagination error.
pub open spec fn fails_with<T>(result: Result<Page<T>, PageReadError>, e: PaginationError) -> bool {
    result matches Err(PageReadError::Pagination(x)) && x == e
}

/// Whether the read failed with this refusal.
pub open spec fn refuses<T>(result: Result<Page<T>, PageReadError>, e: Refusal) -> bool {
    result matches Err(PageReadError::Store(x)) && x@ == e
}

/// Checks a cursor against the request that it should continue.
pub fn resume_at<'a>(
    cursor: Option<&'a PageCursor>,
    scope: &CursorScope,
    revision: u64,
) -> (result: Result<Option<&'a PagePosition>, PaginationError>)
    ensures
        match resume_point(cursor, scope@, revision) {
            Ok(None) => result is Ok && result->Ok_0 is None,
            Ok(Some(p)) => result is Ok && result->Ok_0 is Some && result->Ok_0->0@ == p,
            Err(e) => result == Err::<Option<&PagePosition>, PaginationError>(e),
        },
{
    match cursor {
        None => Ok(None),
        Some(c) => match c.resume(scope, revision) {
            Ok(p) => Ok(Some(p)),
            Err(e) => Err(e),
        },
    }
}

/// First sibling after a position.
fn sibling_after(all: &Vec<Node>, sibling_order: u32, node_id: NodeId) -> (start: usize)
    ensures
        start == start_of(
            all@,
            |n: Node| lex_lt(seq![sibling_order as u128, node_id.value], sibling_key(n)),
        ),
        start <= all.len(),
{
    let ghost pred = |n: Node|
        lex_lt(seq![sibling_order as u128, node_id.value], sibling_key(n));
    let mut i: usize = 0;
    while i < all.len()
        invariant
            i <= all.len(),
            pred == (|n: Node| lex_lt(seq![sibling_order as u128, node_id.value], sibling_key(n))),
            first_from(all@, pred, 0) == first_from(all@, pred, i as int),
        decreases all.len() - i,
    {
        proof {
            crate::order::lemma_lex_pair(
                sibling_order as u128,
                node_id.value,
                all@[i as int].sibling_order as u128,
                all@[i as int].id.value,
            );
        }
        if sibling_order < all[i].sibling_order || (sibling_order == all[i].sibling_order
            && node_id.value < all[i].id.value) {
            return i;
        }
        i = i + 1;
    }
    i
}

/// Cuts a page out of siblings in order.
fn sibling_page(
    all: Vec<Node>,
    revision: u64,
    scope: CursorScope,
    limit: PageLimit,
    after: Option<&PagePosition>,
) -> (result: Result<Page<NodeProjection>, PageReadError>)
    ensures
        is_page(
            result,
            all@,
            sibling_start(
                all@,
                match after {
                    Some(p) => Some(p@),
                    None => None,
                },
            ),
            limit.size(),
            revision,
            scope@,
            |n: Node| sibling_position(n),
        ),
{
    let ghost whole = all@;
    let start: usize = match after {
        None => 0,
        Some(PagePosition::Sibling { sibling_order, node_id }) => sibling_after(
            &all,
            *sibling_order,
            *node_id,
        ),
        Some(_) => {
            return Err(PageReadError::Pagination(PaginationError::InvalidCursorPosition));
        },
    };
    let size: u32 = limit.get();
    let total: usize = all.len();
    let items = take_page(all, start, size);
    let next: Option<PageCursor> = if (size as u64) < (total - start) as u64 {
        let last = &items[items.len() - 1];
        assert(*last == whole[start + size - 1]);
        Some(
            PageCursor::issue(
                revision,
                scope,
                PagePosition::Sibling { sibling_order: last.sibling_order, node_id: last.id },
            ),
        )
    } else {
        None
    };
    Ok(Page::new(items, next))
}

pub open spec fn sibling_scope(operation: Seq<char>, id: NodeId) -> ScopeView {
    ScopeView { operation, node_id: Some(id), request_key: "canonical_sibling_order"@ }
}

impl SqliteStore {
    /// Returns one resumable page of direct children in canonical sibling order.
    pub fn children_page(&self, id: NodeId, limit: PageLimit, cursor: Option<&PageCursor>) -> (result:
        Result<Page<NodeProjection>, PageReadError>)
        requires
            unique_ids(self@.nodes),
        ensures
            children_page_of(self@, id, limit.size(), cursor, result),
    {
        let scope = CursorScope::new("children", Some(id), "canonical_sibling_order");
        let after = match resume_at(cursor, &scope, self.revision) {
            Ok(after) => after,
            Err(e) => {
                return Err(PageReadError::Pagination(e));
            },
        };
        let all = self.children(id);
        let ghost whole = all@;
        assert(lists_children(self@.nodes, id, whole));
        sibling_page(all, self.revision, scope, limit, after)
    }

    /// Returns one resumable page of siblings, including the selected node.
    pub fn siblings_page(&self, id: NodeId, limit: PageLimit, cursor: Option<&PageCursor>) -> (result:
        Result<Page<NodeProjection>, PageReadError>)
        requires
            unique_ids(self@.nodes),
        ensures
            siblings_page_of(self@, id, limit.size(), cursor, result),
    {
        let node = match self.get(id) {
            Some(node) => node,
            None => {
                return Err(PageReadError::Store(not_found(id)));
            },
        };
        let scope = CursorScope::new("siblings", Some(id), "canonical_sibling_order");
        let after = match resume_at(cursor, &scope, self.revision) {
            Ok(after) => after,
            Err(e) => {
                return Err(PageReadError::Pagination(e));
            },
        };
        let all: Vec<Node> = match node.parent_id {
            Some(parent) => self.children(parent),
            None => {
                let mut only: Vec<Node> = Vec::new();
                only.push(node.copy());
                assert(only@ =~= seq![node]);
                only
            },
        };
        let ghost whole = all@;
        assert(lists_siblings(self@.nodes, node, whole));
        sibling_page(all, self.revision, scope, limit, after)
    }
}

/// The outcome of a page read of the children of a node.
pub open spec fn children_page_of(
    t: Tables,
    id: NodeId,
    limit: int,
    cursor: Option<&PageCursor>,
    result: Result<Page<NodeProjection>, PageReadError>,
) -> bool {
    match resume_point(cursor, sibling_scope("children"@, id), t.revision) {
        Err(e) => fails_with(result, e),
        Ok(after) => exists|all: Seq<Node>|
            {
                &&& #[trigger] lists_children(t.nodes, id, all)
                &&& is_page(
                    result,
                    all,
                    sibling_start(all, after),
                    limit,
                    t.revision,
                    sibling_scope("children"@, id),
                    |n: Node| sibling_position(n),
                )
            },
    }
}

/// The outcome of a page of siblings.
pub open spec fn siblings_page_of(
    t: Tables,
    id: NodeId,
    limit: int,
    cursor: Option<&PageCursor>,
    result: Result<Page<NodeProjection>, PageReadError>,
) -> bool {
    match lookup(t.nodes, id) {
        None => refuses(result, Refusal::NotFound(id.text())),
        Some(node) => match resume_point(cursor, sibling_scope("siblings"@, id), t.revision) {
            Err(e) => fails_with(result, e),
            Ok(after) => exists|all: Seq<Node>|
                {
                    &&& #[trigger] lists_siblings(t.nodes, node, all)
                    &&& is_page(
                        result,
                        all,
                        sibling_start(all, after),
                        limit,
                        t.revision,
                        sibling_scope("siblings"@, id),
                        |n: Node| sibling_position(n),
                    )
                },
        },
    }
}

/// Whether `all` holds the node and its siblings in order.
pub open spec fn lists_siblings(nodes: Seq<Node>, node: Node, all: Seq<Node>) -> bool {
    match node.parent_id {
        Some(parent) => lists_children(nodes, parent, all),
        None => all == seq![node],
    }
}

/// Whether the node is of the wanted shape.
pub open spec fn fits(nodes: Seq<Node>, predicate: StructuralPredicate, node: Node) -> bool {
    let children = child_count(nodes, node.id, nodes.len() as int);
    match predicate {
        StructuralPredicate::Leaf => children == 0,
        StructuralPredicate::Internal => children > 0,
    }
}

/// The text that names a traversal order.
pub open spec fn order_text(order: TraversalOrder) -> Seq<char> {
    match order {
        TraversalOrder::Dfs => "dfs"@,
        TraversalOrder::Bfs => "bfs"@,
    }
}

/// The request key of a traversal.
pub open spec fn traversal_request(order: TraversalOrder, max_depth: Option<u32>) -> Seq<char> {
    "canonical_"@ + order_text(order) + "_order"@ + depth_text(max_depth)
}

pub open spec fn depth_text(max_depth: Option<u32>) -> Seq<char> {
    match max_depth {
        Some(depth) => ";max_depth="@ + decimal(depth as nat),
        None => Seq::empty(),
    }
}

/// The request key of a filtered traversal.
pub open spec fn filter_request(predicate: StructuralPredicate, max_depth: Option<u32>) -> Seq<
    char,
> {
    "canonical_dfs_order;predicate="@ + predicate_text(predicate) + depth_text(max_depth)
}

pub open spec fn predicate_text(predicate: StructuralPredicate) -> Seq<char> {
    match predicate {
        StructuralPredicate::Leaf => "leaf"@,
        StructuralPredicate::Internal => "internal"@,
    }
}

fn push_depth(text: &mut String, max_depth: Option<u32>)
    ensures
        final(text)@ == old(text)@ + depth_text(max_depth),
{
    match max_depth {
        Some(depth) => {
            text.push_str(";max_depth=");
            push_decimal(text, depth as u64);
            assert(text@ =~= old(text)@ + depth_text(max_depth));
        },
        None => {
            assert(text@ =~= old(text)@ + depth_text(max_depth));
        },
    }
}

/// What a traversal page continues after.
pub open spec fn traversal_start(
    order: TraversalOrder,
    all: Seq<Placed>,
    after: Option<PositionView>,
) -> Option<int> {
    match (order, after) {
        (_, None) => Some(0),
        (
            TraversalOrder::Dfs,
            Some(PositionView::Traversal { ordering_path, .. }),
        ) => Some(start_of(all, |p: Placed| placed_after(order, 0, ordering_path, p))),
        (
            TraversalOrder::Bfs,
            Some(PositionView::BreadthTraversal { depth, ordering_path, .. }),
        ) => Some(start_of(all, |p: Placed| placed_after(order, depth as nat, ordering_path, p))),
        _ => None,
    }
}

/// Whether a row comes after the given position.
pub open spec fn placed_after(
    order: TraversalOrder,
    depth: nat,
    path: Seq<u128>,
    placed: Placed,
) -> bool {
    lex_lt(
        position_key(order, depth, path),
        position_key(order, placed.depth as nat, placed.path@),
    )
}

pub open spec fn traversal_position(order: TraversalOrder, placed: Placed) -> PositionView {
    match order {
        TraversalOrder::Dfs => PositionView::Traversal {
            ordering_path: placed.path@,
            node_id: placed.node.id,
        },
        TraversalOrder::Bfs => PositionView::BreadthTraversal {
            depth: placed.depth,
            ordering_path: placed.path@,
            node_id: placed.node.id,
        },
    }
}

/// First row after a position.
fn placed_start(all: &Vec<Placed>, order: TraversalOrder, depth: usize, path: &Vec<u128>) -> (start:
    usize)
    ensures
        start == start_of(all@, |p: Placed| placed_after(order, depth as nat, path@, p)),
        start <= all.len(),
{
    let ghost pred = |p: Placed| placed_after(order, depth as nat, path@, p);
    let key = make_position_key(order, depth, path);
    let mut i: usize = 0;
    while i < all.len()
        invariant
            i <= all.len(),
            key@ == position_key(order, depth as nat, path@),
            pred == (|p: Placed| placed_after(order, depth as nat, path@, p)),
            first_from(all@, pred, 0) == first_from(all@, pred, i as int),
        decreases all.len() - i,
    {
        let here = make_position_key(order, all[i].depth, &all[i].path);
        if lex_less(&key, &here) {
            return i;
        }
        i = i + 1;
    }
    i
}

/// Cuts a page out of a traversal.
fn placed_page(
    all: Vec<Placed>,
    order: TraversalOrder,
    revision: u64,
    scope: CursorScope,
    limit: PageLimit,
    after: Option<&PagePosition>,
) -> (result: Result<Page<NodeDepthProjection>, PageReadError>)
    ensures
        is_page(
            result,
            all@,
            traversal_start(
                order,
                all@,
                match after {
                    Some(p) => Some(p@),
                    None => None,
                },
            ),
            limit.size(),
            revision,
            scope@,
            |p: Placed| traversal_position(order, p),
        ),
{
    let ghost whole = all@;
    let start: usize = match (order, after) {
        (_, None) => 0,
        (
            TraversalOrder::Dfs,
            Some(PagePosition::Traversal { ordering_path, .. }),
        ) => placed_start(&all, order, 0, ordering_path),
        (
            TraversalOrder::Bfs,
            Some(PagePosition::BreadthTraversal { depth, ordering_path, .. }),
        ) => placed_start(&all, order, *depth, ordering_path),
        _ => {
            return Err(PageReadError::Pagination(PaginationError::InvalidCursorPosition));
        },
    };
    let size: u32 = limit.get();
    let total: usize = all.len();
    let items = take_page(all, start, size);
    let next: Option<PageCursor> = if (size as u64) < (total - start) as u64 {
        let last = &items[items.len() - 1];
        assert(*last == whole[start + size - 1]);
        let position: PagePosition = match order {
            TraversalOrder::Dfs => PagePosition::Traversal {
                ordering_path: copy_key(&last.path),
                node_id: last.node.id,
            },
            TraversalOrder::Bfs => PagePosition::BreadthTraversal {
                depth: last.depth,
                ordering_path: copy_key(&last.path),
                node_id: last.node.id,
            },
        };
        Some(PageCursor::issue(revision, scope, position))
    } else {
        None
    };
    Ok(Page::new(items, next))
}

/// The part of the subtree that a traversal page reads. A depth-first page that
/// continues goes by the ordering path alone.
pub open spec fn page_extent(extent: Extent, continued: bool) -> Extent {
    Extent {
        include_root: extent.include_root || (continued && extent.order == TraversalOrder::Dfs),
        ..extent
    }
}

pub open spec fn traversal_scope(operation: Seq<char>, extent: Extent) -> ScopeView {
    ScopeView {
        operation,
        node_id: Some(extent.root),
        request_key: traversal_request(extent.order, extent.max_depth),
    }
}

impl SqliteStore {
    /// Returns one resumable page of a traversal.
    pub fn traversal_page(
        &self,
        operation: &str,
        extent: Extent,
        limit: PageLimit,
        cursor: Option<&PageCursor>,
    ) -> (result: Result<Page<NodeDepthProjection>, PageReadError>)
        requires
            is_forest(self@.nodes),
        ensures
            serves_traversal(self@, operation@, extent, limit, cursor, result),
    {
        let mut key = "canonical_".to_owned();
        match extent.order {
            TraversalOrder::Dfs => {
                key.push_str("dfs");
            },
            TraversalOrder::Bfs => {
                key.push_str("bfs");
            },
        }
        key.push_str("_order");
        push_depth(&mut key, extent.max_depth);
        assert(key@ =~= traversal_request(extent.order, extent.max_depth));
        let scope = CursorScope::new(operation, Some(extent.root), key.as_str());
        let after = match resume_at(cursor, &scope, self.revision) {
            Ok(after) => after,
            Err(e) => {
                return Err(PageReadError::Pagination(e));
            },
        };
        let continued: bool = after.is_some();
        let read = Extent {
            root: extent.root,
            include_root: extent.include_root || (continued && extent.order
                == TraversalOrder::Dfs),
            max_depth: extent.max_depth,
            order: extent.order,
        };
        let all = walk(&self.nodes, read);
        let ghost whole = all@;
        assert(page_extent(extent, continued).walks(self@.nodes, whole));
        placed_page(all, extent.order, self.revision, scope, limit, after)
    }

    /// Returns one resumable page of descendants in canonical DFS order.
    pub fn descendants_page(
        &self,
        id: NodeId,
        limit: PageLimit,
        cursor: Option<&PageCursor>,
    ) -> (result: Result<Page<NodeDepthProjection>, PageReadError>)
        requires
            is_forest(self@.nodes),
        ensures
            serves_traversal(
                self@,
                "descendants"@,
                crate::reads::descendants_extent(id),
                limit,
                cursor,
                result,
            ),
    {
        self.descendants_page_ordered(id, TraversalOrder::Dfs, limit, cursor)
    }

    /// Returns one resumable page of descendants in the selected order.
    pub fn descendants_page_ordered(
        &self,
        id: NodeId,
        order: TraversalOrder,
        limit: PageLimit,
        cursor: Option<&PageCursor>,
    ) -> (result: Result<Page<NodeDepthProjection>, PageReadError>)
        requires
            is_forest(self@.nodes),
        ensures
            serves_traversal(
                self@,
                "descendants"@,
                (Extent { root: id, include_root: false, max_depth: None, order }),
                limit,
                cursor,
                result,
            ),
    {
        self.traversal_page(
            "descendants",
            Extent { root: id, include_root: false, max_depth: None, order },
            limit,
            cursor,
        )
    }

    /// Returns one resumable page containing a node and its canonical DFS
    /// descendants.
    pub fn subtree_page(&self, id: NodeId, limit: PageLimit, cursor: Option<&PageCursor>) -> (result:
        Result<Page<NodeDepthProjection>, PageReadError>)
        requires
            is_forest(self@.nodes),
        ensures
            serves_traversal(
                self@,
                "subtree"@,
                crate::reads::subtree_extent(id),
                limit,
                cursor,
                result,
            ),
    {
        self.subtree_page_ordered(id, TraversalOrder::Dfs, limit, cursor)
    }

    /// Returns one resumable page containing a node and descendants in the
    /// selected order.
    pub fn subtree_page_ordered(
        &self,
        id: NodeId,
        order: TraversalOrder,
        limit: PageLimit,
        cursor: Option<&PageCursor>,
    ) -> (result: Result<Page<NodeDepthProjection>, PageReadError>)
        requires
            is_forest(self@.nodes),
        ensures
            serves_traversal(
                self@,
                "subtree"@,
                (Extent { root: id, include_root: true, max_depth: None, order }),
                limit,
                cursor,
                result,
            ),
    {
        self.traversal_page(
            "subtree",
            Extent { root: id, include_root: true, max_depth: None, order },
            limit,
            cursor,
        )
    }

    /// Returns one resumable bounded-depth DFS page for compact inspection.
    pub fn inspection_traversal_page(
        &self,
        operation: &str,
        id: NodeId,
        max_depth: u32,
        limit: PageLimit,
        cursor: Option<&PageCursor>,
    ) -> (result: Result<Page<NodeDepthProjection>, PageReadError>)
        requires
            is_forest(self@.nodes),
        ensures
            serves_traversal(
                self@,
                operation@,
                (Extent {
                    root: id,
                    include_root: true,
                    max_depth: Some(max_depth),
                    order: TraversalOrder::Dfs,
                }),
                limit,
                cursor,
                result,
            ),
    {
        self.traversal_page(
            operation,
            Extent {
                root: id,
                include_root: true,
                max_depth: Some(max_depth),
                order: TraversalOrder::Dfs,
            },
            limit,
            cursor,
        )
    }

    /// Returns a resumable DFS page filtered by canonical child existence.
    pub fn filtered_subtree_page(
        &self,
        id: NodeId,
        predicate: StructuralPredicate,
        max_depth: Option<u32>,
        limit: PageLimit,
        cursor: Option<&PageCursor>,
    ) -> (result: Result<Page<NodeDepthProjection>, PageReadError>)
        requires
            is_forest(self@.nodes),
        ensures
            serves_filtered(self@, id, predicate, max_depth, limit, cursor, result),
    {
        let mut key = "canonical_dfs_order;predicate=".to_owned();
        match predicate {
            StructuralPredicate::Leaf => {
                key.push_str("leaf");
            },
            StructuralPredicate::Internal => {
                key.push_str("internal");
            },
        }
        push_depth(&mut key, max_depth);
        assert(key@ =~= filter_request(predicate, max_depth));
        let scope = CursorScope::new("filter_nodes", Some(id), key.as_str());
        let after = match resume_at(cursor, &scope, self.revision) {
            Ok(after) => after,
            Err(e) => {
                return Err(PageReadError::Pagination(e));
            },
        };
        match after {
            None => {},
            Some(PagePosition::Traversal { .. }) => {},
            Some(_) => {
                return Err(PageReadError::Pagination(PaginationError::InvalidCursorPosition));
            },
        }
        if find(&self.nodes, id).is_none() {
            return Err(PageReadError::Store(not_found(id)));
        }
        let extent = Extent { root: id, include_root: true, max_depth, order: TraversalOrder::Dfs };
        let walked = walk(&self.nodes, extent);
        let ghost keep = |p: Placed| fits(self@.nodes, predicate, p.node);
        let mut all: Vec<Placed> = Vec::new();
        let ghost mut kept: Seq<Placed> = Seq::empty();
        let mut i: usize = 0;
        assert(walked@.take(0).filter(keep) =~= Seq::<Placed>::empty()) by {
            reveal(Seq::filter);
        }
        while i < walked.len()
            invariant
                i <= walked.len(),
                keep == (|p: Placed| fits(self@.nodes, predicate, p.node)),
                kept == walked@.take(i as int).filter(keep),
                same_rows(kept, all@),
            decreases walked.len() - i,
        {
            proof {
                crate::edits::lemma_filter_step(walked@, keep, i as int);
            }
            let children = count_children(&self.nodes, walked[i].node.id);
            let wanted: bool = match predicate {
                StructuralPredicate::Leaf => children == 0,
                StructuralPredicate::Internal => children > 0,
            };
            if wanted {
                all.push(walked[i].copy());
                proof {
                    kept = kept.push(walked@[i as int]);
                }
            }
            i = i + 1;
        }
        assert(walked@.take(walked@.len() as int) =~= walked@);
        let ghost whole = all@;
        assert(extent.walks(self@.nodes, walked@) && same_rows(walked@.filter(keep), whole));
        assert(lists_fitting(self@.nodes, id, predicate, max_depth, whole));
        placed_page(all, TraversalOrder::Dfs, self.revision, scope, limit, after)
    }
}

/// Whether two row sequences hold the same rows.
pub open spec fn same_rows(a: Seq<Placed>, b: Seq<Placed>) -> bool {
    &&& a.len() == b.len()
    &&& forall|i: int|
        0 <= i < a.len() ==> (#[trigger] a[i]).node == (#[trigger] b[i]).node && a[i].depth
            == b[i].depth && a[i].path@ == b[i].path@
}

/// Whether `all` holds the fitting nodes of a bounded subtree in DFS order.
pub open spec fn lists_fitting(
    nodes: Seq<Node>,
    id: NodeId,
    predicate: StructuralPredicate,
    max_depth: Option<u32>,
    all: Seq<Placed>,
) -> bool {
    exists|walked: Seq<Placed>|
        {
            &&& #[trigger] (Extent {
                root: id,
                include_root: true,
                max_depth,
                order: TraversalOrder::Dfs,
            }).walks(nodes, walked)
            &&& same_rows(walked.filter(|p: Placed| fits(nodes, predicate, p.node)), all)
        }
}

/// The outcome of a traversal page read.
pub open spec fn serves_traversal(
    t: Tables,
    operation: Seq<char>,
    extent: Extent,
    limit: PageLimit,
    cursor: Option<&PageCursor>,
    result: Result<Page<NodeDepthProjection>, PageReadError>,
) -> bool {
    match resume_point(cursor, traversal_scope(operation, extent), t.revision) {
        Err(e) => fails_with(result, e),
        Ok(after) => exists|all: Seq<Placed>|
            {
                &&& #[trigger] page_extent(extent, after is Some).walks(t.nodes, all)
                &&& is_page(
                    result,
                    all,
                    traversal_start(extent.order, all, after),
                    limit.size(),
                    t.revision,
                    traversal_scope(operation, extent),
                    |p: Placed| traversal_position(extent.order, p),
                )
            },
    }
}

/// Whether the result is a page of the nodes of a subtree that satisfy the predicate.
pub open spec fn serves_filtered(
    t: Tables,
    id: NodeId,
    predicate: StructuralPredicate,
    max_depth: Option<u32>,
    limit: PageLimit,
    cursor: Option<&PageCursor>,
    result: Result<Page<NodeDepthProjection>, PageReadError>,
) -> bool {
    let scope = ScopeView {
        operation: "filter_nodes"@,
        node_id: Some(id),
        request_key: filter_request(predicate, max_depth),
    };
    match resume_point(cursor, scope, t.revision) {
        Err(e) => fails_with(result, e),
        Ok(after) => if after is Some && !(after->0 is Traversal) {
            fails_with(result, PaginationError::InvalidCursorPosition)
        } else if !present(t.nodes, id) {
            refuses(result, Refusal::NotFound(id.text()))
        } else {
            exists|all: Seq<Placed>|
                {
                    &&& #[trigger] lists_fitting(
                        t.nodes,
                        id,
                        predicate,
                        max_depth,
                        all,
                    )
                    &&& is_page(
                        result,
                        all,
                        traversal_start(TraversalOrder::Dfs, all, after),
                        limit.size(),
                        t.revision,
                        scope,
                        |p: Placed| traversal_position(TraversalOrder::Dfs, p),
                    )
                }
        },
    }
}

} // verus!
