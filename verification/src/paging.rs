//! Bounded pages and the cursors that continue them.

use crate::model::{NodeId, StoreError};
use crate::tables::same_id;
use vstd::prelude::*;

verus! {

/// The most items that one page holds.
pub const MAX_PAGE_ITEMS: u32 = 100;

/// Stable category of a continuation failure.
#[derive(Clone, Copy, Debug, PartialEq, Eq, Structural)]
pub enum PaginationErrorCode {
    InvalidLimit,
    InvalidCursor,
    StaleCursor,
}

/// A page request that cannot be served.
#[derive(Clone, Copy, Debug, PartialEq, Eq, Structural)]
pub enum PaginationError {
    /// The limit is zero or too large.
    InvalidLimit,
    /// The cursor was issued for another request.
    CursorScopeMismatch,
    /// The cursor does not name a position of this listing.
    InvalidCursorPosition,
    /// The workspace changed since the cursor was issued.
    StaleCursor,
}

impl PaginationError {
    pub open spec fn category(self) -> PaginationErrorCode {
        match self {
            PaginationError::InvalidLimit => PaginationErrorCode::InvalidLimit,
            PaginationError::CursorScopeMismatch => PaginationErrorCode::InvalidCursor,
            PaginationError::InvalidCursorPosition => PaginationErrorCode::InvalidCursor,
            PaginationError::StaleCursor => PaginationErrorCode::StaleCursor,
        }
    }

    /// The stable category.
    pub fn code(&self) -> (code: PaginationErrorCode)
        ensures
            code == self.category(),
    {
        match self {
            PaginationError::InvalidLimit => PaginationErrorCode::InvalidLimit,
            PaginationError::CursorScopeMismatch => PaginationErrorCode::InvalidCursor,
            PaginationError::InvalidCursorPosition => PaginationErrorCode::InvalidCursor,
            PaginationError::StaleCursor => PaginationErrorCode::StaleCursor,
        }
    }
}

/// Failure from a bounded structural page read.
#[derive(Debug)]
pub enum PageReadError {
    /// Canonical storage read failed.
    Store(StoreError),
    /// Limit or continuation validation failed.
    Pagination(PaginationError),
}

impl PageReadError {
    /// The stable pagination category when this is a continuation failure.
    pub fn pagination_code(&self) -> (code: Option<PaginationErrorCode>)
        ensures
            code == match *self {
                PageReadError::Store(_) => None,
                PageReadError::Pagination(error) => Some(error.category()),
            },
    {
        match self {
            PageReadError::Store(_) => None,
            PageReadError::Pagination(error) => Some(error.code()),
        }
    }
}

/// A checked page size.
#[derive(Clone, Copy, Debug, PartialEq, Eq, Structural)]
pub struct PageLimit {
    limit: u32,
}

impl PageLimit {
    pub closed spec fn size(self) -> int {
        self.limit as int
    }

    #[verifier::type_invariant]
    closed spec fn inv(self) -> bool {
        1 <= self.limit <= MAX_PAGE_ITEMS
    }

    pub proof fn lemma_size(self)
        ensures
            0 <= self.size(),
    {
    }

    /// Checks a page size.
    pub fn new(limit: u32) -> (result: Result<PageLimit, PaginationError>)
        ensures
            1 <= limit <= MAX_PAGE_ITEMS ==> result is Ok && result->Ok_0.size() == limit,
            !(1 <= limit <= MAX_PAGE_ITEMS) ==> result == Err::<PageLimit, PaginationError>(
                PaginationError::InvalidLimit,
            ),
    {
        if 1 <= limit && limit <= MAX_PAGE_ITEMS {
            Ok(PageLimit { limit })
        } else {
            Err(PaginationError::InvalidLimit)
        }
    }

    /// The page size.
    pub fn get(&self) -> (limit: u32)
        ensures
            limit == self.size(),
            1 <= limit <= MAX_PAGE_ITEMS,
    {
        proof {
            use_type_invariant(*self);
        }
        self.limit
    }
}

/// The request that a cursor continues.
#[derive(Debug)]
pub struct CursorScope {
    pub operation: String,
    pub node_id: Option<NodeId>,
    pub request_key: String,
}

/// The meaning of a [`CursorScope`].
pub struct ScopeView {
    pub operation: Seq<char>,
    pub node_id: Option<NodeId>,
    pub request_key: Seq<char>,
}

impl View for CursorScope {
    type V = ScopeView;

    open spec fn view(&self) -> ScopeView {
        ScopeView {
            operation: self.operation@,
            node_id: self.node_id,
            request_key: self.request_key@,
        }
    }
}

impl CursorScope {
    pub fn new(operation: &str, node_id: Option<NodeId>, request_key: &str) -> (scope: CursorScope)
        ensures
            scope@ == (ScopeView { operation: operation@, node_id, request_key: request_key@ }),
    {
        CursorScope {
            operation: operation.to_owned(),
            node_id,
            request_key: request_key.to_owned(),
        }
    }

    pub fn copy(&self) -> (scope: CursorScope)
        ensures
            scope@ == self@,
    {
        CursorScope {
            operation: self.operation.clone(),
            node_id: self.node_id,
            request_key: self.request_key.clone(),
        }
    }
}

/// The last item that a page handed out.
#[allow(inconsistent_fields)]
#[derive(Debug)]
pub enum PagePosition {
    Sibling { sibling_order: u32, node_id: NodeId },
    Traversal { ordering_path: Vec<u128>, node_id: NodeId },
    BreadthTraversal { depth: usize, ordering_path: Vec<u128>, node_id: NodeId },
    Search { offset: u32 },
    Reference { row_id: u64 },
}

/// The meaning of a [`PagePosition`].
#[allow(inconsistent_fields)]
pub enum PositionView {
    Sibling { sibling_order: u32, node_id: NodeId },
    Traversal { ordering_path: Seq<u128>, node_id: NodeId },
    BreadthTraversal { depth: usize, ordering_path: Seq<u128>, node_id: NodeId },
    Search { offset: u32 },
    Reference { row_id: u64 },
}

impl View for PagePosition {
    type V = PositionView;

    open spec fn view(&self) -> PositionView {
        match *self {
            PagePosition::Sibling { sibling_order, node_id } => PositionView::Sibling {
                sibling_order,
                node_id,
            },
            PagePosition::Traversal { ordering_path, node_id } => PositionView::Traversal {
                ordering_path: ordering_path@,
                node_id,
            },
            PagePosition::BreadthTraversal {
                depth,
                ordering_path,
                node_id,
            } => PositionView::BreadthTraversal { depth, ordering_path: ordering_path@, node_id },
            PagePosition::Search { offset } => PositionView::Search { offset },
            PagePosition::Reference { row_id } => PositionView::Reference { row_id },
        }
    }
}

/// A continuation of one listing at one workspace revision.
#[derive(Debug)]
pub struct PageCursor {
    pub revision: u64,
    pub scope: CursorScope,
    pub position: PagePosition,
}

/// The meaning of a [`PageCursor`].
pub struct CursorView {
    pub revision: u64,
    pub scope: ScopeView,
    pub position: PositionView,
}

impl View for PageCursor {
    type V = CursorView;

    open spec fn view(&self) -> CursorView {
        CursorView { revision: self.revision, scope: self.scope@, position: self.position@ }
    }
}

impl CursorView {
    /// Where the listing continues, if the cursor belongs to it and is current.
    pub open spec fn resumed(self, scope: ScopeView, revision: u64) -> Result<
        PositionView,
        PaginationError,
    > {
        if self.scope != scope {
            Err(PaginationError::CursorScopeMismatch)
        } else if self.revision != revision {
            Err(PaginationError::StaleCursor)
        } else {
            Ok(self.position)
        }
    }
}

impl PageCursor {
    /// Issues a continuation.
    pub fn issue(revision: u64, scope: CursorScope, position: PagePosition) -> (cursor: PageCursor)
        ensures
            cursor@ == (CursorView { revision, scope: scope@, position: position@ }),
    {
        PageCursor { revision, scope, position }
    }

    /// Checks that the cursor continues this request at this revision.
    pub fn resume(&self, scope: &CursorScope, revision: u64) -> (result: Result<
        &PagePosition,
        PaginationError,
    >)
        ensures
            match self@.resumed(scope@, revision) {
                Ok(position) => result is Ok && result->Ok_0@ == position,
                Err(e) => result == Err::<&PagePosition, PaginationError>(e),
            },
    {
        if self.scope.operation != scope.operation || !same_id(self.scope.node_id, scope.node_id)
            || self.scope.request_key != scope.request_key {
            assert(self.scope@ != scope@);
            return Err(PaginationError::CursorScopeMismatch);
        }
        assert(self.scope@ == scope@);
        if self.revision != revision {
            return Err(PaginationError::StaleCursor);
        }
        Ok(&self.position)
    }
}

/// One page of a listing.
#[derive(Debug)]
pub struct Page<T> {
    pub items: Vec<T>,
    pub next_cursor: Option<PageCursor>,
    /// Whether the listing ends with this page.
    pub complete: bool,
    /// Whether more items follow.
    pub truncated: bool,
}

/// The continuation that a cursor option holds.
pub open spec fn cursor_view(cursor: Option<PageCursor>) -> Option<CursorView> {
    match cursor {
        Some(c) => Some(c@),
        None => None,
    }
}

impl<T> Page<T> {
    /// Whether the flags agree with the continuation.
    pub open spec fn consistent(self) -> bool {
        self.complete == self.next_cursor.is_none() && self.truncated == self.next_cursor.is_some()
    }

    pub fn new(items: Vec<T>, next_cursor: Option<PageCursor>) -> (page: Page<T>)
        ensures
            page.items == items,
            page.next_cursor == next_cursor,
            page.consistent(),
    {
        let truncated: bool = next_cursor.is_some();
        Page { items, next_cursor, complete: !truncated, truncated }
    }
}

/// The items of one page: at most `limit` from `start` on.
pub open spec fn page_items<T>(all: Seq<T>, start: int, limit: int) -> Seq<T> {
    if start >= all.len() {
        Seq::empty()
    } else if start + limit >= all.len() {
        all.skip(start)
    } else {
        all.subrange(start, start + limit)
    }
}

/// The items of all pages of size `limit` from `start` on.
pub open spec fn all_pages<T>(all: Seq<T>, start: int, limit: int) -> Seq<T>
    decreases all.len() - start,
{
    if limit <= 0 || start < 0 || start + limit >= all.len() {
        page_items(all, start, limit)
    } else {
        page_items(all, start, limit) + all_pages(all, start + limit, limit)
    }
}

/// Reading page after page yields every item exactly once, in order.
pub proof fn lemma_pages_complete<T>(all: Seq<T>, start: int, limit: int)
    requires
        0 <= start <= all.len(),
        1 <= limit,
    ensures
        all_pages(all, start, limit) == all.skip(start),
    decreases all.len() - start,
{
    if start + limit < all.len() {
        lemma_pages_complete(all, start + limit, limit);
        assert(page_items(all, start, limit) + all.skip(start + limit) =~= all.skip(start));
    } else {
        assert(page_items(all, start, limit) =~= all.skip(start));
    }
}

} // verus!
