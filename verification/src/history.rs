//! Pages of retained revisions and of subtree differences.

use crate::integrity::{offset_cursor, offset_start, start_offset};
use crate::model::{invalid_data, not_found, NodeId, Refusal, RevisionView};
use crate::pages::{fails_with, refuses, summarizes, take_page, RevisionSummary};
use crate::paging::{
    page_items, CursorScope, Page, PageCursor, PageLimit, PagePosition, PageReadError,
    PaginationError, ScopeView,
};
use crate::reads::lists_revisions;
use crate::tables::{revision_views, SqliteStore, Tables};
use crate::text::copy_text;
use crate::tree::{find, present};
use vstd::prelude::*;

verus! {

/// Whether the summaries are those of the revisions, in order.
pub open spec fn summarize_all(summaries: Seq<RevisionSummary>, revisions: Seq<RevisionView>) -> bool {
    &&& summaries.len() == revisions.len()
    &&& forall|i: int|
        0 <= i < summaries.len() ==> summarizes(#[trigger] summaries[i], revisions[i])
}

pub open spec fn history_scope(id: NodeId) -> ScopeView {
    ScopeView {
        operation: "revision_history"@,
        node_id: Some(id),
        request_key: "newest_first"@,
    }
}

/// The request key of a comparison of two subtrees.
pub open spec fn diff_request(to_root: NodeId) -> Seq<char> {
    "to_root="@ + to_root.text() + ";stable_id_then_relative_path"@
}

pub open spec fn diff_scope(from_root: NodeId, to_root: NodeId) -> ScopeView {
    ScopeView {
        operation: "subtree_diff"@,
        node_id: Some(from_root),
        request_key: diff_request(to_root),
    }
}

/// The items of a page that starts at an offset, which may lie past the end.
pub fn offset_items<T>(all: Vec<T>, start: u32, limit: u32) -> (items: Vec<T>)
    ensures
        items@ == page_items(all@, start as int, limit as int),
{
    if start as u64 >= all.len() as u64 {
        let items: Vec<T> = Vec::new();
        assert(items@ =~= page_items(all@, start as int, limit as int));
        items
    } else {
        take_page(all, start as usize, limit)
    }
}

impl SqliteStore {
    /// Returns retained revisions newest-first without historical bodies.
    pub fn revision_history_page(
        &self,
        id: NodeId,
        limit: PageLimit,
        cursor: Option<&PageCursor>,
    ) -> (result: Result<Page<RevisionSummary>, PageReadError>)
        requires
            self@.unique_versions(),
        ensures
            reads_history(self@, id, limit, cursor, result),
    {
        if find(&self.nodes, id).is_none() {
            return Err(PageReadError::Store(not_found(id)));
        }
        let scope = CursorScope::new("revision_history", Some(id), "newest_first");
        let start: u32 = match start_offset(cursor, &scope, self.revision) {
            Ok(start) => start,
            Err(e) => {
                return Err(PageReadError::Pagination(e));
            },
        };
        let revisions = self.revisions(id);
        let ghost oldest_first = revision_views(revisions@);
        assert(lists_revisions(self@, id, oldest_first));
        let mut all: Vec<RevisionSummary> = Vec::new();
        let mut i: usize = revisions.len();
        while i > 0
            invariant
                i <= revisions.len(),
                oldest_first == revision_views(revisions@),
                all.len() == revisions.len() - i,
                forall|k: int|
                    0 <= k < all.len() ==> summarizes(
                        #[trigger] all@[k],
                        oldest_first[oldest_first.len() - 1 - k],
                    ),
            decreases i,
        {
            i = i - 1;
            let revision = &revisions[i];
            assert(oldest_first[i as int] == revision@);
            all.push(
                RevisionSummary {
                    node_id: revision.node_id,
                    version: revision.version,
                    created_by: copy_text(&revision.created_by),
                    created_at: revision.created_at,
                    change_summary: copy_text(&revision.change_summary),
                    content_hash: revision.content_hash,
                    revision_hash: revision.revision_hash,
                },
            );
        }
        let ghost whole = all@;
        let ghost newest = oldest_first.reverse();
        assert(summarize_all(whole, newest));
        let size: u32 = limit.get();
        let total: usize = all.len();
        let items = offset_items(all, start, size);
        proof {
            let expected = page_items(newest, start as int, size as int);
            assert(items@.len() == expected.len());
            assert forall|k: int| 0 <= k < items@.len() implies summarizes(
                #[trigger] items@[k],
                expected[k],
            ) by {
                assert(items@[k] == whole[start + k]);
                assert(expected[k] == newest[start + k]);
            }
        }
        let next: Option<PageCursor> = if (start as u64) + (size as u64) < total as u64 {
            if size > u32::MAX - start {
                return Err(PageReadError::Store(invalid_data("revision history offset")));
            }
            Some(
                PageCursor::issue(
                    self.revision,
                    scope,
                    PagePosition::Search { offset: start + size },
                ),
            )
        } else {
            None
        };
        Ok(Page::new(items, next))
    }

    /// Returns one bounded deterministic page of the differences between two
    /// current subtrees.
    pub fn subtree_diff_page<T>(
        &self,
        from_root: NodeId,
        to_root: NodeId,
        differences: Vec<T>,
        limit: PageLimit,
        cursor: Option<&PageCursor>,
    ) -> (result: Result<Page<T>, PageReadError>)
        ensures
            match offset_start(cursor, diff_scope(from_root, to_root), self@.revision) {
                Err(e) => fails_with(result, e),
                Ok(start) => if !present(self@.nodes, from_root) {
                    refuses(result, Refusal::NotFound(from_root.text()))
                } else if !present(self@.nodes, to_root) {
                    refuses(result, Refusal::NotFound(to_root.text()))
                } else if start > differences@.len() {
                    fails_with(result, PaginationError::InvalidCursorPosition)
                } else if start + limit.size() < differences@.len() && start + limit.size()
                    > u32::MAX {
                    refuses(result, Refusal::InvalidData("subtree diff offset"@))
                } else {
                    &&& result is Ok
                    &&& result->Ok_0.items@ == page_items(
                        differences@,
                        start as int,
                        limit.size(),
                    )
                    &&& result->Ok_0.consistent()
                    &&& offset_cursor(
                        differences@.len() as int,
                        start as int,
                        limit.size(),
                        self@.revision,
                        diff_scope(from_root, to_root),
                        result->Ok_0.next_cursor,
                    )
                },
            },
    {
        let mut key = "to_root=".to_owned();
        let name = to_root.to_text();
        key.push_str(name.as_str());
        key.push_str(";stable_id_then_relative_path");
        let scope = CursorScope::new("subtree_diff", Some(from_root), key.as_str());
        assert(scope@ == diff_scope(from_root, to_root));
        let start: u32 = match start_offset(cursor, &scope, self.revision) {
            Ok(start) => start,
            Err(e) => {
                return Err(PageReadError::Pagination(e));
            },
        };
        if find(&self.nodes, from_root).is_none() {
            return Err(PageReadError::Store(not_found(from_root)));
        }
        if find(&self.nodes, to_root).is_none() {
            return Err(PageReadError::Store(not_found(to_root)));
        }
        let total: usize = differences.len();
        if start as u64 > total as u64 {
            return Err(PageReadError::Pagination(PaginationError::InvalidCursorPosition));
        }
        let size: u32 = limit.get();
        let items = offset_items(differences, start, size);
        let next: Option<PageCursor> = if (start as u64) + (size as u64) < total as u64 {
            if size > u32::MAX - start {
                return Err(PageReadError::Store(invalid_data("subtree diff offset")));
            }
            Some(
                PageCursor::issue(
                    self.revision,
                    scope,
                    PagePosition::Search { offset: start + size },
                ),
            )
        } else {
            None
        };
        Ok(Page::new(items, next))
    }
}

/// The outcome of a history page read over revisions newest first.
pub open spec fn serves_history(
    t: Tables,
    id: NodeId,
    newest: Seq<RevisionView>,
    start: int,
    limit: PageLimit,
    result: Result<Page<RevisionSummary>, PageReadError>,
) -> bool {
    let size = limit.size();
    if start + size < newest.len() && start + size > u32::MAX {
        refuses(result, Refusal::InvalidData("revision history offset"@))
    } else {
        &&& result is Ok
        &&& summarize_all(result->Ok_0.items@, page_items(newest, start, size))
        &&& result->Ok_0.consistent()
        &&& offset_cursor(
            newest.len() as int,
            start,
            size,
            t.revision,
            history_scope(id),
            result->Ok_0.next_cursor,
        )
    }
}

/// Whether the result is a page of the history of a node, the newest revision first.
pub open spec fn reads_history(
    t: Tables,
    id: NodeId,
    limit: PageLimit,
    cursor: Option<&PageCursor>,
    result: Result<Page<RevisionSummary>, PageReadError>,
) -> bool {
    if !present(t.nodes, id) {
        refuses(result, Refusal::NotFound(id.text()))
    } else {
        match offset_start(cursor, history_scope(id), t.revision) {
            Err(e) => fails_with(result, e),
            Ok(start) => exists|oldest_first: Seq<RevisionView>|
                {
                    &&& #[trigger] lists_revisions(t, id, oldest_first)
                    &&& serves_history(
                        t,
                        id,
                        oldest_first.reverse(),
                        start as int,
                        limit,
                        result,
                    )
                },
        }
    }
}

} // verus!
