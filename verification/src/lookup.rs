//! Bounded lookups of many nodes, with an outcome per item.

use crate::model::{invalid_data, Node, NodeId, Refusal, StoreError};
use crate::mutate::first_refusal;
use crate::pages::{children_page_of, NodeProjection};
use crate::paging::{
    Page, PageCursor, PageLimit, PageReadError, PaginationError, PaginationErrorCode,
};
use crate::reads::{resolved, NodeSelector};
use crate::tables::{SqliteStore, Tables};
use crate::text::{decimal, joined, push_wide};
use crate::tree::unique_ids;
use vstd::prelude::*;

verus! {

/// The most selectors of one batch lookup.
pub const MAX_BATCH_ITEMS: usize = 100;

/// The most parents of one batch lookup.
pub const MAX_BATCH_PARENTS: usize = 50;

/// The most children that one batch lookup asks for.
pub const MAX_BATCH_CHILDREN: u32 = 100;

/// A selector as the caller wrote it, with what it reads as or why it does not.
#[derive(Debug)]
pub struct SelectorText {
    pub raw: String,
    pub parsed: Result<NodeSelector, String>,
}

/// A per-item failure.
#[derive(Debug)]
pub struct BatchLookupError {
    pub code: String,
    pub message: String,
}

/// The outcome of one selector.
#[derive(Debug)]
pub struct BatchNodeLookupItem {
    pub selector: String,
    pub node: Option<NodeProjection>,
    pub error: Option<BatchLookupError>,
}

/// Whether the error has this code and message.
pub open spec fn is_failure(
    error: Option<BatchLookupError>,
    code: Seq<char>,
    message: Seq<char>,
) -> bool {
    error matches Some(e) && e.code@ == code && e.message@ == message
}

fn failure(code: &str, message: &str) -> (error: Option<BatchLookupError>)
    ensures
        is_failure(error, code@, message@),
{
    Some(BatchLookupError { code: code.to_owned(), message: message.to_owned() })
}

/// Whether the item is the outcome of the selector.
pub open spec fn answers(nodes: Seq<Node>, selector: SelectorText, item: BatchNodeLookupItem) -> bool {
    &&& item.selector@ == selector.raw@
    &&& match selector.parsed {
        Err(message) => item.node is None && is_failure(
            item.error,
            "invalid_selector"@,
            message@,
        ),
        Ok(s) => match resolved(nodes, s) {
            Ok(Some(node)) => item.node == Some(node) && item.error is None,
            Ok(None) => item.node is None && is_failure(
                item.error,
                "not_found"@,
                "node not found: "@ + selector.raw@,
            ),
            Err(_) => false,
        },
    }
}

/// Why a selector fails the whole batch.
pub open spec fn selector_refusal(nodes: Seq<Node>, selector: SelectorText) -> Option<Refusal> {
    match selector.parsed {
        Err(_) => None,
        Ok(s) => match resolved(nodes, s) {
            Ok(_) => None,
            Err(e) => Some(e),
        },
    }
}

/// The refusal of a count outside its bounds.
pub open spec fn count_refusal(prefix: Seq<char>, count: nat, limit: Seq<char>) -> Refusal {
    Refusal::InvalidData(prefix + decimal(count) + " is outside 1..="@ + limit)
}

impl SqliteStore {
    /// Resolves a bounded selector list in caller order with per-item errors.
    pub fn batch_node_lookup(&self, selectors: &Vec<SelectorText>) -> (result: Result<
        Vec<BatchNodeLookupItem>,
        StoreError,
    >)
        requires
            unique_ids(self@.nodes),
        ensures
            ({
                let n = selectors@.len() as int;
                if n == 0 || n > MAX_BATCH_ITEMS {
                    result is Err && result->Err_0@ == count_refusal(
                        "batch selector count "@,
                        n as nat,
                        "100"@,
                    )
                } else {
                    match first_refusal(
                        n,
                        |i: int| selector_refusal(self@.nodes, selectors@[i]),
                    ) {
                        Some(e) => result is Err && result->Err_0@ == e,
                        None => result is Ok && result->Ok_0@.len() == n && forall|i: int|
                            0 <= i < n ==> answers(
                                self@.nodes,
                                selectors@[i],
                                #[trigger] result->Ok_0@[i],
                            ),
                    }
                }
            }),
    {
        if selectors.len() == 0 || selectors.len() > MAX_BATCH_ITEMS {
            let mut text = "batch selector count ".to_owned();
            push_wide(&mut text, selectors.len() as u128);
            text.push_str(" is outside 1..=");
            text.push_str("100");
            return Err(StoreError::InvalidData(text));
        }
        let ghost nodes = self@.nodes;
        let ghost check = |i: int| selector_refusal(nodes, selectors@[i]);
        let mut items: Vec<BatchNodeLookupItem> = Vec::new();
        let mut i: usize = 0;
        while i < selectors.len()
            invariant
                i <= selectors.len(),
                1 <= selectors.len() <= MAX_BATCH_ITEMS,
                nodes == self@.nodes,
                unique_ids(nodes),
                check == (|i: int| selector_refusal(nodes, selectors@[i])),
                first_refusal(i as int, check) is None,
                items.len() == i,
                forall|k: int| 0 <= k < i ==> answers(nodes, selectors@[k], #[trigger] items@[k]),
            decreases selectors.len() - i,
        {
            let selector = &selectors[i];
            match &selector.parsed {
                Err(message) => {
                    items.push(
                        BatchNodeLookupItem {
                            selector: selector.raw.clone(),
                            node: None,
                            error: failure("invalid_selector", message.as_str()),
                        },
                    );
                },
                Ok(parsed) => match self.resolve(parsed) {
                    Ok(Some(node)) => {
                        items.push(
                            BatchNodeLookupItem {
                                selector: selector.raw.clone(),
                                node: Some(node),
                                error: None,
                            },
                        );
                    },
                    Ok(None) => {
                        let message = joined("node not found: ", selector.raw.as_str());
                        items.push(
                            BatchNodeLookupItem {
                                selector: selector.raw.clone(),
                                node: None,
                                error: failure("not_found", message.as_str()),
                            },
                        );
                    },
                    Err(e) => {
                        proof {
                            crate::mutate::lemma_first_refusal(
                                i + 1,
                                selectors@.len() as int,
                                check,
                            );
                        }
                        return Err(e);
                    },
                },
            }
            i = i + 1;
        }
        Ok(items)
    }
}

/// One grouped child request.
#[derive(Debug)]
pub struct BatchChildrenRequest {
    pub parent: SelectorText,
    pub limit: u32,
    /// The continuation, read from its text, or why it cannot be read.
    pub cursor: Option<Result<PageCursor, String>>,
}

/// The outcome of one child request.
#[derive(Debug)]
pub struct BatchChildrenLookupItem {
    pub parent: String,
    pub page: Option<Page<NodeProjection>>,
    pub error: Option<BatchLookupError>,
}

/// The sum of the limits of the first `n` requests.
pub open spec fn limit_sum(requests: Seq<BatchChildrenRequest>, n: int) -> nat
    decreases n,
{
    if n <= 0 {
        0
    } else {
        limit_sum(requests, n - 1) + requests[n - 1].limit as nat
    }
}

/// The code and message of a pagination failure.
pub open spec fn code_text(code: PaginationErrorCode) -> Seq<char> {
    match code {
        PaginationErrorCode::InvalidLimit => "invalid_limit"@,
        PaginationErrorCode::InvalidCursor => "invalid_cursor"@,
        PaginationErrorCode::StaleCursor => "stale_cursor"@,
    }
}

/// The message of a pagination failure.
pub open spec fn pagination_text(e: PaginationError) -> Seq<char> {
    match e {
        PaginationError::InvalidLimit => "page limit is outside 1..=100"@,
        PaginationError::CursorScopeMismatch => "cursor belongs to a different request"@,
        PaginationError::InvalidCursorPosition => "cursor position is invalid for this request"@,
        PaginationError::StaleCursor => "workspace changed since the cursor was issued"@,
    }
}

fn pagination_failure(e: PaginationError) -> (error: Option<BatchLookupError>)
    ensures
        is_failure(error, code_text(e.category()), pagination_text(e)),
{
    let code: &str = match e.code() {
        PaginationErrorCode::InvalidLimit => "invalid_limit",
        PaginationErrorCode::InvalidCursor => "invalid_cursor",
        PaginationErrorCode::StaleCursor => "stale_cursor",
    };
    let message: &str = match e {
        PaginationError::InvalidLimit => "page limit is outside 1..=100",
        PaginationError::CursorScopeMismatch => "cursor belongs to a different request",
        PaginationError::InvalidCursorPosition => "cursor position is invalid for this request",
        PaginationError::StaleCursor => "workspace changed since the cursor was issued",
    };
    failure(code, message)
}

/// Whether the item is the outcome of the request.
pub open spec fn answers_children(
    t: Tables,
    request: BatchChildrenRequest,
    item: BatchChildrenLookupItem,
) -> bool {
    &&& item.parent@ == request.parent.raw@
    &&& match request.parent.parsed {
        Err(message) => item.page is None && is_failure(
            item.error,
            "invalid_selector"@,
            message@,
        ),
        Ok(s) => match resolved(t.nodes, s) {
            Err(_) => false,
            Ok(None) => item.page is None && is_failure(
                item.error,
                "not_found"@,
                "node not found: "@ + request.parent.raw@,
            ),
            Ok(Some(parent)) => if !(1 <= request.limit <= crate::paging::MAX_PAGE_ITEMS) {
                item.page is None && is_failure(
                    item.error,
                    "invalid_limit"@,
                    pagination_text(PaginationError::InvalidLimit),
                )
            } else {
                match request.cursor {
                    Some(Err(message)) => item.page is None && is_failure(
                        item.error,
                        "invalid_cursor"@,
                        message@,
                    ),
                    Some(Ok(cursor)) => answers_page(
                        t,
                        parent.id,
                        request.limit,
                        Some(&cursor),
                        item,
                    ),
                    None => answers_page(t, parent.id, request.limit, None, item),
                }
            },
        },
    }
}

/// Whether the item carries what the child page read gave.
pub open spec fn answers_page(
    t: Tables,
    parent: NodeId,
    limit: u32,
    cursor: Option<&PageCursor>,
    item: BatchChildrenLookupItem,
) -> bool {
    exists|result: Result<Page<NodeProjection>, PageReadError>|
        {
            &&& #[trigger] children_page_of(t, parent, limit as int, cursor, result)
            &&& match result {
                Ok(page) => item.page == Some(page) && item.error is None,
                Err(PageReadError::Pagination(e)) => item.page is None && is_failure(
                    item.error,
                    code_text(e.category()),
                    pagination_text(e),
                ),
                Err(PageReadError::Store(_)) => false,
            }
        }
}

impl SqliteStore {
    /// Answers one child request; the outer error fails the whole batch.
    fn children_item(&self, request: &BatchChildrenRequest) -> (result: Result<
        BatchChildrenLookupItem,
        StoreError,
    >)
        requires
            unique_ids(self@.nodes),
        ensures
            match selector_refusal(self@.nodes, request.parent) {
                Some(e) => result is Err && result->Err_0@ == e,
                None => result is Ok && answers_children(self@, *request, result->Ok_0),
            },
    {
        let raw: String = request.parent.raw.clone();
        let parent = match &request.parent.parsed {
            Err(message) => {
                return Ok(
                    BatchChildrenLookupItem {
                        parent: raw,
                        page: None,
                        error: failure("invalid_selector", message.as_str()),
                    },
                );
            },
            Ok(parsed) => match self.resolve(parsed) {
                Err(e) => {
                    return Err(e);
                },
                Ok(None) => {
                    let message = joined("node not found: ", request.parent.raw.as_str());
                    return Ok(
                        BatchChildrenLookupItem {
                            parent: raw,
                            page: None,
                            error: failure("not_found", message.as_str()),
                        },
                    );
                },
                Ok(Some(node)) => node,
            },
        };
        let limit = match PageLimit::new(request.limit) {
            Ok(limit) => limit,
            Err(e) => {
                return Ok(
                    BatchChildrenLookupItem {
                        parent: raw,
                        page: None,
                        error: pagination_failure(e),
                    },
                );
            },
        };
        let cursor: Option<&PageCursor> = match &request.cursor {
            Some(Err(message)) => {
                return Ok(
                    BatchChildrenLookupItem {
                        parent: raw,
                        page: None,
                        error: failure("invalid_cursor", message.as_str()),
                    },
                );
            },
            Some(Ok(cursor)) => Some(cursor),
            None => None,
        };
        let read = self.children_page(parent.id, limit, cursor);
        let ghost outcome = read;
        assert(children_page_of(self@, parent.id, request.limit as int, cursor, outcome));
        match read {
            Ok(page) => Ok(
                BatchChildrenLookupItem { parent: raw, page: Some(page), error: None },
            ),
            Err(PageReadError::Pagination(e)) => Ok(
                BatchChildrenLookupItem { parent: raw, page: None, error: pagination_failure(e) },
            ),
            Err(PageReadError::Store(e)) => {
                assert(false);
                Err(e)
            },
        }
    }

    /// Returns grouped canonical child pages with aggregate request bounds.
    pub fn batch_children_lookup(&self, requests: &Vec<BatchChildrenRequest>) -> (result: Result<
        Vec<BatchChildrenLookupItem>,
        StoreError,
    >)
        requires
            unique_ids(self@.nodes),
        ensures
            ({
                let n = requests@.len() as int;
                let total = limit_sum(requests@, n);
                if n == 0 || n > MAX_BATCH_PARENTS {
                    result is Err && result->Err_0@ == count_refusal(
                        "batch parent count "@,
                        n as nat,
                        "50"@,
                    )
                } else if total > u32::MAX {
                    result is Err && result->Err_0@ == Refusal::InvalidData(
                        "batch child limit overflow"@,
                    )
                } else if total > MAX_BATCH_CHILDREN {
                    result is Err && result->Err_0@ == Refusal::InvalidData(
                        "aggregate child limit "@ + decimal(total) + " exceeds 100"@,
                    )
                } else {
                    match first_refusal(
                        n,
                        |i: int| selector_refusal(self@.nodes, requests@[i].parent),
                    ) {
                        Some(e) => result is Err && result->Err_0@ == e,
                        None => result is Ok && result->Ok_0@.len() == n && forall|i: int|
                            0 <= i < n ==> answers_children(
                                self@,
                                requests@[i],
                                #[trigger] result->Ok_0@[i],
                            ),
                    }
                }
            }),
    {
        let ghost n = requests@.len() as int;
        if requests.len() == 0 || requests.len() > MAX_BATCH_PARENTS {
            let mut text = "batch parent count ".to_owned();
            push_wide(&mut text, requests.len() as u128);
            text.push_str(" is outside 1..=");
            text.push_str("50");
            return Err(StoreError::InvalidData(text));
        }
        let mut total: u64 = 0;
        let mut k: usize = 0;
        while k < requests.len()
            invariant
                k <= requests.len() <= MAX_BATCH_PARENTS,
                total == limit_sum(requests@, k as int),
                total <= k * 0xffff_ffff,
            decreases requests.len() - k,
        {
            total = total + requests[k].limit as u64;
            k = k + 1;
        }
        if total > 0xffff_ffff {
            return Err(invalid_data("batch child limit overflow"));
        }
        if total > MAX_BATCH_CHILDREN as u64 {
            let mut text = "aggregate child limit ".to_owned();
            push_wide(&mut text, total as u128);
            text.push_str(" exceeds 100");
            return Err(StoreError::InvalidData(text));
        }
        let ghost check = |i: int| selector_refusal(self@.nodes, requests@[i].parent);
        let mut items: Vec<BatchChildrenLookupItem> = Vec::new();
        let mut i: usize = 0;
        while i < requests.len()
            invariant
                i <= requests.len() <= MAX_BATCH_PARENTS,
                requests.len() > 0,
                n == requests@.len(),
                limit_sum(requests@, n) <= MAX_BATCH_CHILDREN,
                unique_ids(self@.nodes),
                check == (|i: int| selector_refusal(self@.nodes, requests@[i].parent)),
                first_refusal(i as int, check) is None,
                items.len() == i,
                forall|k: int|
                    0 <= k < i ==> answers_children(self@, requests@[k], #[trigger] items@[k]),
            decreases requests.len() - i,
        {
            match self.children_item(&requests[i]) {
                Ok(item) => {
                    items.push(item);
                },
                Err(e) => {
                    proof {
                        crate::mutate::lemma_first_refusal(i + 1, n, check);
                    }
                    return Err(e);
                },
            }
            i = i + 1;
        }
        Ok(items)
    }
}

} // verus!
