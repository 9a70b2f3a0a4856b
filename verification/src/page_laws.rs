//! Pages and cursors as a whole: nothing is skipped, repeated or mixed up.

use crate::listing::increasing;
use crate::model::{Node, NodeId};
use crate::order::{lemma_lex_asymmetric, lemma_lex_irreflexive, lex_lt};
use crate::pages::{
    placed_after, sibling_position, sibling_start, start_of, traversal_position, traversal_start,
};
use crate::paging::{
    all_pages, lemma_pages_complete, CursorView, PaginationError, PositionView, ScopeView,
};
use crate::reads::{first_from, lists_children};
use crate::references::{is_receipt_of, receipt_of, touching, ReferenceSide};
use crate::tables::{Receipt, RowView, Tables};
use crate::traverse::{position_key, Extent, Placed, TraversalOrder};
use crate::tree::sibling_key;
use std::sync::Arc;
use vstd::prelude::*;

verus! {

/// The first item that satisfies a condition, where none does before it.
proof fn lemma_first_is<T>(all: Seq<T>, pred: spec_fn(T) -> bool, i: int, e: int)
    requires
        0 <= i <= e <= all.len(),
        forall|k: int| i <= k < e ==> !pred(#[trigger] all[k]),
        e < all.len() ==> pred(all[e]),
    ensures
        first_from(all, pred, i) == if e < all.len() {
            Some(e)
        } else {
            None
        },
    decreases e - i,
{
    if i < e {
        lemma_first_is(all, pred, i + 1, e);
    }
}

/// In a strictly increasing listing, what comes after an item starts right
/// behind it.
pub proof fn lemma_resume_behind<T>(all: Seq<T>, key: spec_fn(T) -> Seq<u128>, e: int)
    requires
        increasing(all, key),
        0 < e <= all.len(),
    ensures
        start_of(all, |x: T| lex_lt(key(all[e - 1]), key(x))) == e,
{
    let pred = |x: T| lex_lt(key(all[e - 1]), key(x));
    assert forall|k: int| 0 <= k < e implies !pred(#[trigger] all[k]) by {
        if k < e - 1 {
            lemma_lex_asymmetric(key(all[k]), key(all[e - 1]));
        } else {
            lemma_lex_irreflexive(key(all[e - 1]));
        }
    }
    if e < all.len() {
        assert(lex_lt(key(all[e - 1]), key(all[e])));
    }
    lemma_first_is(all, pred, 0, e);
}

/// A traversal continued after any of its rows goes on with the next row.
pub proof fn law_traversal_resumes(nodes: Seq<Node>, extent: Extent, all: Seq<Placed>, e: int)
    requires
        extent.walks(nodes, all),
        0 < e <= all.len(),
    ensures
        traversal_start(
            extent.order,
            all,
            Some(traversal_position(extent.order, all[e - 1])),
        ) == Some(e),
{
    let key = |p: Placed| position_key(extent.order, p.depth as nat, p.path@);
    assert(increasing(all, key)) by {
        let listed = crate::traverse::nodes_of(all);
        assert forall|i: int, j: int| 0 <= i < j < all.len() implies lex_lt(
            key(#[trigger] all[i]),
            key(#[trigger] all[j]),
        ) by {
            assert(listed[i] == all[i].node && listed[j] == all[j].node);
            assert(lex_lt(extent.key(nodes, listed[i]), extent.key(nodes, listed[j])));
        }
    }
    lemma_resume_behind(all, key, e);
    let last = all[e - 1];
    match extent.order {
        TraversalOrder::Dfs => {
            assert((|x: Placed| lex_lt(key(all[e - 1]), key(x))) =~= (|p: Placed|
                placed_after(extent.order, 0, last.path@, p)));
        },
        TraversalOrder::Bfs => {
            assert((|x: Placed| lex_lt(key(all[e - 1]), key(x))) =~= (|p: Placed|
                placed_after(extent.order, last.depth as nat, last.path@, p)));
        },
    }
}

/// Children continued after any of them go on with the next one.
pub proof fn law_children_resume(nodes: Seq<Node>, parent: NodeId, all: Seq<Node>, e: int)
    requires
        lists_children(nodes, parent, all),
        0 < e <= all.len(),
    ensures
        sibling_start(all, Some(sibling_position(all[e - 1]))) == Some(e),
{
    let key = |n: Node| sibling_key(n);
    lemma_resume_behind(all, key, e);
    let last = all[e - 1];
    assert((|x: Node| lex_lt(key(all[e - 1]), key(x))) =~= (|n: Node|
        lex_lt(seq![last.sibling_order as u128, last.id.value], sibling_key(n))));
}

/// References continued after any of them go on with the next one.
pub proof fn law_references_resume(t: Tables, side: ReferenceSide, id: NodeId, e: int)
    requires
        t.ascending_rows(),
        0 < e <= touching(t, side, id).len(),
    ensures
        start_of(
            touching(t, side, id),
            |r: RowView| r.row_id > touching(t, side, id)[e - 1].row_id,
        ) == e,
{
    let keep = |r: RowView| crate::references::touches(r.reference, side, id);
    let all = touching(t, side, id);
    crate::laws::lemma_filter_ascending(t.references, keep);
    assert(all == t.references.filter(keep));
    let pred = |r: RowView| r.row_id > all[e - 1].row_id;
    assert forall|k: int| 0 <= k < e implies !pred(#[trigger] all[k]) by {
        if k < e - 1 {
            assert(all[k].row_id < all[e - 1].row_id);
        }
    }
    if e < all.len() {
        assert(all[e - 1].row_id < all[e].row_id);
    }
    lemma_first_is(all, pred, 0, e);
}

/// Read page after page, each continued where the one before ended, a listing
/// comes out whole: every item once, in order.
pub proof fn law_pages_enumerate_once<T>(all: Seq<T>, limit: int)
    requires
        1 <= limit,
    ensures
        all_pages(all, 0, limit) == all,
{
    lemma_pages_complete(all, 0, limit);
    assert(all.skip(0) =~= all);
}

/// A cursor continues the request and the workspace revision that it was issued
/// for, and nothing else.
pub proof fn law_cursor_is_bound(
    cursor: CursorView,
    scope: ScopeView,
    revision: u64,
)
    ensures
        cursor.resumed(cursor.scope, cursor.revision) == Ok::<PositionView, PaginationError>(
            cursor.position,
        ),
        scope != cursor.scope ==> cursor.resumed(scope, revision) == Err::<
            PositionView,
            PaginationError,
        >(PaginationError::CursorScopeMismatch),
        revision != cursor.revision ==> cursor.resumed(cursor.scope, revision) == Err::<
            PositionView,
            PaginationError,
        >(PaginationError::StaleCursor),
{
}

/// A receipt that was recorded is the one found again; receipts of other
/// operations stay as they were.
pub proof fn law_receipt_is_found(before: Tables, after: Tables, receipt: Arc<Receipt>)
    requires
        receipt_of(before, receipt.operation_id@) is None,
        after.receipts == before.receipts.push(receipt),
    ensures
        receipt_of(after, receipt.operation_id@) == Some(receipt),
        forall|other: Seq<char>|
            other != receipt.operation_id@ ==> #[trigger] receipt_of(after, other) == receipt_of(
                before,
                other,
            ),
{
    let id = receipt.operation_id@;
    let pred = is_receipt_of(id);
    let n = before.receipts.len() as int;
    lemma_none_before(before.receipts, pred, 0);
    assert forall|k: int| 0 <= k < n implies !pred(#[trigger] after.receipts[k]) by {
        assert(after.receipts[k] == before.receipts[k]);
    }
    lemma_first_is(after.receipts, pred, 0, n);
    assert forall|other: Seq<char>| other != id implies #[trigger] receipt_of(after, other)
        == receipt_of(before, other) by {
        let q = is_receipt_of(other);
        lemma_push_keeps_first(before.receipts, receipt, q, 0);
    }
}

proof fn lemma_none_before<T>(all: Seq<T>, pred: spec_fn(T) -> bool, i: int)
    requires
        0 <= i <= all.len(),
        first_from(all, pred, i) is None,
    ensures
        forall|k: int| i <= k < all.len() ==> !pred(#[trigger] all[k]),
    decreases all.len() - i,
{
    if i < all.len() {
        lemma_none_before(all, pred, i + 1);
    }
}

proof fn lemma_push_keeps_first<T>(all: Seq<T>, extra: T, pred: spec_fn(T) -> bool, i: int)
    requires
        0 <= i <= all.len(),
        !pred(extra),
    ensures
        first_from(all.push(extra), pred, i) == first_from(all, pred, i),
        first_from(all, pred, i) matches Some(k) ==> i <= k < all.len(),
    decreases all.len() - i,
{
    if i < all.len() {
        lemma_push_keeps_first(all, extra, pred, i + 1);
    } else {
        assert(first_from(all.push(extra), pred, i + 1) is None);
    }
}

} // verus!
