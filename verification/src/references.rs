//! Typed references: reading, paging, resolving and diagnosing them.

use crate::edits::lemma_filter_step;
use crate::listing::{arranges, lemma_arranged_lists, lists, picks};
use crate::model::{
    invalid_data, Node, NodeHash, NodeId, Reference, ReferenceOrigin, ReferenceTarget,
    ReferenceView, Refusal, Section, StoreError, TargetView,
};
use crate::order::sorted_positions;
use crate::pages::{fails_with, refuses, resume_at, resume_point, start_of};
use crate::paging::{
    page_items, CursorScope, Page, PageCursor, PageLimit, PagePosition, PageReadError,
    PaginationError, PositionView, ScopeView,
};
use crate::reads::{first_from, resolved, NodeSelector};
use crate::tables::{reference_views, storable, Receipt, RowView, SqliteStore, Tables};
use crate::text::{ascii_lower, chars_of, find_char, index_of_char, lowered, text_range};
use crate::tree::{lookup, unique_ids};
use std::sync::Arc;
use vstd::prelude::*;

verus! {

/// The stored name of an origin.
pub open spec fn origin_text(value: ReferenceOrigin) -> Seq<char> {
    match value {
        ReferenceOrigin::Explicit => "explicit"@,
        ReferenceOrigin::Markdown => "markdown"@,
        ReferenceOrigin::Wikilink => "wikilink"@,
        ReferenceOrigin::ImportedMetadata => "imported_metadata"@,
        ReferenceOrigin::Inferred => "inferred"@,
        ReferenceOrigin::Agent => "agent"@,
    }
}

/// The stored name of an origin.
pub fn origin(value: ReferenceOrigin) -> (text: &'static str)
    ensures
        text@ == origin_text(value),
{
    match value {
        ReferenceOrigin::Explicit => "explicit",
        ReferenceOrigin::Markdown => "markdown",
        ReferenceOrigin::Wikilink => "wikilink",
        ReferenceOrigin::ImportedMetadata => "imported_metadata",
        ReferenceOrigin::Inferred => "inferred",
        ReferenceOrigin::Agent => "agent",
    }
}

/// Reads a stored origin.
pub fn parse_origin(value: &String) -> (result: Result<ReferenceOrigin, StoreError>)
    ensures
        result matches Ok(o) ==> origin_text(o) == value@,
        result is Err <==> (forall|o: ReferenceOrigin| #[trigger] origin_text(o) != value@),
        result matches Err(e) ==> e@ == Refusal::InvalidData("reference origin "@ + value@),
{
    if *value == "explicit".to_owned() {
        assert(origin_text(ReferenceOrigin::Explicit) == value@);
        return Ok(ReferenceOrigin::Explicit);
    }
    if *value == "markdown".to_owned() {
        assert(origin_text(ReferenceOrigin::Markdown) == value@);
        return Ok(ReferenceOrigin::Markdown);
    }
    if *value == "wikilink".to_owned() {
        assert(origin_text(ReferenceOrigin::Wikilink) == value@);
        return Ok(ReferenceOrigin::Wikilink);
    }
    if *value == "imported_metadata".to_owned() {
        assert(origin_text(ReferenceOrigin::ImportedMetadata) == value@);
        return Ok(ReferenceOrigin::ImportedMetadata);
    }
    if *value == "inferred".to_owned() {
        assert(origin_text(ReferenceOrigin::Inferred) == value@);
        return Ok(ReferenceOrigin::Inferred);
    }
    if *value == "agent".to_owned() {
        assert(origin_text(ReferenceOrigin::Agent) == value@);
        return Ok(ReferenceOrigin::Agent);
    }
    let mut text = "reference origin ".to_owned();
    text.push_str(value.as_str());
    Err(StoreError::InvalidData(text))
}

/// Every origin can be read back from its stored name, and only from it.
pub proof fn law_origin_round_trip(a: ReferenceOrigin, b: ReferenceOrigin)
    ensures
        origin_text(a) == origin_text(b) <==> a == b,
{
    reveal_strlit("explicit");
    reveal_strlit("markdown");
    reveal_strlit("wikilink");
    reveal_strlit("imported_metadata");
    reveal_strlit("inferred");
    reveal_strlit("agent");
    assert("explicit"@.len() == 8 && "markdown"@.len() == 8 && "wikilink"@.len() == 8);
    assert("imported_metadata"@.len() == 17 && "inferred"@.len() == 8 && "agent"@.len() == 5);
    assert("explicit"@[0] == 'e' && "markdown"@[0] == 'm' && "wikilink"@[0] == 'w'
        && "inferred"@[0] == 'i');
}

/// Which end of a reference a listing goes by.
#[derive(Clone, Copy, Debug, PartialEq, Eq, Structural)]
pub enum ReferenceSide {
    /// References that start at the node.
    Source,
    /// References that resolve to the node.
    Target,
}

/// Whether the reference touches the node on that side.
pub open spec fn touches(reference: ReferenceView, side: ReferenceSide, id: NodeId) -> bool {
    match side {
        ReferenceSide::Source => reference.source_node_id == id,
        ReferenceSide::Target => reference.target matches TargetView::Resolved { node_id, .. }
            && node_id == id,
    }
}

/// The rows that touch a node on one side, in row order.
pub open spec fn touching(t: Tables, side: ReferenceSide, id: NodeId) -> Seq<RowView> {
    t.references.filter(|r: RowView| touches(r.reference, side, id))
}

/// The references of some rows.
pub open spec fn references_of(rows: Seq<RowView>) -> Seq<ReferenceView> {
    Seq::new(rows.len(), |i: int| rows[i].reference)
}

fn touches_node(reference: &Reference, side: ReferenceSide, id: NodeId) -> (yes: bool)
    ensures
        yes == touches(reference@, side, id),
{
    match side {
        ReferenceSide::Source => reference.source_node_id == id,
        ReferenceSide::Target => match &reference.target {
            ReferenceTarget::Resolved { node_id, .. } => *node_id == id,
            ReferenceTarget::Unresolved { .. } => false,
        },
    }
}

impl SqliteStore {
    /// References that touch a node on one side, with their row identities.
    fn touching_rows(&self, side: ReferenceSide, id: NodeId) -> (rows: Vec<(u64, Reference)>)
        ensures
            rows.len() == touching(self@, side, id).len(),
            forall|i: int|
                0 <= i < rows.len() ==> (#[trigger] rows@[i]).0 == touching(
                    self@,
                    side,
                    id,
                )[i].row_id && rows@[i].1@ == touching(self@, side, id)[i].reference,
    {
        let ghost keep = |r: RowView| touches(r.reference, side, id);
        let ghost table = self@.references;
        let ghost mut kept: Seq<RowView> = Seq::empty();
        let mut rows: Vec<(u64, Reference)> = Vec::new();
        let mut i: usize = 0;
        assert(table.take(0).filter(keep) =~= Seq::<RowView>::empty()) by {
            reveal(Seq::filter);
        }
        while i < self.references.len()
            invariant
                i <= self.references.len(),
                table == self@.references,
                keep == (|r: RowView| touches(r.reference, side, id)),
                kept == table.take(i as int).filter(keep),
                rows.len() == kept.len(),
                forall|k: int|
                    0 <= k < rows.len() ==> (#[trigger] rows@[k]).0 == kept[k].row_id && rows@[k].1@
                        == kept[k].reference,
            decreases self.references.len() - i,
        {
            proof {
                lemma_filter_step(table, keep, i as int);
            }
            let row = &self.references[i];
            assert(table[i as int] == row@);
            if touches_node(&row.reference, side, id) {
                rows.push((row.row_id, row.reference.copy()));
                proof {
                    kept = kept.push(table[i as int]);
                }
            }
            i = i + 1;
        }
        assert(table.take(table.len() as int) =~= table);
        rows
    }

    /// Returns typed outgoing references.
    pub fn outgoing_references(&self, id: NodeId) -> (references: Vec<Reference>)
        ensures
            reference_views(references@) == references_of(
                touching(self@, ReferenceSide::Source, id),
            ),
    {
        self.references_on(ReferenceSide::Source, id)
    }

    /// Returns typed backlinks to a resolved node.
    pub fn backlinks(&self, id: NodeId) -> (references: Vec<Reference>)
        ensures
            reference_views(references@) == references_of(
                touching(self@, ReferenceSide::Target, id),
            ),
    {
        self.references_on(ReferenceSide::Target, id)
    }

    fn references_on(&self, side: ReferenceSide, id: NodeId) -> (references: Vec<Reference>)
        ensures
            reference_views(references@) == references_of(touching(self@, side, id)),
    {
        let rows = self.touching_rows(side, id);
        let mut references: Vec<Reference> = Vec::new();
        let mut i: usize = 0;
        while i < rows.len()
            invariant
                i <= rows.len(),
                references.len() == i,
                forall|k: int| 0 <= k < i ==> (#[trigger] references@[k])@ == rows@[k].1@,
            decreases rows.len() - i,
        {
            references.push(rows[i].1.copy());
            i = i + 1;
        }
        assert(reference_views(references@) =~= references_of(touching(self@, side, id)));
        references
    }

    /// Returns one resumable page of outgoing references in persisted order.
    pub fn outgoing_references_page(
        &self,
        id: NodeId,
        limit: PageLimit,
        cursor: Option<&PageCursor>,
    ) -> (result: Result<Page<Reference>, PageReadError>)
        ensures
            serves_references(
                self@,
                "references"@,
                ReferenceSide::Source,
                id,
                limit,
                cursor,
                result,
            ),
    {
        self.reference_page("references", ReferenceSide::Source, id, limit, cursor)
    }

    /// Returns one resumable page of backlinks in persisted order.
    pub fn backlinks_page(
        &self,
        id: NodeId,
        limit: PageLimit,
        cursor: Option<&PageCursor>,
    ) -> (result: Result<Page<Reference>, PageReadError>)
        ensures
            serves_references(
                self@,
                "backlinks"@,
                ReferenceSide::Target,
                id,
                limit,
                cursor,
                result,
            ),
    {
        self.reference_page("backlinks", ReferenceSide::Target, id, limit, cursor)
    }

    fn reference_page(
        &self,
        operation: &str,
        side: ReferenceSide,
        id: NodeId,
        limit: PageLimit,
        cursor: Option<&PageCursor>,
    ) -> (result: Result<Page<Reference>, PageReadError>)
        ensures
            serves_references(self@, operation@, side, id, limit, cursor, result),
    {
        let scope = CursorScope::new(operation, Some(id), "canonical_reference_id_order");
        let ghost scope_view = scope@;
        let after: u64 = match resume_at(cursor, &scope, self.revision) {
            Err(e) => {
                return Err(PageReadError::Pagination(e));
            },
            Ok(None) => 0,
            Ok(Some(PagePosition::Reference { row_id })) => *row_id,
            Ok(Some(_)) => {
                return Err(PageReadError::Pagination(PaginationError::InvalidCursorPosition));
            },
        };
        if after > 0x7fff_ffff_ffff_ffff {
            return Err(PageReadError::Store(invalid_data("reference cursor position")));
        }
        let rows = self.touching_rows(side, id);
        let ghost all = touching(self@, side, id);
        let ghost pred = |r: RowView| r.row_id > after;
        let mut start: usize = 0;
        while start < rows.len() && rows[start].0 <= after
            invariant
                start <= rows.len(),
                rows.len() == all.len(),
                pred == (|r: RowView| r.row_id > after),
                forall|i: int|
                    0 <= i < rows.len() ==> (#[trigger] rows@[i]).0 == all[i].row_id && rows@[i].1@
                        == all[i].reference,
                first_from(all, pred, 0) == first_from(all, pred, start as int),
            decreases rows.len() - start,
        {
            start = start + 1;
        }
        let size: u32 = limit.get();
        let mut items: Vec<Reference> = Vec::new();
        let mut last: u64 = 0;
        let mut i: usize = start;
        while i < rows.len() && i - start < size as usize
            invariant
                start <= i <= rows.len(),
                i - start <= size,
                size >= 1,
                items.len() == i - start,
                i > start ==> last == rows@[i - 1].0,
                forall|k: int| 0 <= k < items.len() ==> (#[trigger] items@[k])@ == rows@[start + k].1@,
            decreases rows.len() - i,
        {
            items.push(rows[i].1.copy());
            last = rows[i].0;
            i = i + 1;
        }
        proof {
            assert(start == start_of(all, pred));
            assert(reference_views(items@) =~= references_of(
                page_items(all, start as int, size as int),
            ));
        }
        let next: Option<PageCursor> = if i < rows.len() {
            Some(PageCursor::issue(self.revision, scope, PagePosition::Reference { row_id: last }))
        } else {
            None
        };
        Ok(Page::new(items, next))
    }
}

/// What a reference page continues after.
pub open spec fn reference_start(
    t: Tables,
    operation: Seq<char>,
    id: NodeId,
    cursor: Option<&PageCursor>,
) -> Result<u64, PaginationError> {
    match resume_point(cursor, reference_scope(operation, id), t.revision) {
        Err(e) => Err(e),
        Ok(None) => Ok(0),
        Ok(Some(PositionView::Reference { row_id })) => Ok(row_id),
        Ok(Some(_)) => Err(PaginationError::InvalidCursorPosition),
    }
}

pub open spec fn reference_scope(operation: Seq<char>, id: NodeId) -> ScopeView {
    ScopeView { operation, node_id: Some(id), request_key: "canonical_reference_id_order"@ }
}

/// The outcome of a reference page read.
pub open spec fn serves_references(
    t: Tables,
    operation: Seq<char>,
    side: ReferenceSide,
    id: NodeId,
    limit: PageLimit,
    cursor: Option<&PageCursor>,
    result: Result<Page<Reference>, PageReadError>,
) -> bool {
    match reference_start(t, operation, id, cursor) {
        Err(e) => fails_with(result, e),
        Ok(after) => if !storable(after) {
            refuses(result, Refusal::InvalidData("reference cursor position"@))
        } else {
            let all = touching(t, side, id);
            let start = start_of(all, |r: RowView| r.row_id > after);
            &&& result is Ok
            &&& reference_views(result->Ok_0.items@) == references_of(
                page_items(all, start, limit.size()),
            )
            &&& result->Ok_0.consistent()
            &&& crate::pages::continues(
                all,
                start,
                limit.size(),
                t.revision,
                reference_scope(operation, id),
                |r: RowView| PositionView::Reference { row_id: r.row_id },
                result->Ok_0.next_cursor,
            )
        },
    }
}

/// Deterministic reference-target resolution result.
#[derive(Debug)]
pub enum ReferenceResolution {
    /// One node and optional section anchor resolved uniquely.
    Resolved {
        /// Stable target node.
        node_id: NodeId,
        /// Verified requested anchor.
        anchor: Option<String>,
    },
    /// Multiple title/alias candidates remain.
    Ambiguous {
        /// Stable deterministic candidate identities.
        candidates: Vec<NodeId>,
    },
    /// No valid target resolved.
    Unresolved,
}

/// The target part of a reference text: what stands before the first `#`.
pub open spec fn target_part(text: Seq<char>) -> Seq<char> {
    match index_of_char(text, '#', 0) {
        Some(i) => text.take(i),
        None => text,
    }
}

/// The anchor part of a reference text: what stands after the first `#`.
pub open spec fn anchor_part(text: Seq<char>) -> Option<Seq<char>> {
    match index_of_char(text, '#', 0) {
        Some(i) => Some(text.skip(i + 1)),
        None => None,
    }
}

/// Splits a reference text into target and anchor.
pub fn split_reference(target_ref: &str) -> (parts: (String, Option<String>))
    ensures
        parts.0@ == target_part(target_ref@),
        crate::text::text_of(parts.1) == anchor_part(target_ref@),
{
    let chars = chars_of(target_ref);
    match find_char(&chars, '#', 0) {
        Some(i) => {
            let target = text_range(&chars, 0, i);
            let anchor = text_range(&chars, i + 1, chars.len());
            assert(chars@.subrange(0, i as int) =~= target_ref@.take(i as int));
            assert(chars@.subrange(i + 1, chars@.len() as int) =~= target_ref@.skip(i + 1));
            (target, Some(anchor))
        },
        None => (target_ref.to_owned(), None),
    }
}

/// Whether the node's title or an alias is the text, ASCII case aside.
pub open spec fn answers_to(node: Node, text: Seq<char>) -> bool {
    lowered(node.metadata.title@) == lowered(text) || exists|i: int|
        0 <= i < node.metadata.aliases@.len() && lowered(
            (#[trigger] node.metadata.aliases@[i])@,
        ) == lowered(text)
}

fn node_answers_to(node: &Node, lower: &String, Ghost(text): Ghost<Seq<char>>) -> (yes: bool)
    requires
        lower@ == lowered(text),
    ensures
        yes == answers_to(*node, text),
{
    let title = ascii_lower(node.metadata.title.as_str());
    if title == *lower {
        return true;
    }
    let aliases = &node.metadata.aliases;
    let mut i: usize = 0;
    while i < aliases.len()
        invariant
            i <= aliases.len(),
            aliases == &node.metadata.aliases,
            lower@ == lowered(text),
            forall|j: int|
                0 <= j < i ==> lowered((#[trigger] node.metadata.aliases@[j])@) != lowered(text),
        decreases aliases.len() - i,
    {
        let alias = ascii_lower(aliases[i].as_str());
        if alias == *lower {
            assert(lowered(node.metadata.aliases@[i as int]@) == lowered(text));
            return true;
        }
        i = i + 1;
    }
    false
}

/// The node that the target text names directly: by identity, or by a path.
pub open spec fn direct_target(
    nodes: Seq<Node>,
    target: Seq<char>,
    identity: Option<NodeId>,
    path: Option<NodeSelector>,
) -> Result<Option<Node>, Refusal> {
    let direct = match identity {
        Some(id) => lookup(nodes, id),
        None => None,
    };
    if direct is Some {
        Ok(direct)
    } else if index_of_char(target, '/', 0) is Some {
        match path {
            Some(selector) => resolved(nodes, selector),
            None => Ok(None),
        }
    } else {
        Ok(None)
    }
}

/// Whether `listed` holds the nodes that answer to the text, by identity.
pub open spec fn lists_candidates(nodes: Seq<Node>, text: Seq<char>, listed: Seq<Node>) -> bool {
    lists(nodes, |n: Node| answers_to(n, text), |n: Node| seq![n.id.value], listed)
}

/// Whether the node has a section with the anchor.
pub open spec fn has_anchor(sections: Seq<Arc<Section>>, id: NodeId, anchor: Seq<char>) -> bool {
    exists|i: int|
        0 <= i < sections.len() && (#[trigger] sections[i]).node_id == id && (
        sections[i].anchor matches Some(a) && a@ == anchor)
}

/// Whether the resolution is that of a node found for the text, if any.
pub open spec fn settles(
    t: Tables,
    node: Option<Node>,
    anchor: Option<Seq<char>>,
    resolution: ReferenceResolution,
) -> bool {
    match node {
        None => resolution is Unresolved,
        Some(n) => if anchor matches Some(a) && !has_anchor(t.sections, n.id, a) {
            resolution is Unresolved
        } else {
            resolution matches ReferenceResolution::Resolved { node_id, anchor: verified }
                && node_id == n.id && crate::text::text_of(verified) == anchor
        },
    }
}

/// The outcome of resolving a reference text that reads as the identity or the path.
pub open spec fn resolves(
    t: Tables,
    text: Seq<char>,
    identity: Option<NodeId>,
    selector: Option<NodeSelector>,
    result: Result<ReferenceResolution, StoreError>,
) -> bool {
    let target = target_part(text);
    let anchor = anchor_part(text);
    match direct_target(t.nodes, target, identity, selector) {
        Err(e) => result is Err && result->Err_0@ == e,
        Ok(Some(node)) => result is Ok && settles(t, Some(node), anchor, result->Ok_0),
        Ok(None) => exists|listed: Seq<Node>|
            {
                &&& #[trigger] lists_candidates(t.nodes, target, listed)
                &&& result is Ok
                &&& if listed.len() > 1 {
                    result->Ok_0 matches ReferenceResolution::Ambiguous { candidates }
                        && candidates@ == ids_of(listed)
                } else {
                    settles(
                        t,
                        if listed.len() == 1 {
                            Some(listed[0])
                        } else {
                            None
                        },
                        anchor,
                        result->Ok_0,
                    )
                }
            },
    }
}

/// The identities of some nodes.
pub open spec fn ids_of(nodes: Seq<Node>) -> Seq<NodeId> {
    Seq::new(nodes.len(), |i: int| nodes[i].id)
}

impl SqliteStore {
    fn candidates(&self, target: &String) -> (listed: Vec<Node>)
        requires
            unique_ids(self@.nodes),
        ensures
            lists_candidates(self@.nodes, target@, listed@),
    {
        let ghost nodes = self@.nodes;
        let ghost text = target@;
        let ghost pred = |n: Node| answers_to(n, text);
        let ghost key = |n: Node| seq![n.id.value];
        let lower = ascii_lower(target.as_str());
        let mut picked: Vec<usize> = Vec::new();
        let mut keys: Vec<Vec<u128>> = Vec::new();
        let mut i: usize = 0;
        while i < self.nodes.len()
            invariant
                i <= self.nodes.len(),
                nodes == self@.nodes,
                lower@ == lowered(text),
                pred == (|n: Node| answers_to(n, text)),
                key == (|n: Node| seq![n.id.value]),
                keys.len() == picked.len(),
                picked@.no_duplicates(),
                forall|k: int|
                    0 <= k < picked.len() ==> #[trigger] picked@[k] < i && pred(
                        nodes[picked@[k] as int],
                    ),
                forall|j: int| 0 <= j < i && pred(#[trigger] nodes[j]) ==> picked@.contains(j as usize),
                forall|k: int|
                    0 <= k < picked.len() ==> #[trigger] keys@[k]@ == key(nodes[picked@[k] as int]),
            decreases self.nodes.len() - i,
        {
            let ghost before = picked@;
            if node_answers_to(&self.nodes[i], &lower, Ghost(text)) {
                let mut k: Vec<u128> = Vec::new();
                k.push(self.nodes[i].id.value);
                assert(k@ =~= key(nodes[i as int]));
                keys.push(k);
                picked.push(i);
                proof {
                    assert(picked@[before.len() as int] == i);
                    assert forall|j: int| 0 <= j < i + 1 && pred(#[trigger] nodes[j]) implies picked@.contains(
                    j as usize) by {
                        if j < i {
                            let k = choose|k: int| 0 <= k < before.len() && before[k] == j as usize;
                            assert(picked@[k] == j as usize);
                        }
                    }
                }
            }
            i = i + 1;
        }
        let order = sorted_positions(&keys);
        let mut listed: Vec<Node> = Vec::new();
        let mut n: usize = 0;
        while n < order.len()
            invariant
                n <= order.len(),
                nodes == self@.nodes,
                order.len() == picked.len(),
                forall|i: int| 0 <= i < order.len() ==> #[trigger] order@[i] < picked.len(),
                forall|k: int| 0 <= k < picked.len() ==> #[trigger] picked@[k] < nodes.len(),
                listed.len() == n,
                forall|m: int|
                    0 <= m < n ==> #[trigger] listed@[m] == nodes[picked@[order@[m] as int] as int],
            decreases order.len() - n,
        {
            listed.push(self.nodes[picked[order[n]]].copy());
            n = n + 1;
        }
        proof {
            assert forall|k: int, l: int|
                0 <= k < picked.len() && 0 <= l < picked.len() && k != l implies key(
                nodes[#[trigger] picked@[k] as int],
            ) != key(nodes[#[trigger] picked@[l] as int]) by {
                let a = nodes[picked@[k] as int];
                let b = nodes[picked@[l] as int];
                assert(key(a)[0] == a.id.value);
                assert(key(b)[0] == b.id.value);
                if key(a) == key(b) {
                    assert(nodes[picked@[k] as int].id == nodes[picked@[l] as int].id);
                }
            }
            assert(picks(nodes, pred, picked@));
            assert(arranges(nodes, picked@, keys@, order@, listed@));
            lemma_arranged_lists(nodes, pred, key, picked@, keys@, order@, listed@);
        }
        listed
    }

    fn anchor_exists(&self, id: NodeId, anchor: &String) -> (found: bool)
        ensures
            found == has_anchor(self@.sections, id, anchor@),
    {
        let mut i: usize = 0;
        while i < self.sections.len()
            invariant
                i <= self.sections.len(),
                forall|j: int|
                    0 <= j < i ==> !((#[trigger] self@.sections[j]).node_id == id && (
                    self@.sections[j].anchor matches Some(a) && a@ == anchor@)),
            decreases self.sections.len() - i,
        {
            let section = &self.sections[i];
            if section.node_id == id {
                match &section.anchor {
                    Some(a) => {
                        if *a == *anchor {
                            assert(self@.sections[i as int].node_id == id);
                            return true;
                        }
                    },
                    None => {},
                }
            }
            i = i + 1;
        }
        false
    }

    /// Resolves target text by ID, path, then title/alias, validating an
    /// optional anchor. The caller supplies what the target part reads as: an
    /// identity, or a path.
    pub fn resolve_reference(
        &self,
        target_ref: &str,
        identity: Option<NodeId>,
        path: Option<&NodeSelector>,
    ) -> (result: Result<ReferenceResolution, StoreError>)
        requires
            unique_ids(self@.nodes),
        ensures
            resolves(
                self@,
                target_ref@,
                identity,
                match path {
                    Some(p) => Some(*p),
                    None => None,
                },
                result,
            ),
    {
        let (target, anchor) = split_reference(target_ref);
        let direct: Option<Node> = match identity {
            Some(id) => self.get(id),
            None => None,
        };
        let found: Option<Node> = match direct {
            Some(node) => Some(node),
            None => {
                let chars = chars_of(target.as_str());
                if find_char(&chars, '/', 0).is_some() {
                    match path {
                        Some(selector) => match self.resolve(selector) {
                            Ok(node) => node,
                            Err(e) => {
                                return Err(e);
                            },
                        },
                        None => None,
                    }
                } else {
                    None
                }
            },
        };
        let node: Option<Node> = match found {
            Some(node) => Some(node),
            None => {
                let listed = self.candidates(&target);
                assert(lists_candidates(self@.nodes, target@, listed@));
                if listed.len() > 1 {
                    let mut candidates: Vec<NodeId> = Vec::new();
                    let mut i: usize = 0;
                    while i < listed.len()
                        invariant
                            i <= listed.len(),
                            candidates.len() == i,
                            forall|k: int|
                                0 <= k < i ==> #[trigger] candidates@[k] == listed@[k].id,
                        decreases listed.len() - i,
                    {
                        candidates.push(listed[i].id);
                        i = i + 1;
                    }
                    assert(candidates@ =~= ids_of(listed@));
                    return Ok(ReferenceResolution::Ambiguous { candidates });
                }
                if listed.len() == 1 {
                    Some(listed[0].copy())
                } else {
                    None
                }
            },
        };
        match node {
            None => Ok(ReferenceResolution::Unresolved),
            Some(n) => {
                match &anchor {
                    Some(a) => {
                        if !self.anchor_exists(n.id, a) {
                            return Ok(ReferenceResolution::Unresolved);
                        }
                    },
                    None => {},
                }
                Ok(ReferenceResolution::Resolved { node_id: n.id, anchor })
            },
        }
    }

    /// The stored receipt of an operation, by position.
    fn find_receipt(&self, operation_id: &str) -> (found: Option<usize>)
        ensures
            receipt_of(self@, operation_id@) == match found {
                Some(i) => Some(self@.receipts[i as int]),
                None => None,
            },
            found matches Some(i) ==> i < self.receipts.len(),
    {
        let wanted = operation_id.to_owned();
        let ghost pred = is_receipt_of(operation_id@);
        let mut i: usize = 0;
        while i < self.receipts.len()
            invariant
                i <= self.receipts.len(),
                wanted@ == operation_id@,
                pred == is_receipt_of(operation_id@),
                first_from(self@.receipts, pred, 0) == first_from(self@.receipts, pred, i as int),
            decreases self.receipts.len() - i,
        {
            if self.receipts[i].operation_id == wanted {
                return Some(i);
            }
            i = i + 1;
        }
        None
    }

    /// Returns a prior response for the same operation and payload.
    pub fn mutation_receipt(
        &self,
        operation_id: &str,
        tool_name: &str,
        payload_hash: NodeHash,
    ) -> (result: Result<Option<String>, StoreError>)
        ensures
            match receipt_of(self@, operation_id@) {
                None => result is Ok && result->Ok_0 is None,
                Some(r) => if r.tool_name@ != tool_name@ || r.payload_hash != payload_hash {
                    result is Err && result->Err_0@ == Refusal::IdempotencyConflict(operation_id@)
                } else {
                    result is Ok && result->Ok_0 is Some && result->Ok_0->0@ == r.result_json@
                },
            },
    {
        match self.find_receipt(operation_id) {
            None => Ok(None),
            Some(i) => {
                let receipt = &self.receipts[i];
                if receipt.tool_name != tool_name.to_owned() || receipt.payload_hash
                    != payload_hash {
                    return Err(StoreError::IdempotencyConflict(operation_id.to_owned()));
                }
                Ok(Some(receipt.result_json.clone()))
            },
        }
    }

    /// Persists a completed mutation response for safe retry replay.
    pub fn record_mutation_receipt(
        &mut self,
        operation_id: &str,
        tool_name: &str,
        payload_hash: NodeHash,
        result_json: &str,
        created_at: u64,
    ) -> (result: Result<(), StoreError>)
        ensures
            !storable(created_at) ==> result is Err && result->Err_0@ == Refusal::InvalidData(
                "receipt timestamp exceeds SQLite range"@,
            ) && final(self)@ == old(self)@,
            storable(created_at) && receipt_of(old(self)@, operation_id@) is Some ==> result is Err
                && result->Err_0@ == Refusal::Unique && final(self)@ == old(self)@,
            storable(created_at) && receipt_of(old(self)@, operation_id@) is None ==> {
                &&& result is Ok
                &&& final(self)@.receipts.len() == old(self)@.receipts.len() + 1
                &&& final(self)@ == (Tables { receipts: final(self)@.receipts, ..old(self)@ })
                &&& final(self)@.receipts.drop_last() == old(self)@.receipts
                &&& final(self)@.receipts.last().operation_id@ == operation_id@
                &&& final(self)@.receipts.last().tool_name@ == tool_name@
                &&& final(self)@.receipts.last().payload_hash == payload_hash
                &&& final(self)@.receipts.last().result_json@ == result_json@
                &&& final(self)@.receipts.last().created_at == created_at
            },
    {
        if created_at > 0x7fff_ffff_ffff_ffff {
            return Err(invalid_data("receipt timestamp exceeds SQLite range"));
        }
        if self.find_receipt(operation_id).is_some() {
            return Err(StoreError::Unique);
        }
        let receipt = Receipt {
            operation_id: operation_id.to_owned(),
            tool_name: tool_name.to_owned(),
            payload_hash,
            result_json: result_json.to_owned(),
            created_at,
        };
        self.receipts.push(Arc::new(receipt));
        assert(self@.receipts.drop_last() =~= old(self)@.receipts);
        Ok(())
    }
}

/// Whether a receipt is that of the operation.
pub open spec fn is_receipt_of(operation_id: Seq<char>) -> spec_fn(Arc<Receipt>) -> bool {
    |r: Arc<Receipt>| r.operation_id@ == operation_id
}

/// The stored receipt of an operation.
pub open spec fn receipt_of(t: Tables, operation_id: Seq<char>) -> Option<Arc<Receipt>> {
    match first_from(t.receipts, is_receipt_of(operation_id), 0) {
        Some(i) => Some(t.receipts[i]),
        None => None,
    }
}

} // verus!
