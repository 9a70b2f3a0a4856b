//! Section search and structural destination location.
//!
//! Which documents match a query, and what a signal is worth, is decided
//! outside. Here stand the scope, the filters, the evidence of each match, and
//! the order of the results by their ranks.

use crate::diagnostics::texts;
use crate::edits::subtree_flags;
use crate::history::offset_items;
use crate::integrity::{offset_start, start_offset};
use crate::listing::{arranges, lemma_arranged_lists, lists, picks};
use crate::model::{
    invalid_data, not_found, Node, NodeId, ReferenceTarget, Refusal, StoreError, TargetView,
};
use crate::order::{lex_lt, sorted_positions};
use crate::pages::{fails_with, fits, refuses, StructuralPredicate};
use crate::paging::{
    page_items, CursorScope, CursorView, Page, PageCursor, PageLimit, PagePosition, PageReadError,
    PositionView, ScopeView,
};
use crate::reads::{is_breadcrumb, lists_children, root_of};
use crate::removal::count_where;
use crate::reorder::{child_count, count_children};
use crate::tables::{same_id, RowView, SqliteStore, Tables};
use crate::text::{copy_text, text_of};
use crate::traverse::place;
use crate::tree::{
    below, depth_below, find, is_forest, links, lookup, node_at, position, present, unique_ids,
};
use crate::words::{are_tokens, contains, lowercase, occurs, to_lowercase, tokens};
use vstd::prelude::*;

verus! {

/// Which part of the workspace a search covers.
#[derive(Clone, Copy, Debug, PartialEq, Eq, Structural)]
pub enum SearchScope {
    Workspace,
    CurrentNode,
    Subtree,
    Siblings,
    ParentSubtree,
    Linked,
}

/// Conditions on the nodes that a search returns.
#[derive(Debug)]
pub struct SearchFilters {
    /// Any of these node types; empty allows all.
    pub node_types: Vec<String>,
    /// All of these tags.
    pub tags: Vec<String>,
    /// Any of these outgoing relation types; empty allows all.
    pub statuses: Vec<String>,
    pub structure: Option<StructuralPredicate>,
    pub min_depth: Option<u32>,
    pub max_depth: Option<u32>,
    pub created_from: Option<u64>,
    pub created_to: Option<u64>,
    pub updated_from: Option<u64>,
    pub updated_to: Option<u64>,
}

/// Whether the list holds the text.
pub open spec fn holds(list: Seq<String>, text: Seq<char>) -> bool {
    exists|i: int| 0 <= i < list.len() && (#[trigger] list[i])@ == text
}

pub fn holds_text(list: &Vec<String>, text: &String) -> (yes: bool)
    ensures
        yes == holds(list@, text@),
{
    let mut i: usize = 0;
    while i < list.len()
        invariant
            i <= list.len(),
            forall|k: int| 0 <= k < i ==> (#[trigger] list@[k])@ != text@,
        decreases list.len() - i,
    {
        if list[i] == *text {
            assert(list@[i as int]@ == text@);
            return true;
        }
        i = i + 1;
    }
    false
}

/// The parent of a node, or the node itself where it has none.
pub open spec fn parent_or_self(nodes: Seq<Node>, id: NodeId) -> NodeId {
    match lookup(nodes, id) {
        Some(node) => match node.parent_id {
            Some(p) => if present(nodes, p) {
                p
            } else {
                id
            },
            None => id,
        },
        None => id,
    }
}

/// Why a scope cannot be searched.
pub open spec fn scope_refusal(nodes: Seq<Node>, scope: SearchScope, node: Option<NodeId>) -> Option<
    Refusal,
> {
    match (scope, node) {
        (SearchScope::Workspace, _) => None,
        (_, None) => Some(Refusal::InvalidData("scope_node is required"@)),
        (SearchScope::Siblings, Some(id)) => if present(nodes, id) {
            None
        } else {
            Some(Refusal::NotFound(id.text()))
        },
        _ => None,
    }
}

/// Whether a row links the node with another one.
pub open spec fn links_with(t: Tables, node: NodeId, id: NodeId) -> bool {
    exists|i: int|
        0 <= i < t.references.len() && link_between((#[trigger] t.references[i]), node, id)
}

/// Whether the reference leads from one node to the other, either way.
pub open spec fn link_between(row: RowView, node: NodeId, id: NodeId) -> bool {
    match row.reference.target {
        TargetView::Resolved { node_id, .. } => (row.reference.source_node_id == node && node_id
            == id) || (node_id == node && row.reference.source_node_id == id),
        TargetView::Unresolved { .. } => false,
    }
}

/// Whether the scope covers an existing node.
pub open spec fn in_scope(t: Tables, scope: SearchScope, node: Option<NodeId>, id: NodeId) -> bool {
    let up = links(t.nodes);
    match (scope, node) {
        (SearchScope::Workspace, _) => true,
        (SearchScope::CurrentNode, Some(n)) => id == n,
        (SearchScope::Subtree, Some(n)) => below(up, n, id),
        (SearchScope::Siblings, Some(n)) => match node_at(t.nodes, n).parent_id {
            Some(p) => node_at(t.nodes, id).parent_id == Some(p),
            None => id == n,
        },
        (SearchScope::ParentSubtree, Some(n)) => below(up, parent_or_self(t.nodes, n), id),
        (SearchScope::Linked, Some(n)) => id == n || links_with(t, n, id),
        _ => false,
    }
}

/// The node from which depths are counted, or why there is none.
pub open spec fn depth_anchor(nodes: Seq<Node>, scope: SearchScope, node: Option<NodeId>) -> Result<
    NodeId,
    Refusal,
> {
    match scope {
        SearchScope::Workspace => match root_of(nodes) {
            Some(root) => Ok(root.id),
            None => Err(Refusal::NotFound("root"@)),
        },
        SearchScope::Linked => Err(
            Refusal::InvalidData("depth filters are not supported for linked scope"@),
        ),
        _ => match node {
            None => Err(Refusal::InvalidData("scope_node is required"@)),
            Some(n) => match scope {
                SearchScope::CurrentNode => Ok(n),
                SearchScope::Subtree => Ok(n),
                _ => Ok(parent_or_self(nodes, n)),
            },
        },
    }
}

impl SearchFilters {
    /// Whether depths matter.
    pub open spec fn by_depth(self) -> bool {
        self.min_depth is Some || self.max_depth is Some
    }

    /// Whether the depth lies within the bounds.
    pub open spec fn admits_depth(self, depth: nat) -> bool {
        &&& self.min_depth matches Some(m) ==> depth >= m
        &&& self.max_depth matches Some(m) ==> depth <= m
    }

    /// Whether the node's own fields pass.
    pub open spec fn admits_fields(self, node: Node) -> bool {
        &&& self.node_types@.len() == 0 || (node.metadata.node_type matches Some(kind) && holds(
            self.node_types@,
            kind@,
        ))
        &&& forall|i: int|
            0 <= i < self.tags@.len() ==> holds(
                node.metadata.tags@,
                (#[trigger] self.tags@[i])@,
            )
        &&& self.created_from matches Some(m) ==> node.created_at >= m
        &&& self.created_to matches Some(m) ==> node.created_at <= m
        &&& self.updated_from matches Some(m) ==> node.updated_at >= m
        &&& self.updated_to matches Some(m) ==> node.updated_at <= m
    }

    /// Whether the node has one of the wanted relations.
    pub open spec fn admits_status(self, t: Tables, node: Node) -> bool {
        self.statuses@.len() == 0 || exists|i: int|
            0 <= i < t.references.len() && (#[trigger] t.references[i]).reference.source_node_id
                == node.id && holds(self.statuses@, t.references[i].reference.reference_type)
    }

    /// Whether the node has the wanted shape.
    pub open spec fn admits_structure(self, t: Tables, node: Node) -> bool {
        self.structure matches Some(predicate) ==> fits(t.nodes, predicate, node)
    }

    /// Whether the node passes every filter; depths count from the anchor.
    pub open spec fn admits(self, t: Tables, anchor: Option<NodeId>, node: Node) -> bool {
        &&& self.admits_fields(node)
        &&& self.admits_status(t, node)
        &&& self.admits_structure(t, node)
        &&& anchor matches Some(a) ==> below(links(t.nodes), a, node.id) && self.admits_depth(
            depth_below(links(t.nodes), a, node.id),
        )
    }

    fn fields_pass(&self, node: &Node) -> (yes: bool)
        ensures
            yes == self.admits_fields(*node),
    {
        let metadata = &node.metadata;
        if self.node_types.len() > 0 {
            let wanted: bool = match &metadata.node_type {
                Some(kind) => holds_text(&self.node_types, kind),
                None => false,
            };
            if !wanted {
                return false;
            }
        }
        let mut i: usize = 0;
        while i < self.tags.len()
            invariant
                i <= self.tags.len(),
                metadata == &node.metadata,
                forall|k: int|
                    0 <= k < i ==> holds(node.metadata.tags@, (#[trigger] self.tags@[k])@),
            decreases self.tags.len() - i,
        {
            if !holds_text(&metadata.tags, &self.tags[i]) {
                assert(!holds(node.metadata.tags@, self.tags@[i as int]@));
                return false;
            }
            i = i + 1;
        }
        at_least(self.created_from, node.created_at) && at_most(self.created_to, node.created_at)
            && at_least(self.updated_from, node.updated_at) && at_most(
            self.updated_to,
            node.updated_at,
        )
    }
}

fn at_least(bound: Option<u64>, value: u64) -> (yes: bool)
    ensures
        yes == (bound matches Some(m) ==> value >= m),
{
    match bound {
        Some(m) => value >= m,
        None => true,
    }
}

fn at_most(bound: Option<u64>, value: u64) -> (yes: bool)
    ensures
        yes == (bound matches Some(m) ==> value <= m),
{
    match bound {
        Some(m) => value <= m,
        None => true,
    }
}

impl SqliteStore {
    /// The parent of a node, or the node itself where it has none.
    fn parent_or_self(&self, id: NodeId) -> (anchor: NodeId)
        requires
            unique_ids(self@.nodes),
        ensures
            anchor == parent_or_self(self@.nodes, id),
    {
        match self.parent(id) {
            Some(parent) => {
                proof {
                    let p = node_at(self@.nodes, id).parent_id->0;
                    assert(self@.nodes[position(self@.nodes, p)].id == p);
                }
                parent.id
            },
            None => id,
        }
    }

    /// For each row, whether the reference table links it with the node.
    fn linked_flags(&self, node: NodeId) -> (flags: Vec<bool>)
        ensures
            flags.len() == self.nodes.len(),
            forall|i: int|
                0 <= i < flags.len() ==> #[trigger] flags@[i] == (self@.nodes[i].id == node
                    || links_with(self@, node, self@.nodes[i].id)),
    {
        let mut flags: Vec<bool> = Vec::new();
        let mut i: usize = 0;
        while i < self.nodes.len()
            invariant
                i <= self.nodes.len(),
                flags.len() == i,
                forall|k: int|
                    0 <= k < i ==> #[trigger] flags@[k] == (self@.nodes[k].id == node || links_with(
                        self@,
                        node,
                        self@.nodes[k].id,
                    )),
            decreases self.nodes.len() - i,
        {
            let id: NodeId = self.nodes[i].id;
            let mut linked: bool = id == node;
            let mut j: usize = 0;
            while j < self.references.len()
                invariant
                    j <= self.references.len(),
                    linked == (id == node || exists|k: int|
                        0 <= k < j && link_between((#[trigger] self@.references[k]), node, id)),
                decreases self.references.len() - j,
            {
                let reference = &self.references[j].reference;
                assert(self@.references[j as int].reference == reference@);
                let between: bool = match &reference.target {
                    ReferenceTarget::Resolved { node_id, .. } => (reference.source_node_id == node
                        && *node_id == id) || (*node_id == node && reference.source_node_id == id),
                    ReferenceTarget::Unresolved { .. } => false,
                };
                if between {
                    assert(link_between(self@.references[j as int], node, id));
                    linked = true;
                }
                j = j + 1;
            }
            flags.push(linked);
            i = i + 1;
        }
        flags
    }

    /// For each row, whether the scope covers it.
    pub fn eligible_nodes(&self, scope: SearchScope, node: Option<NodeId>) -> (result: Result<
        Vec<bool>,
        StoreError,
    >)
        requires
            unique_ids(self@.nodes),
        ensures
            match scope_refusal(self@.nodes, scope, node) {
                Some(e) => result is Err && result->Err_0@ == e,
                None => result is Ok && result->Ok_0.len() == self@.nodes.len() && forall|i: int|
                    0 <= i < self@.nodes.len() ==> #[trigger] result->Ok_0@[i] == in_scope(
                        self@,
                        scope,
                        node,
                        self@.nodes[i].id,
                    ),
            },
    {
        let ghost nodes = self@.nodes;
        let id: NodeId = match (scope, node) {
            (SearchScope::Workspace, _) => {
                let mut all: Vec<bool> = Vec::new();
                let mut i: usize = 0;
                while i < self.nodes.len()
                    invariant
                        i <= self.nodes.len(),
                        all.len() == i,
                        forall|k: int| 0 <= k < i ==> #[trigger] all@[k],
                    decreases self.nodes.len() - i,
                {
                    all.push(true);
                    i = i + 1;
                }
                return Ok(all);
            },
            (_, None) => {
                return Err(invalid_data("scope_node is required"));
            },
            (_, Some(id)) => id,
        };
        match scope {
            SearchScope::Workspace => {
                assert(false);
                Err(invalid_data("scope_node is required"))
            },
            SearchScope::Subtree => Ok(subtree_flags(&self.nodes, id)),
            SearchScope::ParentSubtree => {
                let anchor = self.parent_or_self(id);
                Ok(subtree_flags(&self.nodes, anchor))
            },
            SearchScope::Linked => Ok(self.linked_flags(id)),
            SearchScope::CurrentNode => {
                let mut flags: Vec<bool> = Vec::new();
                let mut i: usize = 0;
                while i < self.nodes.len()
                    invariant
                        i <= self.nodes.len(),
                        flags.len() == i,
                        forall|k: int| 0 <= k < i ==> #[trigger] flags@[k] == (self@.nodes[k].id == id),
                    decreases self.nodes.len() - i,
                {
                    flags.push(self.nodes[i].id == id);
                    i = i + 1;
                }
                Ok(flags)
            },
            SearchScope::Siblings => {
                let at: usize = match find(&self.nodes, id) {
                    Some(at) => at,
                    None => {
                        return Err(not_found(id));
                    },
                };
                let parent = self.nodes[at].parent_id;
                let mut flags: Vec<bool> = Vec::new();
                let mut i: usize = 0;
                while i < self.nodes.len()
                    invariant
                        i <= self.nodes.len(),
                        nodes == self@.nodes,
                        unique_ids(nodes),
                        present(nodes, id),
                        parent == node_at(nodes, id).parent_id,
                        scope == SearchScope::Siblings,
                        node == Some(id),
                        flags.len() == i,
                        forall|k: int|
                            0 <= k < i ==> #[trigger] flags@[k] == in_scope(
                                self@,
                                scope,
                                node,
                                nodes[k].id,
                            ),
                    decreases self.nodes.len() - i,
                {
                    proof {
                        crate::tree::lemma_position(nodes, i as int);
                    }
                    let beside: bool = match parent {
                        Some(p) => same_id(self.nodes[i].parent_id, Some(p)),
                        None => self.nodes[i].id == id,
                    };
                    flags.push(beside);
                    i = i + 1;
                }
                Ok(flags)
            },
        }
    }

    /// The node from which depths are counted.
    fn depth_anchor(&self, scope: SearchScope, node: Option<NodeId>) -> (result: Result<
        NodeId,
        StoreError,
    >)
        requires
            unique_ids(self@.nodes),
        ensures
            match depth_anchor(self@.nodes, scope, node) {
                Ok(id) => result == Ok::<NodeId, StoreError>(id),
                Err(e) => result is Err && result->Err_0@ == e,
            },
    {
        match scope {
            SearchScope::Workspace => match self.root() {
                Ok(root) => Ok(root.id),
                Err(e) => Err(e),
            },
            SearchScope::Linked => Err(
                invalid_data("depth filters are not supported for linked scope"),
            ),
            _ => match node {
                None => Err(invalid_data("scope_node is required")),
                Some(n) => match scope {
                    SearchScope::CurrentNode => Ok(n),
                    SearchScope::Subtree => Ok(n),
                    _ => Ok(self.parent_or_self(n)),
                },
            },
        }
    }

    fn status_passes(&self, filters: &SearchFilters, node: &Node) -> (yes: bool)
        ensures
            yes == filters.admits_status(self@, *node),
    {
        if filters.statuses.len() == 0 {
            return true;
        }
        let mut i: usize = 0;
        while i < self.references.len()
            invariant
                i <= self.references.len(),
                filters.statuses@.len() > 0,
                forall|k: int|
                    0 <= k < i ==> !((
                    #[trigger] self@.references[k]).reference.source_node_id == node.id && holds(
                        filters.statuses@,
                        self@.references[k].reference.reference_type,
                    )),
            decreases self.references.len() - i,
        {
            let reference = &self.references[i].reference;
            assert(self@.references[i as int].reference == reference@);
            if reference.source_node_id == node.id && holds_text(
                &filters.statuses,
                &reference.reference_type,
            ) {
                assert(self@.references[i as int].reference.source_node_id == node.id);
                return true;
            }
            i = i + 1;
        }
        false
    }

    /// Whether the row passes every filter; depths count from the anchor.
    pub fn matches_filters(&self, filters: &SearchFilters, anchor: Option<NodeId>, i: usize) -> (yes:
        bool)
        requires
            is_forest(self@.nodes),
            i < self@.nodes.len(),
        ensures
            yes == filters.admits(self@, anchor, self@.nodes[i as int]),
    {
        let node = &self.nodes[i];
        if !filters.fields_pass(node) || !self.status_passes(filters, node) {
            return false;
        }
        match filters.structure {
            None => {},
            Some(predicate) => {
                let children = count_children(&self.nodes, node.id);
                let shaped: bool = match predicate {
                    StructuralPredicate::Leaf => children == 0,
                    StructuralPredicate::Internal => children > 0,
                };
                if !shaped {
                    return false;
                }
            },
        }
        match anchor {
            None => true,
            Some(a) => match place(&self.nodes, a, i) {
                None => false,
                Some((depth, _)) => {
                    let deep: bool = match filters.min_depth {
                        Some(m) => depth as u64 >= m as u64,
                        None => true,
                    };
                    let shallow: bool = match filters.max_depth {
                        Some(m) => depth as u64 <= m as u64,
                        None => true,
                    };
                    deep && shallow
                },
            },
        }
    }
}

/// How well the words of a query are found in one text.
#[derive(Debug)]
pub struct Signal {
    /// Worth of a complete match, in hundredths.
    pub weight: u32,
    pub label: String,
    /// Words found.
    pub matched: usize,
    /// Words looked for.
    pub total: usize,
}

/// The contents of a [`Signal`].
pub struct SignalView {
    pub weight: u32,
    pub label: Seq<char>,
    pub matched: nat,
    pub total: nat,
}

impl View for Signal {
    type V = SignalView;

    open spec fn view(&self) -> SignalView {
        SignalView {
            weight: self.weight,
            label: self.label@,
            matched: self.matched as nat,
            total: self.total as nat,
        }
    }
}

pub open spec fn signal_views(signals: Seq<Signal>) -> Seq<SignalView> {
    Seq::new(signals.len(), |i: int| signals[i]@)
}

/// Number of words found in the text, letter case aside.
pub open spec fn matched_words(list: Seq<Seq<char>>, text: Seq<char>) -> nat {
    count_where(list, |t: Seq<char>| occurs(lowercase(text), t), list.len() as int)
}

/// The signal of one text: none if no word is found.
pub open spec fn signal_of(
    list: Seq<Seq<char>>,
    text: Seq<char>,
    weight: u32,
    label: Seq<char>,
) -> Seq<SignalView> {
    let matched = matched_words(list, text);
    if matched > 0 {
        seq![SignalView { weight, label, matched, total: list.len() }]
    } else {
        Seq::empty()
    }
}

/// Counts the words found in a text, letter case aside.
pub fn count_matched(list: &Vec<String>, text: &str) -> (matched: usize)
    ensures
        matched == matched_words(texts(list@), text@),
{
    let lower = to_lowercase(text);
    let ghost all = texts(list@);
    let ghost pred = |t: Seq<char>| occurs(lowercase(text@), t);
    let mut matched: usize = 0;
    let mut i: usize = 0;
    while i < list.len()
        invariant
            i <= list.len(),
            lower@ == lowercase(text@),
            all == texts(list@),
            pred == (|t: Seq<char>| occurs(lowercase(text@), t)),
            matched <= i,
            matched == count_where(all, pred, i as int),
        decreases list.len() - i,
    {
        assert(all[i as int] == list@[i as int]@);
        if contains(lower.as_str(), list[i].as_str()) {
            matched = matched + 1;
        }
        i = i + 1;
    }
    assert(all.len() == list@.len());
    matched
}

/// Adds the signal of one text.
pub fn add_signal(
    list: &Vec<String>,
    text: &str,
    weight: u32,
    label: &str,
    signals: &mut Vec<Signal>,
)
    ensures
        signal_views(final(signals)@) == signal_views(old(signals)@) + signal_of(
            texts(list@),
            text@,
            weight,
            label@,
        ),
{
    let matched = count_matched(list, text);
    let ghost before = signal_views(signals@);
    if matched > 0 {
        signals.push(Signal { weight, label: label.to_owned(), matched, total: list.len() });
    }
    assert(texts(list@).len() == list@.len());
    assert(signal_views(signals@) =~= before + signal_of(texts(list@), text@, weight, label@));
}

/// One document that matched the query, with its texts.
#[derive(Debug)]
pub struct MatchedDocument {
    pub section_id: NodeId,
    pub node_id: NodeId,
    pub heading: String,
    pub content: String,
    pub title: String,
    pub aliases: String,
    pub summary: String,
    pub tags: String,
    pub keywords: String,
    pub ancestor_context: String,
    pub child_context: String,
}

impl MatchedDocument {
    /// The evidence that the document gives for the words of a query.
    pub open spec fn evidence(self, list: Seq<Seq<char>>) -> Seq<SignalView> {
        signal_of(list, self.title@, 55, "title"@) + signal_of(
            list,
            self.aliases@,
            48,
            "alias"@,
        ) + signal_of(list, self.summary@, 34, "summary"@) + signal_of(
            list,
            self.keywords@,
            30,
            "keyword"@,
        ) + signal_of(list, self.tags@, 24, "tag"@) + signal_of(
            list,
            self.ancestor_context@,
            24,
            "ancestor context"@,
        ) + signal_of(list, self.child_context@, 20, "child context"@) + signal_of(
            list,
            self.heading@,
            18,
            "heading"@,
        ) + signal_of(list, self.content@, 8, "content"@)
    }

    /// Gathers the evidence for the words of a query.
    pub fn signals(&self, list: &Vec<String>) -> (signals: Vec<Signal>)
        ensures
            signal_views(signals@) == self.evidence(texts(list@)),
    {
        let mut signals: Vec<Signal> = Vec::new();
        assert(signal_views(signals@) =~= Seq::<SignalView>::empty());
        add_signal(list, self.title.as_str(), 55, "title", &mut signals);
        add_signal(list, self.aliases.as_str(), 48, "alias", &mut signals);
        add_signal(list, self.summary.as_str(), 34, "summary", &mut signals);
        add_signal(list, self.keywords.as_str(), 30, "keyword", &mut signals);
        add_signal(list, self.tags.as_str(), 24, "tag", &mut signals);
        add_signal(list, self.ancestor_context.as_str(), 24, "ancestor context", &mut signals);
        add_signal(list, self.child_context.as_str(), 20, "child context", &mut signals);
        add_signal(list, self.heading.as_str(), 18, "heading", &mut signals);
        add_signal(list, self.content.as_str(), 8, "content", &mut signals);
        assert(signal_views(signals@) =~= self.evidence(texts(list@)));
        signals
    }
}

/// One matching section within the scope and the filters.
#[derive(Debug)]
pub struct SearchHit {
    pub node_id: NodeId,
    pub section_id: NodeId,
    pub signals: Vec<Signal>,
}

/// The contents of a [`SearchHit`].
pub struct HitView {
    pub node_id: NodeId,
    pub section_id: NodeId,
    pub signals: Seq<SignalView>,
}

impl View for SearchHit {
    type V = HitView;

    open spec fn view(&self) -> HitView {
        HitView {
            node_id: self.node_id,
            section_id: self.section_id,
            signals: signal_views(self.signals@),
        }
    }
}

pub open spec fn hit_views(hits: Seq<SearchHit>) -> Seq<HitView> {
    Seq::new(hits.len(), |i: int| hits[i]@)
}

/// A content search.
#[derive(Debug)]
pub struct SearchRequest {
    pub query: String,
    pub scope: SearchScope,
    pub scope_node: Option<NodeId>,
    pub filters: SearchFilters,
    pub limit: u32,
    pub offset: u32,
    pub prefix_last_token: bool,
}

impl SearchRequest {
    /// Why the search cannot be carried out.
    pub open spec fn refusal(self, nodes: Seq<Node>) -> Option<Refusal> {
        match scope_refusal(nodes, self.scope, self.scope_node) {
            Some(e) => Some(e),
            None => if self.filters.by_depth() {
                match depth_anchor(nodes, self.scope, self.scope_node) {
                    Ok(_) => None,
                    Err(e) => Some(e),
                }
            } else {
                None
            },
        }
    }

    /// The node from which depths are counted, where they matter.
    pub open spec fn anchor(self, nodes: Seq<Node>) -> Option<NodeId> {
        if self.filters.by_depth() {
            match depth_anchor(nodes, self.scope, self.scope_node) {
                Ok(id) => Some(id),
                Err(_) => None,
            }
        } else {
            None
        }
    }

    /// Whether the search returns the node.
    pub open spec fn covers(self, t: Tables, id: NodeId) -> bool {
        present(t.nodes, id) && in_scope(t, self.scope, self.scope_node, id)
            && self.filters.admits(t, self.anchor(t.nodes), node_at(t.nodes, id))
    }

    /// The hits among the first `n` matching documents, in order.
    pub open spec fn hits(
        self,
        t: Tables,
        list: Seq<Seq<char>>,
        documents: Seq<MatchedDocument>,
        n: int,
    ) -> Seq<HitView>
        decreases n,
    {
        if n <= 0 {
            Seq::empty()
        } else {
            let before = self.hits(t, list, documents, n - 1);
            let document = documents[n - 1];
            if self.covers(t, document.node_id) {
                before.push(
                    HitView {
                        node_id: document.node_id,
                        section_id: document.section_id,
                        signals: document.evidence(list),
                    },
                )
            } else {
                before
            }
        }
    }
}

impl SqliteStore {
    /// Keeps the matching documents within the scope and the filters, each with
    /// its evidence. A query with nothing to search for has no documents and finds
    /// nothing, whatever its scope.
    pub fn search_hits(
        &self,
        request: &SearchRequest,
        documents: Option<&Vec<MatchedDocument>>,
    ) -> (result: Result<Vec<SearchHit>, StoreError>)
        requires
            is_forest(self@.nodes),
        ensures
            match documents {
                None => result is Ok && result->Ok_0@.len() == 0,
                Some(found) => match request.refusal(self@.nodes) {
                    Some(e) => result is Err && result->Err_0@ == e,
                    None => result is Ok && exists|list: Seq<Seq<char>>| #[trigger]
                        are_tokens(request.query@, list) && hit_views(result->Ok_0@)
                            == request.hits(self@, list, found@, found@.len() as int),
                },
            },
    {
        let documents: &Vec<MatchedDocument> = match documents {
            Some(found) => found,
            None => {
                return Ok(Vec::new());
            },
        };
        let eligible = self.eligible_nodes(request.scope, request.scope_node)?;
        let anchor: Option<NodeId> = if request.filters.min_depth.is_some()
            || request.filters.max_depth.is_some() {
            match self.depth_anchor(request.scope, request.scope_node) {
                Ok(id) => Some(id),
                Err(e) => {
                    return Err(e);
                },
            }
        } else {
            None
        };
        let words = tokens(request.query.as_str());
        let ghost list = texts(words@);
        let ghost t = self@;
        let mut hits: Vec<SearchHit> = Vec::new();
        let mut i: usize = 0;
        assert(hit_views(hits@) =~= Seq::<HitView>::empty());
        while i < documents.len()
            invariant
                i <= documents.len(),
                t == self@,
                is_forest(t.nodes),
                list == texts(words@),
                request.refusal(t.nodes) is None,
                anchor == request.anchor(t.nodes),
                eligible.len() == t.nodes.len(),
                forall|k: int|
                    0 <= k < eligible.len() ==> #[trigger] eligible@[k] == in_scope(
                        t,
                        request.scope,
                        request.scope_node,
                        t.nodes[k].id,
                    ),
                hit_views(hits@) == request.hits(t, list, documents@, i as int),
            decreases documents.len() - i,
        {
            let document = &documents[i];
            let ghost before = hit_views(hits@);
            let covered: bool = match find(&self.nodes, document.node_id) {
                Some(at) => {
                    assert(eligible@[at as int] == in_scope(
                        t,
                        request.scope,
                        request.scope_node,
                        t.nodes[at as int].id,
                    ));
                    eligible[at] && self.matches_filters(&request.filters, anchor, at)
                },
                None => false,
            };
            assert(covered == request.covers(t, document.node_id));
            if covered {
                let signals = document.signals(&words);
                hits.push(
                    SearchHit {
                        node_id: document.node_id,
                        section_id: document.section_id,
                        signals,
                    },
                );
                assert(hit_views(hits@) =~= before.push(hits@.last()@));
            }
            i = i + 1;
        }
        assert(are_tokens(request.query@, list));
        Ok(hits)
    }
}

/// The bits of the highest score that is shown, 1.0.
pub const FULL_SCORE: u64 = 0x3ff0_0000_0000_0000;

/// The bits of a score as it is shown. Scores are not negative, so that their bits
/// are ordered as they are.
pub open spec fn shown(score: u64) -> u64 {
    if score > FULL_SCORE {
        FULL_SCORE
    } else {
        score
    }
}

pub(crate) fn show(score: u64) -> (capped: u64)
    ensures
        capped == shown(score),
{
    if score > FULL_SCORE {
        FULL_SCORE
    } else {
        score
    }
}

/// Whether hit `i` represents its node: it scores highest, then has the lowest
/// section, then comes first.
pub open spec fn is_best(hits: Seq<HitView>, scores: Seq<u64>, i: int) -> bool {
    forall|j: int|
        0 <= j < hits.len() && hits[j].node_id == hits[i].node_id && j != i ==> outranks(
            hits,
            scores,
            i,
            #[trigger] identity(j),
        )
}

pub open spec fn identity(j: int) -> int {
    j
}

/// Whether hit `i` is preferred to hit `j`.
pub open spec fn outranks(hits: Seq<HitView>, scores: Seq<u64>, i: int, j: int) -> bool {
    scores[i] > scores[j] || (scores[i] == scores[j] && (hits[i].section_id.value
        < hits[j].section_id.value || (hits[i].section_id == hits[j].section_id && i < j)))
}

/// The order of results: by shown score from the highest, then by node.
pub open spec fn result_key(hits: Seq<HitView>, scores: Seq<u64>, i: int) -> Seq<u128> {
    seq![(u64::MAX - shown(scores[i])) as u128, hits[i].node_id.value]
}

/// Whether the positions name the best hit of every node, in result order.
pub open spec fn ranks_hits(hits: Seq<HitView>, scores: Seq<u64>, listed: Seq<usize>) -> bool {
    lists(
        Seq::new(hits.len(), |i: int| i as usize),
        |i: usize| is_best(hits, scores, i as int),
        |i: usize| result_key(hits, scores, i as int),
        listed,
    )
}

fn best_of_node(hits: &Vec<SearchHit>, scores: &Vec<u64>, i: usize) -> (best: bool)
    requires
        scores.len() == hits.len(),
        i < hits.len(),
    ensures
        best == is_best(hit_views(hits@), scores@, i as int),
{
    let ghost views = hit_views(hits@);
    let mut j: usize = 0;
    while j < hits.len()
        invariant
            j <= hits.len(),
            i < hits.len(),
            scores.len() == hits.len(),
            views == hit_views(hits@),
            forall|k: int|
                0 <= k < j && views[k].node_id == views[i as int].node_id && k != i ==> outranks(
                    views,
                    scores@,
                    i as int,
                    #[trigger] identity(k),
                ),
        decreases hits.len() - j,
    {
        if j != i && hits[j].node_id == hits[i].node_id {
            let ahead: bool = scores[i] > scores[j] || (scores[i] == scores[j] && (
            hits[i].section_id.value < hits[j].section_id.value || (hits[i].section_id
                == hits[j].section_id && i < j)));
            if !ahead {
                assert(views[j as int].node_id == views[i as int].node_id);
                assert(!outranks(views, scores@, i as int, identity(j as int)));
                return false;
            }
        }
        j = j + 1;
    }
    true
}

/// Orders the best hit of every node by its score.
pub fn rank_hits(hits: &Vec<SearchHit>, scores: &Vec<u64>) -> (listed: Vec<usize>)
    requires
        scores.len() == hits.len(),
    ensures
        ranks_hits(hit_views(hits@), scores@, listed@),
{
    let ghost views = hit_views(hits@);
    let ghost rows = Seq::new(views.len(), |i: int| i as usize);
    let ghost pred = |i: usize| is_best(views, scores@, i as int);
    let ghost key = |i: usize| result_key(views, scores@, i as int);
    let mut picked: Vec<usize> = Vec::new();
    let mut keys: Vec<Vec<u128>> = Vec::new();
    let mut i: usize = 0;
    while i < hits.len()
        invariant
            i <= hits.len(),
            scores.len() == hits.len(),
            views == hit_views(hits@),
            rows == Seq::new(views.len(), |i: int| i as usize),
            pred == (|i: usize| is_best(views, scores@, i as int)),
            key == (|i: usize| result_key(views, scores@, i as int)),
            keys.len() == picked.len(),
            picked@.no_duplicates(),
            forall|k: int|
                0 <= k < picked.len() ==> #[trigger] picked@[k] < i && pred(
                    rows[picked@[k] as int],
                ),
            forall|j: int| 0 <= j < i && pred(#[trigger] rows[j]) ==> picked@.contains(j as usize),
            forall|k: int|
                0 <= k < picked.len() ==> #[trigger] keys@[k]@ == key(rows[picked@[k] as int]),
        decreases hits.len() - i,
    {
        let ghost before = picked@;
        assert(rows[i as int] == i);
        if best_of_node(hits, scores, i) {
            let mut k: Vec<u128> = Vec::new();
            k.push((u64::MAX - show(scores[i])) as u128);
            k.push(hits[i].node_id.value);
            assert(k@ =~= key(i));
            keys.push(k);
            picked.push(i);
            proof {
                assert(picked@[before.len() as int] == i);
                assert forall|j: int| 0 <= j < i + 1 && pred(#[trigger] rows[j]) implies picked@.contains(
                j as usize) by {
                    if j < i {
                        let k = choose|k: int| 0 <= k < before.len() && before[k] == j as usize;
                        assert(picked@[k] == j as usize);
                    }
                }
            }
        }
        i = i + 1;
    }
    let order = sorted_positions(&keys);
    let mut listed: Vec<usize> = Vec::new();
    let mut n: usize = 0;
    while n < order.len()
        invariant
            n <= order.len(),
            order.len() == picked.len(),
            rows == Seq::new(views.len(), |i: int| i as usize),
            forall|i: int| 0 <= i < order.len() ==> #[trigger] order@[i] < picked.len(),
            forall|k: int| 0 <= k < picked.len() ==> #[trigger] picked@[k] < rows.len(),
            listed.len() == n,
            forall|m: int|
                0 <= m < n ==> #[trigger] listed@[m] == rows[picked@[order@[m] as int] as int],
        decreases order.len() - n,
    {
        listed.push(picked[order[n]]);
        assert(rows[picked@[order@[n as int] as int] as int] == picked@[order@[n as int] as int]);
        n = n + 1;
    }
    proof {
        assert forall|k: int, l: int|
            0 <= k < picked.len() && 0 <= l < picked.len() && k != l implies key(
            rows[#[trigger] picked@[k] as int],
        ) != key(rows[#[trigger] picked@[l] as int]) by {
            let a = picked@[k] as int;
            let b = picked@[l] as int;
            assert(rows[a] == a as usize && rows[b] == b as usize);
            assert(key(rows[a])[1] == views[a].node_id.value);
            assert(key(rows[b])[1] == views[b].node_id.value);
            if views[a].node_id == views[b].node_id {
                assert(pred(rows[a]) && pred(rows[b]));
                assert(outranks(views, scores@, a, identity(b)));
                assert(outranks(views, scores@, b, identity(a)));
            }
        }
        assert(picks(rows, pred, picked@));
        assert(arranges(rows, picked@, keys@, order@, listed@));
        lemma_arranged_lists(rows, pred, key, picked@, keys@, order@, listed@);
    }
    listed
}

pub open spec fn search_scope(scope_node: Option<NodeId>, request_key: Seq<char>) -> ScopeView {
    ScopeView { operation: "search"@, node_id: scope_node, request_key }
}

/// An offset moved on, as far as it can be counted.
pub open spec fn moved_offset(start: int, limit: int) -> u32 {
    if start + limit > u32::MAX {
        u32::MAX
    } else {
        (start + limit) as u32
    }
}

/// The reason that a signal gives.
pub open spec fn reason_of(signal: SignalView) -> Seq<char> {
    signal.label + " matched"@
}

/// The reasons of some signals, in order.
pub open spec fn reasons_of(signals: Seq<SignalView>) -> Seq<Seq<char>> {
    Seq::new(signals.len(), |i: int| reason_of(signals[i]))
}

fn list_reasons(signals: &Vec<Signal>) -> (reasons: Vec<String>)
    ensures
        texts(reasons@) == reasons_of(signal_views(signals@)),
{
    let mut reasons: Vec<String> = Vec::new();
    let mut i: usize = 0;
    while i < signals.len()
        invariant
            i <= signals.len(),
            reasons.len() == i,
            forall|k: int|
                0 <= k < i ==> (#[trigger] reasons@[k])@ == reason_of(signals@[k]@),
        decreases signals.len() - i,
    {
        let mut reason = signals[i].label.clone();
        reason.push_str(" matched");
        reasons.push(reason);
        i = i + 1;
    }
    assert(texts(reasons@) =~= reasons_of(signal_views(signals@)));
    reasons
}

/// Whether a result presents a hit with its score.
pub open spec fn is_match(nodes: Seq<Node>, hit: HitView, score: u64, item: SearchMatch) -> bool {
    &&& presents(nodes, node_at(nodes, hit.node_id), item)
    &&& item.section_id == Some(hit.section_id)
    &&& item.score == shown(score)
    &&& texts(item.match_reasons@) == reasons_of(hit.signals)
    &&& item.accepts_child is None
}

/// Whether the results present the hits at the listed positions, one for one.
pub open spec fn presents_hits(
    nodes: Seq<Node>,
    hits: Seq<HitView>,
    scores: Seq<u64>,
    listed: Seq<usize>,
    items: Seq<SearchMatch>,
) -> bool {
    &&& items.len() == listed.len()
    &&& forall|i: int|
        0 <= i < items.len() ==> is_match(
            nodes,
            hits[listed[i] as int],
            scores[listed[i] as int],
            #[trigger] items[i],
        )
}

/// Why a node cannot be presented.
pub open spec fn match_refusal(nodes: Seq<Node>, id: NodeId) -> Option<Refusal> {
    if !present(nodes, id) {
        Some(Refusal::NotFound(id.text()))
    } else if child_count(nodes, id, nodes.len() as int) > u32::MAX {
        Some(Refusal::InvalidData("child count"@))
    } else {
        None
    }
}

/// Why one of the first `n` listed hits cannot be presented.
pub open spec fn listing_refusal(
    nodes: Seq<Node>,
    hits: Seq<HitView>,
    listed: Seq<usize>,
    n: int,
) -> Option<Refusal>
    decreases n,
{
    if n <= 0 {
        None
    } else {
        match listing_refusal(nodes, hits, listed, n - 1) {
            Some(e) => Some(e),
            None => match_refusal(nodes, hits[listed[n - 1] as int].node_id),
        }
    }
}

proof fn lemma_listing_refused(
    nodes: Seq<Node>,
    hits: Seq<HitView>,
    listed: Seq<usize>,
    n: int,
    m: int,
)
    requires
        0 <= n <= m,
        listing_refusal(nodes, hits, listed, n) is Some,
    ensures
        listing_refusal(nodes, hits, listed, m) == listing_refusal(nodes, hits, listed, n),
    decreases m,
{
    if m > n {
        lemma_listing_refused(nodes, hits, listed, n, m - 1);
    }
}

/// The outcome of a content search: the ranked hits from the offset on, no more than
/// the limit.
pub open spec fn answers_search(
    nodes: Seq<Node>,
    hits: Seq<HitView>,
    scores: Seq<u64>,
    offset: int,
    limit: int,
    result: Result<Vec<SearchMatch>, StoreError>,
) -> bool {
    exists|listed: Seq<usize>|
        {
            &&& #[trigger] ranks_hits(hits, scores, listed)
            &&& match listing_refusal(nodes, hits, listed, listed.len() as int) {
                Some(e) => result is Err && result->Err_0@ == e,
                None => result is Ok && presents_hits(
                    nodes,
                    hits,
                    scores,
                    page_items(listed, offset, limit),
                    result->Ok_0@,
                ),
            }
        }
}

/// The outcome of one page of a content search.
pub open spec fn serves_search(
    t: Tables,
    scope: ScopeView,
    hits: Seq<HitView>,
    scores: Seq<u64>,
    limit: PageLimit,
    cursor: Option<&PageCursor>,
    result: Result<Page<SearchMatch>, PageReadError>,
) -> bool {
    match offset_start(cursor, scope, t.revision) {
        Err(e) => fails_with(result, e),
        Ok(start) => exists|listed: Seq<usize>|
            {
                &&& #[trigger] ranks_hits(hits, scores, listed)
                &&& match listing_refusal(t.nodes, hits, listed, listed.len() as int) {
                    Some(e) => refuses(result, e),
                    None => {
                        &&& result is Ok
                        &&& presents_hits(
                            t.nodes,
                            hits,
                            scores,
                            page_items(listed, start as int, limit.size()),
                            result->Ok_0.items@,
                        )
                        &&& result->Ok_0.consistent()
                        &&& crate::paging::cursor_view(result->Ok_0.next_cursor) == if start
                            + limit.size() < listed.len() {
                            Some(
                                CursorView {
                                    revision: t.revision,
                                    scope,
                                    position: PositionView::Search {
                                        offset: moved_offset(start as int, limit.size()),
                                    },
                                },
                            )
                        } else {
                            None
                        }
                    },
                }
            },
    }
}

proof fn lemma_ranked_positions(hits: Seq<HitView>, scores: Seq<u64>, listed: Seq<usize>)
    requires
        hits.len() <= usize::MAX,
        ranks_hits(hits, scores, listed),
    ensures
        forall|i: int| 0 <= i < listed.len() ==> #[trigger] listed[i] < hits.len(),
{
    let rows = Seq::new(hits.len(), |i: int| i as usize);
    assert forall|i: int| 0 <= i < listed.len() implies #[trigger] listed[i] < hits.len() by {
        assert(listed.contains(listed[i]));
        assert(rows.contains(listed[i]));
        let k = choose|k: int| 0 <= k < rows.len() && rows[k] == listed[i];
        assert(listed[i] == k as usize);
    }
}

/// Cutting the results and cutting the listing come to the same.
proof fn lemma_cut(
    nodes: Seq<Node>,
    hits: Seq<HitView>,
    scores: Seq<u64>,
    listed: Seq<usize>,
    items: Seq<SearchMatch>,
    start: int,
    limit: int,
)
    requires
        0 <= start,
        0 <= limit,
        presents_hits(nodes, hits, scores, listed, items),
    ensures
        presents_hits(
            nodes,
            hits,
            scores,
            page_items(listed, start, limit),
            page_items(items, start, limit),
        ),
{
    let cut = page_items(items, start, limit);
    assert forall|i: int| 0 <= i < cut.len() implies is_match(
        nodes,
        hits[page_items(listed, start, limit)[i] as int],
        scores[page_items(listed, start, limit)[i] as int],
        #[trigger] cut[i],
    ) by {
        assert(cut[i] == items[start + i]);
    }
}

/// A content search returns no more matches than asked for, each a node within the
/// scope and the filters, no node twice, the higher score first and the lower
/// identity first where scores are the same; no score is above the full one.
pub proof fn law_search_results(
    t: Tables,
    request: SearchRequest,
    list: Seq<Seq<char>>,
    documents: Seq<MatchedDocument>,
    hits: Seq<HitView>,
    scores: Seq<u64>,
    result: Result<Vec<SearchMatch>, StoreError>,
)
    requires
        hits == request.hits(t, list, documents, documents.len() as int),
        hits.len() <= usize::MAX,
        scores.len() == hits.len(),
        answers_search(
            t.nodes,
            hits,
            scores,
            request.offset as int,
            request.limit as int,
            result,
        ),
        result is Ok,
    ensures
        result->Ok_0@.len() <= request.limit,
        forall|i: int|
            0 <= i < result->Ok_0@.len() ==> {
                &&& request.covers(t, (#[trigger] result->Ok_0@[i]).node_id)
                &&& result->Ok_0@[i].score <= FULL_SCORE
            },
        forall|i: int, j: int|
            0 <= i < j < result->Ok_0@.len() ==> {
                let a = #[trigger] result->Ok_0@[i];
                let b = #[trigger] result->Ok_0@[j];
                a.score > b.score || (a.score == b.score && a.node_id.value < b.node_id.value)
            },
{
    let listed = choose|listed: Seq<usize>|
        {
            &&& #[trigger] ranks_hits(hits, scores, listed)
            &&& match listing_refusal(t.nodes, hits, listed, listed.len() as int) {
                Some(e) => result is Err && result->Err_0@ == e,
                None => result is Ok && presents_hits(
                    t.nodes,
                    hits,
                    scores,
                    page_items(listed, request.offset as int, request.limit as int),
                    result->Ok_0@,
                ),
            }
        };
    lemma_ranked_positions(hits, scores, listed);
    let items = result->Ok_0@;
    let start = request.offset as int;
    let cut = page_items(listed, start, request.limit as int);
    assert forall|i: int| 0 <= i < items.len() implies {
        &&& cut[i] == listed[start + i]
        &&& start + i < listed.len()
        &&& (#[trigger] items[i]).node_id == hits[cut[i] as int].node_id
        &&& items[i].score == shown(scores[cut[i] as int])
        &&& request.covers(t, items[i].node_id)
    } by {
        let at = cut[i] as int;
        assert(is_match(t.nodes, hits[at], scores[at], items[i]));
        lemma_hits_covered(t, request, list, documents, documents.len() as int, at);
        assert(present(t.nodes, hits[at].node_id));
        assert(t.nodes[position(t.nodes, hits[at].node_id)].id == hits[at].node_id);
    }
    let key = |i: usize| result_key(hits, scores, i as int);
    assert forall|i: int, j: int| 0 <= i < j < items.len() implies {
        let a = #[trigger] items[i];
        let b = #[trigger] items[j];
        a.score > b.score || (a.score == b.score && a.node_id.value < b.node_id.value)
    } by {
        let x = listed[start + i];
        let y = listed[start + j];
        assert(lex_lt(key(x), key(y)));
        assert(key(x).skip(1).skip(1).len() == 0 && key(y).skip(1).skip(1).len() == 0);
        reveal_with_fuel(lex_lt, 3);
        assert(key(x).skip(1)[0] == key(x)[1]);
        assert(key(y).skip(1)[0] == key(y)[1]);
    }
}

proof fn lemma_hits_covered(
    t: Tables,
    request: SearchRequest,
    list: Seq<Seq<char>>,
    documents: Seq<MatchedDocument>,
    n: int,
    i: int,
)
    requires
        0 <= i < request.hits(t, list, documents, n).len(),
    ensures
        request.covers(t, request.hits(t, list, documents, n)[i].node_id),
    decreases n,
{
    if n > 0 {
        let before = request.hits(t, list, documents, n - 1);
        if i < before.len() {
            lemma_hits_covered(t, request, list, documents, n - 1, i);
        }
    }
}

impl SqliteStore {
    /// Presents the listed hits, in their order.
    fn present_hits(&self, hits: &Vec<SearchHit>, scores: &Vec<u64>, listed: &Vec<usize>) -> (result:
        Result<Vec<SearchMatch>, StoreError>)
        requires
            is_forest(self@.nodes),
            scores.len() == hits.len(),
            forall|i: int| 0 <= i < listed.len() ==> #[trigger] listed@[i] < hits.len(),
        ensures
            match listing_refusal(
                self@.nodes,
                hit_views(hits@),
                listed@,
                listed@.len() as int,
            ) {
                Some(e) => result is Err && result->Err_0@ == e,
                None => result is Ok && presents_hits(
                    self@.nodes,
                    hit_views(hits@),
                    scores@,
                    listed@,
                    result->Ok_0@,
                ),
            },
    {
        let ghost nodes = self@.nodes;
        let ghost views = hit_views(hits@);
        let mut items: Vec<SearchMatch> = Vec::new();
        let mut i: usize = 0;
        while i < listed.len()
            invariant
                i <= listed.len(),
                nodes == self@.nodes,
                is_forest(nodes),
                views == hit_views(hits@),
                scores.len() == hits.len(),
                forall|k: int| 0 <= k < listed.len() ==> #[trigger] listed@[k] < hits.len(),
                listing_refusal(nodes, views, listed@, i as int) is None,
                items.len() == i,
                forall|k: int|
                    0 <= k < i ==> is_match(
                        nodes,
                        views[listed@[k] as int],
                        scores@[listed@[k] as int],
                        #[trigger] items@[k],
                    ),
            decreases listed.len() - i,
        {
            let at: usize = listed[i];
            let hit = &hits[at];
            assert(views[at as int] == hit@);
            let reasons = list_reasons(&hit.signals);
            match self.search_match(
                hit.node_id,
                Some(hit.section_id),
                show(scores[at]),
                reasons,
                None,
            ) {
                Ok(item) => {
                    items.push(item);
                },
                Err(e) => {
                    proof {
                        lemma_listing_refused(
                            nodes,
                            views,
                            listed@,
                            i + 1,
                            listed@.len() as int,
                        );
                    }
                    return Err(e);
                },
            }
            i = i + 1;
        }
        Ok(items)
    }

    /// Executes weighted, section-oriented content search: ranks the hits by their
    /// scores and presents as many as are asked for, from the offset on. The filters
    /// have been applied to the hits, so they come before offset and limit.
    pub fn search_content(
        &self,
        request: &SearchRequest,
        hits: &Vec<SearchHit>,
        scores: &Vec<u64>,
    ) -> (result: Result<Vec<SearchMatch>, StoreError>)
        requires
            is_forest(self@.nodes),
            scores.len() == hits.len(),
        ensures
            answers_search(
                self@.nodes,
                hit_views(hits@),
                scores@,
                request.offset as int,
                request.limit as int,
                result,
            ),
    {
        let listed = rank_hits(hits, scores);
        proof {
            lemma_ranked_positions(hit_views(hits@), scores@, listed@);
        }
        let ghost whole = listed@;
        let items = self.present_hits(hits, scores, &listed)?;
        let ghost all = items@;
        let cut = offset_items(items, request.offset, request.limit);
        proof {
            lemma_cut(
                self@.nodes,
                hit_views(hits@),
                scores@,
                whole,
                all,
                request.offset as int,
                request.limit as int,
            );
            assert(ranks_hits(hit_views(hits@), scores@, whole));
        }
        Ok(cut)
    }

    /// Returns one resumable page of content-search matches; the request key names
    /// everything that the ranking depends on.
    pub fn search_content_page(
        &self,
        request: &SearchRequest,
        request_key: &str,
        hits: &Vec<SearchHit>,
        scores: &Vec<u64>,
        limit: PageLimit,
        cursor: Option<&PageCursor>,
    ) -> (result: Result<Page<SearchMatch>, PageReadError>)
        requires
            is_forest(self@.nodes),
            scores.len() == hits.len(),
        ensures
            serves_search(
                self@,
                search_scope(request.scope_node, request_key@),
                hit_views(hits@),
                scores@,
                limit,
                cursor,
                result,
            ),
    {
        let scope = CursorScope::new("search", request.scope_node, request_key);
        let start: u32 = match start_offset(cursor, &scope, self.revision) {
            Ok(start) => start,
            Err(e) => {
                return Err(PageReadError::Pagination(e));
            },
        };
        let listed = rank_hits(hits, scores);
        proof {
            lemma_ranked_positions(hit_views(hits@), scores@, listed@);
        }
        let ghost whole = listed@;
        assert(ranks_hits(hit_views(hits@), scores@, whole));
        let ranked = match self.present_hits(hits, scores, &listed) {
            Ok(ranked) => ranked,
            Err(e) => {
                return Err(PageReadError::Store(e));
            },
        };
        let ghost all = ranked@;
        let size: u32 = limit.get();
        let total: usize = ranked.len();
        let items = offset_items(ranked, start, size);
        proof {
            lemma_cut(
                self@.nodes,
                hit_views(hits@),
                scores@,
                whole,
                all,
                start as int,
                size as int,
            );
        }
        let next: Option<PageCursor> = if (start as u64) + (size as u64) < total as u64 {
            Some(
                PageCursor::issue(
                    self.revision,
                    scope,
                    PagePosition::Search { offset: start.saturating_add(size) },
                ),
            )
        } else {
            None
        };
        Ok(Page::new(items, next))
    }

    /// Finds nearby examples by requested node type in sibling order.
    pub fn examples_for(&self, destination: NodeId, node_type: Option<&String>, limit: u32) -> (ids:
        Vec<NodeId>)
        requires
            unique_ids(self@.nodes),
        ensures
            exists|children: Seq<Node>| #[trigger]
                lists_children(self@.nodes, destination, children) && ids@ == first_ids(
                    children,
                    type_of(node_type),
                    limit as int,
                    children.len() as int,
                ),
    {
        let children = self.children(destination);
        let mut ids: Vec<NodeId> = Vec::new();
        let mut i: usize = 0;
        let ghost wanted = type_of(node_type);
        assert(ids@ =~= first_ids(children@, wanted, limit as int, 0));
        while i < children.len()
            invariant
                i <= children.len(),
                wanted == type_of(node_type),
                ids.len() <= limit,
                ids@ == first_ids(children@, wanted, limit as int, i as int),
            decreases children.len() - i,
        {
            let fitting: bool = match node_type {
                None => true,
                Some(kind) => match &children[i].metadata.node_type {
                    Some(own) => *own == *kind,
                    None => false,
                },
            };
            if fitting && (ids.len() as u64) < limit as u64 {
                ids.push(children[i].id);
            }
            i = i + 1;
        }
        assert(lists_children(self@.nodes, destination, children@));
        ids
    }
}

/// The text of a requested type.
pub open spec fn type_of(kind: Option<&String>) -> Option<Seq<char>> {
    match kind {
        Some(k) => Some(k@),
        None => None,
    }
}

/// Whether the node has the requested type.
pub open spec fn has_type(node: Node, kind: Option<Seq<char>>) -> bool {
    kind matches Some(k) ==> (node.metadata.node_type matches Some(own) && own@ == k)
}

/// The identities of the first `limit` fitting nodes among the first `n`.
pub open spec fn first_ids(
    listed: Seq<Node>,
    kind: Option<Seq<char>>,
    limit: int,
    n: int,
) -> Seq<NodeId>
    decreases n,
{
    if n <= 0 {
        Seq::empty()
    } else {
        let before = first_ids(listed, kind, limit, n - 1);
        if has_type(listed[n - 1], kind) && before.len() < limit {
            before.push(listed[n - 1].id)
        } else {
            before
        }
    }
}

/// One result of a search, presented with its place in the tree.
#[derive(Debug)]
pub struct SearchMatch {
    pub node_id: NodeId,
    pub section_id: Option<NodeId>,
    pub breadcrumb: Vec<String>,
    pub title: String,
    pub summary: Option<String>,
    pub node_type: Option<String>,
    /// The bits of the score.
    pub score: u64,
    pub match_reasons: Vec<String>,
    pub child_count: u32,
    /// Whether the node accepts the type that is asked for, where one is.
    pub accepts_child: Option<bool>,
}

/// Whether a result presents the node.
pub open spec fn presents(nodes: Seq<Node>, node: Node, item: SearchMatch) -> bool {
    &&& item.node_id == node.id
    &&& is_breadcrumb(nodes, node.id, item.breadcrumb@)
    &&& item.title@ == node.metadata.title@
    &&& text_of(item.summary) == text_of(node.metadata.summary)
    &&& text_of(item.node_type) == text_of(node.metadata.node_type)
    &&& item.child_count == child_count(nodes, node.id, nodes.len() as int)
}

impl SqliteStore {
    /// Presents a node as the result of a search.
    pub fn search_match(
        &self,
        node_id: NodeId,
        section_id: Option<NodeId>,
        score: u64,
        match_reasons: Vec<String>,
        accepts_child: Option<bool>,
    ) -> (result: Result<SearchMatch, StoreError>)
        requires
            is_forest(self@.nodes),
        ensures
            match lookup(self@.nodes, node_id) {
                None => result is Err && result->Err_0@ == Refusal::NotFound(node_id.text()),
                Some(node) => if child_count(
                    self@.nodes,
                    node_id,
                    self@.nodes.len() as int,
                ) > u32::MAX {
                    result is Err && result->Err_0@ == Refusal::InvalidData("child count"@)
                } else {
                    &&& result is Ok
                    &&& presents(self@.nodes, node, result->Ok_0)
                    &&& result->Ok_0.section_id == section_id
                    &&& result->Ok_0.score == score
                    &&& result->Ok_0.match_reasons == match_reasons
                    &&& result->Ok_0.accepts_child == accepts_child
                },
            },
    {
        let node = self.require(node_id)?;
        let breadcrumb = self.breadcrumb(node_id)?;
        let children: usize = count_children(&self.nodes, node_id);
        if children > u32::MAX as usize {
            return Err(invalid_data("child count"));
        }
        Ok(
            SearchMatch {
                node_id,
                section_id,
                breadcrumb,
                title: node.metadata.title.clone(),
                summary: copy_text(&node.metadata.summary),
                node_type: copy_text(&node.metadata.node_type),
                score,
                match_reasons,
                child_count: children as u32,
                accepts_child,
            },
        )
    }
}

} // verus!
