//! What the browser reads: workspaces, nodes with their children, rendered and
//! raw Markdown, and the way up from a node.

use crate::diagnostics::texts;
use crate::listing::increasing;
use crate::lookup::SelectorText;
use crate::markdown::{render_sanitized_html, rendered};
use crate::model::{Node, NodeId, ReferenceTarget, Refusal, StoreError, TargetView};
use crate::reads::{above, level, lists_children, resolved};
use crate::references::{references_of, touching, ReferenceSide};
use crate::reorder::{child_count, count_children};
use crate::tables::{reference_views, SqliteStore, Tables};
use crate::text::code_points;
use crate::tree::{find, is_forest, lemma_position, lookup, present, unique_ids};
use crate::words::{join, joined_by};
use vstd::prelude::*;

verus! {

/// A failed read.
#[derive(Debug)]
pub enum ApiError {
    /// 404: "node not found".
    NotFound,
    /// 500, with the message of the store.
    Internal(StoreError),
}

/// The meaning of an [`ApiError`].
pub enum ApiRefusal {
    NotFound,
    Internal(Refusal),
}

impl View for ApiError {
    type V = ApiRefusal;

    open spec fn view(&self) -> ApiRefusal {
        match *self {
            ApiError::NotFound => ApiRefusal::NotFound,
            ApiError::Internal(e) => ApiRefusal::Internal(e@),
        }
    }
}

/// What an outgoing reference points at, as far as a tooltip shows it.
#[allow(inconsistent_fields)]
#[derive(Debug)]
pub enum ReferenceTargetSummary {
    Resolved { node_id: String, title: String, path: String },
    Unresolved { target_ref: String },
}

/// The contents of a [`ReferenceTargetSummary`].
pub enum TargetSummaryView {
    Resolved { node_id: Seq<char>, title: Seq<char>, path: Seq<char> },
    Unresolved { target_ref: Seq<char> },
}

impl View for ReferenceTargetSummary {
    type V = TargetSummaryView;

    open spec fn view(&self) -> TargetSummaryView {
        match *self {
            ReferenceTargetSummary::Resolved { node_id, title, path } =>
                TargetSummaryView::Resolved { node_id: node_id@, title: title@, path: path@ },
            ReferenceTargetSummary::Unresolved { target_ref } => TargetSummaryView::Unresolved {
                target_ref: target_ref@,
            },
        }
    }
}

/// One typed outgoing reference.
#[derive(Debug)]
pub struct ReferenceSummary {
    pub reference_type: String,
    pub target: ReferenceTargetSummary,
}

/// The contents of a [`ReferenceSummary`].
pub struct ReferenceSummaryView {
    pub reference_type: Seq<char>,
    pub target: TargetSummaryView,
}

impl View for ReferenceSummary {
    type V = ReferenceSummaryView;

    open spec fn view(&self) -> ReferenceSummaryView {
        ReferenceSummaryView { reference_type: self.reference_type@, target: self.target@ }
    }
}

/// A node as the tree canvas shows it.
#[derive(Debug)]
pub struct NodeSummary {
    pub id: String,
    pub slug: String,
    /// Canonical root-to-node slug path.
    pub path: String,
    pub title: String,
    /// Direct child count, shown without fetching the children.
    pub children_count: u64,
    /// Every outgoing typed reference, each with its own target.
    pub references: Vec<ReferenceSummary>,
    /// Needed by structural edits of a node seen only as a summary.
    pub version: u64,
}

/// The contents of a [`NodeSummary`].
pub struct SummaryView {
    pub id: Seq<char>,
    pub slug: Seq<char>,
    pub path: Seq<char>,
    pub title: Seq<char>,
    pub children_count: nat,
    pub references: Seq<ReferenceSummaryView>,
    pub version: u64,
}

impl View for NodeSummary {
    type V = SummaryView;

    open spec fn view(&self) -> SummaryView {
        SummaryView {
            id: self.id@,
            slug: self.slug@,
            path: self.path@,
            title: self.title@,
            children_count: self.children_count as nat,
            references: summary_views(self.references@),
            version: self.version,
        }
    }
}

pub open spec fn summary_views(references: Seq<ReferenceSummary>) -> Seq<ReferenceSummaryView> {
    Seq::new(references.len(), |i: int| references[i]@)
}

/// A node with its children.
#[derive(Debug)]
pub struct NodeResponse {
    pub summary: NodeSummary,
    pub children: Vec<NodeSummary>,
}

/// The body of a node with the version that a later edit names.
#[derive(Debug)]
pub struct SourceResponse {
    pub markdown_content: String,
    pub version: u64,
}

/// One open workspace.
#[derive(Debug)]
pub struct WorkspaceSummary {
    pub id: usize,
    pub name: String,
    pub root: String,
    /// Every relation type that the workspace uses.
    pub relation_types: Vec<String>,
}

/// The slugs from the root down to a node.
pub open spec fn slug_path(nodes: Seq<Node>, id: NodeId) -> Seq<Seq<char>> {
    let n = level(nodes, id);
    Seq::new(n, |i: int| above(nodes, id, n - 1 - i).slug@)
}

/// The canonical path of a node as one text.
pub open spec fn path_text(nodes: Seq<Node>, id: NodeId) -> Seq<char> {
    joined_by(slug_path(nodes, id), "/"@, level(nodes, id) as int)
}

/// The identities from the root down to the parent of a node, as texts.
pub open spec fn ancestor_texts(nodes: Seq<Node>, id: NodeId) -> Seq<Seq<char>> {
    if present(nodes, id) {
        let n = level(nodes, id);
        Seq::new((n - 1) as nat, |i: int| above(nodes, id, n - 1 - i).id.text())
    } else {
        Seq::empty()
    }
}

/// What a tooltip shows of a target. One whose node is gone counts as unresolved.
pub open spec fn target_summary(nodes: Seq<Node>, target: TargetView) -> TargetSummaryView {
    match target {
        TargetView::Unresolved { target_ref } => TargetSummaryView::Unresolved { target_ref },
        TargetView::Resolved { node_id, target_ref, anchor } => match lookup(nodes, node_id) {
            Some(node) => TargetSummaryView::Resolved {
                node_id: node_id.text(),
                title: node.metadata.title@,
                path: path_text(nodes, node_id),
            },
            None => TargetSummaryView::Unresolved {
                target_ref: match target_ref {
                    Some(text) => text,
                    None => node_id.text(),
                },
            },
        },
    }
}

/// The outgoing references of a node in persisted order.
pub open spec fn reference_summaries(t: Tables, id: NodeId) -> Seq<ReferenceSummaryView> {
    let references = references_of(touching(t, ReferenceSide::Source, id));
    Seq::new(
        references.len(),
        |i: int|
            ReferenceSummaryView {
                reference_type: references[i].reference_type,
                target: target_summary(t.nodes, references[i].target),
            },
    )
}

/// A node as the tree canvas shows it.
pub open spec fn node_summary(t: Tables, node: Node) -> SummaryView {
    SummaryView {
        id: node.id.text(),
        slug: node.slug@,
        path: path_text(t.nodes, node.id),
        title: node.metadata.title@,
        children_count: child_count(t.nodes, node.id, t.nodes.len() as int),
        references: reference_summaries(t, node.id),
        version: node.version,
    }
}

/// The node that a request addresses. A selector that cannot be read addresses
/// none.
pub open spec fn addressed(nodes: Seq<Node>, selector: SelectorText) -> Result<Node, ApiRefusal> {
    match selector.parsed {
        Err(_) => Err(ApiRefusal::NotFound),
        Ok(s) => match resolved(nodes, s) {
            Ok(Some(node)) => Ok(node),
            Ok(None) => Err(ApiRefusal::NotFound),
            Err(e) => Err(ApiRefusal::Internal(e)),
        },
    }
}

/// Whether the children of a node are summarized in sibling order.
pub open spec fn summarizes_children(t: Tables, id: NodeId, children: Seq<NodeSummary>) -> bool {
    exists|listed: Seq<Node>|
        #![trigger lists_children(t.nodes, id, listed)]
        {
            &&& lists_children(t.nodes, id, listed)
            &&& children.len() == listed.len()
            &&& forall|i: int|
                0 <= i < children.len() ==> (#[trigger] children[i])@ == node_summary(t, listed[i])
        }
}

impl SqliteStore {
    /// The canonical path of an existing node as one text.
    pub fn path_line(&self, id: NodeId) -> (text: String)
        requires
            is_forest(self@.nodes),
            present(self@.nodes, id),
        ensures
            text@ == path_text(self@.nodes, id),
    {
        match self.canonical_path(id) {
            Ok(slugs) => {
                assert(texts(slugs@) =~= slug_path(self@.nodes, id));
                join(&slugs, "/")
            },
            Err(_) => {
                assert(false);
                String::new()
            },
        }
    }

    /// The identities from the root down to the parent of a node.
    pub fn ancestor_ids(&self, id: NodeId) -> (ids: Vec<String>)
        requires
            is_forest(self@.nodes),
        ensures
            texts(ids@) == ancestor_texts(self@.nodes, id),
    {
        let ancestors = self.ancestors(id);
        let mut ids: Vec<String> = Vec::new();
        let mut i: usize = 0;
        while i < ancestors.len()
            invariant
                i <= ancestors.len(),
                ids.len() == i,
                forall|k: int| 0 <= k < i ==> (#[trigger] ids@[k])@ == ancestors@[k].node.id.text(),
            decreases ancestors.len() - i,
        {
            ids.push(ancestors[i].node.id.to_text());
            i = i + 1;
        }
        assert(texts(ids@) =~= ancestor_texts(self@.nodes, id));
        ids
    }

    fn summarize_target(&self, target: &ReferenceTarget) -> (summary: ReferenceTargetSummary)
        requires
            is_forest(self@.nodes),
        ensures
            summary@ == target_summary(self@.nodes, target@),
    {
        match target {
            ReferenceTarget::Unresolved { target_ref } => ReferenceTargetSummary::Unresolved {
                target_ref: target_ref.clone(),
            },
            ReferenceTarget::Resolved { node_id, target_ref, anchor } => {
                match find(&self.nodes, *node_id) {
                    Some(i) => ReferenceTargetSummary::Resolved {
                        node_id: node_id.to_text(),
                        title: self.nodes[i].metadata.title.clone(),
                        path: self.path_line(*node_id),
                    },
                    None => ReferenceTargetSummary::Unresolved {
                        target_ref: match target_ref {
                            Some(text) => text.clone(),
                            None => node_id.to_text(),
                        },
                    },
                }
            },
        }
    }

    /// Every outgoing reference of one node, each carrying enough about its target
    /// to render a tooltip without a follow-up request.
    pub fn outgoing_reference_summaries(&self, id: NodeId) -> (summaries: Vec<ReferenceSummary>)
        requires
            is_forest(self@.nodes),
        ensures
            summary_views(summaries@) == reference_summaries(self@, id),
    {
        let references = self.outgoing_references(id);
        let ghost views = references_of(touching(self@, ReferenceSide::Source, id));
        assert(views.len() == references@.len());
        let mut summaries: Vec<ReferenceSummary> = Vec::new();
        let mut i: usize = 0;
        while i < references.len()
            invariant
                i <= references.len(),
                is_forest(self@.nodes),
                reference_views(references@) == views,
                views == references_of(touching(self@, ReferenceSide::Source, id)),
                summaries.len() == i,
                forall|k: int|
                    0 <= k < i ==> (#[trigger] summaries@[k])@ == reference_summaries(self@, id)[k],
            decreases references.len() - i,
        {
            assert(views[i as int] == references@[i as int]@);
            summaries.push(
                ReferenceSummary {
                    reference_type: references[i].reference_type.clone(),
                    target: self.summarize_target(&references[i].target),
                },
            );
            i = i + 1;
        }
        assert(summary_views(summaries@) =~= reference_summaries(self@, id));
        summaries
    }

    /// Summarizes a node of the workspace.
    pub fn summarize(&self, node: &Node) -> (summary: NodeSummary)
        requires
            is_forest(self@.nodes),
            present(self@.nodes, node.id),
        ensures
            summary@ == node_summary(self@, *node),
    {
        NodeSummary {
            id: node.id.to_text(),
            slug: node.slug.clone(),
            path: self.path_line(node.id),
            title: node.metadata.title.clone(),
            children_count: count_children(&self.nodes, node.id) as u64,
            references: self.outgoing_reference_summaries(node.id),
            version: node.version,
        }
    }

    /// Finds the node that a request addresses.
    pub fn resolve_selector(&self, selector: &SelectorText) -> (result: Result<Node, ApiError>)
        requires
            unique_ids(self@.nodes),
        ensures
            match addressed(self@.nodes, *selector) {
                Ok(node) => result == Ok::<Node, ApiError>(node) && present(self@.nodes, node.id),
                Err(e) => result is Err && result->Err_0@ == e,
            },
    {
        match &selector.parsed {
            Err(_) => Err(ApiError::NotFound),
            Ok(s) => {
                proof {
                    crate::commands::lemma_resolved(self@.nodes, *s);
                }
                match self.resolve(s) {
                    Ok(Some(node)) => {
                        proof {
                            lemma_position(self@.nodes, self@.nodes.index_of(node));
                        }
                        Ok(node)
                    },
                    Ok(None) => Err(ApiError::NotFound),
                    Err(e) => Err(ApiError::Internal(e)),
                }
            },
        }
    }

    /// A node with summaries of its children.
    pub fn node_response(&self, selector: &SelectorText) -> (result: Result<NodeResponse, ApiError>)
        requires
            is_forest(self@.nodes),
        ensures
            match addressed(self@.nodes, *selector) {
                Ok(node) => {
                    &&& result is Ok
                    &&& result->Ok_0.summary@ == node_summary(self@, node)
                    &&& summarizes_children(self@, node.id, result->Ok_0.children@)
                },
                Err(e) => result is Err && result->Err_0@ == e,
            },
    {
        let node = self.resolve_selector(selector)?;
        let listed = self.children(node.id);
        let mut children: Vec<NodeSummary> = Vec::new();
        let mut i: usize = 0;
        while i < listed.len()
            invariant
                i <= listed.len(),
                is_forest(self@.nodes),
                lists_children(self@.nodes, node.id, listed@),
                children.len() == i,
                forall|k: int|
                    0 <= k < i ==> (#[trigger] children@[k])@ == node_summary(self@, listed@[k]),
            decreases listed.len() - i,
        {
            proof {
                let child = listed@[i as int];
                assert(listed@.contains(child));
                let at = choose|j: int| 0 <= j < self@.nodes.len() && self@.nodes[j] == child;
                lemma_position(self@.nodes, at);
            }
            children.push(self.summarize(&listed[i]));
            i = i + 1;
        }
        assert(summarizes_children(self@, node.id, children@));
        Ok(NodeResponse { summary: self.summarize(&node), children })
    }

    /// The sanitized HTML of a node's Markdown.
    pub fn render_response(&self, selector: &SelectorText) -> (result: Result<String, ApiError>)
        requires
            unique_ids(self@.nodes),
        ensures
            match addressed(self@.nodes, *selector) {
                Ok(node) => result is Ok && result->Ok_0@ == rendered(node.markdown_content@),
                Err(e) => result is Err && result->Err_0@ == e,
            },
    {
        let node = self.resolve_selector(selector)?;
        Ok(render_sanitized_html(node.markdown_content.as_str()))
    }

    /// The Markdown of a node with its current version.
    pub fn source_response(&self, selector: &SelectorText) -> (result: Result<
        SourceResponse,
        ApiError,
    >)
        requires
            unique_ids(self@.nodes),
        ensures
            match addressed(self@.nodes, *selector) {
                Ok(node) => {
                    &&& result is Ok
                    &&& result->Ok_0.markdown_content@ == node.markdown_content@
                    &&& result->Ok_0.version == node.version
                },
                Err(e) => result is Err && result->Err_0@ == e,
            },
    {
        let node = self.resolve_selector(selector)?;
        let version: u64 = node.version;
        Ok(SourceResponse { markdown_content: node.markdown_content, version })
    }

    /// The identities from the root down to the parent of a node.
    pub fn ancestors_response(&self, selector: &SelectorText) -> (result: Result<
        Vec<String>,
        ApiError,
    >)
        requires
            is_forest(self@.nodes),
        ensures
            match addressed(self@.nodes, *selector) {
                Ok(node) => result is Ok && texts(result->Ok_0@) == ancestor_texts(
                    self@.nodes,
                    node.id,
                ),
                Err(e) => result is Err && result->Err_0@ == e,
            },
    {
        let node = self.resolve_selector(selector)?;
        Ok(self.ancestor_ids(node.id))
    }

    /// Summarizes the workspace under its position in the session.
    pub fn workspace_summary(&self, id: usize, name: String, root: NodeId) -> (summary:
        WorkspaceSummary)
        ensures
            summary.id == id,
            summary.name@ == name@,
            summary.root@ == root.text(),
            increasing(texts(summary.relation_types@), |t: Seq<char>| code_points(t)),
            forall|x: Seq<char>| #[trigger]
                texts(summary.relation_types@).contains(x) <==> exists|i: int|
                    0 <= i < self@.references.len() && (
                    #[trigger] self@.references[i]).reference.reference_type == x,
    {
        WorkspaceSummary {
            id,
            name,
            root: root.to_text(),
            relation_types: self.all_relation_types(),
        }
    }
}

} // verus!
