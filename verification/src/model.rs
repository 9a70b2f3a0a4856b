//! Identities, canonical rows and the errors of the store.

use crate::text::{copy_text, encode_ulid, push_decimal, share, text_of, ulid_text};
use std::sync::Arc;
use vstd::prelude::*;

verus! {

/// Stable identity of a node or section.
#[derive(Clone, Copy, Debug, PartialEq, Eq, Hash, Structural)]
pub struct NodeId {
    pub value: u128,
}

impl NodeId {
    pub fn new(value: u128) -> (id: NodeId)
        ensures
            id.value == value,
    {
        NodeId { value }
    }

    /// The canonical text of the identity.
    pub open spec fn text(self) -> Seq<char> {
        ulid_text(self.value)
    }

    /// Writes the identity in its canonical form.
    pub fn to_text(&self) -> (text: String)
        ensures
            text@ == self.text(),
    {
        encode_ulid(self.value)
    }
}

/// A 32-byte digest.
#[derive(Clone, Copy, Debug, PartialEq, Eq, Hash, Structural)]
pub struct NodeHash {
    pub high: u128,
    pub low: u128,
}

/// The descriptive fields of a node.
#[derive(Debug)]
pub struct NodeMetadata {
    pub title: String,
    pub summary: Option<String>,
    pub node_type: Option<String>,
    /// Node types accepted below this node; empty accepts every type.
    pub accepts_children: Vec<String>,
    pub aliases: Vec<String>,
    pub tags: Vec<String>,
    pub keywords: Vec<String>,
    pub owns: Vec<String>,
    pub excludes: Vec<String>,
    /// Remaining metadata, in serialized form.
    pub extra: String,
}

/// One canonical node: the current head of its revisions.
#[derive(Debug)]
pub struct Node {
    pub id: NodeId,
    pub parent_id: Option<NodeId>,
    pub slug: String,
    pub metadata: Arc<NodeMetadata>,
    pub markdown_content: String,
    pub sibling_order: u32,
    pub version: u64,
    pub content_hash: NodeHash,
    pub revision_hash: NodeHash,
    pub created_at: u64,
    pub updated_at: u64,
}

impl Node {
    /// Copies the row.
    pub fn copy(&self) -> (node: Node)
        ensures
            node == *self,
    {
        Node {
            id: self.id,
            parent_id: self.parent_id,
            slug: self.slug.clone(),
            metadata: share(&self.metadata),
            markdown_content: self.markdown_content.clone(),
            sibling_order: self.sibling_order,
            version: self.version,
            content_hash: self.content_hash,
            revision_hash: self.revision_hash,
            created_at: self.created_at,
            updated_at: self.updated_at,
        }
    }

    /// Copies the row with another sibling position.
    pub fn copy_at(&self, sibling_order: u32) -> (node: Node)
        ensures
            node == (Node { sibling_order, ..*self }),
    {
        let mut node = self.copy();
        node.sibling_order = sibling_order;
        node
    }

    pub fn is_root(&self) -> (root: bool)
        ensures
            root == self.parent_id.is_none(),
    {
        self.parent_id.is_none()
    }
}

/// One immutable revision of a node.
#[derive(Debug)]
pub struct NodeRevision {
    pub node_id: NodeId,
    pub parent_id: Option<NodeId>,
    pub slug: String,
    pub metadata: Arc<NodeMetadata>,
    pub markdown_content: String,
    pub sibling_order: u32,
    pub version: u64,
    pub content_hash: NodeHash,
    pub revision_hash: NodeHash,
    pub change_summary: Option<String>,
    pub created_by: Option<String>,
    pub created_at: u64,
}

/// The contents of a [`NodeRevision`].
pub struct RevisionView {
    pub node_id: NodeId,
    pub parent_id: Option<NodeId>,
    pub slug: Seq<char>,
    pub metadata: NodeMetadata,
    pub markdown_content: Seq<char>,
    pub sibling_order: u32,
    pub version: u64,
    pub content_hash: NodeHash,
    pub revision_hash: NodeHash,
    pub change_summary: Option<Seq<char>>,
    pub created_by: Option<Seq<char>>,
    pub created_at: u64,
}

impl View for NodeRevision {
    type V = RevisionView;

    open spec fn view(&self) -> RevisionView {
        RevisionView {
            node_id: self.node_id,
            parent_id: self.parent_id,
            slug: self.slug@,
            metadata: *self.metadata,
            markdown_content: self.markdown_content@,
            sibling_order: self.sibling_order,
            version: self.version,
            content_hash: self.content_hash,
            revision_hash: self.revision_hash,
            change_summary: text_of(self.change_summary),
            created_by: text_of(self.created_by),
            created_at: self.created_at,
        }
    }
}

impl NodeRevision {
    /// Copies the row.
    pub fn copy(&self) -> (revision: NodeRevision)
        ensures
            revision == *self,
    {
        NodeRevision {
            node_id: self.node_id,
            parent_id: self.parent_id,
            slug: self.slug.clone(),
            metadata: share(&self.metadata),
            markdown_content: self.markdown_content.clone(),
            sibling_order: self.sibling_order,
            version: self.version,
            content_hash: self.content_hash,
            revision_hash: self.revision_hash,
            change_summary: copy_text(&self.change_summary),
            created_by: copy_text(&self.created_by),
            created_at: self.created_at,
        }
    }
}

/// How a reference came to be.
#[derive(Clone, Copy, Debug, PartialEq, Eq, Hash, Structural)]
pub enum ReferenceOrigin {
    Explicit,
    Markdown,
    Wikilink,
    ImportedMetadata,
    Inferred,
    Agent,
}

/// What a reference points at.
#[allow(inconsistent_fields)]
#[derive(Debug)]
pub enum ReferenceTarget {
    /// An existing node, with the text it was written as and a section anchor.
    Resolved { node_id: NodeId, target_ref: Option<String>, anchor: Option<String> },
    /// Target text that no node answers to.
    Unresolved { target_ref: String },
}

/// The contents of a [`ReferenceTarget`].
#[allow(inconsistent_fields)]
pub enum TargetView {
    Resolved { node_id: NodeId, target_ref: Option<Seq<char>>, anchor: Option<Seq<char>> },
    Unresolved { target_ref: Seq<char> },
}

impl View for ReferenceTarget {
    type V = TargetView;

    open spec fn view(&self) -> TargetView {
        match *self {
            ReferenceTarget::Resolved { node_id, target_ref, anchor } => TargetView::Resolved {
                node_id,
                target_ref: text_of(target_ref),
                anchor: text_of(anchor),
            },
            ReferenceTarget::Unresolved { target_ref } => TargetView::Unresolved {
                target_ref: target_ref@,
            },
        }
    }
}

impl ReferenceTarget {
    pub fn copy(&self) -> (target: ReferenceTarget)
        ensures
            target == *self,
    {
        match self {
            ReferenceTarget::Resolved { node_id, target_ref, anchor } => ReferenceTarget::Resolved {
                node_id: *node_id,
                target_ref: copy_text(target_ref),
                anchor: copy_text(anchor),
            },
            ReferenceTarget::Unresolved { target_ref } => ReferenceTarget::Unresolved {
                target_ref: target_ref.clone(),
            },
        }
    }
}

/// A typed relation from one node to another.
#[derive(Debug)]
pub struct Reference {
    pub source_node_id: NodeId,
    pub source_section_id: Option<NodeId>,
    pub reference_type: String,
    pub target: ReferenceTarget,
    pub origin: ReferenceOrigin,
    /// Relation metadata, in serialized form.
    pub metadata: String,
}

/// The contents of a [`Reference`].
pub struct ReferenceView {
    pub source_node_id: NodeId,
    pub source_section_id: Option<NodeId>,
    pub reference_type: Seq<char>,
    pub target: TargetView,
    pub origin: ReferenceOrigin,
    pub metadata: Seq<char>,
}

impl View for Reference {
    type V = ReferenceView;

    open spec fn view(&self) -> ReferenceView {
        ReferenceView {
            source_node_id: self.source_node_id,
            source_section_id: self.source_section_id,
            reference_type: self.reference_type@,
            target: self.target@,
            origin: self.origin,
            metadata: self.metadata@,
        }
    }
}

impl Reference {
    pub fn copy(&self) -> (reference: Reference)
        ensures
            reference == *self,
    {
        Reference {
            source_node_id: self.source_node_id,
            source_section_id: self.source_section_id,
            reference_type: self.reference_type.clone(),
            target: self.target.copy(),
            origin: self.origin,
            metadata: self.metadata.clone(),
        }
    }
}

/// One section of a node's Markdown, as the search index and anchors see it.
#[derive(Debug)]
pub struct Section {
    pub id: NodeId,
    pub node_id: NodeId,
    pub parent_section_id: Option<NodeId>,
    pub heading: Option<String>,
    pub heading_level: Option<u8>,
    pub anchor: Option<String>,
    pub start_byte: u64,
    pub end_byte: u64,
    pub content: String,
    pub content_hash: Vec<u8>,
    pub position: u32,
}

/// One full-text document: a section in the context of its node.
#[derive(Debug)]
pub struct FtsDocument {
    pub section_id: NodeId,
    pub node_id: NodeId,
    pub title: String,
    pub aliases: String,
    pub summary: String,
    pub heading: String,
    pub content: String,
    pub tags: String,
    pub keywords: String,
}

/// Everything computed from the Markdown of one node.
#[derive(Debug)]
pub struct DerivedNodeRecords {
    pub content_hash: NodeHash,
    pub sections: Vec<Arc<Section>>,
    pub references: Vec<Reference>,
    pub fts_documents: Vec<Arc<FtsDocument>>,
}

/// A mutation refused by the store.
#[derive(Debug)]
pub enum StoreError {
    /// Requested node does not exist.
    NotFound(String),
    /// Selector is not unique.
    Ambiguous(String),
    /// Optimistic version check failed.
    Conflict { node_id: NodeId, expected: u64, actual: u64 },
    /// An operation ID was reused with a different tool or payload.
    IdempotencyConflict(String),
    /// Tree invariant would be violated.
    Invariant(String),
    /// A value cannot form a domain object.
    InvalidData(String),
    /// Mandatory response fields cannot fit a requested hard byte budget.
    BudgetExceeded { minimum: usize, requested: usize },
    /// A row refers to a node that does not exist.
    ForeignKey,
    /// A row repeats an identity, a sibling slug or a revision.
    Unique,
}

/// The meaning of a [`StoreError`].
pub enum Refusal {
    NotFound(Seq<char>),
    Ambiguous(Seq<char>),
    Conflict { node_id: NodeId, expected: u64, actual: u64 },
    IdempotencyConflict(Seq<char>),
    Invariant(Seq<char>),
    InvalidData(Seq<char>),
    BudgetExceeded { minimum: usize, requested: usize },
    ForeignKey,
    Unique,
}

impl View for StoreError {
    type V = Refusal;

    open spec fn view(&self) -> Refusal {
        match *self {
            StoreError::NotFound(text) => Refusal::NotFound(text@),
            StoreError::Ambiguous(text) => Refusal::Ambiguous(text@),
            StoreError::Conflict { node_id, expected, actual } => Refusal::Conflict {
                node_id,
                expected,
                actual,
            },
            StoreError::IdempotencyConflict(text) => Refusal::IdempotencyConflict(text@),
            StoreError::Invariant(text) => Refusal::Invariant(text@),
            StoreError::InvalidData(text) => Refusal::InvalidData(text@),
            StoreError::BudgetExceeded { minimum, requested } => Refusal::BudgetExceeded {
                minimum,
                requested,
            },
            StoreError::ForeignKey => Refusal::ForeignKey,
            StoreError::Unique => Refusal::Unique,
        }
    }
}

impl Refusal {
    /// The message shown for the refusal.
    pub open spec fn message(self) -> Seq<char> {
        match self {
            Refusal::NotFound(text) => "node not found: "@ + text,
            Refusal::Ambiguous(text) => "ambiguous node selector: "@ + text,
            Refusal::Conflict { node_id, expected, actual } => "version conflict for "@
                + node_id.text() + ": expected "@ + crate::text::decimal(expected as nat)
                + ", found "@ + crate::text::decimal(actual as nat),
            Refusal::IdempotencyConflict(text) =>
                "operation ID was already used with a different mutation: "@ + text,
            Refusal::Invariant(text) => "tree invariant violation: "@ + text,
            Refusal::InvalidData(text) => "invalid persisted node: "@ + text,
            Refusal::BudgetExceeded { minimum, requested } => "response budget "@
                + crate::text::decimal(requested as nat) + " bytes is below mandatory minimum "@
                + crate::text::decimal(minimum as nat),
            Refusal::ForeignKey => "FOREIGN KEY constraint failed"@,
            Refusal::Unique => "UNIQUE constraint failed"@,
        }
    }
}

impl StoreError {
    /// The message shown for the error.
    pub fn message(&self) -> (text: String)
        ensures
            text@ == self@.message(),
    {
        let mut text = String::new();
        match self {
            StoreError::NotFound(detail) => {
                text.push_str("node not found: ");
                text.push_str(detail.as_str());
            },
            StoreError::Ambiguous(detail) => {
                text.push_str("ambiguous node selector: ");
                text.push_str(detail.as_str());
            },
            StoreError::Conflict { node_id, expected, actual } => {
                text.push_str("version conflict for ");
                let id = node_id.to_text();
                text.push_str(id.as_str());
                text.push_str(": expected ");
                push_decimal(&mut text, *expected);
                text.push_str(", found ");
                push_decimal(&mut text, *actual);
            },
            StoreError::IdempotencyConflict(detail) => {
                text.push_str("operation ID was already used with a different mutation: ");
                text.push_str(detail.as_str());
            },
            StoreError::Invariant(detail) => {
                text.push_str("tree invariant violation: ");
                text.push_str(detail.as_str());
            },
            StoreError::InvalidData(detail) => {
                text.push_str("invalid persisted node: ");
                text.push_str(detail.as_str());
            },
            StoreError::BudgetExceeded { minimum, requested } => {
                text.push_str("response budget ");
                push_decimal(&mut text, *requested as u64);
                text.push_str(" bytes is below mandatory minimum ");
                push_decimal(&mut text, *minimum as u64);
            },
            StoreError::ForeignKey => {
                text.push_str("FOREIGN KEY constraint failed");
            },
            StoreError::Unique => {
                text.push_str("UNIQUE constraint failed");
            },
        }
        assert(text@ =~= self@.message());
        text
    }
}

/// Builds the refusal of an unknown identity.
pub fn not_found(id: NodeId) -> (error: StoreError)
    ensures
        error@ == Refusal::NotFound(id.text()),
{
    StoreError::NotFound(id.to_text())
}

/// Builds the refusal of a broken tree rule.
pub fn broken(detail: &str) -> (error: StoreError)
    ensures
        error@ == Refusal::Invariant(detail@),
{
    StoreError::Invariant(detail.to_owned())
}

/// Builds the refusal of a broken tree rule that names a node.
pub fn broken_for(detail: &str, id: NodeId) -> (error: StoreError)
    ensures
        error@ == Refusal::Invariant(detail@ + id.text()),
{
    let mut text = detail.to_owned();
    let name = id.to_text();
    text.push_str(name.as_str());
    StoreError::Invariant(text)
}

/// Builds the refusal of a value that cannot be used.
pub fn invalid_data(detail: &str) -> (error: StoreError)
    ensures
        error@ == Refusal::InvalidData(detail@),
{
    StoreError::InvalidData(detail.to_owned())
}

} // verus!
