//! The tables of one workspace and the statements that change them.

use crate::fts::{copy_documents, fresh_rows, fts_views, only, FtsRow, FtsRowView};
use crate::model::{
    DerivedNodeRecords, Node, NodeHash, NodeId, NodeRevision, Reference,
    ReferenceOrigin, ReferenceView, Refusal, RevisionView, Section, StoreError,
};
use crate::text::share;
use crate::tree::{find, is_tree, node_at, position, present, unique_ids};
use std::sync::Arc;
use vstd::prelude::*;

verus! {

/// One stored reference with its row identity.
#[derive(Debug)]
pub struct ReferenceRow {
    pub row_id: u64,
    pub reference: Reference,
}

/// The contents of a [`ReferenceRow`].
pub struct RowView {
    pub row_id: u64,
    pub reference: ReferenceView,
}

impl View for ReferenceRow {
    type V = RowView;

    open spec fn view(&self) -> RowView {
        RowView { row_id: self.row_id, reference: self.reference@ }
    }
}

/// The stored response of one completed operation.
#[derive(Debug)]
pub struct Receipt {
    pub operation_id: String,
    pub tool_name: String,
    pub payload_hash: NodeHash,
    pub result_json: String,
    pub created_at: u64,
}

/// The tables of one workspace.
#[derive(Debug)]
pub struct SqliteStore {
    pub nodes: Vec<Node>,
    pub revisions: Vec<NodeRevision>,
    pub references: Vec<ReferenceRow>,
    pub sections: Vec<Arc<Section>>,
    pub fts: Vec<FtsRow>,
    pub receipts: Vec<Arc<Receipt>>,
    /// The workspace-wide revision counter. It moves on with every change of nodes or
    /// references, so that anyone who holds the workspace open can tell that it changed.
    pub revision: u64,
}

/// The contents of a [`SqliteStore`].
pub struct Tables {
    pub nodes: Seq<Node>,
    pub revisions: Seq<RevisionView>,
    pub references: Seq<RowView>,
    pub sections: Seq<Arc<Section>>,
    pub fts: Seq<FtsRowView>,
    pub receipts: Seq<Arc<Receipt>>,
    pub revision: u64,
}

pub open spec fn revision_views(revisions: Seq<NodeRevision>) -> Seq<RevisionView> {
    Seq::new(revisions.len(), |i: int| revisions[i]@)
}

pub open spec fn row_views(rows: Seq<ReferenceRow>) -> Seq<RowView> {
    Seq::new(rows.len(), |i: int| rows[i]@)
}

pub open spec fn reference_views(references: Seq<Reference>) -> Seq<ReferenceView> {
    Seq::new(references.len(), |i: int| references[i]@)
}

impl View for SqliteStore {
    type V = Tables;

    open spec fn view(&self) -> Tables {
        Tables {
            nodes: self.nodes@,
            revisions: revision_views(self.revisions@),
            references: row_views(self.references@),
            sections: self.sections@,
            fts: fts_views(self.fts@),
            receipts: self.receipts@,
            revision: self.revision,
        }
    }
}

impl Tables {
    /// Whether no two revisions share a node and a version.
    pub open spec fn unique_versions(self) -> bool {
        forall|i: int, j: int|
            0 <= i < self.revisions.len() && 0 <= j < self.revisions.len() && (
            #[trigger] self.revisions[i]).node_id == (#[trigger] self.revisions[j]).node_id
                && self.revisions[i].version == self.revisions[j].version ==> i == j
    }

    /// Whether reference rows stand in ascending order of their row identities.
    pub open spec fn ascending_rows(self) -> bool {
        forall|i: int, j: int|
            0 <= i < j < self.references.len() ==> (#[trigger] self.references[i]).row_id < (
            #[trigger] self.references[j]).row_id
    }

    /// Whether the versions of nodes are storable integers.
    pub open spec fn bounded_versions(self) -> bool {
        forall|i: int| 0 <= i < self.nodes.len() ==> storable((#[trigger] self.nodes[i]).version)
    }

    /// The tables after a change was persisted: the workspace-wide revision counter
    /// moves on.
    pub open spec fn advanced(self) -> Tables {
        Tables {
            revision: if self.revision == u64::MAX {
                u64::MAX
            } else {
                (self.revision + 1) as u64
            },
            ..self
        }
    }

    /// What holds of every workspace.
    pub open spec fn wf(self) -> bool {
        &&& is_tree(self.nodes)
        &&& self.bounded_versions()
        &&& self.unique_versions()
        &&& self.ascending_rows()
        &&& distinct_slugs(self.nodes)
        &&& fits_columns(self)
    }

    /// Whether another node below the same parent has the slug.
    pub open spec fn slug_taken(self, node: Node) -> bool {
        node.parent_id is Some && exists|i: int|
            0 <= i < self.nodes.len() && (#[trigger] self.nodes[i]).id != node.id
                && self.nodes[i].parent_id == node.parent_id && self.nodes[i].slug@ == node.slug@
    }

    /// Whether the node would be a root beside another one.
    pub open spec fn root_taken(self, node: Node) -> bool {
        node.parent_id is None && exists|i: int|
            0 <= i < self.nodes.len() && (#[trigger] self.nodes[i]).id != node.id
                && self.nodes[i].parent_id is None
    }

    /// Whether the parent that the node names is missing.
    pub open spec fn parent_missing(self, node: Node) -> bool {
        node.parent_id matches Some(p) && !present(self.nodes, p)
    }

    /// `INSERT` of a node.
    pub open spec fn insert_node(self, node: Node) -> Result<Tables, Refusal> {
        if !(storable(node.version) && storable(node.created_at) && storable(node.updated_at)) {
            Err(Refusal::InvalidData("integer range"@))
        } else if present(self.nodes, node.id) || self.slug_taken(node) || self.root_taken(node) {
            Err(Refusal::Unique)
        } else if self.parent_missing(node) {
            Err(Refusal::ForeignKey)
        } else {
            Ok(Tables { nodes: self.nodes.push(node), ..self })
        }
    }

    /// `INSERT` of a node whose parent may still be missing.
    pub open spec fn add_node(self, node: Node) -> Result<Tables, Refusal> {
        if !(storable(node.version) && storable(node.created_at) && storable(node.updated_at)) {
            Err(Refusal::InvalidData("integer range"@))
        } else if present(self.nodes, node.id) || self.slug_taken(node) || self.root_taken(node) {
            Err(Refusal::Unique)
        } else {
            Ok(Tables { nodes: self.nodes.push(node), ..self })
        }
    }

    /// `UPDATE` of a node under its expected version; the creation time stays.
    pub open spec fn update_node(self, node: Node, expected: u64) -> Result<Tables, Refusal> {
        if !(storable(node.version) && storable(node.updated_at) && storable(expected)) {
            Err(Refusal::InvalidData("integer range"@))
        } else if !present(self.nodes, node.id) || node_at(self.nodes, node.id).version
            != expected {
            Err(Refusal::Conflict { node_id: node.id, expected, actual: expected })
        } else if self.slug_taken(node) || self.root_taken(node) {
            Err(Refusal::Unique)
        } else if self.parent_missing(node) {
            Err(Refusal::ForeignKey)
        } else {
            Ok(
                Tables {
                    nodes: self.nodes.update(
                        position(self.nodes, node.id),
                        Node { created_at: node_at(self.nodes, node.id).created_at, ..node },
                    ),
                    ..self
                },
            )
        }
    }

    /// Whether a revision of that node and version is stored.
    pub open spec fn has_version(self, node_id: NodeId, version: u64) -> bool {
        exists|i: int|
            0 <= i < self.revisions.len() && (#[trigger] self.revisions[i]).node_id == node_id
                && self.revisions[i].version == version
    }

    /// `INSERT` of a revision.
    pub open spec fn insert_revision(self, revision: RevisionView) -> Result<Tables, Refusal> {
        if !(storable(revision.version) && storable(revision.created_at)) {
            Err(Refusal::InvalidData("integer range"@))
        } else if self.has_version(revision.node_id, revision.version) {
            Err(Refusal::Unique)
        } else {
            Ok(Tables { revisions: self.revisions.push(revision), ..self })
        }
    }

    /// The row identity given to the next inserted reference.
    pub open spec fn next_row_id(self) -> int {
        if self.references.len() == 0 {
            1
        } else {
            self.references.last().row_id + 1
        }
    }

    /// `INSERT` of a reference under the next row identity.
    pub open spec fn insert_reference(self, reference: ReferenceView) -> Result<Tables, Refusal> {
        if self.next_row_id() > u64::MAX {
            Err(Refusal::InvalidData("reference row ID"@))
        } else {
            Ok(
                Tables {
                    references: self.references.push(
                        RowView { row_id: self.next_row_id() as u64, reference },
                    ),
                    ..self
                },
            )
        }
    }

    /// `INSERT` of the first `n` references, in order.
    pub open spec fn insert_references(self, references: Seq<ReferenceView>, n: int) -> Result<
        Tables,
        Refusal,
    >
        decreases n,
    {
        if n <= 0 {
            Ok(self)
        } else {
            match self.insert_references(references, n - 1) {
                Ok(t) => t.insert_reference(references[n - 1]),
                Err(e) => Err(e),
            }
        }
    }

    /// Why one of the first `n` sections cannot be stored.
    pub open spec fn section_refusal(self, sections: Seq<Arc<Section>>, n: int) -> Option<Refusal>
        decreases n,
    {
        if n <= 0 {
            None
        } else {
            match self.section_refusal(sections, n - 1) {
                Some(e) => Some(e),
                None => {
                    let section = sections[n - 1];
                    if !(storable(section.start_byte) && storable(section.end_byte)) {
                        Some(Refusal::InvalidData("integer range"@))
                    } else if !present(self.nodes, section.node_id) {
                        Some(Refusal::ForeignKey)
                    } else {
                        None
                    }
                },
            }
        }
    }

    /// Replaces what was derived from the Markdown of one node, and renews the context
    /// of its documents.
    pub open spec fn replace_derived(self, id: NodeId, derived: DerivedNodeRecords) -> Result<
        Tables,
        Refusal,
    > {
        let cleared = Tables {
            references: self.references.filter(|r: RowView| !is_extracted(r.reference, id)),
            sections: self.sections.filter(|s: Arc<Section>| s.node_id != id),
            fts: self.fts.filter(|f: FtsRowView| f.document.node_id != id),
            ..self
        };
        if let Some(e) = self.section_refusal(derived.sections@, derived.sections@.len() as int) {
            Err(e)
        } else {
            match cleared.insert_references(
                reference_views(derived.references@),
                derived.references@.len() as int,
            ) {
                Ok(t) => Ok(
                    (Tables {
                        sections: t.sections + derived.sections@,
                        fts: t.fts + fresh_rows(derived.fts_documents@),
                        ..t
                    }).refresh(only(id)),
                ),
                Err(e) => Err(e),
            }
        }
    }

    /// Drops the explicit references that start at a node.
    pub open spec fn clear_explicit(self, id: NodeId) -> Tables {
        Tables {
            references: self.references.filter(
                |r: RowView|
                    !(r.reference.source_node_id == id && r.reference.origin
                        == ReferenceOrigin::Explicit),
            ),
            ..self
        }
    }
}

/// Whether no two children of one parent share a slug.
pub open spec fn distinct_slugs(nodes: Seq<Node>) -> bool {
    forall|i: int, j: int|
        0 <= i < nodes.len() && 0 <= j < nodes.len() && (#[trigger] nodes[i]).parent_id is Some
            && nodes[i].parent_id == (#[trigger] nodes[j]).parent_id && nodes[i].slug@
            == nodes[j].slug@ ==> i == j
}

/// Whether the numbers of nodes and revisions fit their columns.
pub open spec fn fits_columns(t: Tables) -> bool {
    &&& forall|i: int|
        0 <= i < t.nodes.len() ==> storable((#[trigger] t.nodes[i]).created_at) && storable(
            t.nodes[i].updated_at,
        )
    &&& forall|i: int|
        0 <= i < t.revisions.len() ==> storable((#[trigger] t.revisions[i]).version) && storable(
            t.revisions[i].created_at,
        )
}

/// Whether the reference was extracted from the Markdown of that node.
pub open spec fn is_extracted(reference: ReferenceView, id: NodeId) -> bool {
    reference.source_node_id == id && (reference.origin == ReferenceOrigin::Markdown
        || reference.origin == ReferenceOrigin::Wikilink)
}

/// Whether the value fits a signed 64-bit column.
pub open spec fn storable(value: u64) -> bool {
    value <= i64::MAX
}

fn fits(value: u64) -> (ok: bool)
    ensures
        ok == storable(value),
{
    value <= 0x7fff_ffff_ffff_ffff
}

/// Converts a value to a signed 64-bit column.
pub fn integer(value: u64) -> (result: Result<i64, StoreError>)
    ensures
        storable(value) ==> result is Ok && result->Ok_0 as int == value as int,
        !storable(value) ==> result is Err && result->Err_0@ == Refusal::InvalidData(
            "integer range"@,
        ),
{
    if fits(value) {
        Ok(value as i64)
    } else {
        Err(crate::model::invalid_data("integer range"))
    }
}

/// Reads a non-negative value from a signed 64-bit column.
pub fn nonnegative(value: i64) -> (result: Result<u64, StoreError>)
    ensures
        value >= 0 ==> result is Ok && result->Ok_0 as int == value as int,
        value < 0 ==> result is Err && result->Err_0@ == Refusal::InvalidData(
            "negative integer"@,
        ),
{
    if value >= 0 {
        Ok(value as u64)
    } else {
        Err(crate::model::invalid_data("negative integer"))
    }
}

/// Copies node rows.
pub fn copy_nodes(nodes: &Vec<Node>) -> (copy: Vec<Node>)
    ensures
        copy@ == nodes@,
{
    let mut copy: Vec<Node> = Vec::new();
    let mut i: usize = 0;
    while i < nodes.len()
        invariant
            i <= nodes.len(),
            copy@ =~= nodes@.take(i as int),
        decreases nodes.len() - i,
    {
        copy.push(nodes[i].copy());
        i = i + 1;
    }
    assert(copy@ =~= nodes@);
    copy
}

/// Copies shared rows.
pub fn copy_shared<T>(rows: &Vec<Arc<T>>) -> (copy: Vec<Arc<T>>)
    ensures
        copy@ == rows@,
{
    let mut copy: Vec<Arc<T>> = Vec::new();
    let mut i: usize = 0;
    while i < rows.len()
        invariant
            i <= rows.len(),
            copy@ =~= rows@.take(i as int),
        decreases rows.len() - i,
    {
        copy.push(share(&rows[i]));
        i = i + 1;
    }
    assert(copy@ =~= rows@);
    copy
}

/// A row with a new identity keeps identities unique.
proof fn lemma_push_keeps_ids(nodes: Seq<Node>, node: Node)
    requires
        unique_ids(nodes),
        !present(nodes, node.id),
    ensures
        unique_ids(nodes.push(node)),
{
    let after = nodes.push(node);
    assert forall|i: int, j: int|
        0 <= i < after.len() && 0 <= j < after.len() && #[trigger] after[i].id
            == #[trigger] after[j].id implies i == j by {
        if i < nodes.len() {
            assert(nodes[i].id == after[i].id);
        }
        if j < nodes.len() {
            assert(nodes[j].id == after[j].id);
        }
    }
}

impl SqliteStore {
    /// Moves the workspace-wide revision counter on.
    pub fn advance(&mut self)
        ensures
            final(self)@ == old(self)@.advanced(),
    {
        self.revision = self.revision.saturating_add(1);
    }

    /// Copies every table.
    pub fn copy(&self) -> (copy: SqliteStore)
        ensures
            copy@ == self@,
    {
        let mut revisions: Vec<NodeRevision> = Vec::new();
        let mut i: usize = 0;
        while i < self.revisions.len()
            invariant
                i <= self.revisions.len(),
                revisions@ =~= self.revisions@.take(i as int),
            decreases self.revisions.len() - i,
        {
            revisions.push(self.revisions[i].copy());
            i = i + 1;
        }
        let mut references: Vec<ReferenceRow> = Vec::new();
        let mut j: usize = 0;
        while j < self.references.len()
            invariant
                j <= self.references.len(),
                references@ =~= self.references@.take(j as int),
            decreases self.references.len() - j,
        {
            let row = &self.references[j];
            references.push(
                ReferenceRow { row_id: row.row_id, reference: row.reference.copy() },
            );
            j = j + 1;
        }
        assert(revisions@ =~= self.revisions@);
        assert(references@ =~= self.references@);
        SqliteStore {
            nodes: copy_nodes(&self.nodes),
            revisions,
            references,
            sections: copy_shared(&self.sections),
            fts: copy_documents(&self.fts),
            receipts: copy_shared(&self.receipts),
            revision: self.revision,
        }
    }

    /// Whether another node below the same parent has the slug.
    fn slug_taken(&self, node: &Node) -> (taken: bool)
        ensures
            taken == self@.slug_taken(*node),
    {
        if node.parent_id.is_none() {
            return false;
        }
        let mut i: usize = 0;
        while i < self.nodes.len()
            invariant
                i <= self.nodes.len(),
                node.parent_id is Some,
                forall|j: int|
                    0 <= j < i ==> !((#[trigger] self.nodes@[j]).id != node.id
                        && self.nodes@[j].parent_id == node.parent_id && self.nodes@[j].slug@
                        == node.slug@),
            decreases self.nodes.len() - i,
        {
            let other = &self.nodes[i];
            if other.id != node.id && same_id(other.parent_id, node.parent_id) && other.slug
                == node.slug {
                assert(self@.nodes[i as int].id != node.id);
                return true;
            }
            i = i + 1;
        }
        false
    }

    /// Whether the node would be a root beside another one.
    fn root_taken(&self, node: &Node) -> (taken: bool)
        ensures
            taken == self@.root_taken(*node),
    {
        if node.parent_id.is_some() {
            return false;
        }
        let mut i: usize = 0;
        while i < self.nodes.len()
            invariant
                i <= self.nodes.len(),
                node.parent_id is None,
                forall|j: int|
                    0 <= j < i ==> !((#[trigger] self.nodes@[j]).id != node.id
                        && self.nodes@[j].parent_id is None),
            decreases self.nodes.len() - i,
        {
            let other = &self.nodes[i];
            if other.id != node.id && other.parent_id.is_none() {
                assert(self@.nodes[i as int].id != node.id);
                return true;
            }
            i = i + 1;
        }
        false
    }

    /// Whether the parent that the node names is missing.
    fn parent_missing(&self, node: &Node) -> (missing: bool)
        ensures
            missing == self@.parent_missing(*node),
    {
        match node.parent_id {
            Some(parent) => find(&self.nodes, parent).is_none(),
            None => false,
        }
    }

    /// Inserts a node row.
    pub fn insert_node(&mut self, node: &Node) -> (result: Result<(), StoreError>)
        ensures
            unique_ids(old(self)@.nodes) ==> unique_ids(final(self)@.nodes),
            match old(self)@.insert_node(*node) {
                Ok(t) => result is Ok && final(self)@ == t,
                Err(e) => result is Err && result->Err_0@ == e && final(self)@ == old(self)@,
            },
    {
        if !(fits(node.version) && fits(node.created_at) && fits(node.updated_at)) {
            return Err(crate::model::invalid_data("integer range"));
        }
        if find(&self.nodes, node.id).is_some() || self.slug_taken(node) || self.root_taken(node) {
            return Err(StoreError::Unique);
        }
        if self.parent_missing(node) {
            return Err(StoreError::ForeignKey);
        }
        self.nodes.push(node.copy());
        proof {
            if unique_ids(old(self)@.nodes) {
                lemma_push_keeps_ids(old(self)@.nodes, *node);
            }
        }
        Ok(())
    }

    /// Inserts a node row whose parent may still be missing.
    pub fn add_node(&mut self, node: &Node) -> (result: Result<(), StoreError>)
        ensures
            match old(self)@.add_node(*node) {
                Ok(t) => result is Ok && final(self)@ == t,
                Err(e) => result is Err && result->Err_0@ == e && final(self)@ == old(self)@,
            },
    {
        if !(fits(node.version) && fits(node.created_at) && fits(node.updated_at)) {
            return Err(crate::model::invalid_data("integer range"));
        }
        if find(&self.nodes, node.id).is_some() || self.slug_taken(node) || self.root_taken(node) {
            return Err(StoreError::Unique);
        }
        self.nodes.push(node.copy());
        Ok(())
    }

    /// Updates a node row under its expected version.
    pub fn update_row(&mut self, node: &Node, expected: u64) -> (result: Result<(), StoreError>)
        requires
            unique_ids(old(self)@.nodes),
        ensures
            unique_ids(final(self)@.nodes),
            match old(self)@.update_node(*node, expected) {
                Ok(t) => result is Ok && final(self)@ == t,
                Err(e) => result is Err && result->Err_0@ == e && final(self)@ == old(self)@,
            },
    {
        if !(fits(node.version) && fits(node.updated_at) && fits(expected)) {
            return Err(crate::model::invalid_data("integer range"));
        }
        match find(&self.nodes, node.id) {
            Some(i) => {
                if self.nodes[i].version != expected {
                    return Err(
                        StoreError::Conflict { node_id: node.id, expected, actual: expected },
                    );
                }
                if self.slug_taken(node) || self.root_taken(node) {
                    return Err(StoreError::Unique);
                }
                if self.parent_missing(node) {
                    return Err(StoreError::ForeignKey);
                }
                proof {
                    crate::reorder::lemma_updates_keep_ids(self@);
                    assert(self@.update_node(*node, expected) is Ok);
                }
                let mut row = node.copy();
                row.created_at = self.nodes[i].created_at;
                self.nodes.set(i, row);
                Ok(())
            },
            None => Err(StoreError::Conflict { node_id: node.id, expected, actual: expected }),
        }
    }

    /// Inserts a revision row.
    pub fn insert_revision(&mut self, revision: &NodeRevision) -> (result: Result<(), StoreError>)
        ensures
            final(self)@.nodes == old(self)@.nodes,
            match old(self)@.insert_revision(revision@) {
                Ok(t) => result is Ok && final(self)@ == t,
                Err(e) => result is Err && result->Err_0@ == e && final(self)@ == old(self)@,
            },
    {
        if !(fits(revision.version) && fits(revision.created_at)) {
            return Err(crate::model::invalid_data("integer range"));
        }
        let mut i: usize = 0;
        while i < self.revisions.len()
            invariant
                i <= self.revisions.len(),
                storable(revision.version),
                storable(revision.created_at),
                *self == *old(self),
                forall|j: int|
                    0 <= j < i ==> !((#[trigger] self.revisions@[j]).node_id == revision.node_id
                        && self.revisions@[j].version == revision.version),
            decreases self.revisions.len() - i,
        {
            let other = &self.revisions[i];
            if other.node_id == revision.node_id && other.version == revision.version {
                assert(self@.revisions[i as int].node_id == revision.node_id);
                return Err(StoreError::Unique);
            }
            i = i + 1;
        }
        self.revisions.push(revision.copy());
        assert(self@.revisions =~= old(self)@.revisions.push(revision@));
        Ok(())
    }

    /// Inserts a reference row under the next row identity.
    pub fn insert_reference(&mut self, reference: &Reference) -> (result: Result<(), StoreError>)
        ensures
            final(self)@.nodes == old(self)@.nodes,
            match old(self)@.insert_reference(reference@) {
                Ok(t) => result is Ok && final(self)@ == t,
                Err(e) => result is Err && result->Err_0@ == e && final(self)@ == old(self)@,
            },
    {
        let row_id: u64 = if self.references.len() == 0 {
            1
        } else {
            let last: u64 = self.references[self.references.len() - 1].row_id;
            if last == u64::MAX {
                return Err(crate::model::invalid_data("reference row ID"));
            }
            last + 1
        };
        self.references.push(ReferenceRow { row_id, reference: reference.copy() });
        assert(self@.references =~= old(self)@.references.push(
            RowView { row_id, reference: reference@ },
        ));
        Ok(())
    }

    /// Why one of the sections cannot be stored.
    pub(crate) fn check_sections(&self, sections: &Vec<Arc<Section>>) -> (result: Result<
        (),
        StoreError,
    >)
        ensures
            match self@.section_refusal(sections@, sections@.len() as int) {
                None => result is Ok,
                Some(e) => result is Err && result->Err_0@ == e,
            },
    {
        let mut s: usize = 0;
        while s < sections.len()
            invariant
                s <= sections.len(),
                self@.section_refusal(sections@, s as int) is None,
            decreases sections.len() - s,
        {
            let section = &sections[s];
            if !(fits(section.start_byte) && fits(section.end_byte)) {
                proof {
                    lemma_section_stays_refused(self@, sections@, s + 1, sections.len() as int);
                }
                return Err(crate::model::invalid_data("integer range"));
            }
            if find(&self.nodes, section.node_id).is_none() {
                proof {
                    lemma_section_stays_refused(self@, sections@, s + 1, sections.len() as int);
                }
                return Err(StoreError::ForeignKey);
            }
            s = s + 1;
        }
        Ok(())
    }

    /// Inserts references in order; on failure the tables are left part-way.
    pub(crate) fn insert_references(&mut self, references: &Vec<Reference>) -> (result: Result<
        (),
        StoreError,
    >)
        ensures
            final(self)@.nodes == old(self)@.nodes,
            match old(self)@.insert_references(
                reference_views(references@),
                references@.len() as int,
            ) {
                Ok(t) => result is Ok && final(self)@ == t,
                Err(e) => result is Err && result->Err_0@ == e,
            },
    {
        let ghost views = reference_views(references@);
        let mut i: usize = 0;
        while i < references.len()
            invariant
                self@.nodes == old(self)@.nodes,
                i <= references.len(),
                views == reference_views(references@),
                old(self)@.insert_references(views, i as int) == Ok::<Tables, Refusal>(self@),
            decreases references.len() - i,
        {
            match self.insert_reference(&references[i]) {
                Ok(_) => {},
                Err(e) => {
                    proof {
                        assert(old(self)@.insert_references(views, i + 1) == Err::<
                            Tables,
                            Refusal,
                        >(e@));
                        lemma_references_stay_refused(
                            old(self)@,
                            views,
                            i + 1,
                            references.len() as int,
                        );
                    }
                    return Err(e);
                },
            }
            i = i + 1;
        }
        Ok(())
    }
}

proof fn lemma_section_stays_refused(t: Tables, sections: Seq<Arc<Section>>, n: int, m: int)
    requires
        0 <= n <= m,
        t.section_refusal(sections, n) is Some,
    ensures
        t.section_refusal(sections, m) == t.section_refusal(sections, n),
    decreases m,
{
    if m > n {
        lemma_section_stays_refused(t, sections, n, m - 1);
    }
}

proof fn lemma_references_stay_refused(
    t: Tables,
    references: Seq<ReferenceView>,
    n: int,
    m: int,
)
    requires
        0 <= n <= m,
        t.insert_references(references, n) is Err,
    ensures
        t.insert_references(references, m) == t.insert_references(references, n),
    decreases m,
{
    if m > n {
        lemma_references_stay_refused(t, references, n, m - 1);
    }
}

/// Whether two optional identities are the same.
pub fn same_id(a: Option<NodeId>, b: Option<NodeId>) -> (same: bool)
    ensures
        same == (a == b),
{
    match (a, b) {
        (None, None) => true,
        (Some(x), Some(y)) => x == y,
        _ => false,
    }
}

} // verus!
