//! Cloning one subtree, with its explicit references remapped.

use crate::create::{make_revision, revision_of, NodeMutationDraft};
use crate::edits::{as_order, shifted, to_order};
use crate::fts::only;
use crate::model::{
    broken, invalid_data, not_found, DerivedNodeRecords, Node, NodeHash, NodeId, NodeRevision,
    Reference, ReferenceOrigin, ReferenceTarget, ReferenceView, Refusal, RevisionView, StoreError,
    TargetView,
};
use crate::mutate::{
    accepts, check_version, lemma_run_refused, parent_accepts, run, version_refusal,
};
use crate::reads::{child_named, first_from, is_child_named, subtree_extent};
use crate::reorder::{child_count, count_children};
use crate::tables::{reference_views, same_id, RowView, SqliteStore, Tables};
use crate::text::{copy_text, share, text_of};
use crate::traverse::Placed;
use crate::tree::{is_forest, lookup, node_at,
    unique_ids,
};
use crate::tree_batch::{status_of, status_text};
use vstd::prelude::*;

verus! {

/// A request to clone one subtree below another parent.
#[derive(Debug)]
pub struct CloneSubtreeRequest {
    pub source_id: NodeId,
    pub expected_version: u64,
    pub destination_parent_id: NodeId,
    /// Position of the clone; after the last child when absent.
    pub sibling_order: Option<u32>,
    pub created_at: u64,
    pub created_by: Option<String>,
    pub change_summary: Option<String>,
    pub dry_run: bool,
}

/// A planned or applied clone.
#[derive(Debug)]
pub struct CloneSubtreeResult {
    /// `planned` for dry runs and `applied` after commit.
    pub status: String,
    pub source_id: NodeId,
    pub destination_parent_id: NodeId,
    /// Root of the clone, once it exists.
    pub cloned_root_id: Option<NodeId>,
    pub root_slug: String,
    pub sibling_order: u32,
    pub node_count: u32,
    pub explicit_reference_count: u32,
}

/// What was computed from one cloned node.
#[derive(Debug)]
pub struct CloneRecords {
    pub content_hash: NodeHash,
    pub revision_hash: NodeHash,
    pub derived: DerivedNodeRecords,
}

/// Everything decided about a clone before it is written.
#[derive(Debug)]
pub struct ClonePlan {
    pub drafts: Vec<NodeMutationDraft>,
    pub references: Vec<Reference>,
    /// Identity of the clone's root.
    pub root_id: Option<NodeId>,
    pub root_slug: String,
    pub sibling_order: u32,
}

/// The most nodes that one clone covers.
pub const CLONE_LIMIT: usize = 100;

/// A clone of a subtree: the request, the slug to fall back on, the fresh
/// identities, and the rows of the subtree in order.
pub struct Cloning {
    pub request: CloneSubtreeRequest,
    pub fallback: String,
    pub fresh: Seq<NodeId>,
    pub rows: Seq<Placed>,
}

/// The fresh identity given to a node among the first `n` rows.
pub open spec fn renamed(rows: Seq<Placed>, fresh: Seq<NodeId>, id: NodeId, n: int) -> Option<NodeId>
    decreases n,
{
    if n <= 0 {
        None
    } else if rows[n - 1].node.id == id {
        Some(fresh[n - 1])
    } else {
        renamed(rows, fresh, id, n - 1)
    }
}

/// Whether a reference is cloned: those extracted from text or inferred are
/// derived anew.
pub open spec fn is_cloned(origin: ReferenceOrigin) -> bool {
    !(origin == ReferenceOrigin::Markdown || origin == ReferenceOrigin::Wikilink || origin
        == ReferenceOrigin::Inferred)
}

impl Cloning {
    pub open spec fn rename(self, id: NodeId) -> Option<NodeId> {
        renamed(self.rows, self.fresh, id, self.rows.len() as int)
    }

    /// Whether the rows are the source's subtree.
    pub open spec fn covers(self, nodes: Seq<Node>) -> bool {
        subtree_extent(self.request.source_id).walks(nodes, self.rows)
    }

    /// Why the clone is refused.
    pub open spec fn refusal(self, nodes: Seq<Node>) -> Option<Refusal> {
        match lookup(nodes, self.request.source_id) {
            None => Some(Refusal::NotFound(self.request.source_id.text())),
            Some(source) => match version_refusal(source, self.request.expected_version) {
                Some(e) => Some(e),
                None => match lookup(nodes, self.request.destination_parent_id) {
                    None => Some(Refusal::NotFound(self.request.destination_parent_id.text())),
                    Some(parent) => if self.rows.len() > CLONE_LIMIT {
                        Some(Refusal::Invariant("subtree clone is limited to 100 nodes"@))
                    } else if !accepts(parent, source) {
                        Some(
                            Refusal::Invariant(
                                "destination parent does not accept the cloned root node type"@,
                            ),
                        )
                    } else if self.fresh.len() < self.rows.len() {
                        Some(Refusal::InvalidData("clone identities"@))
                    } else {
                        None
                    },
                },
            },
        }
    }

    /// The slug of the clone's root: the source's own, unless a child of the
    /// destination has it.
    pub open spec fn root_slug(self, nodes: Seq<Node>) -> String {
        let source = node_at(nodes, self.request.source_id);
        if child_named(nodes, self.request.destination_parent_id, source.slug@) is Some {
            self.fallback
        } else {
            source.slug
        }
    }

    /// The position of the clone's root.
    pub open spec fn position(self, nodes: Seq<Node>) -> u32 {
        let count = as_order(
            child_count(nodes, self.request.destination_parent_id, nodes.len() as int),
        );
        match self.request.sibling_order {
            Some(order) => if order < count {
                order
            } else {
                count
            },
            None => count,
        }
    }

    /// The clone of the `i`-th row, with its hashes.
    pub open spec fn node(
        self,
        nodes: Seq<Node>,
        i: int,
        content_hash: NodeHash,
        revision_hash: NodeHash,
    ) -> Node {
        let original = self.rows[i].node;
        let top = original.id == self.request.source_id;
        Node {
            id: self.fresh[i],
            parent_id: if top {
                Some(self.request.destination_parent_id)
            } else {
                match original.parent_id {
                    Some(p) => self.rename(p),
                    None => None,
                }
            },
            slug: if top {
                self.root_slug(nodes)
            } else {
                original.slug
            },
            metadata: original.metadata,
            markdown_content: original.markdown_content,
            sibling_order: if top {
                self.position(nodes)
            } else {
                original.sibling_order
            },
            version: 1,
            content_hash,
            revision_hash,
            created_at: self.request.created_at,
            updated_at: self.request.created_at,
        }
    }

    /// What the clones' first revisions say.
    pub open spec fn summary(self) -> Option<Seq<char>> {
        match self.request.change_summary {
            Some(text) => Some(text@),
            None => Some("Clone subtree"@),
        }
    }

    pub open spec fn revision(self, node: Node) -> RevisionView {
        revision_of(
            node,
            self.summary(),
            text_of(self.request.created_by),
            self.request.created_at,
        )
    }

    /// A reference of a cloned node: targets inside the subtree follow it.
    pub open spec fn remap(self, reference: ReferenceView) -> ReferenceView {
        ReferenceView {
            source_node_id: match self.rename(reference.source_node_id) {
                Some(id) => id,
                None => reference.source_node_id,
            },
            source_section_id: None,
            target: match reference.target {
                TargetView::Resolved { node_id, target_ref, anchor } => TargetView::Resolved {
                    node_id: match self.rename(node_id) {
                        Some(id) => id,
                        None => node_id,
                    },
                    target_ref,
                    anchor,
                },
                TargetView::Unresolved { target_ref } => TargetView::Unresolved { target_ref },
            },
            ..reference
        }
    }

    /// The cloned references that start at one node, among the first `m` rows.
    pub open spec fn references_from(self, table: Seq<RowView>, id: NodeId, m: int) -> Seq<
        ReferenceView,
    >
        decreases m,
    {
        if m <= 0 {
            Seq::empty()
        } else {
            let before = self.references_from(table, id, m - 1);
            let reference = table[m - 1].reference;
            if reference.source_node_id == id && is_cloned(reference.origin) {
                before.push(self.remap(reference))
            } else {
                before
            }
        }
    }

    /// The cloned references of the first `n` rows of the subtree.
    pub open spec fn references(self, table: Seq<RowView>, n: int) -> Seq<ReferenceView>
        decreases n,
    {
        if n <= 0 {
            Seq::empty()
        } else {
            self.references(table, n - 1) + self.references_from(
                table,
                self.rows[n - 1].node.id,
                table.len() as int,
            )
        }
    }

    pub open spec fn all_references(self, t: Tables) -> Seq<ReferenceView> {
        self.references(t.references, self.rows.len() as int)
    }

    /// Inserts the `i`-th clone.
    pub open spec fn step(self, nodes: Seq<Node>, records: Seq<CloneRecords>) -> spec_fn(
        Tables,
        int,
    ) -> Result<Tables, Refusal> {
        |t: Tables, i: int|
            {
                let node = self.node(nodes, i, records[i].content_hash, records[i].revision_hash);
                match t.insert_node(node) {
                    Err(e) => Err(e),
                    Ok(u) => match u.insert_revision(self.revision(node)) {
                        Err(e) => Err(e),
                        Ok(v) => v.replace_derived(node.id, records[i].derived),
                    },
                }
            }
    }

    /// The tables after making room, inserting the clones and their references, with the
    /// context of the destination renewed.
    pub open spec fn apply(self, t: Tables, records: Seq<CloneRecords>) -> Result<Tables, Refusal> {
        let room = Tables {
            nodes: shifted(t.nodes, self.request.destination_parent_id, self.position(t.nodes)),
            ..t
        };
        if records.len() != self.rows.len() {
            Err(Refusal::InvalidData("clone records"@))
        } else {
            match run(room, self.rows.len() as int, self.step(t.nodes, records)) {
                Err(e) => Err(e),
                Ok(u) => match u.insert_references(
                    self.all_references(t),
                    self.all_references(t).len() as int,
                ) {
                    Err(e) => Err(e),
                    Ok(v) => Ok(v.refresh(only(self.request.destination_parent_id))),
                },
            }
        }
    }

    /// Whether the draft is the clone of the `i`-th row.
    pub open spec fn drafts(self, nodes: Seq<Node>, draft: NodeMutationDraft, i: int) -> bool {
        let node = self.node(nodes, i, NodeHash { high: 0, low: 0 }, NodeHash { high: 0, low: 0 });
        &&& draft.id == node.id
        &&& draft.parent_id == node.parent_id
        &&& draft.slug == node.slug
        &&& draft.metadata == node.metadata
        &&& draft.markdown_content == node.markdown_content
        &&& draft.sibling_order == node.sibling_order
        &&& draft.version == 1
        &&& draft.created_at == self.request.created_at
        &&& draft.updated_at == self.request.created_at
        &&& text_of(draft.created_by) == text_of(self.request.created_by)
        &&& text_of(draft.change_summary) == self.summary()
    }

    /// Whether the plan is the one for this clone.
    pub open spec fn plans(self, t: Tables, plan: ClonePlan) -> bool {
        &&& plan.drafts.len() == self.rows.len()
        &&& forall|i: int|
            0 <= i < plan.drafts.len() ==> self.drafts(t.nodes, #[trigger] plan.drafts@[i], i)
        &&& reference_views(plan.references@) == self.all_references(t)
        &&& plan.root_id == self.rename(self.request.source_id)
        &&& plan.root_slug == self.root_slug(t.nodes)
        &&& plan.sibling_order == self.position(t.nodes)
    }

    /// Whether the result describes this clone.
    pub open spec fn describes(self, t: Tables, result: CloneSubtreeResult) -> bool {
        &&& result.status@ == status_text(self.request.dry_run)
        &&& result.source_id == self.request.source_id
        &&& result.destination_parent_id == self.request.destination_parent_id
        &&& result.cloned_root_id == if self.request.dry_run {
            None
        } else {
            self.rename(self.request.source_id)
        }
        &&& result.root_slug@ == self.root_slug(t.nodes)@
        &&& result.sibling_order == self.position(t.nodes)
        &&& result.node_count == self.rows.len()
        &&& result.explicit_reference_count == self.all_references(t).len()
    }
}

fn find_renamed(rows: &Vec<Placed>, fresh: &Vec<NodeId>, id: NodeId) -> (found: Option<NodeId>)
    requires
        rows.len() <= fresh.len(),
    ensures
        found == renamed(rows@, fresh@, id, rows@.len() as int),
{
    let mut i: usize = rows.len();
    while i > 0
        invariant
            i <= rows.len() <= fresh.len(),
            renamed(rows@, fresh@, id, rows@.len() as int) == renamed(rows@, fresh@, id, i as int),
        decreases i,
    {
        i = i - 1;
        if rows[i].node.id == id {
            return Some(fresh[i]);
        }
    }
    None
}

/// Remaps one reference of a cloned node.
fn remap_reference(
    reference: &Reference,
    rows: &Vec<Placed>,
    fresh: &Vec<NodeId>,
    Ghost(cloning): Ghost<Cloning>,
) -> (result: Reference)
    requires
        rows.len() <= fresh.len(),
        cloning.rows == rows@,
        cloning.fresh == fresh@,
    ensures
        result@ == cloning.remap(reference@),
{
    let source: NodeId = match find_renamed(rows, fresh, reference.source_node_id) {
        Some(id) => id,
        None => reference.source_node_id,
    };
    let target: ReferenceTarget = match &reference.target {
        ReferenceTarget::Resolved { node_id, target_ref, anchor } => ReferenceTarget::Resolved {
            node_id: match find_renamed(rows, fresh, *node_id) {
                Some(id) => id,
                None => *node_id,
            },
            target_ref: copy_text(target_ref),
            anchor: copy_text(anchor),
        },
        ReferenceTarget::Unresolved { target_ref } => ReferenceTarget::Unresolved {
            target_ref: target_ref.clone(),
        },
    };
    Reference {
        source_node_id: source,
        source_section_id: None,
        reference_type: reference.reference_type.clone(),
        target,
        origin: reference.origin,
        metadata: reference.metadata.clone(),
    }
}

impl SqliteStore {
    /// Whether a child of the parent has the slug.
    pub(crate) fn has_child_named(&self, parent: NodeId, slug: &String) -> (found: bool)
        ensures
            found == (child_named(self@.nodes, parent, slug@) is Some),
    {
        let ghost pred = is_child_named(parent, slug@);
        let mut i: usize = 0;
        while i < self.nodes.len()
            invariant
                i <= self.nodes.len(),
                pred == is_child_named(parent, slug@),
                first_from(self@.nodes, pred, 0) == first_from(self@.nodes, pred, i as int),
            decreases self.nodes.len() - i,
        {
            if same_id(self.nodes[i].parent_id, Some(parent)) && self.nodes[i].slug == *slug {
                return true;
            }
            i = i + 1;
        }
        false
    }

    /// The cloned references of the subtree's rows.
    fn cloned_references(
        &self,
        rows: &Vec<Placed>,
        fresh: &Vec<NodeId>,
        Ghost(cloning): Ghost<Cloning>,
    ) -> (references: Vec<Reference>)
        requires
            rows.len() <= fresh.len(),
            cloning.rows == rows@,
            cloning.fresh == fresh@,
        ensures
            reference_views(references@) == cloning.all_references(self@),
    {
        let ghost table = self@.references;
        let mut references: Vec<Reference> = Vec::new();
        assert(reference_views(references@) =~= Seq::empty());
        let mut i: usize = 0;
        while i < rows.len()
            invariant
                i <= rows.len() <= fresh.len(),
                table == self@.references,
                cloning.rows == rows@,
                cloning.fresh == fresh@,
                reference_views(references@) == cloning.references(table, i as int),
            decreases rows.len() - i,
        {
            let id: NodeId = rows[i].node.id;
            let ghost before = reference_views(references@);
            assert(before + cloning.references_from(table, id, 0) =~= before);
            let mut k: usize = 0;
            while k < self.references.len()
                invariant
                    k <= self.references.len(),
                    i < rows.len() <= fresh.len(),
                    table == self@.references,
                    cloning.rows == rows@,
                    cloning.fresh == fresh@,
                    reference_views(references@) == before + cloning.references_from(
                        table,
                        id,
                        k as int,
                    ),
                decreases self.references.len() - k,
            {
                let reference = &self.references[k].reference;
                let ghost so_far = reference_views(references@);
                assert(table[k as int].reference == reference@);
                if reference.source_node_id == id && !(reference.origin == ReferenceOrigin::Markdown
                    || reference.origin == ReferenceOrigin::Wikilink || reference.origin
                    == ReferenceOrigin::Inferred) {
                    references.push(remap_reference(reference, rows, fresh, Ghost(cloning)));
                    assert(reference_views(references@) =~= so_far.push(cloning.remap(reference@)));
                    assert(reference_views(references@) =~= before + cloning.references_from(
                        table,
                        id,
                        k + 1,
                    ));
                }
                k = k + 1;
            }
            i = i + 1;
        }
        references
    }

    /// Decides what cloning a subtree would write.
    pub fn plan_clone(
        &self,
        request: &CloneSubtreeRequest,
        fallback_slug: &String,
        fresh: &Vec<NodeId>,
    ) -> (result: Result<ClonePlan, StoreError>)
        requires
            is_forest(self@.nodes),
        ensures
            exists|c: Cloning|
                {
                    &&& c.request == request
                    &&& c.fallback == fallback_slug
                    &&& c.fresh == fresh@
                    &&& #[trigger] c.covers(self@.nodes)
                    &&& match c.refusal(self@.nodes) {
                        Some(e) => result is Err && result->Err_0@ == e,
                        None => result is Ok && c.plans(self@, result->Ok_0),
                    }
                },
    {
        let rows = self.subtree(request.source_id);
        let ghost c = Cloning {
            request: *request,
            fallback: *fallback_slug,
            fresh: fresh@,
            rows: rows@,
        };
        assert(c.covers(self@.nodes));
        let source = match self.get(request.source_id) {
            Some(node) => node,
            None => {
                return Err(not_found(request.source_id));
            },
        };
        match check_version(&source, request.expected_version) {
            Ok(_) => {},
            Err(e) => {
                return Err(e);
            },
        }
        let destination = match self.get(request.destination_parent_id) {
            Some(node) => node,
            None => {
                return Err(not_found(request.destination_parent_id));
            },
        };
        if rows.len() > CLONE_LIMIT {
            return Err(broken("subtree clone is limited to 100 nodes"));
        }
        if !parent_accepts(&destination, &source) {
            return Err(broken("destination parent does not accept the cloned root node type"));
        }
        if fresh.len() < rows.len() {
            return Err(invalid_data("clone identities"));
        }
        let root_slug: String = if self.has_child_named(
            request.destination_parent_id,
            &source.slug,
        ) {
            fallback_slug.clone()
        } else {
            source.slug.clone()
        };
        let count: u32 = to_order(count_children(&self.nodes, request.destination_parent_id));
        let sibling_order: u32 = match request.sibling_order {
            Some(order) => if order < count {
                order
            } else {
                count
            },
            None => count,
        };
        let mut drafts: Vec<NodeMutationDraft> = Vec::new();
        let mut i: usize = 0;
        while i < rows.len()
            invariant
                i <= rows.len() <= fresh.len(),
                c == (Cloning {
                    request: *request,
                    fallback: *fallback_slug,
                    fresh: fresh@,
                    rows: rows@,
                }),
                root_slug == c.root_slug(self@.nodes),
                sibling_order == c.position(self@.nodes),
                drafts.len() == i,
                forall|k: int| 0 <= k < i ==> c.drafts(self@.nodes, #[trigger] drafts@[k], k),
            decreases rows.len() - i,
        {
            let original = &rows[i].node;
            let top: bool = original.id == request.source_id;
            let parent_id: Option<NodeId> = if top {
                Some(request.destination_parent_id)
            } else {
                match original.parent_id {
                    Some(p) => find_renamed(&rows, fresh, p),
                    None => None,
                }
            };
            let change_summary: Option<String> = match &request.change_summary {
                Some(text) => Some(text.clone()),
                None => Some("Clone subtree".to_owned()),
            };
            let draft = NodeMutationDraft {
                id: fresh[i],
                parent_id,
                slug: if top {
                    root_slug.clone()
                } else {
                    original.slug.clone()
                },
                metadata: share(&original.metadata),
                markdown_content: original.markdown_content.clone(),
                sibling_order: if top {
                    sibling_order
                } else {
                    original.sibling_order
                },
                version: 1,
                created_at: request.created_at,
                updated_at: request.created_at,
                created_by: copy_text(&request.created_by),
                change_summary,
            };
            assert(c.drafts(self@.nodes, draft, i as int));
            drafts.push(draft);
            i = i + 1;
        }
        let references = self.cloned_references(&rows, fresh, Ghost(c));
        let root_id = find_renamed(&rows, fresh, request.source_id);
        let plan = ClonePlan { drafts, references, root_id, root_slug, sibling_order };
        assert(c.plans(self@, plan));
        Ok(plan)
    }

    /// Plans or atomically clones one canonical subtree with explicit-reference
    /// remapping.
    ///
    /// The caller supplies the slug to fall back on when the source's slug is
    /// taken, fresh identities, and for an applied clone the hashes and derived
    /// records of every draft of [`SqliteStore::plan_clone`].
    pub fn clone_subtree(
        &mut self,
        request: &CloneSubtreeRequest,
        fallback_slug: &String,
        fresh: &Vec<NodeId>,
        records: &Vec<CloneRecords>,
    ) -> (result: Result<CloneSubtreeResult, StoreError>)
        requires
            is_forest(old(self)@.nodes),
        ensures
            exists|c: Cloning|
                {
                    &&& c.request == request
                    &&& c.fallback == fallback_slug
                    &&& c.fresh == fresh@
                    &&& #[trigger] c.covers(old(self)@.nodes)
                    &&& match c.outcome(old(self)@, records@) {
                        Err(e) => result is Err && result->Err_0@ == e && final(self)@ == old(
                            self,
                        )@,
                        Ok(t) => result is Ok && c.describes(old(self)@, result->Ok_0)
                            && final(self)@ == if request.dry_run {
                            t
                        } else {
                            t.advanced()
                        },
                    }
                },
    {
        let planned = self.plan_clone(request, fallback_slug, fresh);
        let ghost c = choose|c: Cloning|
            {
                &&& c.request == request
                &&& c.fallback == fallback_slug
                &&& c.fresh == fresh@
                &&& #[trigger] c.covers(self@.nodes)
                &&& match c.refusal(self@.nodes) {
                    Some(e) => planned is Err && planned->Err_0@ == e,
                    None => planned is Ok && c.plans(self@, planned->Ok_0),
                }
            };
        let plan = match planned {
            Ok(plan) => plan,
            Err(e) => {
                return Err(e);
            },
        };
        proof {
            assert(reference_views(plan.references@).len() == plan.references@.len());
        }
        if plan.references.len() > u32::MAX as usize {
            return Err(invalid_data("clone reference count"));
        }
        let explicit_reference_count: u32 = plan.references.len() as u32;
        let node_count: u32 = plan.drafts.len() as u32;
        let cloned_root_id: Option<NodeId> = if request.dry_run {
            None
        } else {
            plan.root_id
        };
        let outcome = CloneSubtreeResult {
            status: status_of(request.dry_run),
            source_id: request.source_id,
            destination_parent_id: request.destination_parent_id,
            cloned_root_id,
            root_slug: plan.root_slug.clone(),
            sibling_order: plan.sibling_order,
            node_count,
            explicit_reference_count,
        };
        if request.dry_run {
            return Ok(outcome);
        }
        if records.len() != plan.drafts.len() {
            return Err(invalid_data("clone records"));
        }
        let ghost nodes = self@.nodes;
        let ghost n = c.rows.len() as int;
        let ghost step = c.step(nodes, records@);
        let mut next = self.copy();
        next.shift_children(request.destination_parent_id, plan.sibling_order);
        let ghost room = next@;
        assert(unique_ids(room.nodes)) by {
            assert(crate::shape::same_shape(nodes, room.nodes));
            crate::shape::lemma_same_shape(nodes, room.nodes);
        }
        let mut i: usize = 0;
        while i < plan.drafts.len()
            invariant
                i <= plan.drafts.len(),
                n == plan.drafts.len(),
                records.len() == n,
                nodes == self@.nodes,
                c.plans(self@, plan),
                step == c.step(nodes, records@),
                run(room, i as int, step) == Ok::<Tables, Refusal>(next@),
                unique_ids(next@.nodes),
                self@ == old(self)@,
                c.request == request,
                c.fallback == fallback_slug,
                c.fresh == fresh@,
                c.covers(self@.nodes),
                c.refusal(self@.nodes) is None,
                !request.dry_run,
                n == c.rows.len(),
                c.all_references(self@).len() <= u32::MAX,
                room == (Tables {
                    nodes: shifted(nodes, request.destination_parent_id, c.position(nodes)),
                    ..self@
                }),
            decreases plan.drafts.len() - i,
        {
            let draft = &plan.drafts[i];
            let content_hash = records[i].content_hash;
            let revision_hash = records[i].revision_hash;
            assert(c.drafts(nodes, *draft, i as int));
            let node = draft.node(content_hash, revision_hash);
            assert(node == c.node(nodes, i as int, content_hash, revision_hash));
            let revision = make_revision(
                &node,
                copy_text(&draft.change_summary),
                copy_text(&draft.created_by),
                draft.updated_at,
            );
            let ghost before = next@;
            proof {
                assert(run(room, i + 1, step) == step(before, i as int));
                if step(before, i as int) is Err {
                    lemma_run_refused(room, i + 1, n, step);
                }
            }
            match next.insert_clone(&node, &revision, &records[i].derived) {
                Ok(_) => {},
                Err(e) => {
                    return Err(e);
                },
            }
            i = i + 1;
        }
        match next.insert_references(&plan.references) {
            Ok(_) => {},
            Err(e) => {
                return Err(e);
            },
        }
        let mut destination: Vec<NodeId> = Vec::new();
        destination.push(request.destination_parent_id);
        proof {
            assert(destination@[0] == request.destination_parent_id);
            assert((|p: NodeId| destination@.contains(p)) =~= only(
                c.request.destination_parent_id,
            ));
        }
        next.refresh_contexts(&destination);
        next.advance();
        *self = next;
        Ok(outcome)
    }

    /// Inserts one clone; on failure the tables are left part-way.
    fn insert_clone(
        &mut self,
        node: &Node,
        revision: &NodeRevision,
        derived: &DerivedNodeRecords,
    ) -> (result: Result<(), StoreError>)
        requires
            unique_ids(old(self)@.nodes),
        ensures
            unique_ids(final(self)@.nodes),
            match match old(self)@.insert_node(*node) {
                Err(e) => Err(e),
                Ok(u) => match u.insert_revision(revision@) {
                    Err(e) => Err(e),
                    Ok(v) => v.replace_derived(node.id, *derived),
                },
            } {
                Ok(t) => result is Ok && final(self)@ == t,
                Err(e) => result is Err && result->Err_0@ == e,
            },
    {
        self.insert_node(node)?;
        self.insert_revision(revision)?;
        self.replace_derived(node.id, derived)
    }
}

impl Cloning {
    /// The tables after the clone, or why it is refused.
    pub open spec fn outcome(self, t: Tables, records: Seq<CloneRecords>) -> Result<
        Tables,
        Refusal,
    > {
        match self.refusal(t.nodes) {
            Some(e) => Err(e),
            None => if self.all_references(t).len() > u32::MAX {
                Err(Refusal::InvalidData("clone reference count"@))
            } else if self.request.dry_run {
                Ok(t)
            } else {
                self.apply(t, records)
            },
        }
    }
}

impl NodeMutationDraft {
    /// The node that the draft describes, with its hashes.
    pub fn node(&self, content_hash: NodeHash, revision_hash: NodeHash) -> (node: Node)
        ensures
            node == (Node {
                id: self.id,
                parent_id: self.parent_id,
                slug: self.slug,
                metadata: self.metadata,
                markdown_content: self.markdown_content,
                sibling_order: self.sibling_order,
                version: self.version,
                content_hash,
                revision_hash,
                created_at: self.created_at,
                updated_at: self.updated_at,
            }),
    {
        Node {
            id: self.id,
            parent_id: self.parent_id,
            slug: self.slug.clone(),
            metadata: share(&self.metadata),
            markdown_content: self.markdown_content.clone(),
            sibling_order: self.sibling_order,
            version: self.version,
            content_hash,
            revision_hash,
            created_at: self.created_at,
            updated_at: self.updated_at,
        }
    }
}

} // verus!
