//! Node creation, draft assembly and restoration of history.

use crate::model::{
    broken, broken_for, not_found, DerivedNodeRecords, Node, NodeHash, NodeId, NodeMetadata,
    NodeRevision, Refusal, RevisionView, StoreError,
};
use crate::mutate::{
    accepts, check_version, first_refusal, lemma_first_refusal, lemma_run_refused, parent_accepts,
    run, version_refusal, MutationOutcome, NodeChange, PreparedNodeMutation,
};
use crate::tables::{storable, SqliteStore, Tables};
use crate::text::{decimal, push_decimal, share, text_of, with_number};
use crate::tree::{find, lookup, present, unique_ids};
use std::sync::Arc;
use vstd::prelude::*;

verus! {

/// The fields of a node about to be written, before hashing and derivation.
#[derive(Debug)]
pub struct NodeMutationDraft {
    pub id: NodeId,
    pub parent_id: Option<NodeId>,
    pub slug: String,
    pub metadata: Arc<NodeMetadata>,
    pub markdown_content: String,
    pub sibling_order: u32,
    pub version: u64,
    pub created_at: u64,
    pub updated_at: u64,
    pub created_by: Option<String>,
    pub change_summary: Option<String>,
}

/// Assembles node and revision of a draft with what was computed from it. The
/// revision is dated by the update.
pub fn prepare_node_mutation(
    draft: NodeMutationDraft,
    content_hash: NodeHash,
    revision_hash: NodeHash,
    derived: DerivedNodeRecords,
) -> (prepared: PreparedNodeMutation)
    ensures
        prepared.node == (Node {
            id: draft.id,
            parent_id: draft.parent_id,
            slug: draft.slug,
            metadata: draft.metadata,
            markdown_content: draft.markdown_content,
            sibling_order: draft.sibling_order,
            version: draft.version,
            content_hash,
            revision_hash,
            created_at: draft.created_at,
            updated_at: draft.updated_at,
        }),
        prepared.revision@ == revision_of(
            prepared.node,
            text_of(draft.change_summary),
            text_of(draft.created_by),
            draft.updated_at,
        ),
        prepared.derived == derived,
{
    let revision = NodeRevision {
        node_id: draft.id,
        parent_id: draft.parent_id,
        slug: draft.slug.clone(),
        metadata: share(&draft.metadata),
        markdown_content: draft.markdown_content.clone(),
        sibling_order: draft.sibling_order,
        version: draft.version,
        content_hash,
        revision_hash,
        change_summary: draft.change_summary,
        created_by: draft.created_by,
        created_at: draft.updated_at,
    };
    let node = Node {
        id: draft.id,
        parent_id: draft.parent_id,
        slug: draft.slug,
        metadata: draft.metadata,
        markdown_content: draft.markdown_content,
        sibling_order: draft.sibling_order,
        version: draft.version,
        content_hash,
        revision_hash,
        created_at: draft.created_at,
        updated_at: draft.updated_at,
    };
    PreparedNodeMutation { node, revision, derived }
}

/// The revision that records a node state.
pub open spec fn revision_of(
    node: Node,
    change_summary: Option<Seq<char>>,
    created_by: Option<Seq<char>>,
    created_at: u64,
) -> RevisionView {
    RevisionView {
        node_id: node.id,
        parent_id: node.parent_id,
        slug: node.slug@,
        metadata: *node.metadata,
        markdown_content: node.markdown_content@,
        sibling_order: node.sibling_order,
        version: node.version,
        content_hash: node.content_hash,
        revision_hash: node.revision_hash,
        change_summary,
        created_by,
        created_at,
    }
}

/// Records a node state as a revision.
pub fn make_revision(
    node: &Node,
    change_summary: Option<String>,
    created_by: Option<String>,
    created_at: u64,
) -> (revision: NodeRevision)
    ensures
        revision@ == revision_of(*node, text_of(change_summary), text_of(created_by), created_at),
{
    NodeRevision {
        node_id: node.id,
        parent_id: node.parent_id,
        slug: node.slug.clone(),
        metadata: share(&node.metadata),
        markdown_content: node.markdown_content.clone(),
        sibling_order: node.sibling_order,
        version: node.version,
        content_hash: node.content_hash,
        revision_hash: node.revision_hash,
        change_summary,
        created_by,
        created_at,
    }
}

/// The node with the identity among the first `n` prepared ones.
pub open spec fn planned(parts: Seq<PreparedNodeMutation>, id: NodeId, n: int) -> Option<Node>
    decreases n,
{
    if n <= 0 {
        None
    } else if parts[n - 1].node.id == id {
        Some(parts[n - 1].node)
    } else {
        planned(parts, id, n - 1)
    }
}

impl Tables {
    /// The parent of the `i`-th new node: one created before it, or an
    /// existing one.
    pub open spec fn creation_parent(
        self,
        parts: Seq<PreparedNodeMutation>,
        parent: NodeId,
        i: int,
    ) -> Option<Node> {
        match planned(parts, parent, i) {
            Some(node) => Some(node),
            None => lookup(self.nodes, parent),
        }
    }

    /// Why the `i`-th new node cannot be created.
    pub open spec fn creation_refusal(self, parts: Seq<PreparedNodeMutation>, i: int) -> Option<
        Refusal,
    > {
        let node = parts[i].node;
        let revision = parts[i].revision@;
        if node.version != 1 || revision.version != 1 || revision.node_id != node.id {
            Some(Refusal::Invariant("creation must start at revision 1"@))
        } else if planned(parts, node.id, i) is Some || present(self.nodes, node.id) {
            Some(Refusal::Invariant("node already exists: "@ + node.id.text()))
        } else {
            match node.parent_id {
                None => Some(
                    Refusal::Invariant("workspace root is created during workspace initialization"@),
                ),
                Some(parent) => match self.creation_parent(parts, parent, i) {
                    None => Some(Refusal::NotFound(parent.text())),
                    Some(p) => if accepts(p, node) {
                        None
                    } else {
                        Some(Refusal::Invariant("parent does not accept the child's node type"@))
                    },
                },
            }
        }
    }

    /// Creates a parent-first collection of nodes.
    pub open spec fn create(self, parts: Seq<PreparedNodeMutation>) -> Result<Tables, Refusal> {
        let n = parts.len() as int;
        if n == 0 {
            Err(Refusal::Invariant("node creation requires at least one node"@))
        } else {
            match first_refusal(n, |i: int| self.creation_refusal(parts, i)) {
                Some(e) => Err(e),
                None => match self.create_rows(parts) {
                    Ok(t) => Ok(t.advanced()),
                    Err(e) => Err(e),
                },
            }
        }
    }

    /// Inserts the nodes, then their revisions, then their records, and renews the
    /// contexts of the parents that were there before.
    pub open spec fn create_rows(self, parts: Seq<PreparedNodeMutation>) -> Result<
        Tables,
        Refusal,
    > {
        let n = parts.len() as int;
        match run(self, n, insert_node_step(parts)) {
            Err(e) => Err(e),
            Ok(t) => match run(t, n, insert_revision_step(parts)) {
                Err(e) => Err(e),
                Ok(u) => match run(u, n, derive_step(parts)) {
                    Err(e) => Err(e),
                    Ok(v) => Ok(v.refresh(|p: NodeId| is_external_parent(parts, p, n))),
                },
            },
        }
    }
}

/// Whether one of the first `n` prepared nodes goes below that node, and none before it
/// is that node.
pub open spec fn is_external_parent(parts: Seq<PreparedNodeMutation>, p: NodeId, n: int) -> bool {
    exists|i: int|
        0 <= i < n && (#[trigger] parts[i]).node.parent_id == Some(p) && planned(parts, p, i) is None
}

/// The parents that are not among the prepared nodes before their children.
fn external_parents(parts: &Vec<PreparedNodeMutation>) -> (parents: Vec<NodeId>)
    ensures
        forall|p: NodeId| #[trigger]
            parents@.contains(p) <==> is_external_parent(parts@, p, parts@.len() as int),
{
    let mut parents: Vec<NodeId> = Vec::new();
    let mut i: usize = 0;
    while i < parts.len()
        invariant
            i <= parts.len(),
            forall|p: NodeId| #[trigger]
                parents@.contains(p) <==> is_external_parent(parts@, p, i as int),
        decreases parts.len() - i,
    {
        let ghost before = parents@;
        match parts[i].node.parent_id {
            Some(parent) => {
                if find_planned(parts, parent, i).is_none() {
                    parents.push(parent);
                }
            },
            None => {},
        }
        proof {
            let after = parents@;
            assert forall|p: NodeId| #[trigger] after.contains(p) <==> is_external_parent(
                parts@,
                p,
                i + 1,
            ) by {
                assert(before.contains(p) <==> is_external_parent(parts@, p, i as int));
                let last = parts@[i as int];
                let added = last.node.parent_id == Some(p) && planned(parts@, p, i as int) is None;
                if after.contains(p) && !before.contains(p) {
                    let k = choose|k: int| 0 <= k < after.len() && after[k] == p;
                    if k < before.len() {
                        assert(before[k] == p);
                    }
                    assert(added);
                }
                if before.contains(p) {
                    let k = choose|k: int| 0 <= k < before.len() && before[k] == p;
                    assert(after[k] == p);
                    let m = choose|m: int|
                        0 <= m < i && (#[trigger] parts@[m]).node.parent_id == Some(p) && planned(
                            parts@,
                            p,
                            m,
                        ) is None;
                    assert(parts@[m].node.parent_id == Some(p));
                }
                if added {
                    assert(after[before.len() as int] == p);
                    assert(parts@[i as int].node.parent_id == Some(p));
                }
                if is_external_parent(parts@, p, i + 1) && !added {
                    let m = choose|m: int|
                        0 <= m < i + 1 && (#[trigger] parts@[m]).node.parent_id == Some(p)
                            && planned(parts@, p, m) is None;
                    assert(m < i);
                }
            }
        }
        i = i + 1;
    }
    parents
}

pub open spec fn insert_node_step(parts: Seq<PreparedNodeMutation>) -> spec_fn(
    Tables,
    int,
) -> Result<Tables, Refusal> {
    |t: Tables, i: int| t.insert_node(parts[i].node)
}

pub open spec fn insert_revision_step(parts: Seq<PreparedNodeMutation>) -> spec_fn(
    Tables,
    int,
) -> Result<Tables, Refusal> {
    |t: Tables, i: int| t.insert_revision(parts[i].revision@)
}

pub open spec fn derive_step(parts: Seq<PreparedNodeMutation>) -> spec_fn(Tables, int) -> Result<
    Tables,
    Refusal,
> {
    |t: Tables, i: int| t.replace_derived(parts[i].node.id, parts[i].derived)
}

/// Position of the last of the first `n` prepared nodes with the identity.
fn find_planned(parts: &Vec<PreparedNodeMutation>, id: NodeId, n: usize) -> (found: Option<usize>)
    requires
        n <= parts.len(),
    ensures
        planned(parts@, id, n as int) == match found {
            Some(i) => Some(parts@[i as int].node),
            None => None,
        },
        found matches Some(i) ==> i < n,
{
    let mut i: usize = n;
    while i > 0
        invariant
            i <= n <= parts.len(),
            planned(parts@, id, n as int) == planned(parts@, id, i as int),
        decreases i,
    {
        i = i - 1;
        if parts[i].node.id == id {
            return Some(i);
        }
    }
    None
}

impl SqliteStore {
    fn check_creation(&self, parts: &Vec<PreparedNodeMutation>, i: usize) -> (result: Result<
        (),
        StoreError,
    >)
        requires
            unique_ids(self@.nodes),
            i < parts.len(),
        ensures
            match self@.creation_refusal(parts@, i as int) {
                None => result is Ok,
                Some(e) => result is Err && result->Err_0@ == e,
            },
    {
        let node = &parts[i].node;
        let revision = &parts[i].revision;
        if node.version != 1 || revision.version != 1 || revision.node_id != node.id {
            return Err(broken("creation must start at revision 1"));
        }
        if find_planned(parts, node.id, i).is_some() || find(&self.nodes, node.id).is_some() {
            return Err(broken_for("node already exists: ", node.id));
        }
        match node.parent_id {
            None => Err(broken("workspace root is created during workspace initialization")),
            Some(parent) => {
                let accepted: bool = match find_planned(parts, parent, i) {
                    Some(j) => parent_accepts(&parts[j].node, node),
                    None => match find(&self.nodes, parent) {
                        Some(j) => parent_accepts(&self.nodes[j], node),
                        None => {
                            return Err(not_found(parent));
                        },
                    },
                };
                if accepted {
                    Ok(())
                } else {
                    Err(broken("parent does not accept the child's node type"))
                }
            },
        }
    }

    fn create_rows(&mut self, parts: &Vec<PreparedNodeMutation>) -> (result: Result<
        (),
        StoreError,
    >)
        requires
            unique_ids(old(self)@.nodes),
        ensures
            match old(self)@.create_rows(parts@) {
                Ok(t) => result is Ok && final(self)@ == t,
                Err(e) => result is Err && result->Err_0@ == e,
            },
    {
        let ghost n = parts@.len() as int;
        let ghost start = self@;
        let mut i: usize = 0;
        while i < parts.len()
            invariant
                i <= parts.len(),
                n == parts@.len(),
                start == old(self)@,
                unique_ids(self@.nodes),
                run(start, i as int, insert_node_step(parts@)) == Ok::<Tables, Refusal>(self@),
            decreases parts.len() - i,
        {
            match self.insert_node(&parts[i].node) {
                Ok(_) => {},
                Err(e) => {
                    proof {
                        lemma_run_refused(start, i + 1, n, insert_node_step(parts@));
                    }
                    return Err(e);
                },
            }
            i = i + 1;
        }
        let ghost mid = self@;
        let mut j: usize = 0;
        while j < parts.len()
            invariant
                j <= parts.len(),
                n == parts@.len(),
                start == old(self)@,
                run(start, n, insert_node_step(parts@)) == Ok::<Tables, Refusal>(mid),
                unique_ids(self@.nodes),
                run(mid, j as int, insert_revision_step(parts@)) == Ok::<Tables, Refusal>(self@),
            decreases parts.len() - j,
        {
            match self.insert_revision(&parts[j].revision) {
                Ok(_) => {},
                Err(e) => {
                    proof {
                        lemma_run_refused(mid, j + 1, n, insert_revision_step(parts@));
                    }
                    return Err(e);
                },
            }
            j = j + 1;
        }
        let ghost late = self@;
        let mut k: usize = 0;
        while k < parts.len()
            invariant
                k <= parts.len(),
                n == parts@.len(),
                start == old(self)@,
                run(start, n, insert_node_step(parts@)) == Ok::<Tables, Refusal>(mid),
                run(mid, n, insert_revision_step(parts@)) == Ok::<Tables, Refusal>(late),
                unique_ids(self@.nodes),
                run(late, k as int, derive_step(parts@)) == Ok::<Tables, Refusal>(self@),
            decreases parts.len() - k,
        {
            match self.replace_derived(parts[k].node.id, &parts[k].derived) {
                Ok(_) => {},
                Err(e) => {
                    proof {
                        lemma_run_refused(late, k + 1, n, derive_step(parts@));
                    }
                    return Err(e);
                },
            }
            k = k + 1;
        }
        let outside = external_parents(parts);
        self.refresh_contexts(&outside);
        assert((|p: NodeId| outside@.contains(p)) =~= (|p: NodeId|
            is_external_parent(parts@, p, n)));
        Ok(())
    }

    /// Creates a parent-first collection of nodes in one transaction.
    pub fn create_nodes(&mut self, parts: &Vec<PreparedNodeMutation>) -> (result: Result<
        (),
        StoreError,
    >)
        requires
            unique_ids(old(self)@.nodes),
        ensures
            match old(self)@.create(parts@) {
                Ok(t) => result is Ok && final(self)@ == t,
                Err(e) => result is Err && result->Err_0@ == e && final(self)@ == old(self)@,
            },
    {
        if parts.len() == 0 {
            return Err(broken("node creation requires at least one node"));
        }
        let ghost check = |i: int| self@.creation_refusal(parts@, i);
        let mut i: usize = 0;
        while i < parts.len()
            invariant
                i <= parts.len(),
                parts.len() > 0,
                unique_ids(self@.nodes),
                *self == *old(self),
                check == (|i: int| self@.creation_refusal(parts@, i)),
                first_refusal(i as int, check) is None,
            decreases parts.len() - i,
        {
            match self.check_creation(parts, i) {
                Ok(_) => {},
                Err(e) => {
                    proof {
                        lemma_first_refusal(i + 1, parts.len() as int, check);
                    }
                    return Err(e);
                },
            }
            i = i + 1;
        }
        let mut next = self.copy();
        next.create_rows(parts)?;
        next.advance();
        *self = next;
        Ok(())
    }

    /// Atomically creates canonical, revision and derived rows of one node.
    pub fn create_node(&mut self, part: PreparedNodeMutation) -> (result: Result<(), StoreError>)
        requires
            unique_ids(old(self)@.nodes),
        ensures
            match old(self)@.create(seq![part]) {
                Ok(t) => result is Ok && final(self)@ == t,
                Err(e) => result is Err && result->Err_0@ == e && final(self)@ == old(self)@,
            },
    {
        let mut parts: Vec<PreparedNodeMutation> = Vec::new();
        parts.push(part);
        assert(parts@ =~= seq![part]);
        self.create_nodes(&parts)
    }

    /// The state that restoring a historical revision writes, under the version
    /// after `expected_version`, with the hashes of that state.
    pub fn plan_restore(
        &self,
        id: NodeId,
        target_version: u64,
        expected_version: u64,
        created_at: u64,
        content_hash: NodeHash,
        revision_hash: NodeHash,
        created_by: Option<String>,
    ) -> (result: Result<(Node, NodeRevision), StoreError>)
        requires
            unique_ids(self@.nodes),
            self@.bounded_versions(),
        ensures
            match lookup(self@.nodes, id) {
                None => result is Err && result->Err_0@ == Refusal::NotFound(id.text()),
                Some(current) => match version_refusal(current, expected_version) {
                    Some(e) => result is Err && result->Err_0@ == e,
                    None => if !storable(target_version) {
                        result is Err && result->Err_0@ == Refusal::InvalidData("integer range"@)
                    } else if !self@.has_version(id, target_version) {
                        result is Err && result->Err_0@ == Refusal::NotFound(
                            id.text() + " version "@ + decimal(target_version as nat),
                        )
                    } else {
                        &&& result is Ok
                        &&& restores(
                            self@,
                            current,
                            target_version,
                            created_at,
                            content_hash,
                            revision_hash,
                            result->Ok_0.0,
                        )
                        &&& result->Ok_0.1@ == revision_of(
                            result->Ok_0.0,
                            Some("Restore version "@ + decimal(target_version as nat)),
                            text_of(created_by),
                            created_at,
                        )
                    },
                },
            },
    {
        let current = self.require(id)?;
        check_version(&current, expected_version)?;
        let found = self.revision(id, target_version)?;
        let snapshot = match found {
            Some(snapshot) => snapshot,
            None => {
                let mut text = id.to_text();
                text.push_str(" version ");
                push_decimal(&mut text, target_version);
                return Err(StoreError::NotFound(text));
            },
        };
        proof {
            let i = choose|i: int| 0 <= i < self@.revisions.len() && self@.revisions[i] == snapshot@;
            assert(self@.nodes[crate::tree::position(self@.nodes, id)].id == id);
        }
        let restored = Node {
            id,
            parent_id: snapshot.parent_id,
            slug: snapshot.slug,
            metadata: snapshot.metadata,
            markdown_content: snapshot.markdown_content,
            sibling_order: snapshot.sibling_order,
            version: expected_version + 1,
            content_hash,
            revision_hash,
            created_at: current.created_at,
            updated_at: created_at,
        };
        let revision = make_revision(
            &restored,
            Some(with_number("Restore version ", target_version)),
            created_by,
            created_at,
        );
        Ok((restored, revision))
    }

    /// Restores a historical snapshot as a new head revision.
    pub fn restore_version(
        &mut self,
        id: NodeId,
        target_version: u64,
        expected_version: u64,
        created_at: u64,
        created_by: Option<String>,
        content_hash: NodeHash,
        revision_hash: NodeHash,
        derived: &DerivedNodeRecords,
    ) -> (result: Result<MutationOutcome, StoreError>)
        requires
            unique_ids(old(self)@.nodes),
            old(self)@.bounded_versions(),
        ensures
            match lookup(old(self)@.nodes, id) {
                None => result is Err && result->Err_0@ == Refusal::NotFound(id.text())
                    && final(self)@ == old(self)@,
                Some(current) => match version_refusal(current, expected_version) {
                    Some(e) => result is Err && result->Err_0@ == e && final(self)@ == old(self)@,
                    None => if !storable(target_version) {
                        result is Err && result->Err_0@ == Refusal::InvalidData("integer range"@)
                            && final(self)@ == old(self)@
                    } else if !old(self)@.has_version(id, target_version) {
                        result is Err && result->Err_0@ == Refusal::NotFound(
                            id.text() + " version "@ + decimal(target_version as nat),
                        ) && final(self)@ == old(self)@
                    } else {
                        exists|restored: Node|
                            {
                                &&& restores(
                                    old(self)@,
                                    current,
                                    target_version,
                                    created_at,
                                    content_hash,
                                    revision_hash,
                                    restored,
                                )
                                &&& match #[trigger] old(self)@.replace(
                                    restored,
                                    expected_version,
                                    revision_of(
                                        restored,
                                        Some("Restore version "@ + decimal(target_version as nat)),
                                        text_of(created_by),
                                        created_at,
                                    ),
                                    *derived,
                                ) {
                                    Ok((t, outcome)) => result == Ok::<
                                        MutationOutcome,
                                        StoreError,
                                    >(outcome) && final(self)@ == t,
                                    Err(e) => result is Err && result->Err_0@ == e && final(self)@
                                        == old(self)@,
                                }
                            }
                    },
                },
            },
    {
        let (restored, revision) = self.plan_restore(
            id,
            target_version,
            expected_version,
            created_at,
            content_hash,
            revision_hash,
            created_by,
        )?;
        self.update_node(
            NodeChange { node: &restored, expected_version, revision: &revision, derived },
        )
    }
}

/// Whether `restored` is the stored revision of the node as its next version.
pub open spec fn restores(
    t: Tables,
    current: Node,
    target_version: u64,
    created_at: u64,
    content_hash: NodeHash,
    revision_hash: NodeHash,
    restored: Node,
) -> bool {
    &&& restored.id == current.id
    &&& restored.version == current.version + 1
    &&& restored.created_at == current.created_at
    &&& restored.updated_at == created_at
    &&& restored.content_hash == content_hash
    &&& restored.revision_hash == revision_hash
    &&& exists|i: int|
        {
            &&& 0 <= i < t.revisions.len()
            &&& (#[trigger] t.revisions[i]).node_id == current.id
            &&& t.revisions[i].version == target_version
            &&& t.revisions[i].parent_id == restored.parent_id
            &&& t.revisions[i].slug == restored.slug@
            &&& t.revisions[i].metadata == *restored.metadata
            &&& t.revisions[i].markdown_content == restored.markdown_content@
            &&& t.revisions[i].sibling_order == restored.sibling_order
        }
}

} // verus!
