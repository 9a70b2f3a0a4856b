//! Heterogeneous mutation batches.

use crate::edits::{is_flagged, subtree_flags};
use crate::model::{
    broken, broken_for, not_found, Node, NodeId, Reference, Refusal, StoreError,
};
use crate::mutate::{
    accepts, check_version, first_refusal, is_next_revision, lemma_first_refusal,
    lemma_run_refused, parent_accepts, run, validate_next_revision, version_refusal,
    PreparedNodeMutation,
};
use crate::reorder::{lemma_derived_nodes, lemma_references_nodes, lemma_updates_keep_ids, lemma_write_nodes};
use crate::tables::{reference_views, SqliteStore, Tables};
use crate::text::{decimal, push_wide};
use crate::tree::{below, find, links, lookup, node_at, position, present, unique_ids};
use crate::tree_batch::{
    lemma_passed, lemma_removal_keeps_ids, lemma_renumber_keeps_ids, status_of, status_text, AtomicTreeRemoval,
};
use vstd::prelude::*;

verus! {

/// One fully planned operation in a heterogeneous atomic mutation batch.
#[derive(Debug)]
pub enum PreparedBatchOperation {
    /// Create a new non-root node; parent-first ordering is required.
    Create(PreparedNodeMutation),
    /// Replace an existing node for update, rename, move, or reorder semantics.
    Replace {
        /// Fully assembled next revision.
        prepared: PreparedNodeMutation,
        /// Version observed while planning.
        expected_version: u64,
    },
    /// Remove an existing subtree.
    Remove(AtomicTreeRemoval),
    /// Replace the node revision and its explicit reference set.
    SetReferences {
        /// Fully assembled next revision.
        prepared: PreparedNodeMutation,
        /// Version observed while planning.
        expected_version: u64,
        /// Complete desired explicit reference set.
        references: Vec<Reference>,
    },
}

/// Result of a planned or committed heterogeneous mutation batch.
#[derive(Debug)]
pub struct MutationBatchResult {
    /// `planned` for a dry run and `applied` after commit.
    pub status: String,
    /// Number of requested operations.
    pub operation_count: u32,
    /// Affected identities in request order.
    pub node_ids: Vec<NodeId>,
}

impl PreparedBatchOperation {
    /// The node that the operation concerns.
    pub open spec fn id(self) -> NodeId {
        match self {
            PreparedBatchOperation::Create(item) => item.node.id,
            PreparedBatchOperation::Replace { prepared, .. } => prepared.node.id,
            PreparedBatchOperation::Remove(item) => item.node_id,
            PreparedBatchOperation::SetReferences { prepared, .. } => prepared.node.id,
        }
    }

    /// The parent that the operation gives the node.
    pub open spec fn parent(self) -> Option<NodeId> {
        match self {
            PreparedBatchOperation::Create(item) => item.node.parent_id,
            PreparedBatchOperation::Replace { prepared, .. } => prepared.node.parent_id,
            PreparedBatchOperation::Remove(_) => None,
            PreparedBatchOperation::SetReferences { prepared, .. } => prepared.node.parent_id,
        }
    }

    /// Identity of the affected node.
    pub fn node_id(&self) -> (id: NodeId)
        ensures
            id == self.id(),
    {
        match self {
            PreparedBatchOperation::Create(item) => item.node.id,
            PreparedBatchOperation::Replace { prepared, .. } => prepared.node.id,
            PreparedBatchOperation::Remove(item) => item.node_id,
            PreparedBatchOperation::SetReferences { prepared, .. } => prepared.node.id,
        }
    }

    /// Parent that the operation gives the node.
    pub fn parent_id(&self) -> (parent: Option<NodeId>)
        ensures
            parent == self.parent(),
    {
        match self {
            PreparedBatchOperation::Create(item) => item.node.parent_id,
            PreparedBatchOperation::Replace { prepared, .. } => prepared.node.parent_id,
            PreparedBatchOperation::Remove(_) => None,
            PreparedBatchOperation::SetReferences { prepared, .. } => prepared.node.parent_id,
        }
    }
}

/// The node that one of the first `n` operations creates under the identity.
pub open spec fn created(ops: Seq<PreparedBatchOperation>, id: NodeId, n: int) -> Option<Node>
    decreases n,
{
    if n <= 0 {
        None
    } else {
        match ops[n - 1] {
            PreparedBatchOperation::Create(item) => if item.node.id == id {
                Some(item.node)
            } else {
                created(ops, id, n - 1)
            },
            _ => created(ops, id, n - 1),
        }
    }
}

/// Whether one of the first `n` operations removes the node.
pub open spec fn removes(
    nodes: Seq<Node>,
    ops: Seq<PreparedBatchOperation>,
    id: NodeId,
    n: int,
) -> bool {
    exists|j: int|
        0 <= j < n && (#[trigger] ops[j]) is Remove && below(
            links(nodes),
            ops[j]->Remove_0.node_id,
            id,
        )
}

/// Whether the subtree of `id` shares a node with one of the subtrees that the
/// first `n` operations remove.
pub open spec fn removal_overlaps(
    nodes: Seq<Node>,
    ops: Seq<PreparedBatchOperation>,
    id: NodeId,
    n: int,
) -> bool {
    exists|k: int|
        0 <= k < nodes.len() && below(links(nodes), id, (#[trigger] nodes[k]).id) && removes(
            nodes,
            ops,
            nodes[k].id,
            n,
        )
}

/// Why the `i`-th operation cannot stand, given the ones before it.
pub open spec fn operation_refusal(
    nodes: Seq<Node>,
    ops: Seq<PreparedBatchOperation>,
    i: int,
) -> Option<Refusal> {
    let id = ops[i].id();
    if exists|j: int| 0 <= j < i && (#[trigger] ops[j]).id() == id {
        Some(Refusal::Invariant("node appears more than once in mutation batch: "@ + id.text()))
    } else {
        match ops[i] {
            PreparedBatchOperation::Create(item) => create_refusal(nodes, ops, item, i),
            PreparedBatchOperation::Replace { prepared, expected_version } => replace_refusal(
                nodes,
                ops,
                prepared,
                expected_version,
                i,
            ),
            PreparedBatchOperation::SetReferences {
                prepared,
                expected_version,
                ..
            } => replace_refusal(nodes, ops, prepared, expected_version, i),
            PreparedBatchOperation::Remove(removal) => remove_refusal(nodes, ops, removal, i),
        }
    }
}

pub open spec fn create_refusal(
    nodes: Seq<Node>,
    ops: Seq<PreparedBatchOperation>,
    item: PreparedNodeMutation,
    i: int,
) -> Option<Refusal> {
    let id = item.node.id;
    if item.node.version != 1 || item.revision.version != 1 || item.revision.node_id != id
        || present(nodes, id) {
        Some(Refusal::Invariant("invalid or existing batch create: "@ + id.text()))
    } else {
        match item.node.parent_id {
            None => Some(Refusal::Invariant("batch cannot create a workspace root"@)),
            Some(parent) => {
                let found = match created(ops, parent, i) {
                    Some(node) => Some(node),
                    None => lookup(nodes, parent),
                };
                match found {
                    None => Some(Refusal::NotFound(parent.text())),
                    Some(p) => if accepts(p, item.node) {
                        None
                    } else {
                        Some(Refusal::Invariant("parent does not accept the child's node type"@))
                    },
                }
            },
        }
    }
}

pub open spec fn replace_refusal(
    nodes: Seq<Node>,
    ops: Seq<PreparedBatchOperation>,
    prepared: PreparedNodeMutation,
    expected: u64,
    i: int,
) -> Option<Refusal> {
    let id = prepared.node.id;
    match lookup(nodes, id) {
        None => Some(Refusal::NotFound(id.text())),
        Some(current) => match version_refusal(current, expected) {
            Some(e) => Some(e),
            None => if !is_next_revision(prepared.node, expected, prepared.revision@) {
                Some(Refusal::Invariant("mutation must create exactly the next revision"@))
            } else if current.parent_id is None && prepared.node.parent_id is Some {
                Some(Refusal::Invariant("workspace root cannot be moved"@))
            } else {
                match prepared.node.parent_id {
                    None => None,
                    Some(parent) => {
                        let found = match lookup(nodes, parent) {
                            Some(node) => Some(node),
                            None => created(ops, parent, i),
                        };
                        match found {
                            None => Some(Refusal::NotFound(parent.text())),
                            Some(p) => if !accepts(p, prepared.node) {
                                Some(
                                    Refusal::Invariant(
                                        "parent does not accept the child's node type"@,
                                    ),
                                )
                            } else if present(nodes, parent) && below(links(nodes), id, parent) {
                                Some(Refusal::Invariant("batch replacement would create a cycle"@))
                            } else {
                                None
                            },
                        }
                    },
                }
            },
        },
    }
}

pub open spec fn remove_refusal(
    nodes: Seq<Node>,
    ops: Seq<PreparedBatchOperation>,
    removal: AtomicTreeRemoval,
    i: int,
) -> Option<Refusal> {
    match lookup(nodes, removal.node_id) {
        None => Some(Refusal::NotFound(removal.node_id.text())),
        Some(current) => if current.parent_id is None {
            Some(Refusal::Invariant("workspace root cannot be removed"@))
        } else {
            match version_refusal(current, removal.expected_version) {
                Some(e) => Some(e),
                None => if removal_overlaps(nodes, ops, removal.node_id, i) {
                    Some(Refusal::Invariant("batch removal subtrees overlap"@))
                } else {
                    None
                },
            }
        },
    }
}

/// Why the `i`-th operation conflicts with a removal of the batch.
pub open spec fn conflict_refusal(
    nodes: Seq<Node>,
    ops: Seq<PreparedBatchOperation>,
    i: int,
) -> Option<Refusal> {
    let n = ops.len() as int;
    if !(ops[i] is Remove) && ((present(nodes, ops[i].id()) && removes(nodes, ops, ops[i].id(), n))
        || (ops[i].parent() matches Some(p) && present(nodes, p) && removes(nodes, ops, p, n))) {
        Some(Refusal::Invariant("batch operation conflicts with a removed subtree"@))
    } else {
        None
    }
}

/// The parent links after the first `n` operations, removals aside.
pub open spec fn batch_links(
    up: Map<NodeId, NodeId>,
    ops: Seq<PreparedBatchOperation>,
    n: int,
) -> Map<NodeId, NodeId>
    decreases n,
{
    if n <= 0 {
        up
    } else {
        let before = batch_links(up, ops, n - 1);
        match ops[n - 1].parent() {
            Some(parent) => before.insert(ops[n - 1].id(), parent),
            None => before,
        }
    }
}

/// Why the batch is refused.
pub open spec fn batch_refusal(nodes: Seq<Node>, ops: Seq<PreparedBatchOperation>) -> Option<
    Refusal,
> {
    let n = ops.len() as int;
    if n == 0 || n > 50 {
        Some(
            Refusal::InvalidData(
                "mutation batch operation count "@ + decimal(n as nat) + " is outside 1..=50"@,
            ),
        )
    } else if let Some(e) = first_refusal(n, |i: int| operation_refusal(nodes, ops, i)) {
        Some(e)
    } else {
        first_refusal(n, |i: int| conflict_refusal(nodes, ops, i))
    }
}

/// Whether the children of `parent` are renumbered.
pub open spec fn batch_affects(
    nodes: Seq<Node>,
    ops: Seq<PreparedBatchOperation>,
    parent: NodeId,
    n: int,
) -> bool {
    exists|i: int|
        0 <= i < n && ((#[trigger] ops[i]).parent() == Some(parent) || (!(ops[i] is Create)
            && node_at(nodes, ops[i].id()).parent_id == Some(parent)))
}

impl Tables {
    /// Inserts a new node with its revision and records.
    pub open spec fn insert_prepared(self, item: PreparedNodeMutation) -> Result<Tables, Refusal> {
        match self.insert_node(item.node) {
            Err(e) => Err(e),
            Ok(t) => match t.insert_revision(item.revision@) {
                Err(e) => Err(e),
                Ok(u) => u.replace_derived(item.node.id, item.derived),
            },
        }
    }

    /// Carries out one operation.
    pub open spec fn operate(self, op: PreparedBatchOperation) -> Result<Tables, Refusal> {
        match op {
            PreparedBatchOperation::Create(item) => self.insert_prepared(item),
            PreparedBatchOperation::Replace { prepared, expected_version } => self.write(
                prepared.node,
                expected_version,
                prepared.revision@,
                prepared.derived,
            ),
            PreparedBatchOperation::SetReferences {
                prepared,
                expected_version,
                references,
            } => self.write_references(
                prepared.node,
                expected_version,
                prepared.revision@,
                prepared.derived,
                reference_views(references@),
            ),
            PreparedBatchOperation::Remove(removal) => Ok(self.remove_below(removal.node_id)),
        }
    }

    /// Carries out the operations in order, then renumbers the children of every
    /// parent that lost or gained one and renews its context.
    pub open spec fn apply_operations(self, ops: Seq<PreparedBatchOperation>) -> Result<
        Tables,
        Refusal,
    > {
        match run(self, ops.len() as int, operation_step(ops)) {
            Err(e) => Err(e),
            Ok(t) => Ok(
                t.renumber(
                    |p: NodeId| batch_affects(self.nodes, ops, p, ops.len() as int),
                ).refresh(|p: NodeId| batch_affects(self.nodes, ops, p, ops.len() as int)),
            ),
        }
    }
}

pub open spec fn operation_step(ops: Seq<PreparedBatchOperation>) -> spec_fn(Tables, int) -> Result<
    Tables,
    Refusal,
> {
    |t: Tables, i: int| t.operate(ops[i])
}

/// One operation keeps identities unique.
pub proof fn lemma_operate_keeps_ids(t: Tables, op: PreparedBatchOperation)
    requires
        unique_ids(t.nodes),
        t.operate(op) is Ok,
    ensures
        unique_ids(t.operate(op)->Ok_0.nodes),
{
    match op {
        PreparedBatchOperation::Create(item) => {
            let u = t.insert_node(item.node)->Ok_0;
            let v = u.insert_revision(item.revision@)->Ok_0;
            lemma_derived_nodes(v, item.node.id, item.derived);
            assert forall|i: int, j: int|
                0 <= i < u.nodes.len() && 0 <= j < u.nodes.len() && #[trigger] u.nodes[i].id
                    == #[trigger] u.nodes[j].id implies i == j by {
                if i < t.nodes.len() && j < t.nodes.len() {
                    assert(t.nodes[i].id == t.nodes[j].id);
                } else if i < t.nodes.len() {
                    assert(t.nodes[i].id == item.node.id);
                } else if j < t.nodes.len() {
                    assert(t.nodes[j].id == item.node.id);
                }
            }
        },
        PreparedBatchOperation::Replace { prepared, expected_version } => {
            lemma_updates_keep_ids(t);
            lemma_write_nodes(
                t,
                prepared.node,
                expected_version,
                prepared.revision@,
                prepared.derived,
            );
        },
        PreparedBatchOperation::SetReferences { prepared, expected_version, references } => {
            lemma_updates_keep_ids(t);
            lemma_write_nodes(
                t,
                prepared.node,
                expected_version,
                prepared.revision@,
                prepared.derived,
            );
            let u = t.write(
                prepared.node,
                expected_version,
                prepared.revision@,
                prepared.derived,
            )->Ok_0;
            lemma_references_nodes(
                u.clear_explicit(prepared.node.id),
                reference_views(references@),
                references@.len() as int,
            );
        },
        PreparedBatchOperation::Remove(removal) => {
            lemma_removal_keeps_ids(t, removal.node_id);
        },
    }
}

/// Position of an operation among the first `n` that creates the identity.
fn find_created(ops: &Vec<PreparedBatchOperation>, id: NodeId, n: usize) -> (found: Option<usize>)
    requires
        n <= ops.len(),
    ensures
        created(ops@, id, n as int) == match found {
            Some(i) => match ops@[i as int] {
                PreparedBatchOperation::Create(item) => Some(item.node),
                _ => None,
            },
            None => None,
        },
        found matches Some(i) ==> i < n && ops@[i as int] is Create,
{
    let mut i: usize = n;
    while i > 0
        invariant
            i <= n <= ops.len(),
            created(ops@, id, n as int) == created(ops@, id, i as int),
        decreases i,
    {
        i = i - 1;
        match &ops[i] {
            PreparedBatchOperation::Create(item) => {
                if item.node.id == id {
                    return Some(i);
                }
            },
            _ => {},
        }
    }
    None
}

/// Whether the node created by operation `i` accepts the child.
fn created_accepts(ops: &Vec<PreparedBatchOperation>, i: usize, child: &Node) -> (ok: bool)
    requires
        i < ops.len(),
        ops@[i as int] is Create,
    ensures
        ok == accepts(ops@[i as int]->Create_0.node, *child),
{
    match &ops[i] {
        PreparedBatchOperation::Create(item) => parent_accepts(&item.node, child),
        _ => false,
    }
}

impl SqliteStore {
    /// For each row, whether one of the first `n` operations removes it.
    fn operation_flags(&self, ops: &Vec<PreparedBatchOperation>, n: usize) -> (flags: Vec<bool>)
        requires
            unique_ids(self@.nodes),
            n <= ops.len(),
        ensures
            flags.len() == self.nodes.len(),
            forall|k: int|
                0 <= k < flags.len() ==> #[trigger] flags@[k] == removes(
                    self@.nodes,
                    ops@,
                    self@.nodes[k].id,
                    n as int,
                ),
    {
        let mut flags: Vec<bool> = Vec::new();
        let mut k: usize = 0;
        while k < self.nodes.len()
            invariant
                k <= self.nodes.len(),
                flags.len() == k,
                forall|m: int| 0 <= m < k ==> !#[trigger] flags@[m],
            decreases self.nodes.len() - k,
        {
            flags.push(false);
            k = k + 1;
        }
        let ghost nodes = self@.nodes;
        let mut j: usize = 0;
        while j < n
            invariant
                j <= n <= ops.len(),
                nodes == self@.nodes,
                unique_ids(nodes),
                flags.len() == self.nodes.len(),
                forall|m: int|
                    0 <= m < flags.len() ==> #[trigger] flags@[m] == removes(
                        nodes,
                        ops@,
                        nodes[m].id,
                        j as int,
                    ),
            decreases n - j,
        {
            let ghost before = flags@;
            match &ops[j] {
                PreparedBatchOperation::Remove(removal) => {
                    let inside = subtree_flags(&self.nodes, removal.node_id);
                    let mut q: usize = 0;
                    while q < self.nodes.len()
                        invariant
                            q <= self.nodes.len(),
                            nodes == self@.nodes,
                            flags.len() == self.nodes.len(),
                            before.len() == flags.len(),
                            inside.len() == self.nodes.len(),
                            forall|m: int|
                                0 <= m < q ==> #[trigger] flags@[m] == (before[m] || inside@[m]),
                            forall|m: int|
                                q <= m < flags.len() ==> #[trigger] flags@[m] == before[m],
                        decreases self.nodes.len() - q,
                    {
                        if inside[q] {
                            flags.set(q, true);
                        }
                        q = q + 1;
                    }
                    proof {
                        assert forall|m: int| 0 <= m < flags.len() implies #[trigger] flags@[m]
                            == removes(nodes, ops@, nodes[m].id, j + 1) by {
                            assert(flags@[m] == (before[m] || inside@[m]));
                            if inside@[m] {
                                assert(ops@[j as int] is Remove);
                            }
                            if removes(nodes, ops@, nodes[m].id, j + 1) && !removes(
                                nodes,
                                ops@,
                                nodes[m].id,
                                j as int,
                            ) {
                                assert(inside@[m]);
                            }
                        }
                    }
                },
                _ => {
                    proof {
                        assert forall|m: int| 0 <= m < flags.len() implies #[trigger] flags@[m]
                            == removes(nodes, ops@, nodes[m].id, j + 1) by {
                            assert(flags@[m] == before[m]);
                        }
                    }
                },
            }
            j = j + 1;
        }
        flags
    }

    fn check_create(
        &self,
        ops: &Vec<PreparedBatchOperation>,
        item: &PreparedNodeMutation,
        i: usize,
    ) -> (result: Result<(), StoreError>)
        requires
            unique_ids(self@.nodes),
            i <= ops.len(),
        ensures
            match create_refusal(self@.nodes, ops@, *item, i as int) {
                None => result is Ok,
                Some(e) => result is Err && result->Err_0@ == e,
            },
    {
        if item.node.version != 1 || item.revision.version != 1 || item.revision.node_id
            != item.node.id || find(&self.nodes, item.node.id).is_some() {
            return Err(broken_for("invalid or existing batch create: ", item.node.id));
        }
        match item.node.parent_id {
            None => Err(broken("batch cannot create a workspace root")),
            Some(parent) => {
                let accepted: bool = match find_created(ops, parent, i) {
                    Some(j) => created_accepts(ops, j, &item.node),
                    None => match find(&self.nodes, parent) {
                        Some(j) => parent_accepts(&self.nodes[j], &item.node),
                        None => {
                            return Err(not_found(parent));
                        },
                    },
                };
                if accepted {
                    Ok(())
                } else {
                    Err(broken("parent does not accept the child's node type"))
                }
            },
        }
    }

    fn check_replace(
        &self,
        ops: &Vec<PreparedBatchOperation>,
        prepared: &PreparedNodeMutation,
        expected_version: u64,
        i: usize,
    ) -> (result: Result<(), StoreError>)
        requires
            unique_ids(self@.nodes),
            i <= ops.len(),
        ensures
            match replace_refusal(self@.nodes, ops@, *prepared, expected_version, i as int) {
                None => result is Ok,
                Some(e) => result is Err && result->Err_0@ == e,
            },
    {
        let current = self.require(prepared.node.id)?;
        check_version(&current, expected_version)?;
        validate_next_revision(&prepared.change(expected_version))?;
        if current.is_root() && prepared.node.parent_id.is_some() {
            return Err(broken("workspace root cannot be moved"));
        }
        match prepared.node.parent_id {
            None => Ok(()),
            Some(parent) => {
                let at = find(&self.nodes, parent);
                let accepted: bool = match at {
                    Some(j) => parent_accepts(&self.nodes[j], &prepared.node),
                    None => match find_created(ops, parent, i) {
                        Some(j) => created_accepts(ops, j, &prepared.node),
                        None => {
                            return Err(not_found(parent));
                        },
                    },
                };
                if !accepted {
                    return Err(broken("parent does not accept the child's node type"));
                }
                let own = subtree_flags(&self.nodes, prepared.node.id);
                match at {
                    Some(j) => {
                        if own[j] {
                            return Err(broken("batch replacement would create a cycle"));
                        }
                    },
                    None => {},
                }
                Ok(())
            },
        }
    }

    fn check_remove(
        &self,
        ops: &Vec<PreparedBatchOperation>,
        removal: &AtomicTreeRemoval,
        i: usize,
    ) -> (result: Result<(), StoreError>)
        requires
            unique_ids(self@.nodes),
            i <= ops.len(),
        ensures
            match remove_refusal(self@.nodes, ops@, *removal, i as int) {
                None => result is Ok,
                Some(e) => result is Err && result->Err_0@ == e,
            },
    {
        let current = self.require(removal.node_id)?;
        if current.is_root() {
            return Err(broken("workspace root cannot be removed"));
        }
        check_version(&current, removal.expected_version)?;
        let taken = self.operation_flags(ops, i);
        let own = subtree_flags(&self.nodes, removal.node_id);
        let ghost nodes = self@.nodes;
        let mut overlap: bool = false;
        let mut q: usize = 0;
        while q < self.nodes.len()
            invariant
                q <= self.nodes.len(),
                nodes == self@.nodes,
                taken.len() == self.nodes.len(),
                own.len() == self.nodes.len(),
                forall|m: int|
                    0 <= m < own.len() ==> #[trigger] own@[m] == below(
                        links(nodes),
                        removal.node_id,
                        nodes[m].id,
                    ),
                forall|m: int|
                    0 <= m < taken.len() ==> #[trigger] taken@[m] == removes(
                        nodes,
                        ops@,
                        nodes[m].id,
                        i as int,
                    ),
                overlap <==> exists|m: int| 0 <= m < q && #[trigger] own@[m] && taken@[m],
            decreases self.nodes.len() - q,
        {
            if own[q] && taken[q] {
                overlap = true;
            }
            q = q + 1;
        }
        proof {
            if overlap {
                let m = choose|m: int| 0 <= m < nodes.len() && #[trigger] own@[m] && taken@[m];
                assert(below(links(nodes), removal.node_id, nodes[m].id));
                assert(removal_overlaps(nodes, ops@, removal.node_id, i as int));
            }
            if removal_overlaps(nodes, ops@, removal.node_id, i as int) {
                let k = choose|k: int|
                    0 <= k < nodes.len() && below(
                        links(nodes),
                        removal.node_id,
                        (#[trigger] nodes[k]).id,
                    ) && removes(nodes, ops@, nodes[k].id, i as int);
                assert(own@[k] && taken@[k]);
            }
        }
        if overlap {
            Err(broken("batch removal subtrees overlap"))
        } else {
            Ok(())
        }
    }

    fn check_operation(&self, ops: &Vec<PreparedBatchOperation>, i: usize) -> (result: Result<
        (),
        StoreError,
    >)
        requires
            unique_ids(self@.nodes),
            i < ops.len(),
        ensures
            match operation_refusal(self@.nodes, ops@, i as int) {
                None => result is Ok,
                Some(e) => result is Err && result->Err_0@ == e,
            },
    {
        let id: NodeId = ops[i].node_id();
        let mut j: usize = 0;
        while j < i
            invariant
                j <= i < ops.len(),
                id == ops@[i as int].id(),
                forall|k: int| 0 <= k < j ==> (#[trigger] ops@[k]).id() != id,
            decreases i - j,
        {
            if ops[j].node_id() == id {
                assert(ops@[j as int].id() == id);
                return Err(broken_for("node appears more than once in mutation batch: ", id));
            }
            j = j + 1;
        }
        match &ops[i] {
            PreparedBatchOperation::Create(item) => self.check_create(ops, item, i),
            PreparedBatchOperation::Replace { prepared, expected_version } => self.check_replace(
                ops,
                prepared,
                *expected_version,
                i,
            ),
            PreparedBatchOperation::SetReferences {
                prepared,
                expected_version,
                ..
            } => self.check_replace(ops, prepared, *expected_version, i),
            PreparedBatchOperation::Remove(removal) => self.check_remove(ops, removal, i),
        }
    }

    fn check_conflict(
        &self,
        ops: &Vec<PreparedBatchOperation>,
        taken: &Vec<bool>,
        i: usize,
    ) -> (result: Result<(), StoreError>)
        requires
            unique_ids(self@.nodes),
            i < ops.len(),
            taken.len() == self.nodes.len(),
            forall|k: int|
                0 <= k < taken.len() ==> #[trigger] taken@[k] == removes(
                    self@.nodes,
                    ops@,
                    self@.nodes[k].id,
                    ops@.len() as int,
                ),
        ensures
            match conflict_refusal(self@.nodes, ops@, i as int) {
                None => result is Ok,
                Some(e) => result is Err && result->Err_0@ == e,
            },
    {
        match &ops[i] {
            PreparedBatchOperation::Remove(_) => {
                return Ok(());
            },
            _ => {},
        }
        proof {
            assert forall|x: NodeId| present(self@.nodes, x) implies taken@[#[trigger] position(
                self@.nodes,
                x,
            )] == removes(self@.nodes, ops@, x, ops@.len() as int) by {
                let p = position(self@.nodes, x);
                assert(self@.nodes[p].id == x);
                assert(taken@[p] == removes(self@.nodes, ops@, self@.nodes[p].id, ops@.len() as int));
            }
        }
        let own = is_flagged(&self.nodes, taken, ops[i].node_id());
        let below_removed: bool = match ops[i].parent_id() {
            Some(parent) => is_flagged(&self.nodes, taken, parent),
            None => false,
        };
        if own || below_removed {
            Err(broken("batch operation conflicts with a removed subtree"))
        } else {
            Ok(())
        }
    }

    fn check_batch(&self, ops: &Vec<PreparedBatchOperation>) -> (result: Result<(), StoreError>)
        requires
            unique_ids(self@.nodes),
        ensures
            match batch_refusal(self@.nodes, ops@) {
                None => result is Ok,
                Some(e) => result is Err && result->Err_0@ == e,
            },
    {
        let ghost nodes = self@.nodes;
        let ghost n = ops@.len() as int;
        if ops.len() == 0 || ops.len() > 50 {
            let mut text = "mutation batch operation count ".to_owned();
            push_wide(&mut text, ops.len() as u128);
            text.push_str(" is outside 1..=50");
            return Err(StoreError::InvalidData(text));
        }
        let ghost check = |i: int| operation_refusal(nodes, ops@, i);
        let mut i: usize = 0;
        while i < ops.len()
            invariant
                i <= ops.len(),
                n == ops@.len(),
                1 <= n <= 50,
                nodes == self@.nodes,
                unique_ids(nodes),
                check == (|i: int| operation_refusal(nodes, ops@, i)),
                first_refusal(i as int, check) is None,
            decreases ops.len() - i,
        {
            match self.check_operation(ops, i) {
                Ok(_) => {},
                Err(e) => {
                    proof {
                        lemma_first_refusal(i + 1, n, check);
                    }
                    return Err(e);
                },
            }
            i = i + 1;
        }
        let taken = self.operation_flags(ops, ops.len());
        let ghost conflict = |i: int| conflict_refusal(nodes, ops@, i);
        let mut j: usize = 0;
        while j < ops.len()
            invariant
                j <= ops.len(),
                n == ops@.len(),
                1 <= n <= 50,
                nodes == self@.nodes,
                unique_ids(nodes),
                check == (|i: int| operation_refusal(nodes, ops@, i)),
                first_refusal(n, check) is None,
                conflict == (|i: int| conflict_refusal(nodes, ops@, i)),
                first_refusal(j as int, conflict) is None,
                taken.len() == self.nodes.len(),
                forall|k: int|
                    0 <= k < taken.len() ==> #[trigger] taken@[k] == removes(
                        nodes,
                        ops@,
                        nodes[k].id,
                        n,
                    ),
            decreases ops.len() - j,
        {
            match self.check_conflict(ops, &taken, j) {
                Ok(_) => {},
                Err(e) => {
                    proof {
                        lemma_first_refusal(j + 1, n, conflict);
                    }
                    return Err(e);
                },
            }
            j = j + 1;
        }
        Ok(())
    }

    /// Carries out one operation; on failure the tables are left part-way.
    fn operate(&mut self, op: &PreparedBatchOperation) -> (result: Result<(), StoreError>)
        requires
            unique_ids(old(self)@.nodes),
        ensures
            match old(self)@.operate(*op) {
                Ok(t) => result is Ok && final(self)@ == t,
                Err(e) => result is Err && result->Err_0@ == e,
            },
    {
        match op {
            PreparedBatchOperation::Create(item) => {
                self.insert_node(&item.node)?;
                self.insert_revision(&item.revision)?;
                self.replace_derived(item.node.id, &item.derived)
            },
            PreparedBatchOperation::Replace { prepared, expected_version } => self.write(
                &prepared.change(*expected_version),
            ),
            PreparedBatchOperation::SetReferences {
                prepared,
                expected_version,
                references,
            } => self.write_references(&prepared.change(*expected_version), references),
            PreparedBatchOperation::Remove(removal) => {
                self.remove_below(removal.node_id);
                Ok(())
            },
        }
    }

    /// Parents that lose or gain a child.
    fn touched_parents(&self, ops: &Vec<PreparedBatchOperation>) -> (parents: Vec<NodeId>)
        requires
            unique_ids(self@.nodes),
            batch_refusal(self@.nodes, ops@) is None,
        ensures
            forall|p: NodeId| #[trigger]
                parents@.contains(p) <==> batch_affects(self@.nodes, ops@, p, ops@.len() as int),
    {
        let ghost nodes = self@.nodes;
        let ghost check = |i: int| operation_refusal(nodes, ops@, i);
        let mut parents: Vec<NodeId> = Vec::new();
        let mut i: usize = 0;
        while i < ops.len()
            invariant
                i <= ops.len(),
                nodes == self@.nodes,
                unique_ids(nodes),
                check == (|i: int| operation_refusal(nodes, ops@, i)),
                first_refusal(ops@.len() as int, check) is None,
                forall|p: NodeId| #[trigger]
                    parents@.contains(p) <==> batch_affects(nodes, ops@, p, i as int),
            decreases ops.len() - i,
        {
            proof {
                lemma_passed(ops@.len() as int, check, i as int);
                assert(operation_refusal(nodes, ops@, i as int) is None);
            }
            let ghost before = parents@;
            let id: NodeId = ops[i].node_id();
            match ops[i].parent_id() {
                Some(parent) => {
                    parents.push(parent);
                },
                None => {},
            }
            let fresh: bool = match &ops[i] {
                PreparedBatchOperation::Create(_) => true,
                _ => false,
            };
            if !fresh {
                match find(&self.nodes, id) {
                    Some(at) => match self.nodes[at].parent_id {
                        Some(parent) => {
                            parents.push(parent);
                        },
                        None => {},
                    },
                    None => {
                        assert(false);
                    },
                }
            }
            proof {
                let new = parents@;
                let given = ops@[i as int].parent();
                let old_parent = if ops@[i as int] is Create {
                    None
                } else {
                    node_at(nodes, id).parent_id
                };
                assert forall|p: NodeId| #[trigger] new.contains(p) <==> batch_affects(
                    nodes,
                    ops@,
                    p,
                    i + 1,
                ) by {
                    let mid = if given is Some {
                        before.push(given->0)
                    } else {
                        before
                    };
                    let end = if old_parent is Some {
                        mid.push(old_parent->0)
                    } else {
                        mid
                    };
                    assert(new =~= end);
                    lemma_pushed(before, given, p);
                    lemma_pushed(mid, old_parent, p);
                    if new.contains(p) && !before.contains(p) {
                        assert(ops@[i as int].parent() == Some(p) || (!(ops@[i as int] is Create)
                            && node_at(nodes, ops@[i as int].id()).parent_id == Some(p)));
                    }
                    if batch_affects(nodes, ops@, p, i + 1) && !batch_affects(
                        nodes,
                        ops@,
                        p,
                        i as int,
                    ) {
                        assert(given == Some(p) || old_parent == Some(p));
                    }
                }
            }
            i = i + 1;
        }
        parents
    }

    /// Validates and applies a heterogeneous mutation batch in one transaction.
    pub fn apply_mutation_batch(
        &mut self,
        operations: &Vec<PreparedBatchOperation>,
        dry_run: bool,
    ) -> (result: Result<MutationBatchResult, StoreError>)
        requires
            unique_ids(old(self)@.nodes),
        ensures
            match batch_refusal(old(self)@.nodes, operations@) {
                Some(e) => result is Err && result->Err_0@ == e && final(self)@ == old(self)@,
                None => if dry_run {
                    result is Ok && reports(result->Ok_0, operations@, true) && final(self)@ == old(
                        self,
                    )@
                } else {
                    match old(self)@.apply_operations(operations@) {
                        Ok(t) => result is Ok && reports(result->Ok_0, operations@, false)
                            && final(self)@ == t.advanced(),
                        Err(e) => result is Err && result->Err_0@ == e && final(self)@ == old(
                            self,
                        )@,
                    }
                },
            },
    {
        let ghost ops = operations@;
        let ghost n = ops.len() as int;
        self.check_batch(operations)?;
        let mut node_ids: Vec<NodeId> = Vec::new();
        let mut i: usize = 0;
        while i < operations.len()
            invariant
                i <= operations.len(),
                node_ids.len() == i,
                forall|k: int| 0 <= k < i ==> #[trigger] node_ids@[k] == operations@[k].id(),
            decreases operations.len() - i,
        {
            node_ids.push(operations[i].node_id());
            i = i + 1;
        }
        assert(node_ids@ =~= Seq::new(ops.len(), |i: int| ops[i].id()));
        let outcome = MutationBatchResult {
            status: status_of(dry_run),
            operation_count: operations.len() as u32,
            node_ids,
        };
        if dry_run {
            return Ok(outcome);
        }
        let touched = self.touched_parents(operations);
        let ghost step = operation_step(ops);
        let ghost start = self@;
        let mut next = self.copy();
        let mut j: usize = 0;
        while j < operations.len()
            invariant
                j <= operations.len(),
                ops == operations@,
                n == ops.len(),
                step == operation_step(ops),
                start == self@,
                *self == *old(self),
                batch_refusal(start.nodes, ops) is None,
                !dry_run,
                unique_ids(next@.nodes),
                run(start, j as int, step) == Ok::<Tables, Refusal>(next@),
            decreases operations.len() - j,
        {
            proof {
                assert(run(start, j + 1, step) == next@.operate(ops[j as int]));
                if next@.operate(ops[j as int]) is Ok {
                    lemma_operate_keeps_ids(next@, ops[j as int]);
                } else {
                    lemma_run_refused(start, j + 1, n, step);
                }
            }
            match next.operate(&operations[j]) {
                Ok(_) => {},
                Err(e) => {
                    return Err(e);
                },
            }
            j = j + 1;
        }
        let ghost uneven = next@;
        next.renumber(&touched);
        proof {
            assert((|p: NodeId| touched@.contains(p)) =~= (|p: NodeId|
                batch_affects(start.nodes, ops, p, n)));
            lemma_renumber_keeps_ids(uneven, |p: NodeId| touched@.contains(p));
        }
        next.refresh_contexts(&touched);
        next.advance();
        *self = next;
        Ok(outcome)
    }
}

/// Whether the result describes the batch.
pub open spec fn reports(
    result: MutationBatchResult,
    ops: Seq<PreparedBatchOperation>,
    dry_run: bool,
) -> bool {
    &&& result.status@ == status_text(dry_run)
    &&& result.operation_count == ops.len()
    &&& result.node_ids@ == Seq::new(ops.len(), |i: int| ops[i].id())
}

proof fn lemma_pushed(ids: Seq<NodeId>, extra: Option<NodeId>, x: NodeId)
    ensures
        (if extra is Some {
            ids.push(extra->0)
        } else {
            ids
        }).contains(x) <==> ids.contains(x) || extra == Some(x),
{
    if extra is Some {
        let all = ids.push(extra->0);
        if all.contains(x) {
            let i = choose|i: int| 0 <= i < all.len() && all[i] == x;
            if i < ids.len() {
                assert(ids[i] == x);
            }
        }
        if ids.contains(x) {
            let i = choose|i: int| 0 <= i < ids.len() && ids[i] == x;
            assert(all[i] == x);
        }
        assert(all[ids.len() as int] == extra->0);
    }
}

} // verus!
