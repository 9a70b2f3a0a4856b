//! Versioned mutations of single nodes.

use crate::model::{
    broken, DerivedNodeRecords, Node, NodeId, NodeRevision, Reference, ReferenceOrigin,
    ReferenceView, Refusal, RevisionView, StoreError, ReferenceTarget,
};
use crate::tables::{reference_views, SqliteStore, Tables};
use crate::text::text_of;
use crate::tree::{below, find, is_forest, links, lookup, present, unique_ids};
use vstd::prelude::*;

verus! {

/// Result of a versioned canonical mutation.
#[derive(Clone, Copy, Debug, PartialEq, Eq, Structural)]
pub enum MutationOutcome {
    /// Canonical state and derived rows were updated and a revision was appended.
    Applied,
    /// Requested semantic state already matches the current revision hash.
    NoOp,
}

/// A node with everything that is stored along with it.
#[derive(Debug)]
pub struct PreparedNodeMutation {
    pub node: Node,
    pub revision: NodeRevision,
    pub derived: DerivedNodeRecords,
}

/// Complete precomputed input to one canonical mutation.
#[derive(Clone, Copy)]
pub struct NodeChange<'a> {
    /// New canonical node state.
    pub node: &'a Node,
    /// Version read by the caller.
    pub expected_version: u64,
    /// Immutable new revision.
    pub revision: &'a NodeRevision,
    /// Precomputed derived state.
    pub derived: &'a DerivedNodeRecords,
}

impl PreparedNodeMutation {
    /// The mutation as a change of an existing node.
    pub fn change(&self, expected_version: u64) -> (change: NodeChange<'_>)
        ensures
            change.node == &self.node,
            change.expected_version == expected_version,
            change.revision == &self.revision,
            change.derived == &self.derived,
    {
        NodeChange {
            node: &self.node,
            expected_version,
            revision: &self.revision,
            derived: &self.derived,
        }
    }
}

/// The first refusal of `n` checks made in order.
pub open spec fn first_refusal(n: int, check: spec_fn(int) -> Option<Refusal>) -> Option<Refusal>
    decreases n,
{
    if n <= 0 {
        None
    } else {
        match first_refusal(n - 1, check) {
            Some(e) => Some(e),
            None => check(n - 1),
        }
    }
}

pub proof fn lemma_first_refusal(n: int, m: int, check: spec_fn(int) -> Option<Refusal>)
    requires
        0 <= n <= m,
        first_refusal(n, check) is Some,
    ensures
        first_refusal(m, check) == first_refusal(n, check),
    decreases m,
{
    if m > n {
        lemma_first_refusal(n, m - 1, check);
    }
}

/// The tables after `n` steps taken in order, or the first refusal.
pub open spec fn run(
    t: Tables,
    n: int,
    step: spec_fn(Tables, int) -> Result<Tables, Refusal>,
) -> Result<Tables, Refusal>
    decreases n,
{
    if n <= 0 {
        Ok(t)
    } else {
        match run(t, n - 1, step) {
            Ok(u) => step(u, n - 1),
            Err(e) => Err(e),
        }
    }
}

pub proof fn lemma_run_refused(
    t: Tables,
    n: int,
    m: int,
    step: spec_fn(Tables, int) -> Result<Tables, Refusal>,
)
    requires
        0 <= n <= m,
        run(t, n, step) is Err,
    ensures
        run(t, m, step) == run(t, n, step),
    decreases m,
{
    if m > n {
        lemma_run_refused(t, n, m - 1, step);
    }
}

/// Whether a parent takes the child's node type.
pub open spec fn accepts(parent: Node, child: Node) -> bool {
    parent.metadata.accepts_children@.len() == 0 || (child.metadata.node_type matches Some(kind)
        && exists|i: int|
        0 <= i < parent.metadata.accepts_children@.len() && (
        #[trigger] parent.metadata.accepts_children@[i])@ == kind@)
}

/// Whether a parent takes the child's node type.
pub fn parent_accepts(parent: &Node, child: &Node) -> (ok: bool)
    ensures
        ok == accepts(*parent, *child),
{
    let allowed = &parent.metadata.accepts_children;
    if allowed.len() == 0 {
        return true;
    }
    match &child.metadata.node_type {
        None => false,
        Some(kind) => {
            let mut i: usize = 0;
            while i < allowed.len()
                invariant
                    i <= allowed.len(),
                    child.metadata.node_type == Some(*kind),
                    allowed == &parent.metadata.accepts_children,
                    forall|j: int|
                        0 <= j < i ==> (#[trigger] parent.metadata.accepts_children@[j])@ != kind@,
                decreases allowed.len() - i,
            {
                if allowed[i] == *kind {
                    assert(parent.metadata.accepts_children@[i as int]@ == kind@);
                    return true;
                }
                i = i + 1;
            }
            false
        },
    }
}

/// Why a version check fails.
pub open spec fn version_refusal(node: Node, expected: u64) -> Option<Refusal> {
    if node.version == expected {
        None
    } else {
        Some(Refusal::Conflict { node_id: node.id, expected, actual: node.version })
    }
}

/// Refuses a stale version.
pub fn check_version(node: &Node, expected: u64) -> (result: Result<(), StoreError>)
    ensures
        match version_refusal(*node, expected) {
            None => result is Ok,
            Some(e) => result is Err && result->Err_0@ == e,
        },
{
    if node.version == expected {
        Ok(())
    } else {
        Err(StoreError::Conflict { node_id: node.id, expected, actual: node.version })
    }
}

/// Whether node and revision are exactly the ones after `expected`.
pub open spec fn is_next_revision(node: Node, expected: u64, revision: RevisionView) -> bool {
    node.version == expected + 1 && revision.version == node.version && revision.node_id == node.id
}

/// Refuses a mutation that does not create exactly the next revision.
pub fn validate_next_revision(change: &NodeChange<'_>) -> (result: Result<(), StoreError>)
    ensures
        is_next_revision(*change.node, change.expected_version, change.revision@) ==> result is Ok,
        !is_next_revision(*change.node, change.expected_version, change.revision@) ==> result is Err
            && result->Err_0@ == Refusal::Invariant(
            "mutation must create exactly the next revision"@,
        ),
{
    if change.expected_version < u64::MAX && change.node.version == change.expected_version + 1
        && change.revision.version == change.node.version && change.revision.node_id
        == change.node.id {
        Ok(())
    } else {
        Err(broken("mutation must create exactly the next revision"))
    }
}

impl Tables {
    /// Stores the new state of an existing node with its revision and records.
    pub open spec fn write(
        self,
        node: Node,
        expected: u64,
        revision: RevisionView,
        derived: DerivedNodeRecords,
    ) -> Result<Tables, Refusal> {
        match self.update_node(node, expected) {
            Ok(t) => match t.insert_revision(revision) {
                Ok(u) => u.replace_derived(node.id, derived),
                Err(e) => Err(e),
            },
            Err(e) => Err(e),
        }
    }

    /// Replaces the state of a node.
    pub open spec fn replace(
        self,
        node: Node,
        expected: u64,
        revision: RevisionView,
        derived: DerivedNodeRecords,
    ) -> Result<(Tables, MutationOutcome), Refusal> {
        match lookup(self.nodes, node.id) {
            None => Err(Refusal::NotFound(node.id.text())),
            Some(current) => match version_refusal(current, expected) {
                Some(e) => Err(e),
                None => if current.revision_hash == node.revision_hash {
                    Ok((self, MutationOutcome::NoOp))
                } else if !is_next_revision(node, expected, revision) {
                    Err(Refusal::Invariant("mutation must create exactly the next revision"@))
                } else {
                    match self.write(node, expected, revision, derived) {
                        Ok(t) => Ok((t.advanced(), MutationOutcome::Applied)),
                        Err(e) => Err(e),
                    }
                },
            },
        }
    }

    /// Moves a subtree.
    pub open spec fn move_node(
        self,
        node: Node,
        expected: u64,
        revision: RevisionView,
        derived: DerivedNodeRecords,
    ) -> Result<(Tables, MutationOutcome), Refusal> {
        match node.parent_id {
            None => Err(Refusal::Invariant("root cannot be moved"@)),
            Some(parent) => if present(self.nodes, node.id) && present(self.nodes, parent) && below(
                links(self.nodes),
                node.id,
                parent,
            ) {
                Err(Refusal::Invariant("cannot move below the same subtree"@))
            } else {
                self.replace(node, expected, revision, derived)
            },
        }
    }

    /// Why a set of explicit references cannot be given to a node.
    pub open spec fn explicit_refusal(
        self,
        id: NodeId,
        references: Seq<ReferenceView>,
        i: int,
    ) -> Option<Refusal> {
        let reference = references[i];
        if reference.source_node_id != id || reference.origin != ReferenceOrigin::Explicit {
            Some(Refusal::Invariant("explicit reference has invalid source or origin"@))
        } else if exists|j: int|
            0 <= j < i && (#[trigger] references[j]).reference_type == reference.reference_type
                && references[j].target == reference.target {
            Some(Refusal::Invariant("duplicate explicit reference"@))
        } else {
            None
        }
    }

    /// Replaces the explicit references of a node along with its state.
    pub open spec fn set_references(
        self,
        node: Node,
        expected: u64,
        revision: RevisionView,
        derived: DerivedNodeRecords,
        references: Seq<ReferenceView>,
    ) -> Result<(Tables, MutationOutcome), Refusal> {
        match lookup(self.nodes, node.id) {
            None => Err(Refusal::NotFound(node.id.text())),
            Some(current) => match version_refusal(current, expected) {
                Some(e) => Err(e),
                None => if current.revision_hash == node.revision_hash {
                    Ok((self, MutationOutcome::NoOp))
                } else {
                    match first_refusal(
                        references.len() as int,
                        |i: int| self.explicit_refusal(node.id, references, i),
                    ) {
                        Some(e) => Err(e),
                        None => if !is_next_revision(node, expected, revision) {
                            Err(
                                Refusal::Invariant(
                                    "mutation must create exactly the next revision"@,
                                ),
                            )
                        } else {
                            match self.write_references(
                                node,
                                expected,
                                revision,
                                derived,
                                references,
                            ) {
                                Ok(t) => Ok((t.advanced(), MutationOutcome::Applied)),
                                Err(e) => Err(e),
                            }
                        },
                    }
                },
            },
        }
    }

    /// Stores the new state of a node and its explicit references.
    pub open spec fn write_references(
        self,
        node: Node,
        expected: u64,
        revision: RevisionView,
        derived: DerivedNodeRecords,
        references: Seq<ReferenceView>,
    ) -> Result<Tables, Refusal> {
        match self.write(node, expected, revision, derived) {
            Ok(t) => t.clear_explicit(node.id).insert_references(
                references,
                references.len() as int,
            ),
            Err(e) => Err(e),
        }
    }
}

/// Whether two reference targets are the same.
fn same_target(a: &ReferenceTarget, b: &ReferenceTarget) -> (same: bool)
    ensures
        same == (a@ == b@),
{
    match (a, b) {
        (
            ReferenceTarget::Resolved { node_id, target_ref, anchor },
            ReferenceTarget::Resolved { node_id: id, target_ref: written, anchor: at },
        ) => *node_id == *id && equal_text(target_ref, written) && equal_text(anchor, at),
        (
            ReferenceTarget::Unresolved { target_ref },
            ReferenceTarget::Unresolved { target_ref: written },
        ) => *target_ref == *written,
        _ => false,
    }
}

/// Whether two optional texts are the same.
pub fn equal_text(a: &Option<String>, b: &Option<String>) -> (same: bool)
    ensures
        same == (text_of(*a) == text_of(*b)),
{
    match (a, b) {
        (None, None) => true,
        (Some(x), Some(y)) => *x == *y,
        _ => false,
    }
}

impl SqliteStore {
    /// Stores the new state of an existing node; on failure the tables are left
    /// part-way.
    pub(crate) fn write(&mut self, change: &NodeChange<'_>) -> (result: Result<(), StoreError>)
        requires
            unique_ids(old(self)@.nodes),
        ensures
            match old(self)@.write(
                *change.node,
                change.expected_version,
                change.revision@,
                *change.derived,
            ) {
                Ok(t) => result is Ok && final(self)@ == t,
                Err(e) => result is Err && result->Err_0@ == e,
            },
    {
        self.update_row(change.node, change.expected_version)?;
        self.insert_revision(change.revision)?;
        self.replace_derived(change.node.id, change.derived)
    }

    fn replace_node(&mut self, change: NodeChange<'_>) -> (result: Result<
        MutationOutcome,
        StoreError,
    >)
        requires
            unique_ids(old(self)@.nodes),
        ensures
            match old(self)@.replace(
                *change.node,
                change.expected_version,
                change.revision@,
                *change.derived,
            ) {
                Ok((t, outcome)) => result == Ok::<MutationOutcome, StoreError>(outcome)
                    && final(self)@ == t,
                Err(e) => result is Err && result->Err_0@ == e && final(self)@ == old(self)@,
            },
    {
        let current = self.require(change.node.id)?;
        check_version(&current, change.expected_version)?;
        if current.revision_hash == change.node.revision_hash {
            return Ok(MutationOutcome::NoOp);
        }
        validate_next_revision(&change)?;
        let mut next = self.copy();
        next.write(&change)?;
        next.advance();
        *self = next;
        Ok(MutationOutcome::Applied)
    }

    /// Atomically updates content/metadata with optimistic concurrency.
    pub fn update_node(&mut self, change: NodeChange<'_>) -> (result: Result<
        MutationOutcome,
        StoreError,
    >)
        requires
            unique_ids(old(self)@.nodes),
        ensures
            match old(self)@.replace(
                *change.node,
                change.expected_version,
                change.revision@,
                *change.derived,
            ) {
                Ok((t, outcome)) => result == Ok::<MutationOutcome, StoreError>(outcome)
                    && final(self)@ == t,
                Err(e) => result is Err && result->Err_0@ == e && final(self)@ == old(self)@,
            },
    {
        self.replace_node(change)
    }

    /// Atomically renames while preserving identity and history.
    pub fn rename_node(&mut self, change: NodeChange<'_>) -> (result: Result<
        MutationOutcome,
        StoreError,
    >)
        requires
            unique_ids(old(self)@.nodes),
        ensures
            match old(self)@.replace(
                *change.node,
                change.expected_version,
                change.revision@,
                *change.derived,
            ) {
                Ok((t, outcome)) => result == Ok::<MutationOutcome, StoreError>(outcome)
                    && final(self)@ == t,
                Err(e) => result is Err && result->Err_0@ == e && final(self)@ == old(self)@,
            },
    {
        self.replace_node(change)
    }

    /// Moves a subtree after rejecting root moves and cycles.
    pub fn move_subtree(&mut self, change: NodeChange<'_>) -> (result: Result<
        MutationOutcome,
        StoreError,
    >)
        requires
            is_forest(old(self)@.nodes),
        ensures
            match old(self)@.move_node(
                *change.node,
                change.expected_version,
                change.revision@,
                *change.derived,
            ) {
                Ok((t, outcome)) => result == Ok::<MutationOutcome, StoreError>(outcome)
                    && final(self)@ == t,
                Err(e) => result is Err && result->Err_0@ == e && final(self)@ == old(self)@,
            },
    {
        let parent: NodeId = match change.node.parent_id {
            Some(parent) => parent,
            None => {
                return Err(broken("root cannot be moved"));
            },
        };
        if find(&self.nodes, change.node.id).is_some() {
            match find(&self.nodes, parent) {
                Some(i) => {
                    if crate::edits::is_below(&self.nodes, change.node.id, i) {
                        return Err(broken("cannot move below the same subtree"));
                    }
                },
                None => {},
            }
        }
        self.replace_node(change)
    }

    /// Replaces explicit references atomically with the corresponding node
    /// revision.
    pub fn set_explicit_references(
        &mut self,
        change: NodeChange<'_>,
        references: &Vec<Reference>,
    ) -> (result: Result<MutationOutcome, StoreError>)
        requires
            unique_ids(old(self)@.nodes),
        ensures
            match old(self)@.set_references(
                *change.node,
                change.expected_version,
                change.revision@,
                *change.derived,
                reference_views(references@),
            ) {
                Ok((t, outcome)) => result == Ok::<MutationOutcome, StoreError>(outcome)
                    && final(self)@ == t,
                Err(e) => result is Err && result->Err_0@ == e && final(self)@ == old(self)@,
            },
    {
        let current = self.require(change.node.id)?;
        check_version(&current, change.expected_version)?;
        if current.revision_hash == change.node.revision_hash {
            return Ok(MutationOutcome::NoOp);
        }
        self.check_explicit(change.node.id, references)?;
        validate_next_revision(&change)?;
        let mut next = self.copy();
        next.write_references(&change, references)?;
        next.advance();
        *self = next;
        Ok(MutationOutcome::Applied)
    }

    /// Refuses a set of explicit references with a foreign source, another
    /// origin, or a repetition.
    fn check_explicit(&self, id: NodeId, references: &Vec<Reference>) -> (result: Result<
        (),
        StoreError,
    >)
        ensures
            match first_refusal(
                references@.len() as int,
                |i: int| self@.explicit_refusal(id, reference_views(references@), i),
            ) {
                None => result is Ok,
                Some(e) => result is Err && result->Err_0@ == e,
            },
    {
        let ghost views = reference_views(references@);
        let ghost check = |i: int| self@.explicit_refusal(id, views, i);
        let mut i: usize = 0;
        while i < references.len()
            invariant
                i <= references.len(),
                views == reference_views(references@),
                check == (|i: int| self@.explicit_refusal(id, views, i)),
                first_refusal(i as int, check) is None,
            decreases references.len() - i,
        {
            let reference = &references[i];
            if reference.source_node_id != id || reference.origin != ReferenceOrigin::Explicit {
                proof {
                    lemma_first_refusal(i + 1, references.len() as int, check);
                }
                return Err(broken("explicit reference has invalid source or origin"));
            }
            let mut j: usize = 0;
            while j < i
                invariant
                    j <= i < references.len(),
                    views == reference_views(references@),
                    check == (|i: int| self@.explicit_refusal(id, views, i)),
                    first_refusal(i as int, check) is None,
                    reference == &references@[i as int],
                    reference.source_node_id == id,
                    reference.origin == ReferenceOrigin::Explicit,
                    forall|k: int|
                        0 <= k < j ==> !((#[trigger] views[k]).reference_type
                            == reference.reference_type@ && views[k].target == reference.target@),
                decreases i - j,
            {
                if references[j].reference_type == reference.reference_type && same_target(
                    &references[j].target,
                    &reference.target,
                ) {
                    proof {
                        assert(views[j as int].reference_type == views[i as int].reference_type);
                        assert(check(i as int) is Some);
                        lemma_first_refusal(i + 1, references.len() as int, check);
                    }
                    return Err(broken("duplicate explicit reference"));
                }
                j = j + 1;
            }
            assert(check(i as int) is None);
            i = i + 1;
        }
        Ok(())
    }

    /// Stores the new state of a node and its explicit references; on failure
    /// the tables are left part-way.
    pub(crate) fn write_references(
        &mut self,
        change: &NodeChange<'_>,
        references: &Vec<Reference>,
    ) -> (result: Result<(), StoreError>)
        requires
            unique_ids(old(self)@.nodes),
        ensures
            match old(self)@.write_references(
                *change.node,
                change.expected_version,
                change.revision@,
                *change.derived,
                reference_views(references@),
            ) {
                Ok(t) => result is Ok && final(self)@ == t,
                Err(e) => result is Err && result->Err_0@ == e,
            },
    {
        self.write(change)?;
        self.clear_explicit(change.node.id);
        self.insert_references(references)
    }
}

} // verus!
