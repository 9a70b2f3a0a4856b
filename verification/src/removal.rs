//! Removal of subtrees, its impact, and pruning of history.

use crate::edits::{is_flagged, subtree_flags};
use crate::model::{
    broken, not_found, Node, NodeId, NodeRevision, ReferenceTarget, Refusal, RevisionView,
    StoreError, TargetView,
};
use crate::mutate::{check_version, version_refusal};
use crate::tables::{revision_views, RowView, SqliteStore, Tables};
use crate::text::{decimal, push_decimal};
use crate::tree::{below, find, links, lookup, position, present, unique_ids};
use vstd::prelude::*;

verus! {

/// Subtree deletion impact.
#[derive(Clone, Copy, Debug, PartialEq, Eq, Structural)]
pub struct RemovalImpact {
    /// Affected canonical nodes.
    pub node_count: u64,
    /// External backlinks that become unresolved.
    pub incoming_reference_count: u64,
    /// Whether deletion was executed.
    pub deleted: bool,
}

/// Impact of discarding every retained revision except each canonical head.
#[derive(Clone, Copy, Debug, PartialEq, Eq, Structural)]
pub struct HistoryPruneReport {
    /// Canonical nodes whose current revisions are retained.
    pub node_count: u64,
    /// Retained revisions before pruning.
    pub revisions_before: u64,
    /// Historical revisions deleted by the operation.
    pub revisions_removed: u64,
    /// Current head revisions remaining after pruning.
    pub revisions_retained: u64,
}

/// Number of rows that satisfy `pred` among the first `n`.
pub open spec fn count_where<T>(rows: Seq<T>, pred: spec_fn(T) -> bool, n: int) -> nat
    decreases n,
{
    if n <= 0 {
        0
    } else {
        count_where(rows, pred, n - 1) + if pred(rows[n - 1]) {
            1nat
        } else {
            0nat
        }
    }
}

pub proof fn lemma_count_bound<T>(rows: Seq<T>, pred: spec_fn(T) -> bool, n: int)
    requires
        0 <= n,
    ensures
        count_where(rows, pred, n) <= n,
    decreases n,
{
    if n > 0 {
        lemma_count_bound(rows, pred, n - 1);
    }
}

/// Filtering keeps as many rows as satisfy the condition.
pub proof fn lemma_filter_count<T>(rows: Seq<T>, pred: spec_fn(T) -> bool, n: int)
    requires
        0 <= n <= rows.len(),
    ensures
        rows.take(n).filter(pred).len() == count_where(rows, pred, n),
    decreases n,
{
    if n > 0 {
        lemma_filter_count(rows, pred, n - 1);
        crate::edits::lemma_filter_step(rows, pred, n - 1);
    } else {
        reveal(Seq::filter);
    }
}

impl Tables {
    /// Whether the reference comes from outside the subtree and points into it.
    pub open spec fn enters(self, id: NodeId, row: RowView) -> bool {
        let up = links(self.nodes);
        &&& row.reference.target matches TargetView::Resolved { node_id, .. } && present(
            self.nodes,
            node_id,
        ) && below(up, id, node_id)
        &&& !(present(self.nodes, row.reference.source_node_id) && below(
            up,
            id,
            row.reference.source_node_id,
        ))
    }

    /// What removing a subtree would affect.
    pub open spec fn impact(self, id: NodeId) -> (nat, nat) {
        (
            count_where(
                self.nodes,
                |n: Node| below(links(self.nodes), id, n.id),
                self.nodes.len() as int,
            ),
            count_where(
                self.references,
                |r: RowView| self.enters(id, r),
                self.references.len() as int,
            ),
        )
    }

    /// Why a subtree cannot be removed.
    pub open spec fn removal_check(self, id: NodeId, expected: u64) -> Option<Refusal> {
        match lookup(self.nodes, id) {
            None => Some(Refusal::NotFound(id.text())),
            Some(node) => if node.parent_id is None {
                Some(Refusal::Invariant("root cannot be removed"@))
            } else {
                version_refusal(node, expected)
            },
        }
    }

    /// Whether the revision is the current head of its node.
    pub open spec fn is_head(self, revision: RevisionView) -> bool {
        lookup(self.nodes, revision.node_id) matches Some(node) && node.version == revision.version
            && node.revision_hash == revision.revision_hash
    }

    /// Whether the latest stored revision of the node records its current state.
    pub open spec fn head_recorded(self, node: Node) -> bool {
        &&& exists|i: int|
            0 <= i < self.revisions.len() && (#[trigger] self.revisions[i]).node_id == node.id
                && self.revisions[i].version == node.version && self.revisions[i].revision_hash
                == node.revision_hash
        &&& forall|i: int|
            0 <= i < self.revisions.len() && (#[trigger] self.revisions[i]).node_id == node.id
                ==> self.revisions[i].version <= node.version
    }

    /// Number of nodes whose head is not their latest revision.
    pub open spec fn invalid_heads(self) -> nat {
        count_where(self.nodes, |n: Node| !self.head_recorded(n), self.nodes.len() as int)
    }

    /// The impact of pruning history.
    pub open spec fn prune_report(self) -> Result<HistoryPruneReport, Refusal> {
        if self.invalid_heads() != 0 {
            Err(
                Refusal::Invariant(
                    "cannot prune history: "@ + decimal(self.invalid_heads())
                        + " node heads do not match their latest revision"@,
                ),
            )
        } else if self.revisions.len() < self.nodes.len() {
            Err(Refusal::Invariant("fewer revisions than canonical nodes"@))
        } else {
            Ok(
                HistoryPruneReport {
                    node_count: self.nodes.len() as u64,
                    revisions_before: self.revisions.len() as u64,
                    revisions_removed: (self.revisions.len() - self.nodes.len()) as u64,
                    revisions_retained: self.nodes.len() as u64,
                },
            )
        }
    }

    /// The tables after pruning history.
    pub open spec fn prune(self) -> Result<(Tables, HistoryPruneReport), Refusal> {
        match self.prune_report() {
            Err(e) => Err(e),
            Ok(report) => {
                let kept = self.revisions.filter(|r: RevisionView| self.is_head(r));
                let removed = self.revisions.len() - kept.len();
                if removed != report.revisions_removed {
                    Err(Refusal::Invariant("history changed while pruning revisions"@))
                } else if removed > 0 && self.revision == u64::MAX {
                    Err(Refusal::InvalidData("workspace revision"@))
                } else {
                    Ok(
                        (
                            Tables {
                                revisions: kept,
                                revision: if removed > 0 {
                                    (self.revision + 1) as u64
                                } else {
                                    self.revision
                                },
                                ..self
                            },
                            report,
                        ),
                    )
                }
            },
        }
    }
}

impl SqliteStore {
    /// Computes safe-removal impact without mutation.
    pub fn removal_impact(&self, id: NodeId) -> (result: Result<RemovalImpact, StoreError>)
        requires
            unique_ids(self@.nodes),
        ensures
            present(self@.nodes, id) ==> result is Ok && result->Ok_0.node_count
                == self@.impact(id).0 && result->Ok_0.incoming_reference_count == self@.impact(id).1
                && !result->Ok_0.deleted,
            !present(self@.nodes, id) ==> result is Err && result->Err_0@ == Refusal::NotFound(
                id.text(),
            ),
    {
        if find(&self.nodes, id).is_none() {
            return Err(not_found(id));
        }
        let flags = subtree_flags(&self.nodes, id);
        let ghost inside = |n: Node| below(links(self@.nodes), id, n.id);
        let ghost entering = |r: RowView| self@.enters(id, r);
        let mut nodes: u64 = 0;
        let mut i: usize = 0;
        while i < self.nodes.len()
            invariant
                i <= self.nodes.len(),
                flags.len() == self.nodes.len(),
                inside == (|n: Node| below(links(self@.nodes), id, n.id)),
                forall|j: int|
                    0 <= j < flags.len() ==> #[trigger] flags@[j] == inside(self@.nodes[j]),
                nodes <= i,
                nodes == count_where(self@.nodes, inside, i as int),
            decreases self.nodes.len() - i,
        {
            if flags[i] {
                nodes = nodes + 1;
            }
            i = i + 1;
        }
        let mut incoming: u64 = 0;
        let mut k: usize = 0;
        while k < self.references.len()
            invariant
                k <= self.references.len(),
                flags.len() == self.nodes.len(),
                unique_ids(self@.nodes),
                inside == (|n: Node| below(links(self@.nodes), id, n.id)),
                entering == (|r: RowView| self@.enters(id, r)),
                forall|j: int|
                    0 <= j < flags.len() ==> #[trigger] flags@[j] == inside(self@.nodes[j]),
                incoming <= k,
                incoming == count_where(self@.references, entering, k as int),
            decreases self.references.len() - k,
        {
            let reference = &self.references[k].reference;
            proof {
                assert(self@.references[k as int].reference == reference@);
                assert forall|x: NodeId| present(self@.nodes, x) implies flags@[#[trigger] position(
                    self@.nodes,
                    x,
                )] == below(links(self@.nodes), id, x) by {
                    let p = position(self@.nodes, x);
                    assert(self@.nodes[p].id == x);
                    assert(flags@[p] == inside(self@.nodes[p]));
                }
            }
            let points_in: bool = match &reference.target {
                ReferenceTarget::Resolved { node_id, .. } => is_flagged(
                    &self.nodes,
                    &flags,
                    *node_id,
                ),
                ReferenceTarget::Unresolved { .. } => false,
            };
            if points_in && !is_flagged(&self.nodes, &flags, reference.source_node_id) {
                incoming = incoming + 1;
            }
            k = k + 1;
        }
        Ok(RemovalImpact { node_count: nodes, incoming_reference_count: incoming, deleted: false })
    }

    /// Dry-runs or deletes a non-root subtree with version protection.
    pub fn remove_subtree(&mut self, id: NodeId, expected_version: u64, dry_run: bool) -> (result:
        Result<RemovalImpact, StoreError>)
        requires
            unique_ids(old(self)@.nodes),
        ensures
            match old(self)@.removal_check(id, expected_version) {
                Some(e) => result is Err && result->Err_0@ == e && final(self)@ == old(self)@,
                None => {
                    &&& result is Ok
                    &&& result->Ok_0.node_count == old(self)@.impact(id).0
                    &&& result->Ok_0.incoming_reference_count == old(self)@.impact(id).1
                    &&& result->Ok_0.deleted == !dry_run
                    &&& final(self)@ == if dry_run {
                        old(self)@
                    } else {
                        old(self)@.remove_below(id).advanced()
                    }
                },
            },
    {
        let node = self.require(id)?;
        if node.is_root() {
            return Err(broken("root cannot be removed"));
        }
        check_version(&node, expected_version)?;
        let impact = self.removal_impact(id)?;
        if dry_run {
            return Ok(impact);
        }
        self.remove_below(id);
        self.advance();
        Ok(
            RemovalImpact {
                node_count: impact.node_count,
                incoming_reference_count: impact.incoming_reference_count,
                deleted: true,
            },
        )
    }

    fn head_recorded(&self, node: &Node) -> (recorded: bool)
        ensures
            recorded == self@.head_recorded(*node),
    {
        let mut found: bool = false;
        let mut i: usize = 0;
        while i < self.revisions.len()
            invariant
                i <= self.revisions.len(),
                found <==> exists|j: int|
                    0 <= j < i && (#[trigger] self@.revisions[j]).node_id == node.id
                        && self@.revisions[j].version == node.version
                        && self@.revisions[j].revision_hash == node.revision_hash,
                forall|j: int|
                    0 <= j < i && (#[trigger] self@.revisions[j]).node_id == node.id
                        ==> self@.revisions[j].version <= node.version,
            decreases self.revisions.len() - i,
        {
            let revision = &self.revisions[i];
            assert(self@.revisions[i as int] == revision@);
            if revision.node_id == node.id {
                if revision.version > node.version {
                    return false;
                }
                if revision.version == node.version && revision.revision_hash
                    == node.revision_hash {
                    found = true;
                }
            }
            i = i + 1;
        }
        found
    }

    /// Reports the impact of retaining only each canonical node's current
    /// revision.
    pub fn plan_history_prune(&self) -> (result: Result<HistoryPruneReport, StoreError>)
        ensures
            match self@.prune_report() {
                Ok(report) => result == Ok::<HistoryPruneReport, StoreError>(report),
                Err(e) => result is Err && result->Err_0@ == e,
            },
    {
        let ghost unrecorded = |n: Node| !self@.head_recorded(n);
        let mut invalid: u64 = 0;
        let mut i: usize = 0;
        while i < self.nodes.len()
            invariant
                i <= self.nodes.len(),
                unrecorded == (|n: Node| !self@.head_recorded(n)),
                invalid <= i,
                invalid == count_where(self@.nodes, unrecorded, i as int),
            decreases self.nodes.len() - i,
        {
            if !self.head_recorded(&self.nodes[i]) {
                invalid = invalid + 1;
            }
            i = i + 1;
        }
        if invalid != 0 {
            let mut text = "cannot prune history: ".to_owned();
            push_decimal(&mut text, invalid);
            text.push_str(" node heads do not match their latest revision");
            return Err(StoreError::Invariant(text));
        }
        if self.revisions.len() < self.nodes.len() {
            return Err(broken("fewer revisions than canonical nodes"));
        }
        Ok(
            HistoryPruneReport {
                node_count: self.nodes.len() as u64,
                revisions_before: self.revisions.len() as u64,
                revisions_removed: (self.revisions.len() - self.nodes.len()) as u64,
                revisions_retained: self.nodes.len() as u64,
            },
        )
    }

    /// Atomically discards every retained revision except each canonical head.
    ///
    /// Refuses when a node has no matching latest revision. The workspace
    /// revision advances when rows are removed, so outstanding cursors cannot
    /// observe a changed history.
    pub fn prune_history(&mut self) -> (result: Result<HistoryPruneReport, StoreError>)
        requires
            unique_ids(old(self)@.nodes),
        ensures
            match old(self)@.prune() {
                Ok((t, report)) => result == Ok::<HistoryPruneReport, StoreError>(report)
                    && final(self)@ == t,
                Err(e) => result is Err && result->Err_0@ == e && final(self)@ == old(self)@,
            },
    {
        let report = self.plan_history_prune()?;
        let ghost keep = |r: RevisionView| self@.is_head(r);
        let mut kept: Vec<NodeRevision> = Vec::new();
        let mut i: usize = 0;
        while i < self.revisions.len()
            invariant
                i <= self.revisions.len(),
                *self == *old(self),
                unique_ids(self@.nodes),
                keep == (|r: RevisionView| self@.is_head(r)),
                kept.len() <= i,
                revision_views(kept@) == self@.revisions.take(i as int).filter(keep),
            decreases self.revisions.len() - i,
        {
            proof {
                crate::edits::lemma_filter_step(self@.revisions, keep, i as int);
            }
            let revision = &self.revisions[i];
            let ghost before = revision_views(kept@);
            let head: bool = match find(&self.nodes, revision.node_id) {
                Some(p) => self.nodes[p].version == revision.version && self.nodes[p].revision_hash
                    == revision.revision_hash,
                None => false,
            };
            if head {
                kept.push(revision.copy());
                assert(revision_views(kept@) =~= before.push(revision@));
            }
            i = i + 1;
        }
        assert(self@.revisions.take(self@.revisions.len() as int) =~= self@.revisions);
        assert(revision_views(kept@).len() == kept@.len());
        let removed: u64 = (self.revisions.len() - kept.len()) as u64;
        if removed != report.revisions_removed {
            return Err(broken("history changed while pruning revisions"));
        }
        if removed > 0 {
            if self.revision == u64::MAX {
                return Err(crate::model::invalid_data("workspace revision"));
            }
            self.revision = self.revision + 1;
        }
        self.revisions = kept;
        Ok(report)
    }
}

} // verus!
