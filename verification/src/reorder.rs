//! Reordering a node among its siblings.

use crate::create::{make_revision, revision_of};
use crate::edits::{as_order, count_before, rank_of, sibling_rank, to_order};
use crate::model::{
    broken, invalid_data, DerivedNodeRecords, Node, NodeHash, NodeId, NodeRevision, Refusal,
    RevisionView, StoreError,
};
use crate::mutate::{
    check_version, is_next_revision, lemma_run_refused, run, validate_next_revision,
    version_refusal, MutationOutcome, NodeChange,
};
use crate::tables::{same_id, storable, SqliteStore, Tables};
use crate::text::copy_text;
use crate::tree::{find, lookup, position, unique_ids};
use vstd::prelude::*;

verus! {

/// The revision hash of a sibling at the position that a reorder gives it.
#[derive(Clone, Copy, Debug, PartialEq, Eq, Structural)]
pub struct SiblingHash {
    pub node_id: NodeId,
    pub revision_hash: NodeHash,
}

/// A sibling that a reorder moves to another position.
#[derive(Clone, Copy, Debug, PartialEq, Eq, Structural)]
pub struct SiblingShift {
    pub node_id: NodeId,
    pub sibling_order: u32,
}

/// Number of children of a node among the first `n` rows.
pub open spec fn child_count(nodes: Seq<Node>, parent: NodeId, n: int) -> nat
    decreases n,
{
    if n <= 0 {
        0
    } else {
        child_count(nodes, parent, n - 1) + if nodes[n - 1].parent_id == Some(parent) {
            1nat
        } else {
            0nat
        }
    }
}

/// Counts the children of a node.
pub fn count_children(nodes: &Vec<Node>, parent: NodeId) -> (count: usize)
    ensures
        count == child_count(nodes@, parent, nodes@.len() as int),
        count <= nodes.len(),
{
    let mut count: usize = 0;
    let mut i: usize = 0;
    while i < nodes.len()
        invariant
            i <= nodes.len(),
            count <= i,
            count == child_count(nodes@, parent, i as int),
        decreases nodes.len() - i,
    {
        if same_id(nodes[i].parent_id, Some(parent)) {
            count = count + 1;
        }
        i = i + 1;
    }
    count
}

/// Where a sibling of rank `rank` stands after the one of rank `from` is taken
/// out and put back at `to`.
pub open spec fn moved_rank(rank: int, from: int, to: int) -> int {
    if rank == from {
        to
    } else if from < rank <= to {
        rank - 1
    } else if to <= rank < from {
        rank + 1
    } else {
        rank
    }
}

/// The position that a reorder asks for: the last one if it asks for more.
pub open spec fn requested_rank(nodes: Seq<Node>, parent: NodeId, order: u32) -> int {
    let count = child_count(nodes, parent, nodes.len() as int) as int;
    if order < count - 1 {
        order as int
    } else {
        count - 1
    }
}

/// The hash supplied for a sibling.
pub open spec fn hash_for(hashes: Seq<SiblingHash>, id: NodeId, n: int) -> Option<NodeHash>
    decreases n,
{
    if n <= 0 {
        None
    } else if hashes[n - 1].node_id == id {
        Some(hashes[n - 1].revision_hash)
    } else {
        hash_for(hashes, id, n - 1)
    }
}

/// A sibling at its new position.
pub open spec fn reordered_node(
    sibling: Node,
    sibling_order: u32,
    revision_hash: NodeHash,
    cause: RevisionView,
) -> Node {
    Node {
        sibling_order,
        version: (sibling.version + 1) as u64,
        revision_hash,
        updated_at: cause.created_at,
        ..sibling
    }
}

/// The revision that records a sibling's new position.
pub open spec fn reordered_revision(node: Node, cause: RevisionView) -> RevisionView {
    revision_of(
        node,
        Some("Sibling position adjusted by reorder of "@ + cause.node_id.text()),
        cause.created_by,
        cause.created_at,
    )
}

/// Builds a sibling at its new position with the revision that records it.
pub fn reordered_sibling(
    current: &Node,
    sibling_order: u32,
    revision_hash: NodeHash,
    cause: &NodeRevision,
) -> (result: (Node, NodeRevision))
    requires
        current.version < u64::MAX,
    ensures
        result.0 == reordered_node(*current, sibling_order, revision_hash, cause@),
        result.1@ == reordered_revision(result.0, cause@),
{
    let mut node = current.copy();
    node.sibling_order = sibling_order;
    node.version = current.version + 1;
    node.revision_hash = revision_hash;
    node.updated_at = cause.created_at;
    let mut summary = "Sibling position adjusted by reorder of ".to_owned();
    let name = cause.node_id.to_text();
    summary.push_str(name.as_str());
    let revision = make_revision(
        &node,
        Some(summary),
        copy_text(&cause.created_by),
        cause.created_at,
    );
    (node, revision)
}

/// A reorder that has passed every check.
pub struct Reorder {
    pub node: Node,
    pub expected: u64,
    pub revision: RevisionView,
    pub derived: DerivedNodeRecords,
    pub parent: NodeId,
    pub from: int,
    pub to: int,
    pub hashes: Seq<SiblingHash>,
}

impl Tables {
    /// What a reorder does to row `i` of the table it started from.
    pub open spec fn reorder_row(self, nodes: Seq<Node>, r: Reorder, i: int) -> Result<
        Tables,
        Refusal,
    > {
        let sibling = nodes[i];
        if sibling.parent_id != Some(r.parent) {
            Ok(self)
        } else if sibling.id == r.node.id {
            self.write(r.node, r.expected, r.revision, r.derived)
        } else {
            let order = as_order(moved_rank(sibling_rank(nodes, sibling) as int, r.from, r.to) as nat);
            if sibling.sibling_order == order {
                Ok(self)
            } else {
                match hash_for(r.hashes, sibling.id, r.hashes.len() as int) {
                    None => Err(Refusal::InvalidData("sibling revision hash"@)),
                    Some(hash) => {
                        let node = reordered_node(sibling, order, hash, r.revision);
                        match self.update_node(node, sibling.version) {
                            Ok(t) => t.insert_revision(reordered_revision(node, r.revision)),
                            Err(e) => Err(e),
                        }
                    },
                }
            }
        }
    }

    /// Reorders a node below its parent.
    pub open spec fn reorder(
        self,
        node: Node,
        expected: u64,
        revision: RevisionView,
        derived: DerivedNodeRecords,
        hashes: Seq<SiblingHash>,
    ) -> Result<(Tables, MutationOutcome), Refusal> {
        match self.reorder_plan(node, expected, revision) {
            Err(e) => Err(e),
            Ok(None) => Ok((self, MutationOutcome::NoOp)),
            Ok(Some((parent, from, to))) => {
                let r = Reorder { node, expected, revision, derived, parent, from, to, hashes };
                match run(
                    self,
                    self.nodes.len() as int,
                    |t: Tables, i: int| t.reorder_row(self.nodes, r, i),
                ) {
                    Ok(t) => Ok((t.advanced(), MutationOutcome::Applied)),
                    Err(e) => Err(e),
                }
            },
        }
    }

    /// Checks a reorder: the parent, the present rank and the new one, or
    /// nothing if the node already stands there.
    pub open spec fn reorder_plan(
        self,
        node: Node,
        expected: u64,
        revision: RevisionView,
    ) -> Result<Option<(NodeId, int, int)>, Refusal> {
        match lookup(self.nodes, node.id) {
            None => Err(Refusal::NotFound(node.id.text())),
            Some(current) => match version_refusal(current, expected) {
                Some(e) => Err(e),
                None => match current.parent_id {
                    None => Err(Refusal::Invariant("root cannot be reordered"@)),
                    Some(parent) => if node.parent_id != Some(parent) {
                        Err(Refusal::Invariant("reorder cannot change a node's parent"@))
                    } else if !is_next_revision(node, expected, revision) {
                        Err(Refusal::Invariant("mutation must create exactly the next revision"@))
                    } else {
                        let from = sibling_rank(self.nodes, current) as int;
                        let to = requested_rank(self.nodes, parent, node.sibling_order);
                        if from == to {
                            Ok(None)
                        } else if node.sibling_order != to {
                            Err(
                                Refusal::Invariant(
                                    "reorder position exceeds the last sibling index"@,
                                ),
                            )
                        } else {
                            Ok(Some((parent, from, to)))
                        }
                    },
                },
            },
        }
    }

    /// The siblings of a planned reorder that get another position, in row order.
    pub open spec fn shifts(self, id: NodeId, parent: NodeId, from: int, to: int, n: int) -> Seq<
        SiblingShift,
    >
        decreases n,
    {
        if n <= 0 {
            Seq::empty()
        } else {
            let before = self.shifts(id, parent, from, to, n - 1);
            let sibling = self.nodes[n - 1];
            let order = as_order(
                moved_rank(sibling_rank(self.nodes, sibling) as int, from, to) as nat,
            );
            if sibling.parent_id == Some(parent) && sibling.id != id && sibling.sibling_order
                != order {
                before.push(SiblingShift { node_id: sibling.id, sibling_order: order })
            } else {
                before
            }
        }
    }
}

fn new_rank(rank: usize, from: usize, to: usize) -> (moved: usize)
    requires
        rank < usize::MAX,
    ensures
        moved == moved_rank(rank as int, from as int, to as int),
{
    if rank == from {
        to
    } else if from < rank && rank <= to {
        rank - 1
    } else if to <= rank && rank < from {
        rank + 1
    } else {
        rank
    }
}

fn find_hash(hashes: &Vec<SiblingHash>, id: NodeId) -> (found: Option<NodeHash>)
    ensures
        found == hash_for(hashes@, id, hashes@.len() as int),
{
    let mut i: usize = hashes.len();
    while i > 0
        invariant
            i <= hashes.len(),
            hash_for(hashes@, id, hashes@.len() as int) == hash_for(hashes@, id, i as int),
        decreases i,
    {
        i = i - 1;
        if hashes[i].node_id == id {
            return Some(hashes[i].revision_hash);
        }
    }
    None
}

/// A node is never counted before itself, so its rank leaves room.
proof fn lemma_rank_bound(nodes: Seq<Node>, parent: Option<NodeId>, node: Node, i: int, n: int)
    requires
        0 <= n <= nodes.len(),
        0 <= i < nodes.len(),
        nodes[i] == node,
    ensures
        count_before(nodes, parent, node, n) <= n,
        i < n ==> count_before(nodes, parent, node, n) < n,
    decreases n,
{
    if n > 0 {
        lemma_rank_bound(nodes, parent, node, i, n - 1);
    }
}

proof fn lemma_child_counted(nodes: Seq<Node>, parent: NodeId, i: int, n: int)
    requires
        0 <= i < n <= nodes.len(),
        nodes[i].parent_id == Some(parent),
    ensures
        child_count(nodes, parent, n) >= 1,
    decreases n,
{
    if i < n - 1 {
        lemma_child_counted(nodes, parent, i, n - 1);
    }
}

impl SqliteStore {
    /// Checks a reorder: the parent, the present rank and the new one, or
    /// nothing if the node already stands there.
    fn plan_reorder(&self, change: &NodeChange<'_>) -> (result: Result<
        Option<(NodeId, usize, usize)>,
        StoreError,
    >)
        requires
            unique_ids(self@.nodes),
        ensures
            match self@.reorder_plan(*change.node, change.expected_version, change.revision@) {
                Err(e) => result is Err && result->Err_0@ == e,
                Ok(None) => result is Ok && result->Ok_0 is None,
                Ok(Some((parent, from, to))) => 0 <= from <= usize::MAX && 0 <= to <= usize::MAX
                    && result == Ok::<Option<(NodeId, usize, usize)>, StoreError>(
                    Some((parent, from as usize, to as usize)),
                ),
            },
    {
        let i: usize = match find(&self.nodes, change.node.id) {
            Some(i) => i,
            None => {
                return Err(crate::model::not_found(change.node.id));
            },
        };
        let current = &self.nodes[i];
        check_version(current, change.expected_version)?;
        let parent: NodeId = match current.parent_id {
            Some(parent) => parent,
            None => {
                return Err(broken("root cannot be reordered"));
            },
        };
        if !same_id(change.node.parent_id, Some(parent)) {
            return Err(broken("reorder cannot change a node's parent"));
        }
        validate_next_revision(change)?;
        let from = rank_of(&self.nodes, current.parent_id, current);
        let count = count_children(&self.nodes, parent);
        proof {
            lemma_child_counted(self@.nodes, parent, i as int, self@.nodes.len() as int);
        }
        let order: u32 = change.node.sibling_order;
        let to: usize = if (order as u64) < (count - 1) as u64 {
            order as usize
        } else {
            count - 1
        };
        if from == to {
            return Ok(None);
        }
        if order as u64 != to as u64 {
            return Err(broken("reorder position exceeds the last sibling index"));
        }
        Ok(Some((parent, from, to)))
    }

    /// The siblings that a reorder gives another position; the caller supplies
    /// their revision hashes at those positions.
    pub fn reorder_shifts(&self, change: NodeChange<'_>) -> (result: Result<
        Vec<SiblingShift>,
        StoreError,
    >)
        requires
            unique_ids(self@.nodes),
        ensures
            match self@.reorder_plan(*change.node, change.expected_version, change.revision@) {
                Err(e) => result is Err && result->Err_0@ == e,
                Ok(None) => result is Ok && result->Ok_0@.len() == 0,
                Ok(Some((parent, from, to))) => result is Ok && result->Ok_0@ == self@.shifts(
                    change.node.id,
                    parent,
                    from,
                    to,
                    self@.nodes.len() as int,
                ),
            },
    {
        let mut shifts: Vec<SiblingShift> = Vec::new();
        let plan = self.plan_reorder(&change)?;
        match plan {
            None => {},
            Some((parent, from, to)) => {
                let mut i: usize = 0;
                while i < self.nodes.len()
                    invariant
                        i <= self.nodes.len(),
                        shifts@ == self@.shifts(
                            change.node.id,
                            parent,
                            from as int,
                            to as int,
                            i as int,
                        ),
                    decreases self.nodes.len() - i,
                {
                    let sibling = &self.nodes[i];
                    if same_id(sibling.parent_id, Some(parent)) && sibling.id != change.node.id {
                        let rank = rank_of(&self.nodes, sibling.parent_id, sibling);
                        proof {
                            lemma_rank_bound(
                                self@.nodes,
                                sibling.parent_id,
                                *sibling,
                                i as int,
                                self@.nodes.len() as int,
                            );
                        }
                        let order: u32 = to_order(new_rank(rank, from, to));
                        if sibling.sibling_order != order {
                            shifts.push(
                                SiblingShift { node_id: sibling.id, sibling_order: order },
                            );
                        }
                    }
                    i = i + 1;
                }
            },
        }
        Ok(shifts)
    }

    /// Reorders with the same versioned atomic contract: the node takes the
    /// requested position and every sibling that has to make room gets a
    /// revision of its own.
    pub fn reorder_node(
        &mut self,
        change: NodeChange<'_>,
        hashes: &Vec<SiblingHash>,
    ) -> (result: Result<MutationOutcome, StoreError>)
        requires
            unique_ids(old(self)@.nodes),
            old(self)@.bounded_versions(),
        ensures
            match old(self)@.reorder(
                *change.node,
                change.expected_version,
                change.revision@,
                *change.derived,
                hashes@,
            ) {
                Ok((t, outcome)) => result == Ok::<MutationOutcome, StoreError>(outcome)
                    && final(self)@ == t,
                Err(e) => result is Err && result->Err_0@ == e && final(self)@ == old(self)@,
            },
    {
        let plan = self.plan_reorder(&change)?;
        let (parent, from, to) = match plan {
            None => {
                return Ok(MutationOutcome::NoOp);
            },
            Some(plan) => plan,
        };
        let ghost r = Reorder {
            node: *change.node,
            expected: change.expected_version,
            revision: change.revision@,
            derived: *change.derived,
            parent,
            from: from as int,
            to: to as int,
            hashes: hashes@,
        };
        let ghost nodes = self@.nodes;
        let ghost step = |t: Tables, i: int| t.reorder_row(nodes, r, i);
        let ghost n = nodes.len() as int;
        let mut next = self.copy();
        let mut i: usize = 0;
        while i < self.nodes.len()
            invariant
                i <= self.nodes.len(),
                nodes == self@.nodes,
                n == nodes.len(),
                *self == *old(self),
                self@.bounded_versions(),
                unique_ids(next@.nodes),
                step == (|t: Tables, i: int| t.reorder_row(nodes, r, i)),
                r == (Reorder {
                    node: *change.node,
                    expected: change.expected_version,
                    revision: change.revision@,
                    derived: *change.derived,
                    parent,
                    from: from as int,
                    to: to as int,
                    hashes: hashes@,
                }),
                self@.reorder_plan(*change.node, change.expected_version, change.revision@)
                    == Ok::<Option<(NodeId, int, int)>, Refusal>(
                    Some((parent, from as int, to as int)),
                ),
                run(self@, i as int, step) == Ok::<Tables, Refusal>(next@),
            decreases self.nodes.len() - i,
        {
            let sibling = &self.nodes[i];
            assert(run(self@, i + 1, step) == next@.reorder_row(nodes, r, i as int));
            proof {
                if run(self@, i + 1, step) is Err {
                    lemma_run_refused(self@, i + 1, n, step);
                }
            }
            let outcome = next.reorder_one(sibling, &self.nodes, i, &change, parent, from, to, hashes);
            match outcome {
                Ok(_) => {},
                Err(e) => {
                    return Err(e);
                },
            }
            i = i + 1;
        }
        next.advance();
        *self = next;
        Ok(MutationOutcome::Applied)
    }

    /// Applies a reorder to one row; on failure the tables are left part-way.
    fn reorder_one(
        &mut self,
        sibling: &Node,
        nodes: &Vec<Node>,
        i: usize,
        change: &NodeChange<'_>,
        parent: NodeId,
        from: usize,
        to: usize,
        hashes: &Vec<SiblingHash>,
    ) -> (result: Result<(), StoreError>)
        requires
            unique_ids(old(self)@.nodes),
            i < nodes.len(),
            *sibling == nodes@[i as int],
            storable(sibling.version),
        ensures
            result is Ok ==> unique_ids(final(self)@.nodes),
            match old(self)@.reorder_row(
                nodes@,
                (Reorder {
                    node: *change.node,
                    expected: change.expected_version,
                    revision: change.revision@,
                    derived: *change.derived,
                    parent,
                    from: from as int,
                    to: to as int,
                    hashes: hashes@,
                }),
                i as int,
            ) {
                Ok(t) => result is Ok && final(self)@ == t,
                Err(e) => result is Err && result->Err_0@ == e,
            },
    {
        if !same_id(sibling.parent_id, Some(parent)) {
            return Ok(());
        }
        proof {
            lemma_updates_keep_ids(self@);
        }
        if sibling.id == change.node.id {
            proof {
                if self@.write(
                    *change.node,
                    change.expected_version,
                    change.revision@,
                    *change.derived,
                ) is Ok {
                    lemma_write_nodes(
                        self@,
                        *change.node,
                        change.expected_version,
                        change.revision@,
                        *change.derived,
                    );
                }
            }
            return self.write(change);
        }
        let rank = rank_of(nodes, sibling.parent_id, sibling);
        proof {
            lemma_rank_bound(
                nodes@,
                sibling.parent_id,
                *sibling,
                i as int,
                nodes@.len() as int,
            );
        }
        let order: u32 = to_order(new_rank(rank, from, to));
        if sibling.sibling_order == order {
            return Ok(());
        }
        match find_hash(hashes, sibling.id) {
            None => Err(invalid_data("sibling revision hash")),
            Some(hash) => {
                let (node, revision) = reordered_sibling(sibling, order, hash, change.revision);
                self.update_row(&node, sibling.version)?;
                self.insert_revision(&revision)
            },
        }
    }
}

/// Storing a node's new state changes no node row but its own.
pub proof fn lemma_write_nodes(
    t: Tables,
    node: Node,
    expected: u64,
    revision: RevisionView,
    derived: DerivedNodeRecords,
)
    requires
        t.write(node, expected, revision, derived) is Ok,
    ensures
        t.update_node(node, expected) is Ok,
        t.write(node, expected, revision, derived)->Ok_0.nodes == t.update_node(
            node,
            expected,
        )->Ok_0.nodes,
{
    let u = t.update_node(node, expected)->Ok_0.insert_revision(revision)->Ok_0;
    lemma_derived_nodes(u, node.id, derived);
}

/// Replacing derived records changes no node row and no revision.
pub proof fn lemma_derived_nodes(t: Tables, id: NodeId, derived: DerivedNodeRecords)
    requires
        t.replace_derived(id, derived) is Ok,
    ensures
        t.replace_derived(id, derived)->Ok_0.nodes == t.nodes,
        t.replace_derived(id, derived)->Ok_0.revisions == t.revisions,
        t.replace_derived(id, derived)->Ok_0.receipts == t.receipts,
        t.replace_derived(id, derived)->Ok_0.revision == t.revision,
{
    let cleared = Tables {
        references: t.references.filter(
            |r: crate::tables::RowView| !crate::tables::is_extracted(r.reference, id),
        ),
        sections: t.sections.filter(
            |s: std::sync::Arc<crate::model::Section>| s.node_id != id,
        ),
        fts: t.fts.filter(|f: crate::fts::FtsRowView| f.document.node_id != id),
        ..t
    };
    lemma_references_nodes(
        cleared,
        crate::tables::reference_views(derived.references@),
        derived.references@.len() as int,
    );
}

/// Inserting references changes no other table.
pub proof fn lemma_references_nodes(
    t: Tables,
    references: Seq<crate::model::ReferenceView>,
    n: int,
)
    requires
        t.insert_references(references, n) is Ok,
    ensures
        t.insert_references(references, n)->Ok_0.nodes == t.nodes,
        t.insert_references(references, n)->Ok_0.revisions == t.revisions,
        t.insert_references(references, n)->Ok_0.sections == t.sections,
        t.insert_references(references, n)->Ok_0.fts == t.fts,
        t.insert_references(references, n)->Ok_0.receipts == t.receipts,
        t.insert_references(references, n)->Ok_0.revision == t.revision,
    decreases n,
{
    if n > 0 {
        lemma_references_nodes(t, references, n - 1);
    }
}

/// Updating a row keeps identities unique.
pub proof fn lemma_updates_keep_ids(t: Tables)
    requires
        unique_ids(t.nodes),
    ensures
        forall|node: Node, expected: u64|
            (#[trigger] t.update_node(node, expected)) matches Ok(u) ==> unique_ids(u.nodes),
{
    assert forall|node: Node, expected: u64| (#[trigger] t.update_node(node, expected)) matches Ok(
        u,
    ) implies unique_ids(t.update_node(node, expected)->Ok_0.nodes) by {
        if t.update_node(node, expected) is Ok {
            let i = position(t.nodes, node.id);
            assert(t.nodes[i].id == node.id);
            crate::shape::lemma_rewrite(
                t.nodes,
                i,
                Node { created_at: t.nodes[i].created_at, ..node },
            );
        }
    }
}

} // verus!
