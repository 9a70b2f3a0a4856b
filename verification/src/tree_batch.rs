//! Unrelated moves and removals planned or applied as one.

use crate::edits::{contains_id, is_flagged, subtree_flags};
use crate::model::{broken, broken_for, invalid_data, Node, NodeId, Refusal, StoreError};
use crate::mutate::{
    accepts, check_version, first_refusal, lemma_first_refusal, lemma_run_refused, parent_accepts,
    run, version_refusal, PreparedNodeMutation,
};
use crate::removal::count_where;
use crate::tables::{SqliteStore, Tables};
use crate::text::decimal;
use crate::tree::{
    below, climb, ends, find, is_forest, lemma_position, lemma_revisit_never_ends, links, lookup,
    node_at, position, present, unique_ids,
};
use vstd::prelude::*;

verus! {

/// One fully prepared move in an atomic tree batch.
#[derive(Debug)]
pub struct AtomicTreeMove {
    /// Fully assembled new canonical state for the moved root.
    pub prepared: PreparedNodeMutation,
    /// Version observed before planning the move.
    pub expected_version: u64,
}

/// One guarded removal in an atomic tree batch.
#[derive(Clone, Copy, Debug, PartialEq, Eq, Structural)]
pub struct AtomicTreeRemoval {
    /// Root of the subtree to remove.
    pub node_id: NodeId,
    /// Version observed before planning the removal.
    pub expected_version: u64,
}

/// Planned or applied focused tree-batch result.
#[derive(Debug)]
pub struct AtomicTreeBatchResult {
    /// `planned` for dry runs and `applied` after commit.
    pub status: String,
    /// Moved roots in request order.
    pub moved_node_ids: Vec<NodeId>,
    /// Removed subtree roots in request order.
    pub removed_root_ids: Vec<NodeId>,
    /// Total nodes covered by all removed subtrees.
    pub removed_node_count: u32,
}

/// The state word of a batch result.
pub open spec fn status_text(dry_run: bool) -> Seq<char> {
    if dry_run {
        "planned"@
    } else {
        "applied"@
    }
}

/// The state word of a batch result.
pub fn status_of(dry_run: bool) -> (status: String)
    ensures
        status@ == status_text(dry_run),
{
    if dry_run {
        "planned".to_owned()
    } else {
        "applied".to_owned()
    }
}

pub open spec fn moved_id(moves: Seq<AtomicTreeMove>, i: int) -> NodeId {
    moves[i].prepared.node.id
}

pub open spec fn destination(moves: Seq<AtomicTreeMove>, i: int) -> NodeId {
    moves[i].prepared.node.parent_id->0
}

/// Whether one of the first `n` moves concerns the node.
pub open spec fn is_moved(moves: Seq<AtomicTreeMove>, id: NodeId, n: int) -> bool {
    exists|j: int| 0 <= j < n && #[trigger] moved_id(moves, j) == id
}

/// The parent links after the first `n` moves.
pub open spec fn moved_links(
    up: Map<NodeId, NodeId>,
    moves: Seq<AtomicTreeMove>,
    n: int,
) -> Map<NodeId, NodeId>
    decreases n,
{
    if n <= 0 {
        up
    } else {
        moved_links(up, moves, n - 1).insert(moved_id(moves, n - 1), destination(moves, n - 1))
    }
}

/// Whether one of the first `n` removals takes the node away.
pub open spec fn takes(
    nodes: Seq<Node>,
    removals: Seq<AtomicTreeRemoval>,
    id: NodeId,
    n: int,
) -> bool {
    exists|j: int| 0 <= j < n && below(links(nodes), #[trigger] removals[j].node_id, id)
}

/// A request for one atomic tree batch.
pub struct TreeBatch {
    pub moves: Seq<AtomicTreeMove>,
    pub removals: Seq<AtomicTreeRemoval>,
}

impl TreeBatch {
    pub open spec fn size(self) -> nat {
        self.moves.len() + self.removals.len()
    }

    /// Why the `i`-th move cannot stand on its own.
    pub open spec fn move_refusal(self, nodes: Seq<Node>, i: int) -> Option<Refusal> {
        let node = self.moves[i].prepared.node;
        if is_moved(self.moves, node.id, i) {
            Some(Refusal::Invariant("node appears more than once in tree batch: "@ + node.id.text()))
        } else {
            match lookup(nodes, node.id) {
                None => Some(Refusal::NotFound(node.id.text())),
                Some(current) => if current.parent_id is None {
                    Some(Refusal::Invariant("workspace root cannot be moved"@))
                } else {
                    match version_refusal(current, self.moves[i].expected_version) {
                        Some(e) => Some(e),
                        None => match node.parent_id {
                            None => Some(
                                Refusal::Invariant("moved node requires a destination parent"@),
                            ),
                            Some(parent) => match lookup(nodes, parent) {
                                None => Some(Refusal::NotFound(parent.text())),
                                Some(p) => if accepts(p, node) {
                                    None
                                } else {
                                    Some(
                                        Refusal::Invariant(
                                            "destination parent does not accept moved node type"@,
                                        ),
                                    )
                                },
                            },
                        },
                    }
                },
            }
        }
    }

    /// Whether the subtree of `id` shares a node with one of the first `n`
    /// removed subtrees.
    pub open spec fn overlaps(self, nodes: Seq<Node>, id: NodeId, n: int) -> bool {
        exists|k: int|
            0 <= k < nodes.len() && below(links(nodes), id, (#[trigger] nodes[k]).id)
                && takes(nodes, self.removals, nodes[k].id, n)
    }

    /// Why the `i`-th removal cannot stand.
    pub open spec fn removal_refusal(self, nodes: Seq<Node>, i: int) -> Option<Refusal> {
        let removal = self.removals[i];
        if is_moved(self.moves, removal.node_id, self.moves.len() as int) || exists|j: int|
            0 <= j < i && #[trigger] self.removals[j].node_id == removal.node_id {
            Some(
                Refusal::Invariant(
                    "node appears more than once in tree batch: "@ + removal.node_id.text(),
                ),
            )
        } else {
            match lookup(nodes, removal.node_id) {
                None => Some(Refusal::NotFound(removal.node_id.text())),
                Some(current) => if current.parent_id is None {
                    Some(Refusal::Invariant("workspace root cannot be removed"@))
                } else {
                    match version_refusal(current, removal.expected_version) {
                        Some(e) => Some(e),
                        None => if self.overlaps(nodes, removal.node_id, i) {
                            Some(Refusal::Invariant("removal subtrees overlap in tree batch"@))
                        } else {
                            None
                        },
                    }
                },
            }
        }
    }

    /// Why the `i`-th move conflicts with the rest of the batch.
    pub open spec fn relation_refusal(self, nodes: Seq<Node>, i: int) -> Option<Refusal> {
        let up = links(nodes);
        let id = moved_id(self.moves, i);
        let n = self.removals.len() as int;
        if exists|j: int|
            i < j < self.moves.len() && (below(up, id, #[trigger] moved_id(self.moves, j)) || below(
                up,
                moved_id(self.moves, j),
                id,
            )) {
            Some(Refusal::Invariant("move subtrees must be unrelated"@))
        } else if takes(nodes, self.removals, id, n) || takes(nodes, self.removals, destination(self.moves, i), n) {
            Some(Refusal::Invariant("moves cannot originate in or target a removed subtree"@))
        } else {
            None
        }
    }

    /// Why the `i`-th move would close a cycle.
    pub open spec fn cycle_refusal(self, nodes: Seq<Node>, i: int) -> Option<Refusal> {
        let after = moved_links(links(nodes), self.moves, self.moves.len() as int);
        if ends(after, moved_id(self.moves, i)) {
            None
        } else {
            Some(Refusal::Invariant("tree batch moves would create a cycle"@))
        }
    }

    /// Number of nodes that the removals take away.
    pub open spec fn removed_count(self, nodes: Seq<Node>) -> nat {
        count_where(
            nodes,
            |n: Node| takes(nodes, self.removals, n.id, self.removals.len() as int),
            nodes.len() as int,
        )
    }

    /// Why the batch is refused.
    pub open spec fn refusal(self, nodes: Seq<Node>) -> Option<Refusal> {
        let m = self.moves.len() as int;
        if self.size() == 0 || self.size() > 50 {
            Some(
                Refusal::InvalidData(
                    "tree batch operation count "@ + decimal(self.size())
                        + " is outside 1..=50"@,
                ),
            )
        } else if let Some(e) = first_refusal(m, |i: int| self.move_refusal(nodes, i)) {
            Some(e)
        } else if let Some(e) = first_refusal(
            self.removals.len() as int,
            |i: int| self.removal_refusal(nodes, i),
        ) {
            Some(e)
        } else if let Some(e) = first_refusal(m, |i: int| self.relation_refusal(nodes, i)) {
            Some(e)
        } else if let Some(e) = first_refusal(m, |i: int| self.cycle_refusal(nodes, i)) {
            Some(e)
        } else if self.removed_count(nodes) > u32::MAX {
            Some(Refusal::InvalidData("removed node count"@))
        } else {
            None
        }
    }

    /// Whether the children of `parent` are renumbered: it lost or gained one.
    pub open spec fn affects(self, nodes: Seq<Node>, parent: NodeId) -> bool {
        ||| exists|i: int|
            0 <= i < self.moves.len() && (node_at(
                nodes,
                #[trigger] moved_id(self.moves, i),
            ).parent_id == Some(parent) || destination(self.moves, i) == parent)
        ||| exists|i: int|
            0 <= i < self.removals.len() && node_at(
                nodes,
                #[trigger] self.removals[i].node_id,
            ).parent_id == Some(parent)
    }

    pub open spec fn move_step(self) -> spec_fn(Tables, int) -> Result<Tables, Refusal> {
        |t: Tables, i: int|
            t.write(
                self.moves[i].prepared.node,
                self.moves[i].expected_version,
                self.moves[i].prepared.revision@,
                self.moves[i].prepared.derived,
            )
    }

    /// The tables after the first `n` removals.
    pub open spec fn removed(self, t: Tables, n: int) -> Tables
        decreases n,
    {
        if n <= 0 {
            t
        } else {
            self.removed(t, n - 1).remove_below(self.removals[n - 1].node_id)
        }
    }

    /// The tables after the moves, then the removals, then the renumbering, with the
    /// contexts of the affected parents renewed.
    pub open spec fn apply(self, t: Tables) -> Result<Tables, Refusal> {
        match run(t, self.moves.len() as int, self.move_step()) {
            Err(e) => Err(e),
            Ok(u) => Ok(
                self.removed(u, self.removals.len() as int).renumber(
                    |p: NodeId| self.affects(t.nodes, p),
                ).refresh(|p: NodeId| self.affects(t.nodes, p)),
            ),
        }
    }
}

/// Number of distinct existing nodes is at most the number of rows.
pub proof fn lemma_distinct_bounded(nodes: Seq<Node>, ids: Seq<NodeId>)
    requires
        ids.no_duplicates(),
        forall|i: int| 0 <= i < ids.len() ==> present(nodes, #[trigger] ids[i]),
    ensures
        ids.len() <= nodes.len(),
{
    let places = Seq::new(ids.len(), |i: int| position(nodes, ids[i]));
    assert(places.no_duplicates()) by {
        assert forall|i: int, j: int|
            0 <= i < places.len() && 0 <= j < places.len() && i != j implies places[i]
            != places[j] by {
            assert(nodes[position(nodes, ids[i])].id == ids[i]);
            assert(nodes[position(nodes, ids[j])].id == ids[j]);
        }
    }
    places.unique_seq_to_set();
    let range = vstd::set_lib::set_int_range(0, nodes.len() as int);
    vstd::set_lib::lemma_int_range(0, nodes.len() as int);
    assert(places.to_set().subset_of(range)) by {
        assert forall|p: int| places.to_set().contains(p) implies range.contains(p) by {
            let i = choose|i: int| 0 <= i < places.len() && places[i] == p;
            assert(nodes[position(nodes, ids[i])].id == ids[i]);
        }
    }
    vstd::set_lib::lemma_len_subset(places.to_set(), range);
}

/// The destination of the last of the first `n` moves of the node.
fn moved_parent(nodes: &Vec<Node>, moves: &Vec<AtomicTreeMove>, id: NodeId) -> (parent: Option<
    NodeId,
>)
    requires
        unique_ids(nodes@),
        forall|j: int| 0 <= j < moves.len() ==> (#[trigger] moves@[j]).prepared.node.parent_id is Some,
    ensures
        parent == {
            let after = moved_links(links(nodes@), moves@, moves@.len() as int);
            if after.contains_key(id) {
                Some(after[id])
            } else {
                None
            }
        },
{
    let ghost up = links(nodes@);
    let ghost after = moved_links(up, moves@, moves@.len() as int);
    let mut i: usize = moves.len();
    while i > 0
        invariant
            i <= moves.len(),
            up == links(nodes@),
            after == moved_links(up, moves@, moves@.len() as int),
            forall|j: int|
                0 <= j < moves.len() ==> (#[trigger] moves@[j]).prepared.node.parent_id is Some,
            after.contains_key(id) <==> moved_links(up, moves@, i as int).contains_key(id),
            after.contains_key(id) ==> after[id] == moved_links(up, moves@, i as int)[id],
        decreases i,
    {
        i = i - 1;
        if moves[i].prepared.node.id == id {
            assert(moved_id(moves@, i as int) == id);
            return moves[i].prepared.node.parent_id;
        }
    }
    match find(nodes, id) {
        Some(p) => nodes[p].parent_id,
        None => None,
    }
}

impl SqliteStore {
    fn check_move(
        &self,
        moves: &Vec<AtomicTreeMove>,
        removals: &Vec<AtomicTreeRemoval>,
        i: usize,
    ) -> (result: Result<(), StoreError>)
        requires
            unique_ids(self@.nodes),
            i < moves.len(),
        ensures
            match (TreeBatch { moves: moves@, removals: removals@ }).move_refusal(
                self@.nodes,
                i as int,
            ) {
                None => result is Ok,
                Some(e) => result is Err && result->Err_0@ == e,
            },
    {
        let node = &moves[i].prepared.node;
        let mut j: usize = 0;
        while j < i
            invariant
                j <= i < moves.len(),
                node == &moves@[i as int].prepared.node,
                forall|k: int| 0 <= k < j ==> #[trigger] moved_id(moves@, k) != node.id,
            decreases i - j,
        {
            if moves[j].prepared.node.id == node.id {
                assert(moved_id(moves@, j as int) == node.id);
                return Err(broken_for("node appears more than once in tree batch: ", node.id));
            }
            j = j + 1;
        }
        let current = self.require(node.id)?;
        if current.is_root() {
            return Err(broken("workspace root cannot be moved"));
        }
        check_version(&current, moves[i].expected_version)?;
        match node.parent_id {
            None => Err(broken("moved node requires a destination parent")),
            Some(parent) => {
                let target = self.require(parent)?;
                if parent_accepts(&target, node) {
                    Ok(())
                } else {
                    Err(broken("destination parent does not accept moved node type"))
                }
            },
        }
    }

    /// For each row, whether one of the first `n` removals takes it away.
    fn removed_flags(&self, removals: &Vec<AtomicTreeRemoval>, n: usize) -> (flags: Vec<bool>)
        requires
            unique_ids(self@.nodes),
            n <= removals.len(),
        ensures
            flags.len() == self.nodes.len(),
            forall|k: int|
                0 <= k < flags.len() ==> #[trigger] flags@[k] == takes(
                    self@.nodes,
                    removals@,
                    self@.nodes[k].id,
                    n as int,
                ),
    {
        let mut flags: Vec<bool> = Vec::new();
        let mut k: usize = 0;
        while k < self.nodes.len()
            invariant
                k <= self.nodes.len(),
                flags.len() == k,
                forall|m: int| 0 <= m < k ==> !#[trigger] flags@[m],
            decreases self.nodes.len() - k,
        {
            flags.push(false);
            k = k + 1;
        }
        let ghost up = links(self@.nodes);
        let mut j: usize = 0;
        while j < n
            invariant
                j <= n <= removals.len(),
                unique_ids(self@.nodes),
                up == links(self@.nodes),
                flags.len() == self.nodes.len(),
                forall|m: int|
                    0 <= m < flags.len() ==> #[trigger] flags@[m] == exists|r: int|
                        0 <= r < j && below(
                            up,
                            #[trigger] removals@[r].node_id,
                            self@.nodes[m].id,
                        ),
            decreases n - j,
        {
            let inside = subtree_flags(&self.nodes, removals[j].node_id);
            let ghost before = flags@;
            let mut q: usize = 0;
            while q < self.nodes.len()
                invariant
                    q <= self.nodes.len(),
                    j < n <= removals.len(),
                    up == links(self@.nodes),
                    flags.len() == self.nodes.len(),
                    before.len() == flags.len(),
                    inside.len() == self.nodes.len(),
                    forall|m: int|
                        0 <= m < inside.len() ==> #[trigger] inside@[m] == below(
                            up,
                            removals@[j as int].node_id,
                            self@.nodes[m].id,
                        ),
                    forall|m: int| 0 <= m < q ==> #[trigger] flags@[m] == (before[m] || inside@[m]),
                    forall|m: int| q <= m < flags.len() ==> #[trigger] flags@[m] == before[m],
                decreases self.nodes.len() - q,
            {
                if inside[q] {
                    flags.set(q, true);
                }
                q = q + 1;
            }
            proof {
                assert forall|m: int| 0 <= m < flags.len() implies #[trigger] flags@[m] == exists|
                    r: int,
                |
                    0 <= r < j + 1 && below(
                        up,
                        #[trigger] removals@[r].node_id,
                        self@.nodes[m].id,
                    ) by {
                    assert(flags@[m] == (before[m] || inside@[m]));
                    if inside@[m] {
                        assert(below(up, removals@[j as int].node_id, self@.nodes[m].id));
                    }
                }
            }
            j = j + 1;
        }
        flags
    }

    fn check_removal(
        &self,
        moves: &Vec<AtomicTreeMove>,
        removals: &Vec<AtomicTreeRemoval>,
        i: usize,
    ) -> (result: Result<(), StoreError>)
        requires
            unique_ids(self@.nodes),
            i < removals.len(),
        ensures
            match (TreeBatch { moves: moves@, removals: removals@ }).removal_refusal(
                self@.nodes,
                i as int,
            ) {
                None => result is Ok,
                Some(e) => result is Err && result->Err_0@ == e,
            },
    {
        let ghost batch = TreeBatch { moves: moves@, removals: removals@ };
        let removal = removals[i];
        let mut repeated: bool = false;
        let mut j: usize = 0;
        while j < moves.len()
            invariant
                j <= moves.len(),
                repeated <==> is_moved(moves@, removal.node_id, j as int),
            decreases moves.len() - j,
        {
            if moves[j].prepared.node.id == removal.node_id {
                assert(moved_id(moves@, j as int) == removal.node_id);
                repeated = true;
            }
            j = j + 1;
        }
        let ghost among_moves = repeated;
        let mut k: usize = 0;
        while k < i
            invariant
                k <= i < removals.len(),
                repeated <==> among_moves || exists|m: int|
                    0 <= m < k && #[trigger] removals@[m].node_id == removal.node_id,
            decreases i - k,
        {
            if removals[k].node_id == removal.node_id {
                assert(removals@[k as int].node_id == removal.node_id);
                repeated = true;
            }
            k = k + 1;
        }
        if repeated {
            return Err(
                broken_for("node appears more than once in tree batch: ", removal.node_id),
            );
        }
        let current = self.require(removal.node_id)?;
        if current.is_root() {
            return Err(broken("workspace root cannot be removed"));
        }
        check_version(&current, removal.expected_version)?;
        let taken = self.removed_flags(removals, i);
        let own = subtree_flags(&self.nodes, removal.node_id);
        let mut q: usize = 0;
        while q < self.nodes.len()
            invariant
                q <= self.nodes.len(),
                batch == (TreeBatch { moves: moves@, removals: removals@ }),
                taken.len() == self.nodes.len(),
                own.len() == self.nodes.len(),
                forall|m: int|
                    0 <= m < own.len() ==> #[trigger] own@[m] == below(
                        links(self@.nodes),
                        removal.node_id,
                        self@.nodes[m].id,
                    ),
                forall|m: int|
                    0 <= m < taken.len() ==> #[trigger] taken@[m] == takes(
                        self@.nodes,
                        removals@,
                        self@.nodes[m].id,
                        i as int,
                    ),
                forall|m: int| 0 <= m < q ==> !(#[trigger] own@[m] && taken@[m]),
                lookup(self@.nodes, removal.node_id) == Some(current),
                current.parent_id is Some,
                version_refusal(current, removal.expected_version) is None,
                i < removals.len(),
                removal == removals@[i as int],
                !(is_moved(moves@, removal.node_id, moves@.len() as int) || exists|j: int|
                    0 <= j < i && #[trigger] removals@[j].node_id == removal.node_id),
            decreases self.nodes.len() - q,
        {
            if own[q] && taken[q] {
                assert(batch.overlaps(self@.nodes, removal.node_id, i as int)) by {
                    assert(below(links(self@.nodes), removal.node_id, self@.nodes[q as int].id));
                }
                return Err(broken("removal subtrees overlap in tree batch"));
            }
            q = q + 1;
        }
        assert(!batch.overlaps(self@.nodes, removal.node_id, i as int)) by {
            if batch.overlaps(self@.nodes, removal.node_id, i as int) {
                let k = choose|k: int|
                    0 <= k < self@.nodes.len() && below(
                        links(self@.nodes),
                        removal.node_id,
                        (#[trigger] self@.nodes[k]).id,
                    ) && takes(self@.nodes, removals@, self@.nodes[k].id, i as int);
                assert(own@[k] && taken@[k]);
            }
        }
        Ok(())
    }

    fn check_relation(
        &self,
        moves: &Vec<AtomicTreeMove>,
        removals: &Vec<AtomicTreeRemoval>,
        taken: &Vec<bool>,
        i: usize,
    ) -> (result: Result<(), StoreError>)
        requires
            unique_ids(self@.nodes),
            i < moves.len(),
            forall|j: int|
                0 <= j < moves.len() ==> present(self@.nodes, #[trigger] moved_id(moves@, j))
                    && moves@[j].prepared.node.parent_id is Some && present(
                    self@.nodes,
                    destination(moves@, j),
                ),
            taken.len() == self.nodes.len(),
            forall|k: int|
                0 <= k < taken.len() ==> #[trigger] taken@[k] == takes(
                    self@.nodes,
                    removals@,
                    self@.nodes[k].id,
                    removals@.len() as int,
                ),
        ensures
            match (TreeBatch { moves: moves@, removals: removals@ }).relation_refusal(
                self@.nodes,
                i as int,
            ) {
                None => result is Ok,
                Some(e) => result is Err && result->Err_0@ == e,
            },
    {
        let ghost up = links(self@.nodes);
        let id: NodeId = moves[i].prepared.node.id;
        assert(present(self@.nodes, moved_id(moves@, i as int)));
        let own = subtree_flags(&self.nodes, id);
        let mut j: usize = i + 1;
        while j < moves.len()
            invariant
                i < j <= moves.len(),
                unique_ids(self@.nodes),
                up == links(self@.nodes),
                id == moved_id(moves@, i as int),
                present(self@.nodes, id),
                forall|j: int|
                    0 <= j < moves.len() ==> present(self@.nodes, #[trigger] moved_id(moves@, j)),
                own.len() == self.nodes.len(),
                forall|m: int|
                    0 <= m < own.len() ==> #[trigger] own@[m] == below(up, id, self@.nodes[m].id),
                forall|k: int|
                    i < k < j ==> !(below(up, id, #[trigger] moved_id(moves@, k)) || below(
                        up,
                        moved_id(moves@, k),
                        id,
                    )),
            decreases moves.len() - j,
        {
            let other: NodeId = moves[j].prepared.node.id;
            assert(present(self@.nodes, moved_id(moves@, j as int)));
            let contained = is_flagged(&self.nodes, &own, other);
            let above = subtree_flags(&self.nodes, other);
            let containing = is_flagged(&self.nodes, &above, id);
            proof {
                let p = position(self@.nodes, other);
                assert(self@.nodes[p].id == other);
                assert(own@[p] == below(up, id, self@.nodes[p].id));
                let q = position(self@.nodes, id);
                assert(self@.nodes[q].id == id);
                assert(above@[q] == below(up, other, self@.nodes[q].id));
            }
            if contained || containing {
                assert(below(up, id, moved_id(moves@, j as int)) || below(
                    up,
                    moved_id(moves@, j as int),
                    id,
                ));
                return Err(broken("move subtrees must be unrelated"));
            }
            j = j + 1;
        }
        let target: NodeId = moves[i].prepared.node.parent_id.unwrap();
        proof {
            let p = position(self@.nodes, id);
            assert(self@.nodes[p].id == id);
            assert(taken@[p] == takes(
                self@.nodes,
                removals@,
                self@.nodes[p].id,
                removals@.len() as int,
            ));
            let q = position(self@.nodes, target);
            assert(self@.nodes[q].id == target);
            assert(taken@[q] == takes(
                self@.nodes,
                removals@,
                self@.nodes[q].id,
                removals@.len() as int,
            ));
        }
        if is_flagged(&self.nodes, taken, id) || is_flagged(&self.nodes, taken, target) {
            return Err(broken("moves cannot originate in or target a removed subtree"));
        }
        Ok(())
    }

    fn check_cycle(
        &self,
        moves: &Vec<AtomicTreeMove>,
        removals: &Vec<AtomicTreeRemoval>,
        i: usize,
    ) -> (result: Result<(), StoreError>)
        requires
            is_forest(self@.nodes),
            i < moves.len(),
            forall|j: int|
                0 <= j < moves.len() ==> present(self@.nodes, #[trigger] moved_id(moves@, j))
                    && moves@[j].prepared.node.parent_id is Some && present(
                    self@.nodes,
                    destination(moves@, j),
                ),
        ensures
            match (TreeBatch { moves: moves@, removals: removals@ }).cycle_refusal(
                self@.nodes,
                i as int,
            ) {
                None => result is Ok,
                Some(e) => result is Err && result->Err_0@ == e,
            },
    {
        let ghost after = moved_links(links(self@.nodes), moves@, moves@.len() as int);
        let start: NodeId = moves[i].prepared.node.id;
        proof {
            assert(present(self@.nodes, moved_id(moves@, i as int)));
            assert forall|j: int| 0 <= j < moves.len() implies (
            #[trigger] moves@[j]).prepared.node.parent_id is Some by {
                assert(present(self@.nodes, moved_id(moves@, j)));
            }
        }
        let mut visited: Vec<NodeId> = Vec::new();
        visited.push(start);
        let mut cursor: NodeId = start;
        loop
            invariant
                is_forest(self@.nodes),
                after == moved_links(links(self@.nodes), moves@, moves@.len() as int),
                i < moves.len(),
                start == moved_id(moves@, i as int),
                forall|j: int|
                    0 <= j < moves.len() ==> present(self@.nodes, #[trigger] moved_id(moves@, j))
                        && moves@[j].prepared.node.parent_id is Some && present(
                        self@.nodes,
                        destination(moves@, j),
                    ),
                forall|j: int|
                    0 <= j < moves.len() ==> (
                    #[trigger] moves@[j]).prepared.node.parent_id is Some,
                visited.len() > 0,
                visited@.no_duplicates(),
                cursor == visited@.last(),
                forall|k: int|
                    0 <= k < visited.len() ==> climb(after, start, k as nat) == Some(
                        #[trigger] visited@[k],
                    ) && present(self@.nodes, visited@[k]),
            decreases self.nodes.len() - visited.len(),
        {
            proof {
                lemma_distinct_bounded(self@.nodes, visited@);
            }
            match moved_parent(&self.nodes, moves, cursor) {
                None => {
                    assert(climb(after, start, (visited.len() - 1) as nat) == Some(
                        visited@[visited.len() - 1],
                    ));
                    assert(climb(after, start, visited.len() as nat) is None);
                    return Ok(());
                },
                Some(next) => {
                    proof {
                        assert(climb(after, start, (visited.len() - 1) as nat) == Some(
                            visited@[visited.len() - 1],
                        ));
                        assert(climb(after, start, visited.len() as nat) == Some(next));
                        assert forall|j: int| 0 <= j < moves.len() implies present(
                            self@.nodes,
                            #[trigger] destination(moves@, j),
                        ) by {
                            assert(present(self@.nodes, moved_id(moves@, j)));
                        }
                        lemma_moved_link_exists(self@.nodes, moves@, cursor, moves@.len() as int);
                    }
                    if contains_id(&visited, next) {
                        proof {
                            let k = choose|k: int| 0 <= k < visited.len() && visited@[k] == next;
                            assert(climb(after, start, k as nat) == Some(visited@[k]));
                            lemma_revisit_never_ends(
                                after,
                                start,
                                k as nat,
                                visited.len() as nat,
                            );
                        }
                        return Err(broken("tree batch moves would create a cycle"));
                    }
                    proof {
                        lemma_distinct_bounded(self@.nodes, visited@.push(next));
                    }
                    visited.push(next);
                    cursor = next;
                },
            }
        }
    }

    fn check_tree_batch(
        &self,
        moves: &Vec<AtomicTreeMove>,
        removals: &Vec<AtomicTreeRemoval>,
    ) -> (result: Result<u32, StoreError>)
        requires
            is_forest(self@.nodes),
        ensures
            match (TreeBatch { moves: moves@, removals: removals@ }).refusal(self@.nodes) {
                None => result is Ok && result->Ok_0 == (TreeBatch {
                    moves: moves@,
                    removals: removals@,
                }).removed_count(self@.nodes),
                Some(e) => result is Err && result->Err_0@ == e,
            },
    {
        let ghost batch = TreeBatch { moves: moves@, removals: removals@ };
        let ghost nodes = self@.nodes;
        let ghost m = moves@.len() as int;
        let ghost d = removals@.len() as int;
        if moves.len() > 50 || removals.len() > 50 || moves.len() + removals.len() == 0
            || moves.len() + removals.len() > 50 {
            let mut text = "tree batch operation count ".to_owned();
            push_count(&mut text, moves.len(), removals.len());
            text.push_str(" is outside 1..=50");
            return Err(StoreError::InvalidData(text));
        }
        let ghost move_check = |i: int| batch.move_refusal(nodes, i);
        let mut i: usize = 0;
        while i < moves.len()
            invariant
                i <= moves.len(),
                batch == (TreeBatch { moves: moves@, removals: removals@ }),
                nodes == self@.nodes,
                unique_ids(nodes),
                m == moves@.len(),
                1 <= batch.size() <= 50,
                move_check == (|i: int| batch.move_refusal(nodes, i)),
                first_refusal(i as int, move_check) is None,
            decreases moves.len() - i,
        {
            match self.check_move(moves, removals, i) {
                Ok(_) => {},
                Err(e) => {
                    proof {
                        lemma_first_refusal(i + 1, m, move_check);
                    }
                    return Err(e);
                },
            }
            i = i + 1;
        }
        let ghost removal_check = |i: int| batch.removal_refusal(nodes, i);
        let mut j: usize = 0;
        while j < removals.len()
            invariant
                j <= removals.len(),
                batch == (TreeBatch { moves: moves@, removals: removals@ }),
                nodes == self@.nodes,
                unique_ids(nodes),
                m == moves@.len(),
                d == removals@.len(),
                1 <= batch.size() <= 50,
                move_check == (|i: int| batch.move_refusal(nodes, i)),
                first_refusal(m, move_check) is None,
                removal_check == (|i: int| batch.removal_refusal(nodes, i)),
                first_refusal(j as int, removal_check) is None,
            decreases removals.len() - j,
        {
            match self.check_removal(moves, removals, j) {
                Ok(_) => {},
                Err(e) => {
                    proof {
                        lemma_first_refusal(j + 1, d, removal_check);
                    }
                    return Err(e);
                },
            }
            j = j + 1;
        }
        proof {
            assert forall|j: int| 0 <= j < moves.len() implies present(
                nodes,
                #[trigger] moved_id(moves@, j),
            ) && moves@[j].prepared.node.parent_id is Some && present(
                nodes,
                destination(moves@, j),
            ) by {
                lemma_passed(m, move_check, j);
                assert(move_check(j) == batch.move_refusal(nodes, j));
            }
        }
        let taken = self.removed_flags(removals, removals.len());
        let ghost relation_check = |i: int| batch.relation_refusal(nodes, i);
        let mut k: usize = 0;
        while k < moves.len()
            invariant
                k <= moves.len(),
                batch == (TreeBatch { moves: moves@, removals: removals@ }),
                nodes == self@.nodes,
                unique_ids(nodes),
                m == moves@.len(),
                d == removals@.len(),
                1 <= batch.size() <= 50,
                move_check == (|i: int| batch.move_refusal(nodes, i)),
                first_refusal(m, move_check) is None,
                removal_check == (|i: int| batch.removal_refusal(nodes, i)),
                first_refusal(d, removal_check) is None,
                relation_check == (|i: int| batch.relation_refusal(nodes, i)),
                first_refusal(k as int, relation_check) is None,
                taken.len() == self.nodes.len(),
                forall|q: int|
                    0 <= q < taken.len() ==> #[trigger] taken@[q] == takes(
                        nodes,
                        removals@,
                        nodes[q].id,
                        d,
                    ),
                forall|j: int|
                    0 <= j < moves.len() ==> present(nodes, #[trigger] moved_id(moves@, j))
                        && moves@[j].prepared.node.parent_id is Some && present(
                        nodes,
                        destination(moves@, j),
                    ),
            decreases moves.len() - k,
        {
            match self.check_relation(moves, removals, &taken, k) {
                Ok(_) => {},
                Err(e) => {
                    proof {
                        lemma_first_refusal(k + 1, m, relation_check);
                    }
                    return Err(e);
                },
            }
            k = k + 1;
        }
        let ghost cycle_check = |i: int| batch.cycle_refusal(nodes, i);
        let mut c: usize = 0;
        while c < moves.len()
            invariant
                c <= moves.len(),
                batch == (TreeBatch { moves: moves@, removals: removals@ }),
                nodes == self@.nodes,
                is_forest(nodes),
                m == moves@.len(),
                d == removals@.len(),
                1 <= batch.size() <= 50,
                move_check == (|i: int| batch.move_refusal(nodes, i)),
                first_refusal(m, move_check) is None,
                removal_check == (|i: int| batch.removal_refusal(nodes, i)),
                first_refusal(d, removal_check) is None,
                relation_check == (|i: int| batch.relation_refusal(nodes, i)),
                first_refusal(m, relation_check) is None,
                cycle_check == (|i: int| batch.cycle_refusal(nodes, i)),
                first_refusal(c as int, cycle_check) is None,
                forall|j: int|
                    0 <= j < moves.len() ==> present(nodes, #[trigger] moved_id(moves@, j))
                        && moves@[j].prepared.node.parent_id is Some && present(
                        nodes,
                        destination(moves@, j),
                    ),
            decreases moves.len() - c,
        {
            match self.check_cycle(moves, removals, c) {
                Ok(_) => {},
                Err(e) => {
                    proof {
                        lemma_first_refusal(c + 1, m, cycle_check);
                    }
                    return Err(e);
                },
            }
            c = c + 1;
        }
        let ghost gone = |n: Node| takes(nodes, removals@, n.id, d);
        let mut count: usize = 0;
        let mut q: usize = 0;
        while q < self.nodes.len()
            invariant
                q <= self.nodes.len(),
                nodes == self@.nodes,
                gone == (|n: Node| takes(nodes, removals@, n.id, d)),
                taken.len() == self.nodes.len(),
                forall|q: int|
                    0 <= q < taken.len() ==> #[trigger] taken@[q] == takes(
                        nodes,
                        removals@,
                        nodes[q].id,
                        d,
                    ),
                count <= q,
                count == count_where(nodes, gone, q as int),
            decreases self.nodes.len() - q,
        {
            if taken[q] {
                count = count + 1;
            }
            q = q + 1;
        }
        assert(gone =~= (|n: Node| takes(nodes, batch.removals, n.id, batch.removals.len() as int)));
        if count > u32::MAX as usize {
            return Err(invalid_data("removed node count"));
        }
        Ok(count as u32)
    }

    /// Plans or applies unrelated moves and removals in one transaction.
    pub fn apply_atomic_tree_batch(
        &mut self,
        moves: &Vec<AtomicTreeMove>,
        removals: &Vec<AtomicTreeRemoval>,
        dry_run: bool,
    ) -> (result: Result<AtomicTreeBatchResult, StoreError>)
        requires
            is_forest(old(self)@.nodes),
        ensures
            ({
                let batch = TreeBatch { moves: moves@, removals: removals@ };
                match batch.refusal(old(self)@.nodes) {
                    Some(e) => result is Err && result->Err_0@ == e && final(self)@ == old(self)@,
                    None => if dry_run {
                        result is Ok && describes(result->Ok_0, batch, old(self)@.nodes, true)
                            && final(self)@ == old(self)@
                    } else {
                        match batch.apply(old(self)@) {
                            Ok(t) => result is Ok && describes(
                                result->Ok_0,
                                batch,
                                old(self)@.nodes,
                                false,
                            ) && final(self)@ == t.advanced(),
                            Err(e) => result is Err && result->Err_0@ == e && final(self)@ == old(
                                self,
                            )@,
                        }
                    },
                }
            }),
    {
        let ghost batch = TreeBatch { moves: moves@, removals: removals@ };
        let ghost nodes = self@.nodes;
        let removed_node_count: u32 = self.check_tree_batch(moves, removals)?;
        let mut moved_node_ids: Vec<NodeId> = Vec::new();
        let mut i: usize = 0;
        while i < moves.len()
            invariant
                i <= moves.len(),
                moved_node_ids.len() == i,
                forall|k: int| 0 <= k < i ==> #[trigger] moved_node_ids@[k] == moved_id(moves@, k),
            decreases moves.len() - i,
        {
            moved_node_ids.push(moves[i].prepared.node.id);
            i = i + 1;
        }
        let mut removed_root_ids: Vec<NodeId> = Vec::new();
        let mut j: usize = 0;
        while j < removals.len()
            invariant
                j <= removals.len(),
                removed_root_ids.len() == j,
                forall|k: int|
                    0 <= k < j ==> #[trigger] removed_root_ids@[k] == removals@[k].node_id,
            decreases removals.len() - j,
        {
            removed_root_ids.push(removals[j].node_id);
            j = j + 1;
        }
        proof {
            assert(moved_node_ids@ =~= Seq::new(batch.moves.len(), |i: int| moved_id(moves@, i)));
            assert(removed_root_ids@ =~= Seq::new(
                batch.removals.len(),
                |i: int| batch.removals[i].node_id,
            ));
        }
        let outcome = AtomicTreeBatchResult {
            status: status_of(dry_run),
            moved_node_ids,
            removed_root_ids,
            removed_node_count,
        };
        if dry_run {
            return Ok(outcome);
        }
        let affected = self.affected_parents(moves, removals);
        let mut next = self.copy();
        next.apply_moves(moves, removals)?;
        let ghost mid = next@;
        let mut k: usize = 0;
        while k < removals.len()
            invariant
                k <= removals.len(),
                batch == (TreeBatch { moves: moves@, removals: removals@ }),
                unique_ids(next@.nodes),
                next@ == batch.removed(mid, k as int),
            decreases removals.len() - k,
        {
            proof {
                lemma_removal_keeps_ids(next@, removals@[k as int].node_id);
            }
            next.remove_below(removals[k].node_id);
            k = k + 1;
        }
        let ghost uneven = next@;
        next.renumber(&affected);
        proof {
            assert((|p: NodeId| affected@.contains(p)) =~= (|p: NodeId| batch.affects(nodes, p)));
            lemma_renumber_keeps_ids(uneven, |p: NodeId| affected@.contains(p));
        }
        next.refresh_contexts(&affected);
        next.advance();
        *self = next;
        Ok(outcome)
    }

    /// Parents that lose or gain a child.
    fn affected_parents(
        &self,
        moves: &Vec<AtomicTreeMove>,
        removals: &Vec<AtomicTreeRemoval>,
    ) -> (parents: Vec<NodeId>)
        requires
            is_forest(self@.nodes),
            (TreeBatch { moves: moves@, removals: removals@ }).refusal(self@.nodes) is None,
        ensures
            forall|p: NodeId| #[trigger]
                parents@.contains(p) <==> (TreeBatch {
                    moves: moves@,
                    removals: removals@,
                }).affects(self@.nodes, p),
    {
        let ghost nodes = self@.nodes;
        let ghost batch = TreeBatch { moves: moves@, removals: removals@ };
        let mut parents: Vec<NodeId> = Vec::new();
        let mut i: usize = 0;
        while i < moves.len()
            invariant
                i <= moves.len(),
                nodes == self@.nodes,
                is_forest(nodes),
                batch == (TreeBatch { moves: moves@, removals: removals@ }),
                batch.refusal(nodes) is None,
                forall|p: NodeId| #[trigger]
                    parents@.contains(p) <==> exists|k: int|
                        0 <= k < i && (node_at(nodes, #[trigger] moved_id(moves@, k)).parent_id
                            == Some(p) || destination(moves@, k) == p),
            decreases moves.len() - i,
        {
            let ghost before = parents@;
            proof {
                lemma_batch_facts(batch, nodes);
                assert(present(nodes, moved_id(moves@, i as int)));
            }
            let id: NodeId = moves[i].prepared.node.id;
            match find(&self.nodes, id) {
                Some(at) => {
                    let parent: NodeId = self.nodes[at].parent_id.unwrap();
                    let target: NodeId = moves[i].prepared.node.parent_id.unwrap();
                    parents.push(parent);
                    parents.push(target);
                    proof {
                        assert(parents@ =~= before + seq![parent, target]);
                        assert forall|p: NodeId| #[trigger] parents@.contains(p) <==> exists|k: int|
                            0 <= k < i + 1 && (node_at(
                                nodes,
                                #[trigger] moved_id(moves@, k),
                            ).parent_id == Some(p) || destination(moves@, k) == p) by {
                            lemma_two_more(before, parent, target, p);
                            if p == parent || p == target {
                                assert(node_at(nodes, moved_id(moves@, i as int)).parent_id == Some(
                                    p,
                                ) || destination(moves@, i as int) == p);
                            }
                        }
                    }
                },
                None => {
                    assert(false);
                },
            }
            i = i + 1;
        }
        let ghost of_moves = parents@;
        let mut j: usize = 0;
        while j < removals.len()
            invariant
                j <= removals.len(),
                nodes == self@.nodes,
                is_forest(nodes),
                batch == (TreeBatch { moves: moves@, removals: removals@ }),
                batch.refusal(nodes) is None,
                forall|p: NodeId| #[trigger]
                    of_moves.contains(p) <==> exists|k: int|
                        0 <= k < moves.len() && (node_at(
                            nodes,
                            #[trigger] moved_id(moves@, k),
                        ).parent_id == Some(p) || destination(moves@, k) == p),
                forall|p: NodeId| #[trigger]
                    parents@.contains(p) <==> of_moves.contains(p) || exists|k: int|
                        0 <= k < j && node_at(nodes, #[trigger] removals@[k].node_id).parent_id
                            == Some(p),
            decreases removals.len() - j,
        {
            let ghost before = parents@;
            proof {
                lemma_batch_facts(batch, nodes);
                assert(present(nodes, removals@[j as int].node_id));
            }
            match find(&self.nodes, removals[j].node_id) {
                Some(at) => {
                    let parent: NodeId = self.nodes[at].parent_id.unwrap();
                    parents.push(parent);
                    proof {
                        assert forall|p: NodeId| #[trigger] parents@.contains(p)
                            <==> of_moves.contains(p) || exists|k: int|
                            0 <= k < j + 1 && node_at(
                                nodes,
                                #[trigger] removals@[k].node_id,
                            ).parent_id == Some(p) by {
                            lemma_one_more(before, parent, p);
                            if p == parent {
                                assert(node_at(nodes, removals@[j as int].node_id).parent_id
                                    == Some(p));
                            }
                        }
                    }
                },
                None => {
                    assert(false);
                },
            }
            j = j + 1;
        }
        parents
    }

    /// Writes the moved nodes; on failure the tables are left part-way.
    fn apply_moves(
        &mut self,
        moves: &Vec<AtomicTreeMove>,
        removals: &Vec<AtomicTreeRemoval>,
    ) -> (result: Result<(), StoreError>)
        requires
            unique_ids(old(self)@.nodes),
        ensures
            match run(
                old(self)@,
                moves@.len() as int,
                (TreeBatch { moves: moves@, removals: removals@ }).move_step(),
            ) {
                Ok(t) => result is Ok && final(self)@ == t && unique_ids(t.nodes),
                Err(e) => result is Err && result->Err_0@ == e,
            },
    {
        let ghost batch = TreeBatch { moves: moves@, removals: removals@ };
        let ghost step = batch.move_step();
        let ghost start = self@;
        let mut i: usize = 0;
        while i < moves.len()
            invariant
                i <= moves.len(),
                batch == (TreeBatch { moves: moves@, removals: removals@ }),
                step == batch.move_step(),
                start == old(self)@,
                unique_ids(self@.nodes),
                run(start, i as int, step) == Ok::<Tables, Refusal>(self@),
            decreases moves.len() - i,
        {
            let prepared = &moves[i].prepared;
            let change = prepared.change(moves[i].expected_version);
            let ghost before = self@;
            assert(run(start, i + 1, step) == before.write(
                *change.node,
                change.expected_version,
                change.revision@,
                *change.derived,
            ));
            proof {
                crate::reorder::lemma_updates_keep_ids(before);
                if before.write(
                    *change.node,
                    change.expected_version,
                    change.revision@,
                    *change.derived,
                ) is Ok {
                    crate::reorder::lemma_write_nodes(
                        before,
                        *change.node,
                        change.expected_version,
                        change.revision@,
                        *change.derived,
                    );
                } else {
                    lemma_run_refused(start, i + 1, moves@.len() as int, step);
                }
            }
            match self.write(&change) {
                Ok(_) => {},
                Err(e) => {
                    return Err(e);
                },
            }
            i = i + 1;
        }
        Ok(())
    }
}

/// Whether the result describes the batch.
pub open spec fn describes(
    result: AtomicTreeBatchResult,
    batch: TreeBatch,
    nodes: Seq<Node>,
    dry_run: bool,
) -> bool {
    &&& result.status@ == status_text(dry_run)
    &&& result.moved_node_ids@ == Seq::new(batch.moves.len(), |i: int| moved_id(batch.moves, i))
    &&& result.removed_root_ids@ == Seq::new(
        batch.removals.len(),
        |i: int| batch.removals[i].node_id,
    )
    &&& result.removed_node_count == batch.removed_count(nodes)
}

/// Appends the numeral of a sum.
fn push_count(text: &mut String, a: usize, b: usize)
    ensures
        final(text)@ == old(text)@ + decimal((a + b) as nat),
{
    crate::text::push_wide(text, a as u128 + b as u128);
}

pub proof fn lemma_passed(n: int, check: spec_fn(int) -> Option<Refusal>, i: int)
    requires
        first_refusal(n, check) is None,
        0 <= i < n,
    ensures
        check(i) is None,
    decreases n,
{
    if i < n - 1 {
        lemma_passed(n - 1, check, i);
    }
}

proof fn lemma_one_more(ids: Seq<NodeId>, a: NodeId, x: NodeId)
    ensures
        ids.push(a).contains(x) <==> ids.contains(x) || x == a,
{
    let all = ids.push(a);
    if all.contains(x) {
        let i = choose|i: int| 0 <= i < all.len() && all[i] == x;
        if i < ids.len() {
            assert(ids[i] == x);
        }
    }
    if ids.contains(x) {
        let i = choose|i: int| 0 <= i < ids.len() && ids[i] == x;
        assert(all[i] == x);
    }
    assert(all[ids.len() as int] == a);
}

proof fn lemma_two_more(ids: Seq<NodeId>, a: NodeId, b: NodeId, x: NodeId)
    ensures
        (ids + seq![a, b]).contains(x) <==> ids.contains(x) || x == a || x == b,
{
    assert(ids + seq![a, b] =~= ids.push(a).push(b));
    lemma_one_more(ids, a, x);
    lemma_one_more(ids.push(a), b, x);
}

/// What an accepted batch has established of its moves and removals.
pub proof fn lemma_batch_facts(batch: TreeBatch, nodes: Seq<Node>)
    requires
        batch.refusal(nodes) is None,
    ensures
        forall|i: int|
            0 <= i < batch.moves.len() ==> present(nodes, #[trigger] moved_id(batch.moves, i))
                && node_at(nodes, moved_id(batch.moves, i)).parent_id is Some
                && batch.moves[i].prepared.node.parent_id is Some && present(
                nodes,
                destination(batch.moves, i),
            ) && !is_moved(batch.moves, moved_id(batch.moves, i), i) && ends(
                moved_links(links(nodes), batch.moves, batch.moves.len() as int),
                moved_id(batch.moves, i),
            ),
        forall|i: int|
            0 <= i < batch.removals.len() ==> present(
                nodes,
                #[trigger] batch.removals[i].node_id,
            ) && node_at(nodes, batch.removals[i].node_id).parent_id is Some && !is_moved(
                batch.moves,
                batch.removals[i].node_id,
                batch.moves.len() as int,
            ),
{
    let m = batch.moves.len() as int;
    let move_check = |i: int| batch.move_refusal(nodes, i);
    let cycle_check = |i: int| batch.cycle_refusal(nodes, i);
    let removal_check = |i: int| batch.removal_refusal(nodes, i);
    assert forall|i: int| 0 <= i < batch.moves.len() implies present(
        nodes,
        #[trigger] moved_id(batch.moves, i),
    ) && node_at(nodes, moved_id(batch.moves, i)).parent_id is Some
        && batch.moves[i].prepared.node.parent_id is Some && present(
        nodes,
        destination(batch.moves, i),
    ) && !is_moved(batch.moves, moved_id(batch.moves, i), i) && ends(
        moved_links(links(nodes), batch.moves, m),
        moved_id(batch.moves, i),
    ) by {
        lemma_passed(m, move_check, i);
        lemma_passed(m, cycle_check, i);
        assert(move_check(i) == batch.move_refusal(nodes, i));
        assert(cycle_check(i) == batch.cycle_refusal(nodes, i));
    }
    assert forall|i: int| 0 <= i < batch.removals.len() implies present(
        nodes,
        #[trigger] batch.removals[i].node_id,
    ) && node_at(nodes, batch.removals[i].node_id).parent_id is Some && !is_moved(
        batch.moves,
        batch.removals[i].node_id,
        m,
    ) by {
        lemma_passed(batch.removals.len() as int, removal_check, i);
        assert(removal_check(i) == batch.removal_refusal(nodes, i));
    }
}

/// Every parent after the moves exists.
proof fn lemma_moved_link_exists(
    nodes: Seq<Node>,
    moves: Seq<AtomicTreeMove>,
    id: NodeId,
    n: int,
)
    requires
        is_forest(nodes),
        0 <= n <= moves.len(),
        forall|j: int| 0 <= j < moves.len() ==> present(nodes, #[trigger] destination(moves, j)),
        moved_links(links(nodes), moves, n).contains_key(id),
    ensures
        present(nodes, moved_links(links(nodes), moves, n)[id]),
    decreases n,
{
    if n > 0 {
        if moved_id(moves, n - 1) == id {
            assert(present(nodes, destination(moves, n - 1)));
        } else {
            lemma_moved_link_exists(nodes, moves, id, n - 1);
        }
    } else {
        lemma_position(nodes, position(nodes, id));
    }
}

/// Renumbering keeps identities unique.
pub proof fn lemma_renumber_keeps_ids(t: Tables, affected: spec_fn(NodeId) -> bool)
    requires
        unique_ids(t.nodes),
    ensures
        unique_ids(t.renumber(affected).nodes),
{
    let after = t.renumber(affected).nodes;
    assert forall|i: int, j: int|
        0 <= i < after.len() && 0 <= j < after.len() && #[trigger] after[i].id
            == #[trigger] after[j].id implies i == j by {
        assert(t.nodes[i].id == t.nodes[j].id);
    }
}

/// Removing rows keeps identities unique.
pub proof fn lemma_removal_keeps_ids(t: Tables, id: NodeId)
    requires
        unique_ids(t.nodes),
    ensures
        unique_ids(t.remove_below(id).nodes),
{
    let keep = |n: Node| !below(links(t.nodes), id, n.id);
    let after = t.remove_below(id).nodes;
    assert(after == t.nodes.filter(keep));
    assert forall|i: int, j: int|
        0 <= i < after.len() && 0 <= j < after.len() && #[trigger] after[i].id
            == #[trigger] after[j].id implies i == j by {
        crate::shape::lemma_filter_injective(t.nodes, keep, i, j);
    }
}

} // verus!
