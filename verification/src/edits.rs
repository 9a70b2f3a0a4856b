//! Table changes that touch many rows: derived records, subtree removal and
//! sibling positions.

use crate::fts::{fresh_rows, fts_views, make_rows, only, without_documents, FtsRowView};
use crate::model::{
    DerivedNodeRecords, Node, NodeId, NodeRevision, Reference, ReferenceOrigin,
    ReferenceTarget, ReferenceView, RevisionView, Section, StoreError, TargetView,
};
use crate::tables::{
    is_extracted, revision_views, row_views, ReferenceRow, RowView, SqliteStore, Tables,
};
use crate::text::share;
use crate::tree::{
    below, climb, ends, find, is_forest, lemma_below_parent, lemma_below_self, lemma_climb_add,
    lemma_climb_shift, lemma_height, lemma_position, links, position, present, unique_ids, way_up,
};
use std::sync::Arc;
use vstd::prelude::*;

verus! {

/// What becomes of a reference target when `gone` nodes disappear: the text it
/// was written as stays, or else the identity it named.
pub open spec fn unresolve(target: TargetView, gone: spec_fn(NodeId) -> bool) -> TargetView {
    match target {
        TargetView::Resolved { node_id, target_ref, anchor } => if gone(node_id) {
            TargetView::Unresolved {
                target_ref: match target_ref {
                    Some(text) => text,
                    None => node_id.text(),
                },
            }
        } else {
            target
        },
        TargetView::Unresolved { .. } => target,
    }
}

/// Number of nodes below `parent` that come before `node` in sibling order,
/// among the first `n` rows.
pub open spec fn count_before(
    nodes: Seq<Node>,
    parent: Option<NodeId>,
    node: Node,
    n: int,
) -> nat
    decreases n,
{
    if n <= 0 {
        0
    } else {
        let other = nodes[n - 1];
        count_before(nodes, parent, node, n - 1) + if other.parent_id == parent
            && comes_before(other, node) {
            1nat
        } else {
            0nat
        }
    }
}

/// Whether `a` stands before `b` in sibling order.
pub open spec fn comes_before(a: Node, b: Node) -> bool {
    a.sibling_order < b.sibling_order || (a.sibling_order == b.sibling_order && a.id.value
        < b.id.value)
}

/// Zero-based position of a node among its siblings.
pub open spec fn sibling_rank(nodes: Seq<Node>, node: Node) -> nat {
    count_before(nodes, node.parent_id, node, nodes.len() as int)
}

/// A count as a stored sibling position.
pub open spec fn as_order(rank: nat) -> u32 {
    if rank <= u32::MAX {
        rank as u32
    } else {
        u32::MAX
    }
}

/// The rows after renumbering, from zero, the children of every affected parent.
pub open spec fn renumbered(nodes: Seq<Node>, affected: spec_fn(NodeId) -> bool) -> Seq<Node> {
    Seq::new(
        nodes.len(),
        |i: int|
            if nodes[i].parent_id matches Some(p) && affected(p) {
                Node { sibling_order: as_order(sibling_rank(nodes, nodes[i])), ..nodes[i] }
            } else {
                nodes[i]
            },
    )
}

/// The rows after making room for a child of `parent` at `from`.
pub open spec fn shifted(nodes: Seq<Node>, parent: NodeId, from: u32) -> Seq<Node> {
    Seq::new(
        nodes.len(),
        |i: int|
            if nodes[i].parent_id == Some(parent) && nodes[i].sibling_order >= from {
                Node { sibling_order: as_order((nodes[i].sibling_order + 1) as nat), ..nodes[i] }
            } else {
                nodes[i]
            },
    )
}

impl Tables {
    /// `DELETE` of a node with all its descendants. Their revisions, sections,
    /// documents and outgoing references go with them; references to them from
    /// elsewhere stay as unresolved text.
    pub open spec fn remove_below(self, id: NodeId) -> Tables {
        let up = links(self.nodes);
        let gone = |x: NodeId| present(self.nodes, x) && below(up, id, x);
        Tables {
            nodes: self.nodes.filter(|n: Node| !below(up, id, n.id)),
            revisions: self.revisions.filter(|r: RevisionView| !gone(r.node_id)),
            references: unresolved_rows(self.references, gone).filter(
                |r: RowView| !gone(r.reference.source_node_id),
            ),
            sections: self.sections.filter(|s: Arc<Section>| !gone(s.node_id)),
            fts: self.fts.filter(|f: FtsRowView| !gone(f.document.node_id)),
            ..self
        }
    }

    /// Renumbers the children of every affected parent.
    pub open spec fn renumber(self, affected: spec_fn(NodeId) -> bool) -> Tables {
        Tables { nodes: renumbered(self.nodes, affected), ..self }
    }
}

pub open spec fn unresolved_rows(
    rows: Seq<RowView>,
    gone: spec_fn(NodeId) -> bool,
) -> Seq<RowView> {
    Seq::new(
        rows.len(),
        |i: int|
            RowView {
                row_id: rows[i].row_id,
                reference: ReferenceView {
                    target: unresolve(rows[i].reference.target, gone),
                    ..rows[i].reference
                },
            },
    )
}

/// Number of rows marked among the first `n`.
pub open spec fn marked(flags: Seq<bool>, n: int) -> nat
    decreases n,
{
    if n <= 0 {
        0
    } else {
        marked(flags, n - 1) + if flags[n - 1] {
            1nat
        } else {
            0nat
        }
    }
}

proof fn lemma_marked_bound(flags: Seq<bool>, n: int)
    requires
        0 <= n <= flags.len(),
    ensures
        marked(flags, n) <= n,
    decreases n,
{
    if n > 0 {
        lemma_marked_bound(flags, n - 1);
    }
}

proof fn lemma_marked_more(flags: Seq<bool>, i: int, n: int)
    requires
        0 <= i < flags.len(),
        0 <= n <= flags.len(),
        !flags[i],
    ensures
        marked(flags.update(i, true), n) == marked(flags, n) + if i < n {
            1int
        } else {
            0int
        },
    decreases n,
{
    if n > 0 {
        lemma_marked_more(flags, i, n - 1);
    }
}

/// For each row, whether it is `root` or one of its descendants.
pub fn subtree_flags(nodes: &Vec<Node>, root: NodeId) -> (flags: Vec<bool>)
    requires
        unique_ids(nodes@),
    ensures
        flags.len() == nodes.len(),
        forall|i: int|
            0 <= i < nodes.len() ==> #[trigger] flags@[i] == below(
                links(nodes@),
                root,
                nodes@[i].id,
            ),
{
    let ghost up = links(nodes@);
    let mut flags: Vec<bool> = Vec::new();
    let mut i: usize = 0;
    while i < nodes.len()
        invariant
            i <= nodes.len(),
            flags.len() == i,
            forall|j: int| 0 <= j < i ==> #[trigger] flags@[j] == (nodes@[j].id == root),
        decreases nodes.len() - i,
    {
        flags.push(nodes[i].id == root);
        i = i + 1;
    }
    proof {
        assert forall|j: int| 0 <= j < nodes.len() && #[trigger] flags@[j] implies below(
            up,
            root,
            nodes@[j].id,
        ) by {
            lemma_below_self(up, root);
        }
    }
    let mut grew: bool = true;
    while grew
        invariant
            unique_ids(nodes@),
            up == links(nodes@),
            flags.len() == nodes.len(),
            forall|j: int|
                0 <= j < nodes.len() && nodes@[j].id == root ==> #[trigger] flags@[j],
            forall|j: int|
                0 <= j < nodes.len() && #[trigger] flags@[j] ==> below(up, root, nodes@[j].id),
            !grew ==> forall|j: int|
                0 <= j < nodes.len() && hangs_on(nodes@, flags@, root, j) ==> #[trigger] flags@[j],
        decreases nodes.len() - marked(flags@, flags.len() as int), (if grew { 1nat } else { 0nat }),
    {
        let ghost before = flags@;
        grew = false;
        let mut k: usize = 0;
        proof {
            lemma_marked_bound(flags@, flags.len() as int);
        }
        while k < nodes.len()
            invariant
                k <= nodes.len(),
                unique_ids(nodes@),
                up == links(nodes@),
                before.len() == nodes.len(),
                flags.len() == nodes.len(),
                forall|j: int|
                    0 <= j < nodes.len() && nodes@[j].id == root ==> #[trigger] flags@[j],
                forall|j: int|
                    0 <= j < nodes.len() && #[trigger] flags@[j] ==> below(up, root, nodes@[j].id),
                !grew ==> flags@ == before,
                !grew ==> forall|j: int|
                    0 <= j < k && hangs_on(nodes@, flags@, root, j) ==> #[trigger] flags@[j],
                marked(flags@, flags.len() as int) >= marked(before, flags.len() as int) + if grew {
                    1int
                } else {
                    0int
                },
            decreases nodes.len() - k,
        {
            if !flags[k] {
                let hangs: bool = match nodes[k].parent_id {
                    Some(p) => p == root || is_flagged(nodes, &flags, p),
                    None => false,
                };
                if hangs {
                    proof {
                        lemma_position(nodes@, k as int);
                        let p = nodes@[k as int].parent_id->0;
                        if p == root {
                            lemma_below_self(up, root);
                        } else {
                            assert(nodes@[position(nodes@, p)].id == p);
                        }
                        lemma_below_parent(up, root, nodes@[k as int].id);
                        lemma_marked_more(flags@, k as int, flags.len() as int);
                    }
                    flags.set(k, true);
                    grew = true;
                }
            }
            k = k + 1;
        }
        proof {
            lemma_marked_bound(flags@, flags.len() as int);
        }
    }
    proof {
        assert forall|j: int| 0 <= j < nodes.len() && below(up, root, nodes@[j].id) implies #[trigger] flags@[j] by {
            let steps = choose|s: nat| #[trigger] climb(up, nodes@[j].id, s) == Some(root);
            lemma_reached_marked(nodes@, flags@, root, j, steps);
        }
    }
    flags
}

/// Whether the parent of row `j` is `root` or a marked row.
spec fn hangs_on(nodes: Seq<Node>, flags: Seq<bool>, root: NodeId, j: int) -> bool {
    nodes[j].parent_id matches Some(p) && (p == root || (present(nodes, p) && flags[position(
        nodes,
        p,
    )]))
}

proof fn lemma_reached_marked(
    nodes: Seq<Node>,
    flags: Seq<bool>,
    root: NodeId,
    j: int,
    steps: nat,
)
    requires
        unique_ids(nodes),
        flags.len() == nodes.len(),
        0 <= j < nodes.len(),
        climb(links(nodes), nodes[j].id, steps) == Some(root),
        forall|j: int| 0 <= j < nodes.len() && nodes[j].id == root ==> #[trigger] flags[j],
        forall|j: int|
            0 <= j < nodes.len() && hangs_on(nodes, flags, root, j) ==> #[trigger] flags[j],
    ensures
        flags[j],
    decreases steps,
{
    let up = links(nodes);
    if steps > 0 {
        lemma_position(nodes, j);
        lemma_climb_shift(up, nodes[j].id, (steps - 1) as nat);
        let p = up[nodes[j].id];
        if p != root {
            lemma_climb_shift(up, p, (steps - 2) as nat);
            assert(present(nodes, p));
            lemma_reached_marked(nodes, flags, root, position(nodes, p), (steps - 1) as nat);
        }
        assert(hangs_on(nodes, flags, root, j));
    }
}

/// Whether row `i` is `root` or one of its descendants.
pub fn is_below(nodes: &Vec<Node>, root: NodeId, i: usize) -> (inside: bool)
    requires
        is_forest(nodes@),
        i < nodes.len(),
    ensures
        inside == below(links(nodes@), root, nodes@[i as int].id),
{
    let way = way_up(nodes, i);
    let ghost up = links(nodes@);
    let ghost id = nodes@[i as int].id;
    let mut k: usize = 0;
    while k < way.len()
        invariant
            k <= way.len(),
            i < nodes.len(),
            id == nodes@[i as int].id,
            up == links(nodes@),
            forall|m: int|
                0 <= m < way.len() ==> #[trigger] way@[m] < nodes.len() && climb(up, id, m as nat)
                    == Some(nodes@[way@[m] as int].id),
            forall|m: nat| m < k ==> #[trigger] climb(up, id, m) != Some(root),
        decreases way.len() - k,
    {
        if nodes[way[k]].id == root {
            assert(climb(up, id, k as nat) == Some(root));
            return true;
        }
        k = k + 1;
    }
    proof {
        assert(ends(up, id));
        lemma_height(up, id);
        assert forall|m: nat| #[trigger] climb(up, id, m) != Some(root) by {
            if m >= way.len() {
                lemma_climb_add(up, id, way.len() as nat, (m - way.len()) as nat);
            }
        }
    }
    false
}

/// Whether a flagged row has the identity.
pub fn is_flagged(nodes: &Vec<Node>, flags: &Vec<bool>, id: NodeId) -> (flagged: bool)
    requires
        unique_ids(nodes@),
        flags.len() == nodes.len(),
    ensures
        flagged == (present(nodes@, id) && flags@[position(nodes@, id)]),
{
    match find(nodes, id) {
        Some(i) => flags[i],
        None => false,
    }
}

/// Zero-based position of a node among the children of `parent`.
pub fn rank_of(nodes: &Vec<Node>, parent: Option<NodeId>, node: &Node) -> (rank: usize)
    ensures
        rank == count_before(nodes@, parent, *node, nodes@.len() as int),
{
    let mut rank: usize = 0;
    let mut i: usize = 0;
    while i < nodes.len()
        invariant
            i <= nodes.len(),
            rank <= i,
            rank == count_before(nodes@, parent, *node, i as int),
        decreases nodes.len() - i,
    {
        let other = &nodes[i];
        if crate::tables::same_id(other.parent_id, parent) && (other.sibling_order
            < node.sibling_order || (other.sibling_order == node.sibling_order && other.id.value
            < node.id.value)) {
            rank = rank + 1;
        }
        i = i + 1;
    }
    rank
}

pub fn to_order(rank: usize) -> (order: u32)
    ensures
        order == as_order(rank as nat),
{
    if rank <= u32::MAX as usize {
        rank as u32
    } else {
        u32::MAX
    }
}

impl SqliteStore {
    /// Renumbers the children of the listed parents from zero in their present
    /// order.
    pub fn renumber(&mut self, parents: &Vec<NodeId>)
        ensures
            final(self)@ == old(self)@.renumber(|p: NodeId| parents@.contains(p)),
    {
        let ghost affected = |p: NodeId| parents@.contains(p);
        let mut nodes: Vec<Node> = Vec::new();
        let mut i: usize = 0;
        while i < self.nodes.len()
            invariant
                i <= self.nodes.len(),
                affected == (|p: NodeId| parents@.contains(p)),
                nodes@ =~= renumbered(self.nodes@, affected).take(i as int),
            decreases self.nodes.len() - i,
        {
            let node = &self.nodes[i];
            let counted: bool = match node.parent_id {
                Some(p) => contains_id(parents, p),
                None => false,
            };
            if counted {
                let rank = rank_of(&self.nodes, node.parent_id, node);
                nodes.push(node.copy_at(to_order(rank)));
            } else {
                nodes.push(node.copy());
            }
            i = i + 1;
        }
        assert(nodes@ =~= renumbered(self.nodes@, affected));
        self.nodes = nodes;
    }

    /// Makes room for a child of `parent` at position `from`.
    pub fn shift_children(&mut self, parent: NodeId, from: u32)
        ensures
            final(self)@ == (Tables {
                nodes: shifted(old(self)@.nodes, parent, from),
                ..old(self)@
            }),
    {
        let mut nodes: Vec<Node> = Vec::new();
        let mut i: usize = 0;
        while i < self.nodes.len()
            invariant
                i <= self.nodes.len(),
                nodes@ =~= shifted(self.nodes@, parent, from).take(i as int),
            decreases self.nodes.len() - i,
        {
            let node = &self.nodes[i];
            if crate::tables::same_id(node.parent_id, Some(parent)) && node.sibling_order >= from {
                nodes.push(node.copy_at(node.sibling_order.saturating_add(1)));
            } else {
                nodes.push(node.copy());
            }
            i = i + 1;
        }
        assert(nodes@ =~= shifted(self.nodes@, parent, from));
        self.nodes = nodes;
    }

    /// Drops the explicit references that start at a node.
    pub fn clear_explicit(&mut self, id: NodeId)
        ensures
            final(self)@ == old(self)@.clear_explicit(id),
    {
        let ghost keep = |r: RowView|
            !(r.reference.source_node_id == id && r.reference.origin == ReferenceOrigin::Explicit);
        let mut kept: Vec<ReferenceRow> = Vec::new();
        let mut i: usize = 0;
        while i < self.references.len()
            invariant
                i <= self.references.len(),
                keep == (|r: RowView|
                    !(r.reference.source_node_id == id && r.reference.origin
                        == ReferenceOrigin::Explicit)),
                row_views(kept@) == row_views(self.references@).take(i as int).filter(keep),
            decreases self.references.len() - i,
        {
            let row = &self.references[i];
            let ghost before = row_views(kept@);
            proof {
                lemma_filter_step(row_views(self.references@), keep, i as int);
            }
            if !(row.reference.source_node_id == id && row.reference.origin
                == ReferenceOrigin::Explicit) {
                kept.push(ReferenceRow { row_id: row.row_id, reference: row.reference.copy() });
                assert(row_views(kept@) =~= before.push(row@));
            }
            i = i + 1;
        }
        assert(row_views(self.references@).take(self.references@.len() as int) =~= row_views(
            self.references@,
        ));
        assert(old(self)@.clear_explicit(id).references == row_views(self.references@).filter(keep));
        self.references = kept;
    }
}

/// Whether the list holds the identity.
pub fn contains_id(ids: &Vec<NodeId>, id: NodeId) -> (found: bool)
    ensures
        found == ids@.contains(id),
{
    let mut i: usize = 0;
    while i < ids.len()
        invariant
            i <= ids.len(),
            forall|j: int| 0 <= j < i ==> ids@[j] != id,
        decreases ids.len() - i,
    {
        if ids[i] == id {
            assert(ids@[i as int] == id);
            return true;
        }
        i = i + 1;
    }
    false
}

/// The sections whose node is not among `gone`.
fn without_sections(rows: &Vec<Arc<Section>>, gone: &Vec<NodeId>) -> (kept: Vec<Arc<Section>>)
    ensures
        kept@ == rows@.filter(|s: Arc<Section>| !gone@.contains(s.node_id)),
{
    let ghost keep = |s: Arc<Section>| !gone@.contains(s.node_id);
    let mut kept: Vec<Arc<Section>> = Vec::new();
    let mut i: usize = 0;
    while i < rows.len()
        invariant
            i <= rows.len(),
            keep == (|s: Arc<Section>| !gone@.contains(s.node_id)),
            kept@ == rows@.take(i as int).filter(keep),
        decreases rows.len() - i,
    {
        proof {
            lemma_filter_step(rows@, keep, i as int);
        }
        if !contains_id(gone, rows[i].node_id) {
            kept.push(share(&rows[i]));
        }
        i = i + 1;
    }
    assert(rows@.take(rows@.len() as int) =~= rows@);
    kept
}

/// The target after `gone` nodes disappear.
fn unresolved_target(target: &ReferenceTarget, gone: &Vec<NodeId>) -> (result: ReferenceTarget)
    ensures
        result@ == unresolve(target@, |x: NodeId| gone@.contains(x)),
{
    match target {
        ReferenceTarget::Resolved { node_id, target_ref, anchor } => {
            if contains_id(gone, *node_id) {
                let text: String = match target_ref {
                    Some(text) => text.clone(),
                    None => node_id.to_text(),
                };
                ReferenceTarget::Unresolved { target_ref: text }
            } else {
                target.copy()
            }
        },
        ReferenceTarget::Unresolved { .. } => target.copy(),
    }
}

impl SqliteStore {
    /// Replaces what was derived from the Markdown of one node; on failure the
    /// tables are left part-way.
    pub fn replace_derived(&mut self, id: NodeId, derived: &DerivedNodeRecords) -> (result: Result<
        (),
        StoreError,
    >)
        requires
            unique_ids(old(self)@.nodes),
        ensures
            final(self)@.nodes == old(self)@.nodes,
            match old(self)@.replace_derived(id, *derived) {
                Ok(t) => result is Ok && final(self)@ == t,
                Err(e) => result is Err && result->Err_0@ == e,
            },
    {
        self.check_sections(&derived.sections)?;
        let mut own: Vec<NodeId> = Vec::new();
        own.push(id);
        proof {
            assert(forall|x: NodeId| #[trigger] own@.contains(x) <==> x == id) by {
                assert(own@[0] == id);
            }
            assert((|s: Arc<Section>| !own@.contains(s.node_id)) =~= (|s: Arc<Section>|
                s.node_id != id));
            assert((|f: FtsRowView| !own@.contains(f.document.node_id)) =~= (|f: FtsRowView|
                f.document.node_id != id));
        }
        self.sections = without_sections(&self.sections, &own);
        self.fts = without_documents(&self.fts, &own);
        let ghost keep = |r: RowView| !is_extracted(r.reference, id);
        let mut kept: Vec<ReferenceRow> = Vec::new();
        let mut i: usize = 0;
        while i < self.references.len()
            invariant
                i <= self.references.len(),
                keep == (|r: RowView| !is_extracted(r.reference, id)),
                row_views(kept@) == row_views(self.references@).take(i as int).filter(keep),
            decreases self.references.len() - i,
        {
            let row = &self.references[i];
            let ghost before = row_views(kept@);
            proof {
                lemma_filter_step(row_views(self.references@), keep, i as int);
            }
            if !(row.reference.source_node_id == id && (row.reference.origin
                == ReferenceOrigin::Markdown || row.reference.origin
                == ReferenceOrigin::Wikilink)) {
                kept.push(ReferenceRow { row_id: row.row_id, reference: row.reference.copy() });
                assert(row_views(kept@) =~= before.push(row@));
            }
            i = i + 1;
        }
        assert(row_views(self.references@).take(self.references@.len() as int) =~= row_views(
            self.references@,
        ));
        self.references = kept;
        self.insert_references(&derived.references)?;
        let mut sections = crate::tables::copy_shared(&derived.sections);
        let mut documents = make_rows(&derived.fts_documents);
        let ghost stored = self@;
        let ghost kept_rows = fts_views(self.fts@);
        self.sections.append(&mut sections);
        self.fts.append(&mut documents);
        assert(fts_views(self.fts@) =~= kept_rows + fresh_rows(derived.fts_documents@));
        assert(self@ == (Tables {
            sections: stored.sections + derived.sections@,
            fts: stored.fts + fresh_rows(derived.fts_documents@),
            ..stored
        }));
        assert((|x: NodeId| own@.contains(x)) =~= only(id));
        self.refresh_contexts(&own);
        Ok(())
    }

    /// Deletes a node with all its descendants.
    pub fn remove_below(&mut self, id: NodeId)
        requires
            unique_ids(old(self)@.nodes),
        ensures
            final(self)@ == old(self)@.remove_below(id),
    {
        let ghost up = links(self.nodes@);
        let ghost gone = |x: NodeId| present(self.nodes@, x) && below(up, id, x);
        let flags = subtree_flags(&self.nodes, id);
        let ghost keep_node = |n: Node| !below(up, id, n.id);
        let mut ids: Vec<NodeId> = Vec::new();
        let mut nodes: Vec<Node> = Vec::new();
        let mut i: usize = 0;
        while i < self.nodes.len()
            invariant
                i <= self.nodes.len(),
                flags.len() == self.nodes.len(),
                up == links(self.nodes@),
                keep_node == (|n: Node| !below(up, id, n.id)),
                forall|j: int|
                    0 <= j < self.nodes.len() ==> #[trigger] flags@[j] == below(
                        up,
                        id,
                        self.nodes@[j].id,
                    ),
                nodes@ == self.nodes@.take(i as int).filter(keep_node),
                forall|x: NodeId| #[trigger]
                    ids@.contains(x) <==> exists|j: int|
                        0 <= j < i && #[trigger] self.nodes@[j].id == x && below(up, id, x),
            decreases self.nodes.len() - i,
        {
            proof {
                lemma_filter_step(self.nodes@, keep_node, i as int);
            }
            let ghost before = ids@;
            if flags[i] {
                ids.push(self.nodes[i].id);
                assert forall|x: NodeId| #[trigger] ids@.contains(x) <==> exists|j: int|
                    0 <= j < i + 1 && #[trigger] self.nodes@[j].id == x && below(up, id, x) by {
                    if ids@.contains(x) && x != self.nodes@[i as int].id {
                        let k = choose|k: int| 0 <= k < ids@.len() && ids@[k] == x;
                        assert(before[k] == x);
                        assert(before.contains(x));
                    }
                    if before.contains(x) {
                        let k = choose|k: int| 0 <= k < before.len() && before[k] == x;
                        assert(ids@[k] == x);
                    }
                    assert(ids@[before.len() as int] == self.nodes@[i as int].id);
                }
            } else {
                nodes.push(self.nodes[i].copy());
            }
            i = i + 1;
        }
        assert(self.nodes@.take(self.nodes@.len() as int) =~= self.nodes@);
        assert forall|x: NodeId| #[trigger] ids@.contains(x) <==> gone(x) by {}
        proof {
            assert((|x: NodeId| ids@.contains(x)) =~= gone);
            assert((|s: Arc<Section>| !ids@.contains(s.node_id)) =~= (|s: Arc<Section>|
                !gone(s.node_id)));
            assert((|f: FtsRowView| !ids@.contains(f.document.node_id)) =~= (|f: FtsRowView|
                !gone(f.document.node_id)));
        }
        let ghost keep_revision = |r: RevisionView| !gone(r.node_id);
        let mut revisions: Vec<NodeRevision> = Vec::new();
        let mut j: usize = 0;
        while j < self.revisions.len()
            invariant
                j <= self.revisions.len(),
                forall|x: NodeId| #[trigger] ids@.contains(x) <==> gone(x),
                keep_revision == (|r: RevisionView| !gone(r.node_id)),
                revision_views(revisions@) == revision_views(self.revisions@).take(
                    j as int,
                ).filter(keep_revision),
            decreases self.revisions.len() - j,
        {
            proof {
                lemma_filter_step(revision_views(self.revisions@), keep_revision, j as int);
            }
            let ghost before = revision_views(revisions@);
            if !contains_id(&ids, self.revisions[j].node_id) {
                revisions.push(self.revisions[j].copy());
                assert(revision_views(revisions@) =~= before.push(self.revisions@[j as int]@));
            }
            j = j + 1;
        }
        assert(revision_views(self.revisions@).take(self.revisions@.len() as int)
            =~= revision_views(self.revisions@));
        let ghost loose = unresolved_rows(row_views(self.references@), gone);
        let ghost keep_row = |r: RowView| !gone(r.reference.source_node_id);
        let mut references: Vec<ReferenceRow> = Vec::new();
        let mut k: usize = 0;
        while k < self.references.len()
            invariant
                k <= self.references.len(),
                forall|x: NodeId| #[trigger] ids@.contains(x) <==> gone(x),
                (|x: NodeId| ids@.contains(x)) == gone,
                loose == unresolved_rows(row_views(self.references@), gone),
                keep_row == (|r: RowView| !gone(r.reference.source_node_id)),
                row_views(references@) == loose.take(k as int).filter(keep_row),
            decreases self.references.len() - k,
        {
            proof {
                lemma_filter_step(loose, keep_row, k as int);
            }
            let row = &self.references[k];
            let ghost before = row_views(references@);
            if !contains_id(&ids, row.reference.source_node_id) {
                let reference = Reference {
                    source_node_id: row.reference.source_node_id,
                    source_section_id: row.reference.source_section_id,
                    reference_type: row.reference.reference_type.clone(),
                    target: unresolved_target(&row.reference.target, &ids),
                    origin: row.reference.origin,
                    metadata: row.reference.metadata.clone(),
                };
                references.push(ReferenceRow { row_id: row.row_id, reference });
                assert(row_views(references@) =~= before.push(loose[k as int]));
            }
            k = k + 1;
        }
        assert(loose.take(self.references@.len() as int) =~= loose);
        self.sections = without_sections(&self.sections, &ids);
        self.fts = without_documents(&self.fts, &ids);
        self.nodes = nodes;
        self.revisions = revisions;
        self.references = references;
    }
}

/// Filtering one row more.
pub proof fn lemma_filter_step<T>(rows: Seq<T>, keep: spec_fn(T) -> bool, i: int)
    requires
        0 <= i < rows.len(),
    ensures
        rows.take(i + 1).filter(keep) == if keep(rows[i]) {
            rows.take(i).filter(keep).push(rows[i])
        } else {
            rows.take(i).filter(keep)
        },
{
    reveal(Seq::filter);
    assert(rows.take(i + 1).drop_last() =~= rows.take(i));
    assert(rows.take(i + 1).last() == rows[i]);
}

} // verus!
