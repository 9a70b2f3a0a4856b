//! Snapshot export order and import into a new workspace.

use crate::create::{make_revision, revision_of};
use crate::diagnostics::texts;
use crate::model::{
    DerivedNodeRecords, Node, NodeId, NodeRevision, Reference, ReferenceView, Refusal,
    RevisionView, StoreError,
};
use crate::mutate::{lemma_run_refused, run};
use crate::order::{lex_le, sorted_positions};
use crate::reads::{first_from, lists_revisions};
use crate::references::{references_of, touching, ReferenceSide};
use crate::tables::{reference_views, revision_views, SqliteStore, Tables};
use crate::text::{code_points, to_code_points};
use crate::traverse::{walk, Extent, Placed, TraversalOrder};
use crate::tree::{is_forest, is_tree, unique_ids};
use crate::workspace::{create_workspace, initialized, unstorable, WorkspaceError};
use vstd::prelude::*;

verus! {

/// A complete workspace in interchange form.
#[derive(Debug)]
pub struct Snapshot {
    pub format: String,
    pub workspace_name: String,
    pub workspace_format_version: u32,
    pub nodes: Vec<Node>,
    pub revisions: Vec<NodeRevision>,
    pub references: Vec<Reference>,
}

/// What validating a snapshot found wrong.
#[derive(Debug)]
pub struct SnapshotValidationReport {
    pub errors: Vec<String>,
}

impl SnapshotValidationReport {
    /// Whether nothing is wrong.
    pub fn is_valid(&self) -> (valid: bool)
        ensures
            valid == (self.errors@.len() == 0),
    {
        self.errors.len() == 0
    }
}

/// Parsed snapshot plus its complete pre-mutation validation report.
#[derive(Debug)]
pub struct ImportPlan {
    pub snapshot: Snapshot,
    pub validation: SnapshotValidationReport,
}

/// Snapshot validation or import failure.
#[derive(Debug)]
pub enum SnapshotError {
    /// Candidate failed complete validation.
    Invalid(SnapshotValidationReport),
    /// Workspace lifecycle failed.
    Workspace(WorkspaceError),
    /// Canonical storage failed.
    Store(StoreError),
}

/// The revision that an import records for a head without history.
pub open spec fn head_revision_of(node: Node) -> RevisionView {
    revision_of(node, Some("Imported snapshot head"@), Some("import"@), node.updated_at)
}

/// Records an imported head.
pub fn head_revision(node: &Node) -> (revision: NodeRevision)
    ensures
        revision@ == head_revision_of(*node),
{
    make_revision(
        node,
        Some("Imported snapshot head".to_owned()),
        Some("import".to_owned()),
        node.updated_at,
    )
}

/// The revisions of one node, oldest first.
pub open spec fn own_history(t: Tables, id: NodeId) -> Seq<RevisionView> {
    choose|own: Seq<RevisionView>| lists_revisions(t, id, own)
}

/// The revisions of the listed nodes, node by node, oldest first.
pub open spec fn history_of(t: Tables, listed: Seq<Node>, n: int) -> Seq<RevisionView>
    decreases n,
{
    if n <= 0 {
        Seq::empty()
    } else {
        history_of(t, listed, n - 1) + own_history(t, listed[n - 1].id)
    }
}

/// The outgoing references of the listed nodes, node by node in row order.
pub open spec fn links_of(t: Tables, listed: Seq<Node>, n: int) -> Seq<ReferenceView>
    decreases n,
{
    if n <= 0 {
        Seq::empty()
    } else {
        links_of(t, listed, n - 1) + references_of(
            touching(t, ReferenceSide::Source, listed[n - 1].id),
        )
    }
}

/// Whether `sorted` takes each reference once, in ascending order of its text.
pub open spec fn sorted_by_text(
    sorted: Seq<ReferenceView>,
    references: Seq<ReferenceView>,
    keys: Seq<Seq<char>>,
    order: Seq<usize>,
) -> bool {
    &&& order.len() == references.len()
    &&& sorted.len() == references.len()
    &&& order.no_duplicates()
    &&& forall|p: usize| p < references.len() ==> #[trigger] order.contains(p)
    &&& forall|i: int|
        0 <= i < order.len() ==> (#[trigger] order[i]) < references.len() && sorted[i]
            == references[order[i] as int]
    &&& forall|i: int, j: int|
        0 <= i < j < order.len() ==> lex_le(
            code_points(keys[(#[trigger] order[i]) as int]),
            code_points(keys[(#[trigger] order[j]) as int]),
        )
}

/// Sorts references by their serialized texts.
pub fn sort_references(references: &Vec<Reference>, keys: &Vec<String>) -> (sorted: Vec<Reference>)
    requires
        references.len() == keys.len(),
    ensures
        exists|order: Seq<usize>| #[trigger]
            sorted_by_text(
                reference_views(sorted@),
                reference_views(references@),
                texts(keys@),
                order,
            ),
{
    let mut points: Vec<Vec<u128>> = Vec::new();
    let mut i: usize = 0;
    while i < keys.len()
        invariant
            i <= keys.len(),
            points.len() == i,
            forall|k: int| 0 <= k < i ==> (#[trigger] points@[k])@ == code_points(keys@[k]@),
        decreases keys.len() - i,
    {
        points.push(to_code_points(keys[i].as_str()));
        i = i + 1;
    }
    let order = sorted_positions(&points);
    let mut sorted: Vec<Reference> = Vec::new();
    let mut n: usize = 0;
    while n < order.len()
        invariant
            n <= order.len(),
            order.len() == references.len(),
            forall|i: int| 0 <= i < order.len() ==> #[trigger] order@[i] < references.len(),
            sorted.len() == n,
            forall|m: int|
                0 <= m < n ==> (#[trigger] sorted@[m])@ == references@[order@[m] as int]@,
        decreases order.len() - n,
    {
        sorted.push(references[order[n]].copy());
        n = n + 1;
    }
    proof {
        let a = reference_views(sorted@);
        let b = reference_views(references@);
        let k = texts(keys@);
        assert forall|i: int, j: int| 0 <= i < j < order@.len() implies lex_le(
            code_points(k[(#[trigger] order@[i]) as int]),
            code_points(k[(#[trigger] order@[j]) as int]),
        ) by {
            assert(lex_le(points@[order@[i] as int]@, points@[order@[j] as int]@));
        }
        assert(sorted_by_text(a, b, k, order@));
    }
    sorted
}

impl SqliteStore {
    /// Exports complete canonical heads by identity, their history, and their
    /// references; the caller then sorts the references by their texts.
    pub fn export_snapshot(&self, workspace_name: String) -> (snapshot: Snapshot)
        requires
            unique_ids(self@.nodes),
            self@.unique_versions(),
        ensures
            snapshot.format@ == "mdtree-snapshot"@,
            snapshot.workspace_name == workspace_name,
            snapshot.workspace_format_version == crate::migrations::WORKSPACE_FORMAT_VERSION,
            self@.by_identity(snapshot.nodes@),
            revision_views(snapshot.revisions@) == history_of(
                self@,
                snapshot.nodes@,
                snapshot.nodes@.len() as int,
            ),
            reference_views(snapshot.references@) == links_of(
                self@,
                snapshot.nodes@,
                snapshot.nodes@.len() as int,
            ),
    {
        let order = self.positions_by_id();
        let ghost t = self@;
        let ghost listed = Seq::new(order@.len(), |i: int| t.nodes[order@[i] as int]);
        let mut nodes: Vec<Node> = Vec::new();
        let mut revisions: Vec<NodeRevision> = Vec::new();
        let mut references: Vec<Reference> = Vec::new();
        let mut i: usize = 0;
        assert(reference_views(references@) =~= Seq::empty());
        assert(revision_views(revisions@) =~= Seq::empty());
        while i < order.len()
            invariant
                i <= order.len(),
                t == self@,
                t.unique_versions(),
                order.len() == t.nodes.len(),
                forall|i: int| 0 <= i < order.len() ==> #[trigger] order@[i] < t.nodes.len(),
                listed == Seq::new(order@.len(), |i: int| t.nodes[order@[i] as int]),
                nodes@ =~= listed.take(i as int),
                revision_views(revisions@) == history_of(t, listed, i as int),
                reference_views(references@) == links_of(t, listed, i as int),
            decreases order.len() - i,
        {
            let node = &self.nodes[order[i]];
            assert(listed[i as int] == *node);
            let mut own = self.revisions(node.id);
            let mut links = self.outgoing_references(node.id);
            let ghost before = revision_views(revisions@);
            let ghost mine = revision_views(own@);
            let ghost refs_before = reference_views(references@);
            let ghost refs_mine = reference_views(links@);
            proof {
                let id = node.id;
                assert(lists_revisions(t, id, mine));
                assert(lists_revisions(t, id, own_history(t, id)));
                crate::listing::lemma_lists_unique(
                    t.revisions,
                    |r: RevisionView| r.node_id == id,
                    |r: RevisionView| seq![r.version as u128],
                    mine,
                    own_history(t, id),
                );
            }
            nodes.push(node.copy());
            revisions.append(&mut own);
            references.append(&mut links);
            assert(revision_views(revisions@) =~= before + mine);
            assert(reference_views(references@) =~= refs_before + refs_mine);
            i = i + 1;
        }
        assert(nodes@ =~= listed);
        Snapshot {
            format: "mdtree-snapshot".to_owned(),
            workspace_name,
            workspace_format_version: crate::migrations::WORKSPACE_FORMAT_VERSION,
            nodes,
            revisions,
            references,
        }
    }

    /// One canonical node and its descendants up to an optional relative depth;
    /// the node itself has depth zero.
    pub fn exported_nodes(&self, id: NodeId, max_depth: Option<u32>) -> (listed: Vec<Placed>)
        requires
            is_forest(self@.nodes),
        ensures
            (Extent { root: id, include_root: true, max_depth, order: TraversalOrder::Dfs }).walks(
                self@.nodes,
                listed@,
            ),
    {
        walk(
            &self.nodes,
            Extent { root: id, include_root: true, max_depth, order: TraversalOrder::Dfs },
        )
    }
}

/// Inserts the `i`-th node unless it is the root. Its parent may come later.
pub open spec fn import_node_step(nodes: Seq<Node>) -> spec_fn(Tables, int) -> Result<
    Tables,
    Refusal,
> {
    |t: Tables, i: int|
        if nodes[i].parent_id is None {
            Ok(t)
        } else {
            t.add_node(nodes[i])
        }
}

/// Inserts the `i`-th revision.
pub open spec fn import_revision_step(revisions: Seq<RevisionView>) -> spec_fn(
    Tables,
    int,
) -> Result<Tables, Refusal> {
    |t: Tables, i: int| t.insert_revision(revisions[i])
}

/// Takes over the records of the `i`-th node.
pub open spec fn import_derived_step(
    nodes: Seq<Node>,
    derived: Seq<DerivedNodeRecords>,
) -> spec_fn(Tables, int) -> Result<Tables, Refusal> {
    |t: Tables, i: int| t.replace_derived(nodes[i].id, derived[i])
}

/// The history of an import: the snapshot's own, or one revision per head.
pub open spec fn imported_history(snapshot: Snapshot) -> Seq<RevisionView> {
    if snapshot.revisions@.len() == 0 {
        Seq::new(snapshot.nodes@.len(), |i: int| head_revision_of(snapshot.nodes@[i]))
    } else {
        revision_views(snapshot.revisions@)
    }
}

/// The tables of an imported workspace that start from its root alone. Nodes come
/// in any order: once all are there, each must lead up to the root.
pub open spec fn imported(
    t: Tables,
    snapshot: Snapshot,
    derived: Seq<DerivedNodeRecords>,
) -> Result<Tables, Refusal> {
    let nodes = snapshot.nodes@;
    let history = imported_history(snapshot);
    let references = reference_views(snapshot.references@);
    match run(t, nodes.len() as int, import_node_step(nodes)) {
        Err(e) => Err(e),
        Ok(u) => if !is_tree(u.nodes) {
            Err(Refusal::ForeignKey)
        } else {
            match run(
                Tables { revisions: Seq::empty(), ..u },
                history.len() as int,
                import_revision_step(history),
            ) {
                Err(e) => Err(e),
                Ok(v) => match run(
                    Tables {
                        references: Seq::empty(),
                        sections: Seq::empty(),
                        fts: Seq::empty(),
                        ..v
                    },
                    nodes.len() as int,
                    import_derived_step(nodes, derived),
                ) {
                    Err(e) => Err(e),
                    Ok(w) => w.insert_references(references, references.len() as int),
                },
            }
        },
    }
}

/// The first root of a snapshot.
pub open spec fn snapshot_root(nodes: Seq<Node>) -> Option<int> {
    first_from(nodes, |n: Node| n.parent_id is None, 0)
}

/// Fills a new workspace from a snapshot; on failure the tables are left
/// part-way.
fn fill(store: &mut SqliteStore, snapshot: &Snapshot, derived: &Vec<DerivedNodeRecords>) -> (result:
    Result<(), StoreError>)
    requires
        derived.len() == snapshot.nodes.len(),
    ensures
        match imported(old(store)@, *snapshot, derived@) {
            Ok(t) => result is Ok && final(store)@ == t,
            Err(e) => result is Err && result->Err_0@ == e,
        },
{
    let nodes = &snapshot.nodes;
    let ghost n = nodes@.len() as int;
    let ghost start = store@;
    let mut i: usize = 0;
    while i < nodes.len()
        invariant
            i <= nodes.len(),
            n == nodes@.len(),
            nodes == &snapshot.nodes,
            start == old(store)@,
            run(start, i as int, import_node_step(nodes@)) == Ok::<Tables, Refusal>(store@),
        decreases nodes.len() - i,
    {
        if nodes[i].parent_id.is_some() {
            match store.add_node(&nodes[i]) {
                Ok(_) => {},
                Err(e) => {
                    proof {
                        lemma_run_refused(start, i + 1, n, import_node_step(nodes@));
                    }
                    return Err(e);
                },
            }
        }
        i = i + 1;
    }
    let ghost placed = store@;
    if !store.is_one_tree() {
        return Err(StoreError::ForeignKey);
    }
    store.revisions = Vec::new();
    let ghost bare = Tables { revisions: Seq::empty(), ..placed };
    assert(store@.revisions =~= bare.revisions);
    let ghost history = imported_history(*snapshot);
    let ghost h = history.len() as int;
    let heads: bool = snapshot.revisions.len() == 0;
    let total: usize = if heads {
        nodes.len()
    } else {
        snapshot.revisions.len()
    };
    let mut j: usize = 0;
    while j < total
        invariant
            j <= total,
            total == h,
            h == history.len(),
            history == imported_history(*snapshot),
            heads == (snapshot.revisions@.len() == 0),
            nodes == &snapshot.nodes,
            n == nodes@.len(),
            start == old(store)@,
            run(start, n, import_node_step(nodes@)) == Ok::<Tables, Refusal>(placed),
            is_tree(placed.nodes),
            bare == (Tables { revisions: Seq::empty(), ..placed }),
            run(bare, j as int, import_revision_step(history)) == Ok::<Tables, Refusal>(store@),
            store@.nodes == placed.nodes,
        decreases total - j,
    {
        let outcome = if heads {
            let revision = head_revision(&nodes[j]);
            assert(history[j as int] == revision@);
            store.insert_revision(&revision)
        } else {
            assert(history[j as int] == snapshot.revisions@[j as int]@);
            store.insert_revision(&snapshot.revisions[j])
        };
        match outcome {
            Ok(_) => {},
            Err(e) => {
                proof {
                    lemma_run_refused(bare, j + 1, h, import_revision_step(history));
                }
                return Err(e);
            },
        }
        j = j + 1;
    }
    let ghost recorded = store@;
    store.references = Vec::new();
    store.sections = Vec::new();
    store.fts = Vec::new();
    let ghost cleared = Tables {
        references: Seq::empty(),
        sections: Seq::empty(),
        fts: Seq::empty(),
        ..recorded
    };
    assert(store@.references =~= cleared.references);
    assert(store@.sections =~= cleared.sections);
    assert(store@.fts =~= cleared.fts);
    let ghost step = import_derived_step(nodes@, derived@);
    let mut k: usize = 0;
    while k < nodes.len()
        invariant
            k <= nodes.len(),
            nodes == &snapshot.nodes,
            n == nodes@.len(),
            derived.len() == n,
            h == history.len(),
            history == imported_history(*snapshot),
            start == old(store)@,
            run(start, n, import_node_step(nodes@)) == Ok::<Tables, Refusal>(placed),
            is_tree(placed.nodes),
            bare == (Tables { revisions: Seq::empty(), ..placed }),
            run(bare, h, import_revision_step(history)) == Ok::<Tables, Refusal>(recorded),
            cleared == (Tables {
                references: Seq::empty(),
                sections: Seq::empty(),
                fts: Seq::empty(),
                ..recorded
            }),
            step == import_derived_step(nodes@, derived@),
            run(cleared, k as int, step) == Ok::<Tables, Refusal>(store@),
            store@.nodes == placed.nodes,
        decreases nodes.len() - k,
    {
        match store.replace_derived(nodes[k].id, &derived[k]) {
            Ok(_) => {},
            Err(e) => {
                proof {
                    lemma_run_refused(cleared, k + 1, n, step);
                }
                return Err(e);
            },
        }
        k = k + 1;
    }
    store.insert_references(&snapshot.references)
}

/// Imports a validated snapshot into a new workspace; existing destinations are
/// never merged. The caller supplies what was derived from every node.
pub fn import_snapshot_new(
    path: &str,
    destination_exists: bool,
    snapshot: &Snapshot,
    validation: SnapshotValidationReport,
    derived: &Vec<DerivedNodeRecords>,
) -> (result: Result<SqliteStore, SnapshotError>)
    requires
        derived.len() == snapshot.nodes.len(),
    ensures
        imports(path@, destination_exists, *snapshot, validation, derived@, result),
{
    if !validation.is_valid() {
        return Err(SnapshotError::Invalid(validation));
    }
    if destination_exists {
        return Err(SnapshotError::Workspace(WorkspaceError::AlreadyExists(path.to_owned())));
    }
    let ghost pred = |n: Node| n.parent_id is None;
    let mut r: usize = 0;
    while r < snapshot.nodes.len() && snapshot.nodes[r].parent_id.is_some()
        invariant
            r <= snapshot.nodes.len(),
            pred == (|n: Node| n.parent_id is None),
            first_from(snapshot.nodes@, pred, 0) == first_from(snapshot.nodes@, pred, r as int),
        decreases snapshot.nodes.len() - r,
    {
        r = r + 1;
    }
    if r == snapshot.nodes.len() {
        return Err(SnapshotError::Invalid(validation));
    }
    assert(snapshot_root(snapshot.nodes@) == Some(r as int));
    let root = &snapshot.nodes[r];
    let mut store = match create_workspace(path, destination_exists, root, &derived[r]) {
        Ok(store) => store,
        Err(e) => {
            return Err(SnapshotError::Workspace(e));
        },
    };
    match fill(&mut store, snapshot, derived) {
        Ok(_) => Ok(store),
        Err(e) => Err(SnapshotError::Store(e)),
    }
}

/// The outcome of an import.
pub open spec fn imports(
    path: Seq<char>,
    destination_exists: bool,
    snapshot: Snapshot,
    validation: SnapshotValidationReport,
    derived: Seq<DerivedNodeRecords>,
    result: Result<SqliteStore, SnapshotError>,
) -> bool {
    if validation.errors@.len() > 0 {
        result matches Err(SnapshotError::Invalid(report)) && report == validation
    } else if destination_exists {
        result matches Err(SnapshotError::Workspace(WorkspaceError::AlreadyExists(p))) && p@ == path
    } else {
        match snapshot_root(snapshot.nodes@) {
            None => result matches Err(SnapshotError::Invalid(report)) && report == validation,
            Some(r) => {
                let root = snapshot.nodes@[r];
                if let Some((field, value)) = unstorable(root) {
                    result matches Err(
                        SnapshotError::Workspace(
                            WorkspaceError::IntegerOutOfRange { field: f, value: v },
                        ),
                    ) && f@ == field && v == value
                } else {
                    match initialized(root, derived[r]) {
                        Err(e) => result matches Err(
                            SnapshotError::Workspace(WorkspaceError::Store(x)),
                        ) && x@ == e,
                        Ok(t) => match imported(t, snapshot, derived) {
                            Err(e) => result matches Err(SnapshotError::Store(x)) && x@ == e,
                            Ok(u) => result is Ok && result->Ok_0@ == u,
                        },
                    }
                }
            },
        }
    }
}

/// Imports a planned Markdown snapshot into a new workspace: an invalid plan is
/// refused with its report, a valid one is imported.
pub fn import_markdown_snapshot_new(
    plan: ImportPlan,
    path: &str,
    destination_exists: bool,
    derived: &Vec<DerivedNodeRecords>,
) -> (result: Result<SqliteStore, SnapshotError>)
    requires
        derived.len() == plan.snapshot.nodes.len(),
    ensures
        imports(path@, destination_exists, plan.snapshot, plan.validation, derived@, result),
{
    if !plan.validation.is_valid() {
        return Err(SnapshotError::Invalid(plan.validation));
    }
    import_snapshot_new(path, destination_exists, &plan.snapshot, plan.validation, derived)
}

} // verus!
