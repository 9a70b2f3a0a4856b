//! Workspace creation, opening and status.

use crate::create::{make_revision, revision_of};
use crate::edits::subtree_flags;
use crate::migrations::{MigrationError, WORKSPACE_FORMAT_VERSION};
use crate::model::{DerivedNodeRecords, Node, NodeId, Refusal, RevisionView, StoreError};
use crate::removal::count_where;
use crate::tables::{distinct_slugs, fits_columns, storable, RowView, SqliteStore, Tables};
use crate::tree::{
    acyclic, below, climb, ends, find, is_sole_root, is_tree, lemma_climb_shift, lemma_position,
    links, position, present, unique_ids,
};
use vstd::prelude::*;

verus! {

/// Workspace lifecycle or validation failure.
#[derive(Debug)]
pub enum WorkspaceError {
    /// Destination already exists and was not overwritten.
    AlreadyExists(String),
    /// Supplied initial node is not a structural root.
    InitialNodeNotRoot,
    /// Workspace has an invalid number of roots.
    InvalidRootCount(u32),
    /// Workspace format is newer than this library supports.
    UnsupportedFormat { found: u32, supported: u32 },
    /// Unsigned value that a signed column cannot hold.
    IntegerOutOfRange { field: &'static str, value: u64 },
    /// A count query returned an impossible negative value.
    InvalidCount(i64),
    /// Schema migration failed.
    Migration(MigrationError),
    /// Canonical or derived root persistence failed.
    Store(StoreError),
}

/// Summary of workspace storage and index state.
#[derive(Clone, Copy, Debug, PartialEq, Eq, Structural)]
pub struct WorkspaceStatus {
    pub format_version: u32,
    pub schema_version: u32,
    pub root_id: NodeId,
    pub node_count: u64,
    pub section_count: u64,
    pub reference_count: u64,
    pub unresolved_reference_count: u64,
    /// Whether the search index exists.
    pub search_index_present: bool,
}

/// Converts a value to a signed column.
pub fn sqlite_integer(field: &'static str, value: u64) -> (result: Result<i64, WorkspaceError>)
    ensures
        storable(value) ==> result is Ok && result->Ok_0 as int == value as int,
        !storable(value) ==> (result matches Err(WorkspaceError::IntegerOutOfRange {
            field: f,
            value: v,
        }) && f@ == field@ && v == value),
{
    if value <= 0x7fff_ffff_ffff_ffff {
        Ok(value as i64)
    } else {
        Err(WorkspaceError::IntegerOutOfRange { field, value })
    }
}

/// Reads a count.
pub fn count(value: i64) -> (result: Result<u64, WorkspaceError>)
    ensures
        value >= 0 ==> result is Ok && result->Ok_0 as int == value as int,
        value < 0 ==> (result matches Err(WorkspaceError::InvalidCount(v)) && v == value),
{
    if value >= 0 {
        Ok(value as u64)
    } else {
        Err(WorkspaceError::InvalidCount(value))
    }
}

/// Refuses a workspace format newer than the supported one.
pub fn check_format(found: u32) -> (result: Result<(), WorkspaceError>)
    ensures
        found <= WORKSPACE_FORMAT_VERSION ==> result is Ok,
        found > WORKSPACE_FORMAT_VERSION ==> (result matches Err(
            WorkspaceError::UnsupportedFormat { found: f, supported },
        ) && f == found && supported == WORKSPACE_FORMAT_VERSION),
{
    if found > WORKSPACE_FORMAT_VERSION {
        Err(WorkspaceError::UnsupportedFormat { found, supported: WORKSPACE_FORMAT_VERSION })
    } else {
        Ok(())
    }
}

/// Refuses a workspace without exactly one root.
pub fn validate_one_root(roots: u32) -> (result: Result<(), WorkspaceError>)
    ensures
        roots == 1 ==> result is Ok,
        roots != 1 ==> (result matches Err(WorkspaceError::InvalidRootCount(n)) && n == roots),
{
    if roots == 1 {
        Ok(())
    } else {
        Err(WorkspaceError::InvalidRootCount(roots))
    }
}

/// The revision that records the root of a new workspace.
pub open spec fn root_revision(root: Node) -> RevisionView {
    revision_of(
        Node { sibling_order: 0, ..root },
        Some("Initialize workspace root"@),
        Some("mdtree"@),
        root.created_at,
    )
}

/// Tables without any row.
pub open spec fn empty_tables() -> Tables {
    Tables {
        nodes: Seq::empty(),
        revisions: Seq::empty(),
        references: Seq::empty(),
        sections: Seq::empty(),
        fts: Seq::empty(),
        receipts: Seq::empty(),
        revision: 0,
    }
}

/// Makes tables without any row.
pub fn new_tables() -> (store: SqliteStore)
    ensures
        store@ == empty_tables(),
{
    let store = SqliteStore {
        nodes: Vec::new(),
        revisions: Vec::new(),
        references: Vec::new(),
        sections: Vec::new(),
        fts: Vec::new(),
        receipts: Vec::new(),
        revision: 0,
    };
    assert(store@.nodes =~= Seq::empty());
    assert(store@.revisions =~= Seq::empty());
    assert(store@.references =~= Seq::empty());
    assert(store@.sections =~= Seq::empty());
    assert(store@.fts =~= Seq::empty());
    assert(store@.receipts =~= Seq::empty());
    store
}

/// The tables of a new workspace, or why its root cannot be stored.
pub open spec fn initialized(root: Node, derived: DerivedNodeRecords) -> Result<Tables, Refusal> {
    match empty_tables().insert_node(root) {
        Err(e) => Err(e),
        Ok(t) => match t.insert_revision(root_revision(root)) {
            Err(e) => Err(e),
            Ok(u) => u.replace_derived(root.id, derived),
        },
    }
}

/// The first number of a root that does not fit its column.
pub open spec fn unstorable(root: Node) -> Option<(Seq<char>, u64)> {
    if !storable(root.created_at) {
        Some(("created_at"@, root.created_at))
    } else if !storable(root.updated_at) {
        Some(("updated_at"@, root.updated_at))
    } else if !storable(root.version) {
        Some(("version"@, root.version))
    } else {
        None
    }
}

/// Creates a new workspace without overwriting an existing destination.
pub fn create_workspace(
    path: &str,
    destination_exists: bool,
    root: &Node,
    derived: &DerivedNodeRecords,
) -> (result: Result<SqliteStore, WorkspaceError>)
    ensures
        if root.parent_id is Some {
            result matches Err(WorkspaceError::InitialNodeNotRoot)
        } else if destination_exists {
            result matches Err(WorkspaceError::AlreadyExists(p)) && p@ == path@
        } else if let Some((name, number)) = unstorable(*root) {
            result matches Err(WorkspaceError::IntegerOutOfRange { field, value }) && field@ == name
                && value == number
        } else {
            match initialized(*root, *derived) {
                Ok(t) => result is Ok && result->Ok_0@ == t,
                Err(e) => result matches Err(WorkspaceError::Store(x)) && x@ == e,
            }
        },
{
    if root.parent_id.is_some() {
        return Err(WorkspaceError::InitialNodeNotRoot);
    }
    if destination_exists {
        return Err(WorkspaceError::AlreadyExists(path.to_owned()));
    }
    let _ = sqlite_integer("created_at", root.created_at)?;
    let _ = sqlite_integer("updated_at", root.updated_at)?;
    let _ = sqlite_integer("version", root.version)?;
    let mut store = new_tables();
    match store.insert_node(root) {
        Ok(_) => {},
        Err(e) => {
            return Err(WorkspaceError::Store(e));
        },
    }
    let revision = make_revision(
        &root.copy_at(0),
        Some("Initialize workspace root".to_owned()),
        Some("mdtree".to_owned()),
        root.created_at,
    );
    match store.insert_revision(&revision) {
        Ok(_) => {},
        Err(e) => {
            return Err(WorkspaceError::Store(e));
        },
    }
    match store.replace_derived(root.id, derived) {
        Ok(_) => {},
        Err(e) => {
            return Err(WorkspaceError::Store(e));
        },
    }
    Ok(store)
}

/// A new workspace is well formed: its root alone is a tree.
pub proof fn law_new_workspace_is_tree(root: Node, derived: DerivedNodeRecords)
    requires
        root.parent_id is None,
    ensures
        initialized(root, derived) matches Ok(t) ==> t.wf(),
{
    if initialized(root, derived) is Ok {
        let t = empty_tables().insert_node(root)->Ok_0;
        let u = t.insert_revision(root_revision(root))->Ok_0;
        assert(t.nodes =~= seq![root]);
        crate::reorder::lemma_derived_nodes(u, root.id, derived);
        assert(crate::laws::rows_ascend(u.references));
        crate::laws::lemma_derived_ascend(u, root.id, derived);
        let w = u.replace_derived(root.id, derived)->Ok_0;
        let up = links(w.nodes);
        lemma_position(w.nodes, 0);
        assert forall|id: NodeId| #[trigger] ends(up, id) by {
            lemma_climb_shift(up, id, 0);
            if up.contains_key(id) {
                assert(present(w.nodes, id));
                assert(w.nodes[position(w.nodes, id)].id == id);
            }
            assert(climb(up, id, 1) is None);
        }
        assert(is_sole_root(w.nodes, 0));
        assert(w.unique_versions());
    }
}

impl SqliteStore {
    /// Whether identities repeat.
    fn has_unique_ids(&self) -> (unique: bool)
        ensures
            unique == unique_ids(self@.nodes),
    {
        let mut i: usize = 0;
        while i < self.nodes.len()
            invariant
                i <= self.nodes.len(),
                forall|a: int, b: int|
                    0 <= a < i && 0 <= b < self@.nodes.len() && #[trigger] self@.nodes[a].id
                        == #[trigger] self@.nodes[b].id ==> a == b,
            decreases self.nodes.len() - i,
        {
            let mut j: usize = 0;
            while j < self.nodes.len()
                invariant
                    i < self.nodes.len(),
                    j <= self.nodes.len(),
                    forall|b: int|
                        0 <= b < j && #[trigger] self@.nodes[b].id == self@.nodes[i as int].id ==> b
                            == i,
                decreases self.nodes.len() - j,
            {
                if i != j && self.nodes[i].id == self.nodes[j].id {
                    assert(self@.nodes[i as int].id == self@.nodes[j as int].id);
                    return false;
                }
                j = j + 1;
            }
            i = i + 1;
        }
        true
    }

    /// Whether the node rows form one tree.
    pub fn is_one_tree(&self) -> (ok: bool)
        ensures
            ok == is_tree(self@.nodes),
    {
        if !self.has_unique_ids() {
            return false;
        }
        let ghost nodes = self@.nodes;
        let mut root: Option<usize> = None;
        let mut i: usize = 0;
        while i < self.nodes.len()
            invariant
                i <= self.nodes.len(),
                nodes == self@.nodes,
                unique_ids(nodes),
                forall|k: int|
                    0 <= k < i && (#[trigger] nodes[k]).parent_id is Some ==> present(
                        nodes,
                        nodes[k].parent_id->0,
                    ),
                match root {
                    None => forall|k: int| 0 <= k < i ==> (#[trigger] nodes[k]).parent_id is Some,
                    Some(r) => r < i && forall|k: int|
                        0 <= k < i ==> ((#[trigger] nodes[k]).parent_id is None <==> k == r),
                },
            decreases self.nodes.len() - i,
        {
            match self.nodes[i].parent_id {
                Some(p) => {
                    if find(&self.nodes, p).is_none() {
                        assert(nodes[i as int].parent_id is Some);
                        return false;
                    }
                },
                None => {
                    match root {
                        Some(r) => {
                            proof {
                                if is_tree(nodes) {
                                    let q = choose|q: int| is_sole_root(nodes, q);
                                    assert(nodes[i as int].parent_id is None <==> i == q);
                                    assert(nodes[r as int].parent_id is None <==> r == q);
                                    assert(nodes[r as int].parent_id is None);
                                }
                            }
                            return false;
                        },
                        None => {
                            root = Some(i);
                        },
                    }
                },
            }
            i = i + 1;
        }
        let top: usize = match root {
            Some(r) => r,
            None => {
                proof {
                    if is_tree(nodes) {
                        let q = choose|q: int| is_sole_root(nodes, q);
                        assert(nodes[q].parent_id is None);
                    }
                }
                return false;
            },
        };
        proof {
            assert(is_sole_root(nodes, top as int));
        }
        let flags = subtree_flags(&self.nodes, self.nodes[top].id);
        let ghost up = links(nodes);
        let mut j: usize = 0;
        while j < self.nodes.len()
            invariant
                j <= self.nodes.len(),
                nodes == self@.nodes,
                up == links(nodes),
                top < nodes.len(),
                is_sole_root(nodes, top as int),
                flags.len() == nodes.len(),
                forall|k: int|
                    0 <= k < nodes.len() ==> #[trigger] flags@[k] == below(
                        up,
                        nodes[top as int].id,
                        nodes[k].id,
                    ),
                forall|k: int| 0 <= k < j ==> #[trigger] flags@[k],
            decreases self.nodes.len() - j,
        {
            if !flags[j] {
                proof {
                    if is_tree(nodes) {
                        assert(nodes[j as int].id == nodes[j as int].id);
                        assert(present(nodes, nodes[j as int].id));
                        crate::relations::lemma_below_root(
                            nodes,
                            top as int,
                            nodes[j as int].id,
                        );
                    }
                }
                return false;
            }
            j = j + 1;
        }
        proof {
            assert forall|k: int| 0 <= k < nodes.len() implies below(
                links(nodes),
                nodes[top as int].id,
                #[trigger] nodes[k].id,
            ) by {
                assert(flags@[k]);
            }
            lemma_reachable_acyclic(nodes, top as int);
        }
        true
    }

    fn has_bounded_versions(&self) -> (bounded: bool)
        ensures
            bounded == self@.bounded_versions(),
    {
        let mut i: usize = 0;
        while i < self.nodes.len()
            invariant
                i <= self.nodes.len(),
                forall|k: int| 0 <= k < i ==> storable((#[trigger] self@.nodes[k]).version),
            decreases self.nodes.len() - i,
        {
            if self.nodes[i].version > 0x7fff_ffff_ffff_ffff {
                assert(!storable(self@.nodes[i as int].version));
                return false;
            }
            i = i + 1;
        }
        true
    }

    fn has_distinct_slugs(&self) -> (distinct: bool)
        ensures
            distinct == distinct_slugs(self@.nodes),
    {
        let ghost nodes = self@.nodes;
        let mut i: usize = 0;
        while i < self.nodes.len()
            invariant
                i <= self.nodes.len(),
                nodes == self@.nodes,
                forall|a: int, b: int|
                    0 <= a < i && 0 <= b < nodes.len() && (#[trigger] nodes[a]).parent_id is Some
                        && nodes[a].parent_id == (#[trigger] nodes[b]).parent_id && nodes[a].slug@
                        == nodes[b].slug@ ==> a == b,
            decreases self.nodes.len() - i,
        {
            let mut j: usize = 0;
            while j < self.nodes.len()
                invariant
                    i < self.nodes.len(),
                    j <= self.nodes.len(),
                    nodes == self@.nodes,
                    forall|b: int|
                        0 <= b < j && nodes[i as int].parent_id is Some && nodes[i as int].parent_id
                            == (#[trigger] nodes[b]).parent_id && nodes[i as int].slug@
                            == nodes[b].slug@ ==> i == b,
                decreases self.nodes.len() - j,
            {
                if i != j {
                    let siblings: bool = match (self.nodes[i].parent_id, self.nodes[j].parent_id) {
                        (Some(a), Some(b)) => a == b,
                        _ => false,
                    };
                    if siblings && self.nodes[i].slug == self.nodes[j].slug {
                        assert(nodes[i as int].parent_id is Some && nodes[i as int].parent_id
                            == nodes[j as int].parent_id);
                        return false;
                    }
                }
                j = j + 1;
            }
            i = i + 1;
        }
        true
    }

    fn has_fitting_numbers(&self) -> (fitting: bool)
        ensures
            fitting == fits_columns(self@),
    {
        let mut i: usize = 0;
        while i < self.nodes.len()
            invariant
                i <= self.nodes.len(),
                forall|k: int|
                    0 <= k < i ==> storable((#[trigger] self@.nodes[k]).created_at) && storable(
                        self@.nodes[k].updated_at,
                    ),
            decreases self.nodes.len() - i,
        {
            if self.nodes[i].created_at > 0x7fff_ffff_ffff_ffff || self.nodes[i].updated_at
                > 0x7fff_ffff_ffff_ffff {
                assert(!(storable(self@.nodes[i as int].created_at) && storable(
                    self@.nodes[i as int].updated_at,
                )));
                return false;
            }
            i = i + 1;
        }
        let mut j: usize = 0;
        while j < self.revisions.len()
            invariant
                j <= self.revisions.len(),
                forall|k: int|
                    0 <= k < self@.nodes.len() ==> storable((#[trigger] self@.nodes[k]).created_at)
                        && storable(self@.nodes[k].updated_at),
                forall|k: int|
                    0 <= k < j ==> storable((#[trigger] self@.revisions[k]).version) && storable(
                        self@.revisions[k].created_at,
                    ),
            decreases self.revisions.len() - j,
        {
            assert(self@.revisions[j as int] == self.revisions@[j as int]@);
            if self.revisions[j].version > 0x7fff_ffff_ffff_ffff || self.revisions[j].created_at
                > 0x7fff_ffff_ffff_ffff {
                assert(!(storable(self@.revisions[j as int].version) && storable(
                    self@.revisions[j as int].created_at,
                )));
                return false;
            }
            j = j + 1;
        }
        assert(self@.revisions.len() == self.revisions@.len());
        true
    }

    /// Whether the rows satisfy everything that holds of a workspace.
    pub fn is_well_formed(&self) -> (ok: bool)
        ensures
            ok == self@.wf(),
    {
        self.is_one_tree() && self.has_bounded_versions() && self.has_unique_versions()
            && self.has_ascending_rows() && self.has_distinct_slugs() && self.has_fitting_numbers()
    }

    fn has_unique_versions(&self) -> (unique: bool)
        ensures
            unique == self@.unique_versions(),
    {
        let mut i: usize = 0;
        while i < self.revisions.len()
            invariant
                i <= self.revisions.len(),
                forall|a: int, b: int|
                    0 <= a < i && 0 <= b < self@.revisions.len() && (
                    #[trigger] self@.revisions[a]).node_id == (#[trigger] self@.revisions[b]).node_id
                        && self@.revisions[a].version == self@.revisions[b].version ==> a == b,
            decreases self.revisions.len() - i,
        {
            let mut j: usize = 0;
            while j < self.revisions.len()
                invariant
                    i < self.revisions.len(),
                    j <= self.revisions.len(),
                    forall|b: int|
                        0 <= b < j && (#[trigger] self@.revisions[b]).node_id
                            == self@.revisions[i as int].node_id && self@.revisions[b].version
                            == self@.revisions[i as int].version ==> b == i,
                decreases self.revisions.len() - j,
            {
                assert(self@.revisions[i as int] == self.revisions@[i as int]@);
                assert(self@.revisions[j as int] == self.revisions@[j as int]@);
                if i != j && self.revisions[i].node_id == self.revisions[j].node_id
                    && self.revisions[i].version == self.revisions[j].version {
                    return false;
                }
                j = j + 1;
            }
            i = i + 1;
        }
        true
    }

    fn has_ascending_rows(&self) -> (ascending: bool)
        ensures
            ascending == self@.ascending_rows(),
    {
        let mut i: usize = 0;
        while i < self.references.len()
            invariant
                i <= self.references.len(),
                forall|a: int, b: int|
                    0 <= a < b < i ==> (#[trigger] self@.references[a]).row_id < (
                    #[trigger] self@.references[b]).row_id,
            decreases self.references.len() - i,
        {
            if i > 0 {
                assert(self@.references[i as int].row_id == self.references@[i as int].row_id);
                assert(self@.references[i - 1].row_id == self.references@[i - 1].row_id);
                if self.references[i - 1].row_id >= self.references[i].row_id {
                    return false;
                }
                assert forall|a: int| 0 <= a < i implies (#[trigger] self@.references[a]).row_id
                    < self@.references[i as int].row_id by {
                    if a < i - 1 {
                        assert(self@.references[a].row_id < self@.references[i - 1].row_id);
                    }
                }
            }
            i = i + 1;
        }
        true
    }

    /// Reads workspace versions, counts, root identity, and search-index state.
    pub fn workspace_status(
        &self,
        format_version: u32,
        schema_version: u32,
        search_index_present: bool,
    ) -> (result: Result<WorkspaceStatus, StoreError>)
        ensures
            describes_workspace(self@, format_version, schema_version, search_index_present, result),
    {
        let root = self.root()?;
        let ghost pred = |r: RowView| r.reference.target is Unresolved;
        let mut unresolved: u64 = 0;
        let mut i: usize = 0;
        while i < self.references.len()
            invariant
                i <= self.references.len(),
                pred == (|r: RowView| r.reference.target is Unresolved),
                unresolved <= i,
                unresolved == count_where(self@.references, pred, i as int),
            decreases self.references.len() - i,
        {
            assert(self@.references[i as int].reference == self.references@[i as int].reference@);
            let open: bool = match &self.references[i].reference.target {
                crate::model::ReferenceTarget::Unresolved { .. } => true,
                crate::model::ReferenceTarget::Resolved { .. } => false,
            };
            if open {
                unresolved = unresolved + 1;
            }
            i = i + 1;
        }
        assert(self@.references.len() == self.references@.len());
        Ok(
            WorkspaceStatus {
                format_version,
                schema_version,
                root_id: root.id,
                node_count: self.nodes.len() as u64,
                section_count: self.sections.len() as u64,
                reference_count: self.references.len() as u64,
                unresolved_reference_count: unresolved,
                search_index_present,
            },
        )
    }
}

/// Where every node hangs on the one root, climbing ends everywhere.
proof fn lemma_reachable_acyclic(nodes: Seq<Node>, r: int)
    requires
        unique_ids(nodes),
        is_sole_root(nodes, r),
        forall|i: int|
            0 <= i < nodes.len() ==> below(
                links(nodes),
                nodes[r].id,
                #[trigger] nodes[i].id,
            ),
    ensures
        acyclic(links(nodes)),
{
    let up = links(nodes);
    lemma_position(nodes, r);
    assert forall|id: NodeId| #[trigger] ends(up, id) by {
        if present(nodes, id) {
            let i = position(nodes, id);
            assert(nodes[i].id == id);
            let k = choose|k: nat| #[trigger] climb(up, id, k) == Some(nodes[r].id);
            assert(climb(up, id, k + 1) is None);
        } else {
            lemma_climb_shift(up, id, 0);
            assert(climb(up, id, 1) is None);
        }
    }
}

/// Whether the result describes the workspace.
pub open spec fn describes_workspace(
    t: Tables,
    format_version: u32,
    schema_version: u32,
    search_index_present: bool,
    result: Result<WorkspaceStatus, StoreError>,
) -> bool {
    match crate::reads::root_of(t.nodes) {
        None => result is Err && result->Err_0@ == Refusal::NotFound("root"@),
        Some(root) => result is Ok && result->Ok_0 == (WorkspaceStatus {
            format_version,
            schema_version,
            root_id: root.id,
            node_count: t.nodes.len() as u64,
            section_count: t.sections.len() as u64,
            reference_count: t.references.len() as u64,
            unresolved_reference_count: count_where(
                t.references,
                |r: RowView| r.reference.target is Unresolved,
                t.references.len() as int,
            ) as u64,
            search_index_present,
        }),
    }
}

} // verus!
