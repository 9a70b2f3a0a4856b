//! Workspace lifecycle, maintenance and interchange.

use std::sync::Arc;

use mdtree::create::{prepare_node_mutation, NodeMutationDraft};
use mdtree::integrity::ComputedHashes;
use mdtree::maintenance::{
    check_workspace, combine_checks, doctor_workspace, plan_backup, plan_restore, validate_backup,
    CheckStatus, MaintenanceError, OpenedProbe,
};
use mdtree::migrations::{
    migrations, pending_migrations, MigrationError, LATEST_SCHEMA_VERSION, WORKSPACE_FORMAT_VERSION,
};
use mdtree::model::{
    DerivedNodeRecords, FtsDocument, Node, NodeHash, NodeId, NodeMetadata, NodeRevision, Reference,
    ReferenceOrigin, ReferenceTarget, Section, StoreError,
};
use mdtree::mutate::PreparedNodeMutation;
use mdtree::snapshot::{
    head_revision, import_markdown_snapshot_new, import_snapshot_new, sort_references, ImportPlan,
    Snapshot, SnapshotError, SnapshotValidationReport,
};
use mdtree::semantic::SemanticIndex;
use mdtree::tables::{ReferenceRow, SqliteStore};
use mdtree::workspace::{
    check_format, count, create_workspace, new_tables, sqlite_integer, validate_one_root,
    WorkspaceError,
};

const ROOT: &str = "01JZ8Q5CWPN8T7KPN5A1V9B6XM";
const CHILD: &str = "01JZ8Q5CWPN8T7KPN5A1V9B6XN";

fn no_vectors() -> SemanticIndex {
    SemanticIndex { profiles: vec![], active: None, revision: 0, chunks: vec![] }
}

fn id(value: &str) -> NodeId {
    NodeId::new(ulid::Ulid::from_string(value).expect("fixture ID").0)
}

fn hash(value: u128) -> NodeHash {
    NodeHash { high: 0, low: value }
}

fn node(raw: &str, parent: Option<NodeId>, title: &str, slug: &str) -> Node {
    Node {
        id: id(raw),
        parent_id: parent,
        slug: slug.into(),
        metadata: Arc::new(NodeMetadata {
            title: title.into(),
            summary: None,
            node_type: None,
            accepts_children: vec![],
            aliases: vec![],
            tags: vec![],
            keywords: vec![],
            owns: vec![],
            excludes: vec![],
            extra: "{}".into(),
        }),
        markdown_content: format!("# {title}\n"),
        sibling_order: 0,
        version: 1,
        content_hash: hash(1),
        revision_hash: hash(2),
        created_at: 1,
        updated_at: 1,
    }
}

fn derived(node: &Node, seed: u128) -> DerivedNodeRecords {
    DerivedNodeRecords {
        content_hash: node.content_hash,
        sections: vec![Arc::new(Section {
            id: NodeId::new(seed),
            node_id: node.id,
            parent_section_id: None,
            heading: None,
            heading_level: None,
            anchor: None,
            start_byte: 0,
            end_byte: 1,
            content: node.markdown_content.clone(),
            content_hash: vec![1; 32],
            position: 0,
        })],
        references: vec![],
        fts_documents: vec![Arc::new(FtsDocument {
            section_id: NodeId::new(seed),
            node_id: node.id,
            title: node.metadata.title.clone(),
            aliases: String::new(),
            summary: String::new(),
            heading: String::new(),
            content: node.markdown_content.clone(),
            tags: String::new(),
            keywords: String::new(),
        })],
    }
}

fn computed(store: &SqliteStore) -> Vec<ComputedHashes> {
    store
        .nodes
        .iter()
        .map(|node| ComputedHashes {
            node_id: node.id,
            content_hash: node.content_hash,
            revision_hash: node.revision_hash,
        })
        .collect()
}

fn link(source: NodeId, target: ReferenceTarget, kind: &str) -> Reference {
    Reference {
        source_node_id: source,
        source_section_id: None,
        reference_type: kind.into(),
        target,
        origin: ReferenceOrigin::Explicit,
        metadata: "{}".into(),
    }
}

fn unresolved(source: NodeId) -> Reference {
    link(source, ReferenceTarget::Unresolved { target_ref: "Missing".into() }, "references")
}

fn fixture() -> SqliteStore {
    let root = node(ROOT, None, "Northstar Platform", "northstar-platform");
    create_workspace("source.mdtree", false, &root, &derived(&root, 10)).expect("workspace")
}

#[test]
fn creates_and_reports_a_complete_workspace() {
    let root = node(ROOT, None, "Project", "project");
    let mut store =
        create_workspace("project.mdtree", false, &root, &derived(&root, 10)).expect("workspace");
    store.references.push(ReferenceRow { row_id: 1, reference: unresolved(root.id) });
    let status = store
        .workspace_status(WORKSPACE_FORMAT_VERSION, LATEST_SCHEMA_VERSION, true)
        .expect("workspace status");
    assert_eq!(status.root_id, root.id);
    assert_eq!(status.schema_version, LATEST_SCHEMA_VERSION);
    assert_eq!(status.node_count, 1);
    assert_eq!(status.section_count, 1);
    assert_eq!(status.reference_count, 1);
    assert_eq!(status.unresolved_reference_count, 1);
    assert!(status.search_index_present);
    assert!(store.is_well_formed());
    assert_eq!(store.revisions.len(), 1);
    assert_eq!(store.revisions[0].created_by.as_deref(), Some("mdtree"));
    assert_eq!(
        store.revisions[0].change_summary.as_deref(),
        Some("Initialize workspace root")
    );
    assert!(matches!(
        create_workspace("project.mdtree", true, &root, &derived(&root, 10)),
        Err(WorkspaceError::AlreadyExists(_))
    ));
    let child = node(CHILD, Some(root.id), "Child", "child");
    assert!(matches!(
        create_workspace("project.mdtree", false, &child, &derived(&child, 10)),
        Err(WorkspaceError::InitialNodeNotRoot)
    ));
    let mut late = node(ROOT, None, "Project", "project");
    late.updated_at = u64::MAX;
    assert!(matches!(
        create_workspace("project.mdtree", false, &late, &derived(&late, 10)),
        Err(WorkspaceError::IntegerOutOfRange { field: "updated_at", value: u64::MAX })
    ));
    let stray = derived(&child, 10);
    assert!(matches!(
        create_workspace("project.mdtree", false, &root, &stray),
        Err(WorkspaceError::Store(StoreError::ForeignKey))
    ));
}

#[test]
fn opening_rejects_missing_multiple_and_unsupported_roots_or_formats() {
    assert!(matches!(validate_one_root(0), Err(WorkspaceError::InvalidRootCount(0))));
    assert!(matches!(validate_one_root(2), Err(WorkspaceError::InvalidRootCount(2))));
    assert!(validate_one_root(1).is_ok());
    assert!(matches!(
        check_format(999),
        Err(WorkspaceError::UnsupportedFormat { found: 999, .. })
    ));
    assert!(check_format(WORKSPACE_FORMAT_VERSION).is_ok());
    assert!(!new_tables().is_well_formed());

    let mut multiple = fixture();
    multiple.nodes.push(node(CHILD, None, "Second", "second"));
    assert!(!multiple.is_well_formed());
}

#[test]
fn numbers_fit_signed_columns_or_are_refused() {
    assert_eq!(sqlite_integer("version", 7).expect("fits"), 7);
    assert!(matches!(
        sqlite_integer("version", 1 << 63),
        Err(WorkspaceError::IntegerOutOfRange { field: "version", .. })
    ));
    assert_eq!(count(3).expect("count"), 3);
    assert!(matches!(count(-1), Err(WorkspaceError::InvalidCount(-1))));
}

#[test]
fn new_database_migrates_to_latest_version() {
    let all = migrations();
    let pending = pending_migrations(&all, 0).expect("migrations");
    assert_eq!(pending.last().expect("last").version, LATEST_SCHEMA_VERSION);
    assert_eq!(pending.len(), all.len());
    assert!(pending_migrations(&all, i64::from(LATEST_SCHEMA_VERSION)).expect("none").is_empty());
    assert_eq!(pending_migrations(&all, 4).expect("tail")[0].version, 5);
    assert_eq!(
        pending_migrations(&all, 99).expect_err("newer"),
        MigrationError::NewerSchema { found: 99, supported: LATEST_SCHEMA_VERSION }
    );
    let error = pending_migrations(&all, -1).expect_err("negative");
    assert_eq!(
        error.message(),
        "database schema version 4294967295 is newer than supported version 6"
    );
}

#[test]
fn canonical_schema_rejects_orphans() {
    let mut store = new_tables();
    let child = node(CHILD, Some(id(ROOT)), "Child", "child");
    assert!(matches!(store.insert_node(&child), Err(StoreError::ForeignKey)));
}

#[test]
fn canonical_schema_rejects_duplicate_sibling_slugs() {
    let mut store = fixture();
    let first = node(CHILD, Some(id(ROOT)), "Database", "database");
    store.insert_node(&first).expect("first child");
    let second = node("01JZ8Q5CWPN8T7KPN5A1V9B6XP", Some(id(ROOT)), "Database", "database");
    assert!(matches!(store.insert_node(&second), Err(StoreError::Unique)));
    let nested = node("01JZ8Q5CWPN8T7KPN5A1V9B6XP", Some(id(CHILD)), "Database", "database");
    store.insert_node(&nested).expect("same slug below another parent");
}

#[test]
fn canonical_schema_rejects_a_second_root() {
    let mut store = fixture();
    let second = node(CHILD, None, "Second", "second");
    assert!(matches!(store.insert_node(&second), Err(StoreError::Unique)));
    let child = node(CHILD, Some(id(ROOT)), "Child", "child");
    store.insert_node(&child).expect("child");
    assert!(matches!(store.update_row(&second, 1), Err(StoreError::Unique)));
}

#[test]
fn derived_schema_enforces_foreign_keys_and_unique_versions() {
    let mut store = fixture();
    let root = store.root().expect("root");
    let stray = node(CHILD, Some(root.id), "Stray", "stray");
    assert!(matches!(
        store.replace_derived(root.id, &derived(&stray, 20)),
        Err(StoreError::ForeignKey)
    ));
    let revision = head_revision(&root);
    assert!(matches!(store.insert_revision(&revision), Err(StoreError::Unique)));
}

#[test]
fn one_service_prepares_matching_canonical_revision_and_derived_state() {
    let draft = || NodeMutationDraft {
        id: id(ROOT),
        parent_id: None,
        slug: "project".into(),
        metadata: node(ROOT, None, "Project", "project").metadata,
        markdown_content: "# Project\n\n## Scope\nText.\n".into(),
        sibling_order: 0,
        version: 1,
        created_at: 10,
        updated_at: 11,
        created_by: Some("test".into()),
        change_summary: Some("Create project".into()),
    };
    let records = || derived(&node(ROOT, None, "Project", "project"), 10);
    let first = prepare_node_mutation(draft(), hash(1), hash(2), records());
    let second = prepare_node_mutation(draft(), hash(1), hash(2), records());
    assert_eq!(first.node.slug, second.node.slug);
    assert_eq!(first.revision.revision_hash, first.node.revision_hash);
    assert_eq!(first.derived.content_hash, first.node.content_hash);
    assert_eq!(first.revision.markdown_content, first.node.markdown_content);
    assert_eq!(first.revision.created_at, 11);
    assert_eq!(first.node.created_at, 10);
    assert_eq!(first.revision.created_by.as_deref(), Some("test"));
    assert_eq!(first.revision.change_summary.as_deref(), Some("Create project"));
}

#[test]
fn online_backup_guarded_restore_check_and_doctor_are_safe() {
    let mut store = fixture();
    let hashes = computed(&store);
    assert!(plan_backup("backup.mdtree", false).is_ok());
    assert!(matches!(
        plan_backup("backup.mdtree", true),
        Err(MaintenanceError::AlreadyExists(path)) if path == "backup.mdtree"
    ));
    let healthy = check_workspace(&store, &no_vectors(), &vec!["ok".into()], &hashes);
    assert_eq!(healthy.status, CheckStatus::Healthy);
    assert!(validate_backup(&healthy).is_ok());
    assert!(plan_restore(&healthy, "restored.mdtree", false, false).is_ok());
    assert!(plan_restore(&healthy, "restored.mdtree", true, true).is_ok());
    assert!(matches!(
        plan_restore(&healthy, "restored.mdtree", true, false),
        Err(MaintenanceError::AlreadyExists(_))
    ));
    let corrupt = check_workspace(&store, &no_vectors(), &vec!["page 3 is never used".into()], &hashes);
    assert_eq!(corrupt.status, CheckStatus::Invalid);
    assert!(matches!(
        plan_restore(&corrupt, "restored.mdtree", true, true),
        Err(MaintenanceError::InvalidBackup(findings)) if findings == ["page 3 is never used"]
    ));

    store.sections.clear();
    let invalid = check_workspace(&store, &no_vectors(), &vec!["ok".into()], &hashes);
    assert_eq!(invalid.status, CheckStatus::Invalid);
    assert_eq!(
        invalid.mdtree_findings,
        vec!["fts_consistency: 0 sections but 1 FTS rows"]
    );
    assert_eq!(
        combine_checks(&vec!["ok".into()], &vec![]).status,
        CheckStatus::Healthy
    );

    let probe = OpenedProbe {
        fts5_available: true,
        schema: LATEST_SCHEMA_VERSION,
        read_only: false,
        locked: false,
    };
    let report = doctor_workspace("3.50.0".into(), &Ok(probe), Some(false));
    assert!(report.fts5_available);
    let codes: Vec<&str> = report.findings.iter().map(|f| f.code.as_str()).collect();
    assert_eq!(
        codes,
        vec!["format_compatibility", "write_permission", "write_lock", "fts5", "rebuild_recommended"]
    );
    assert!(report.findings.iter().all(|finding| !finding.blocking));
    let failing = doctor_workspace("3.50.0".into(), &Err("unable to open".into()), None);
    assert!(!failing.fts5_available);
    assert_eq!(failing.findings[0].code, "open");
    assert!(failing.findings.iter().all(|finding| finding.blocking));
    let future = OpenedProbe {
        fts5_available: true,
        schema: LATEST_SCHEMA_VERSION + 1,
        read_only: true,
        locked: true,
    };
    let report = doctor_workspace("3.50.0".into(), &Ok(future), Some(true));
    assert_eq!(report.findings[0].message, "schema 7 is newer than supported 6");
    assert_eq!(report.findings.iter().filter(|finding| finding.blocking).count(), 3);
}

fn valid() -> SnapshotValidationReport {
    SnapshotValidationReport { errors: vec![] }
}

#[test]
fn json_export_is_stable_validation_is_complete_and_import_round_trips() {
    let mut store = fixture();
    let root = store.root().expect("root");
    let child = node(CHILD, Some(root.id), "Orders", "orders");
    store
        .create_node(PreparedNodeMutation {
            node: child.copy(),
            revision: head_revision(&child),
            derived: derived(&child, 20),
        })
        .expect("create");
    let depends = link(
        child.id,
        ReferenceTarget::Resolved {
            node_id: root.id,
            target_ref: Some("Project".into()),
            anchor: None,
        },
        "depends_on",
    );
    store.insert_reference(&depends).expect("reference");

    // Every field of every node, revision and reference.
    let facts = |snapshot: &Snapshot| format!("{snapshot:?}");
    let first = store.export_snapshot("Northstar Platform".into());
    let second = store.export_snapshot("Northstar Platform".into());
    assert_eq!(facts(&first), facts(&second));
    assert_eq!(first.format, "mdtree-snapshot");
    assert_eq!(first.nodes.len(), 2);

    let records =
        || -> Vec<DerivedNodeRecords> { first.nodes.iter().zip(30..).map(|(n, s)| derived(n, s)).collect() };
    let report = SnapshotValidationReport { errors: vec!["duplicate_id".into(), "title".into()] };
    assert!(matches!(
        import_snapshot_new("imported.mdtree", false, &first, report, &records()),
        Err(SnapshotError::Invalid(report)) if report.errors == ["duplicate_id", "title"]
    ));
    assert!(matches!(
        import_snapshot_new("imported.mdtree", true, &first, valid(), &records()),
        Err(SnapshotError::Workspace(WorkspaceError::AlreadyExists(_)))
    ));
    let imported = import_snapshot_new("imported.mdtree", false, &first, valid(), &records())
        .expect("import");
    assert!(imported.is_well_formed());
    assert_eq!(
        facts(&imported.export_snapshot("Northstar Platform".into())),
        facts(&first)
    );
    assert_eq!(imported.get(child.id).expect("child").metadata.title, "Orders");
    assert_eq!(imported.backlinks(root.id).len(), 1);

    let plan = ImportPlan { snapshot: second, validation: valid() };
    let again = import_markdown_snapshot_new(plan, "markdown-import.mdtree", false, &records())
        .expect("Markdown import");
    assert_eq!(
        facts(&again.export_snapshot("Northstar Platform".into())),
        facts(&first)
    );
    let broken = ImportPlan {
        snapshot: store.export_snapshot("Northstar Platform".into()),
        validation: SnapshotValidationReport { errors: vec!["root_count".into()] },
    };
    assert!(import_markdown_snapshot_new(broken, "untouched.mdtree", false, &records()).is_err());
}

#[test]
fn a_node_below_a_younger_one_survives_export_and_import() {
    let mut store = fixture();
    let root = store.root().expect("root");
    let younger = node("01JZ8Q5CWPN8T7KPN5A1V9B6XP", Some(root.id), "Younger", "younger");
    let older = node(CHILD, Some(younger.id), "Older", "older");
    for (seed, item) in [(20, &younger), (30, &older)] {
        store
            .create_node(PreparedNodeMutation {
                node: item.copy(),
                revision: head_revision(item),
                derived: derived(item, seed),
            })
            .expect("create");
    }
    let exported = store.export_snapshot("Northstar Platform".into());
    assert_eq!(exported.nodes[1].id, older.id);
    let records = |snapshot: &Snapshot| -> Vec<DerivedNodeRecords> {
        snapshot.nodes.iter().zip(40..).map(|(n, s)| derived(n, s)).collect()
    };
    let imported =
        import_snapshot_new("imported.mdtree", false, &exported, valid(), &records(&exported))
            .expect("import");
    assert!(imported.is_well_formed());
    assert_eq!(
        format!("{:?}", imported.export_snapshot("Northstar Platform".into())),
        format!("{exported:?}")
    );
    let mut orphaned = store.export_snapshot("Northstar Platform".into());
    orphaned.nodes.pop();
    assert!(matches!(
        import_snapshot_new("imported.mdtree", false, &orphaned, valid(), &records(&orphaned)),
        Err(SnapshotError::Store(StoreError::ForeignKey))
    ));
}

#[test]
fn imports_without_history_record_their_heads() {
    let store = fixture();
    let mut snapshot = store.export_snapshot("Northstar Platform".into());
    snapshot.revisions = Vec::<NodeRevision>::new();
    let records = vec![derived(&snapshot.nodes[0], 40)];
    let imported =
        import_snapshot_new("imported.mdtree", false, &snapshot, valid(), &records).expect("import");
    assert_eq!(imported.revisions.len(), 1);
    assert_eq!(
        imported.revisions[0].change_summary.as_deref(),
        Some("Imported snapshot head")
    );
    assert_eq!(imported.revisions[0].created_by.as_deref(), Some("import"));
    let empty = Snapshot {
        format: "mdtree-snapshot".into(),
        workspace_name: "Empty".into(),
        workspace_format_version: 1,
        nodes: vec![],
        revisions: vec![],
        references: vec![],
    };
    assert!(matches!(
        import_snapshot_new("imported.mdtree", false, &empty, valid(), &vec![]),
        Err(SnapshotError::Invalid(_))
    ));
}

#[test]
fn exported_references_are_sorted_by_their_texts() {
    let root = id(ROOT);
    let list = vec![
        link(root, ReferenceTarget::Unresolved { target_ref: "b".into() }, "b"),
        link(root, ReferenceTarget::Unresolved { target_ref: "a".into() }, "a"),
        link(root, ReferenceTarget::Unresolved { target_ref: "c".into() }, "c"),
    ];
    let keys: Vec<String> = list.iter().map(|r| r.reference_type.clone()).collect();
    let sorted = sort_references(&list, &keys);
    let kinds: Vec<&str> = sorted.iter().map(|r| r.reference_type.as_str()).collect();
    assert_eq!(kinds, vec!["a", "b", "c"]);
}

#[test]
fn a_partial_export_stops_at_its_depth() {
    let mut store = fixture();
    let root = store.root().expect("root");
    let child = node(CHILD, Some(root.id), "Orders", "orders");
    let leaf = node("01JZ8Q5CWPN8T7KPN5A1V9B6XP", Some(child.id), "Leaf", "leaf");
    store.insert_node(&child).expect("child");
    store.insert_node(&leaf).expect("leaf");
    assert_eq!(store.exported_nodes(root.id, None).len(), 3);
    assert_eq!(store.exported_nodes(root.id, Some(1)).len(), 2);
    assert_eq!(store.exported_nodes(root.id, Some(0)).len(), 1);
}
