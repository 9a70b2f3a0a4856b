//! Canonical reads and mutations of a workspace.

use std::sync::Arc;

use mdtree::create::{prepare_node_mutation, NodeMutationDraft};
use mdtree::diagnostics::RebuiltNode;
use mdtree::integrity::ComputedHashes;
use mdtree::model::{
    DerivedNodeRecords, FtsDocument, Node, NodeHash, NodeId, NodeMetadata, NodeRevision, Reference,
    ReferenceOrigin, ReferenceTarget, Section, StoreError,
};
use mdtree::mutate::{MutationOutcome, NodeChange, PreparedNodeMutation};
use mdtree::mutation_batch::PreparedBatchOperation;
use mdtree::paging::{CursorScope, PageCursor, PageLimit, PagePosition, PaginationError};
use mdtree::reads::NodeSelector;
use mdtree::references::{origin, parse_origin, ReferenceResolution};
use mdtree::reorder::SiblingHash;
use mdtree::semantic::SemanticIndex;
use mdtree::tables::{integer, nonnegative, ReferenceRow, SqliteStore};
use mdtree::tree_batch::{AtomicTreeMove, AtomicTreeRemoval};
use mdtree::workspace::create_workspace;

const ROOT: &str = "01JZ8Q5CWPN8T7KPN5A1V9B6XM";

fn no_vectors() -> SemanticIndex {
    SemanticIndex { profiles: vec![], active: None, revision: 0, chunks: vec![] }
}

fn id(value: &str) -> NodeId {
    NodeId::new(ulid::Ulid::from_string(value).expect("fixture ID").0)
}

fn hash(byte: u64) -> NodeHash {
    let word = u128::from_be_bytes([u8::try_from(byte).expect("test version"); 16]);
    NodeHash { high: word, low: word }
}

fn metadata(title: &str) -> Arc<NodeMetadata> {
    Arc::new(NodeMetadata {
        title: title.into(),
        summary: None,
        node_type: None,
        accepts_children: vec![],
        aliases: vec![],
        tags: vec![],
        keywords: vec![],
        owns: vec![],
        excludes: vec![],
        extra: "{}".into(),
    })
}

fn node(
    raw_id: &str,
    parent: Option<NodeId>,
    title: &str,
    slug: &str,
    order: u32,
    version: u64,
) -> Node {
    Node {
        id: id(raw_id),
        parent_id: parent,
        slug: slug.into(),
        metadata: metadata(title),
        markdown_content: format!("# {title}\n"),
        sibling_order: order,
        version,
        content_hash: hash(version),
        revision_hash: hash(version + 1),
        created_at: 1,
        updated_at: version,
    }
}

fn revision(node: &Node) -> NodeRevision {
    NodeRevision {
        node_id: node.id,
        parent_id: node.parent_id,
        slug: node.slug.clone(),
        metadata: node.metadata.clone(),
        markdown_content: node.markdown_content.clone(),
        sibling_order: node.sibling_order,
        version: node.version,
        content_hash: node.content_hash,
        revision_hash: node.revision_hash,
        change_summary: Some("test mutation".into()),
        created_by: Some("test".into()),
        created_at: node.updated_at,
    }
}

fn derived(node: &Node, seed: u64) -> DerivedNodeRecords {
    let section_id = NodeId::new(u128::from(seed));
    let title = node.metadata.title.clone();
    DerivedNodeRecords {
        content_hash: node.content_hash,
        sections: vec![Arc::new(Section {
            id: section_id,
            node_id: node.id,
            parent_section_id: None,
            heading: Some(title.clone()),
            heading_level: Some(1),
            anchor: Some(title.to_lowercase()),
            start_byte: 0,
            end_byte: node.markdown_content.len() as u64,
            content: node.markdown_content.clone(),
            content_hash: vec![1; 32],
            position: 0,
        })],
        references: vec![],
        fts_documents: vec![Arc::new(FtsDocument {
            section_id,
            node_id: node.id,
            title: title.clone(),
            aliases: String::new(),
            summary: String::new(),
            heading: title,
            content: node.markdown_content.clone(),
            tags: String::new(),
            keywords: String::new(),
        })],
    }
}

fn misplaced(node: &Node, seed: u64) -> DerivedNodeRecords {
    let mut records = derived(node, seed);
    let section = &records.sections[0];
    records.sections[0] = Arc::new(Section {
        id: section.id,
        node_id: id("01JZ8Q5CWPN8T7KPN5A1V9B6XZ"),
        parent_section_id: None,
        heading: section.heading.clone(),
        heading_level: section.heading_level,
        anchor: section.anchor.clone(),
        start_byte: section.start_byte,
        end_byte: section.end_byte,
        content: section.content.clone(),
        content_hash: section.content_hash.clone(),
        position: section.position,
    });
    records
}

fn prepared(node: &Node, seed: u64) -> PreparedNodeMutation {
    PreparedNodeMutation {
        node: node.copy(),
        revision: revision(node),
        derived: derived(node, seed),
    }
}

fn fixture() -> SqliteStore {
    let root = node(ROOT, None, "Project", "project", 0, 1);
    create_workspace("store.mdtree", false, &root, &derived(&root, 1)).expect("workspace")
}

fn create(store: &mut SqliteStore, node: &Node, seed: u64) {
    store.create_node(prepared(node, seed)).expect("node creation");
}

fn titles(store: &SqliteStore, parent: NodeId) -> Vec<String> {
    store
        .children(parent)
        .iter()
        .map(|child| child.metadata.title.clone())
        .collect()
}

fn versions(store: &SqliteStore, node: NodeId) -> Vec<u64> {
    store.revisions(node).iter().map(|revision| revision.version).collect()
}

fn explicit(source: NodeId, kind: &str, target: ReferenceTarget) -> Reference {
    Reference {
        source_node_id: source,
        source_section_id: None,
        reference_type: kind.into(),
        target,
        origin: ReferenceOrigin::Explicit,
        metadata: "{}".into(),
    }
}

fn path(slugs: &[&str]) -> NodeSelector {
    NodeSelector::Path(slugs.iter().map(|slug| (*slug).to_string()).collect())
}

#[test]
fn history_pruning_retains_heads_versions_and_invalidates_cursors() {
    let mut store = fixture();
    let root = store.root().expect("root");
    let raw = "01JZ8Q5CWPN8T7KPN5A1V9B6XN";
    let child = node(raw, Some(root.id), "Child", "child", 0, 1);
    create(&mut store, &child, 100);
    let version_two = node(raw, Some(root.id), "Version Two", "version-two", 0, 2);
    store
        .rename_node(prepared(&version_two, 200).change(1))
        .expect("second revision");

    let workspace_revision = store.workspace_revision();
    let planned = store.plan_history_prune().expect("prune plan");
    assert_eq!(planned.node_count, 2);
    assert_eq!(planned.revisions_before, 3);
    assert_eq!(planned.revisions_removed, 1);
    assert_eq!(store.revisions(child.id).len(), 2);

    let pruned = store.prune_history().expect("prune");
    assert_eq!(pruned.revisions_before, planned.revisions_before);
    assert_eq!(pruned.revisions_removed, planned.revisions_removed);
    assert_eq!(pruned.revisions_retained, 2);
    assert_eq!(store.workspace_revision(), workspace_revision + 1);
    assert_eq!(versions(&store, child.id), vec![2]);
    assert!(store.revision(child.id, 1).expect("old revision lookup").is_none());

    let again = store.prune_history().expect("nothing to prune");
    assert_eq!(again.revisions_removed, 0);
    assert_eq!(store.workspace_revision(), workspace_revision + 1);

    let version_three = node(raw, Some(root.id), "Version Three", "version-three", 0, 3);
    store
        .rename_node(prepared(&version_three, 300).change(2))
        .expect("post-prune revision");
    assert_eq!(versions(&store, child.id), vec![2, 3]);
}

#[test]
fn history_pruning_refuses_a_missing_canonical_head() {
    let mut store = fixture();
    store.revisions.clear();
    let error = store.prune_history().expect_err("corrupt history must be rejected");
    assert!(matches!(error, StoreError::Invariant(_)));
    assert_eq!(store.nodes.len(), 1);
}

#[test]
fn reads_selectors_traversal_depths_and_paths_on_asymmetric_tree() {
    let mut store = fixture();
    let root = store.root().expect("root");
    let area = node("01JZ8Q5CWPN8T7KPN5A1V9B6XN", Some(root.id), "Area", "area", 0, 1);
    let sibling = node("01JZ8Q5CWPN8T7KPN5A1V9B6XP", Some(root.id), "Other", "other", 1, 1);
    let leaf = node("01JZ8Q5CWPN8T7KPN5A1V9B6XQ", Some(area.id), "Leaf", "leaf", 0, 1);
    let other_leaf =
        node("01JZ8Q5CWPN8T7KPN5A1V9B6XR", Some(sibling.id), "Other Leaf", "leaf", 0, 1);
    create(&mut store, &area, 100);
    create(&mut store, &sibling, 200);
    create(&mut store, &leaf, 300);
    create(&mut store, &other_leaf, 400);

    assert_eq!(store.get(leaf.id).map(|n| n.id), Some(leaf.id));
    assert_eq!(
        store.resolve(&path(&["area", "leaf"])).expect("resolve").map(|n| n.id),
        Some(leaf.id)
    );
    assert_eq!(
        store.resolve(&path(&["project", "area", "leaf"])).expect("resolve").map(|n| n.id),
        Some(leaf.id)
    );
    assert!(store.resolve(&NodeSelector::Slug("missing".into())).expect("missing").is_none());
    assert!(matches!(
        store.resolve(&NodeSelector::Slug("leaf".into())),
        Err(StoreError::Ambiguous(_))
    ));
    assert_eq!(
        store.children(root.id).iter().map(|n| n.id).collect::<Vec<_>>(),
        vec![area.id, sibling.id]
    );
    assert_eq!(
        store.descendants(root.id).iter().map(|n| n.depth).collect::<Vec<_>>(),
        vec![1, 2, 1, 2]
    );
    assert_eq!(
        store.ancestors(leaf.id).iter().map(|n| n.depth).collect::<Vec<_>>(),
        vec![2, 1]
    );
    assert_eq!(
        store.breadcrumb(leaf.id).expect("breadcrumb").join(" > "),
        "Project > Area > Leaf"
    );
    assert_eq!(store.breadcrumb_line(leaf.id), "Project > Area > Leaf");
    assert_eq!(
        store.canonical_path(leaf.id).expect("path"),
        vec!["project", "area", "leaf"]
    );
    assert_eq!(
        store.siblings(area.id).expect("siblings").iter().map(|n| n.id).collect::<Vec<_>>(),
        vec![area.id, sibling.id]
    );
    assert_eq!(store.siblings(root.id).expect("siblings").len(), 1);
    assert_eq!(store.parent(leaf.id).map(|n| n.id), Some(area.id));
    assert!(store.parent(root.id).is_none());
    assert_eq!(store.next_child_order(root.id), 2);
    assert_eq!(store.next_child_order(leaf.id), 0);
    assert_eq!(
        store.next_child_placement(root.id, "fresh".into()).expect("placement"),
        ("fresh".to_string(), 2)
    );
    let unknown = id("01JZ8Q5CWPN8T7KPN5A1V9B6XZ");
    assert!(matches!(
        store.next_child_placement(unknown, "fresh".into()),
        Err(StoreError::NotFound(_))
    ));
    assert!(matches!(store.siblings(unknown), Err(StoreError::NotFound(_))));
    assert!(matches!(store.breadcrumb(unknown), Err(StoreError::NotFound(_))));
}

#[test]
fn multi_node_creation_is_atomic() {
    let mut store = fixture();
    let root = store.root().expect("root");
    let parent = node("01JZ8Q5CWPN8T7KPN5A1V9B6XN", Some(root.id), "Parent", "parent", 0, 1);
    let child = node("01JZ8Q5CWPN8T7KPN5A1V9B6XP", Some(parent.id), "Child", "child", 0, 1);
    let broken_child = PreparedNodeMutation {
        node: child.copy(),
        revision: revision(&child),
        derived: misplaced(&child, 200),
    };

    assert!(store.create_nodes(&vec![prepared(&parent, 100), broken_child]).is_err());
    assert!(store.get(parent.id).is_none());
    assert!(store.get(child.id).is_none());

    store
        .create_nodes(&vec![prepared(&parent, 100), prepared(&child, 300)])
        .expect("subtree creation");
    assert!(store.get(parent.id).is_some());
    assert!(store.get(child.id).is_some());
}

#[test]
fn creation_refuses_what_would_break_the_tree() {
    let mut store = fixture();
    let root = store.root().expect("root");
    let raw = "01JZ8Q5CWPN8T7KPN5A1V9B6XN";
    let message = |result: Result<(), StoreError>| result.expect_err("refusal").message();
    assert_eq!(
        message(store.create_nodes(&vec![])),
        "tree invariant violation: node creation requires at least one node"
    );
    let second = node(raw, Some(root.id), "Child", "child", 0, 2);
    assert_eq!(
        message(store.create_node(prepared(&second, 1))),
        "tree invariant violation: creation must start at revision 1"
    );
    assert_eq!(
        message(store.create_node(prepared(&root, 1))),
        format!("tree invariant violation: node already exists: {ROOT}")
    );
    let other_root = node(raw, None, "Other", "other", 0, 1);
    assert_eq!(
        message(store.create_node(prepared(&other_root, 1))),
        "tree invariant violation: workspace root is created during workspace initialization"
    );
    let orphan = node(raw, Some(id("01JZ8Q5CWPN8T7KPN5A1V9B6XZ")), "Child", "child", 0, 1);
    assert_eq!(
        message(store.create_node(prepared(&orphan, 1))),
        "node not found: 01JZ8Q5CWPN8T7KPN5A1V9B6XZ"
    );
    let child = node(raw, Some(root.id), "Child", "child", 0, 1);
    create(&mut store, &child, 2);
    let twin = node("01JZ8Q5CWPN8T7KPN5A1V9B6XP", Some(root.id), "Twin", "child", 1, 1);
    assert!(matches!(store.create_node(prepared(&twin, 3)), Err(StoreError::Unique)));
    let mut late = node("01JZ8Q5CWPN8T7KPN5A1V9B6XP", Some(root.id), "Late", "late", 1, 1);
    late.created_at = u64::MAX;
    assert!(matches!(store.create_node(prepared(&late, 3)), Err(StoreError::InvalidData(_))));
    assert_eq!(store.nodes.len(), 2);
}

#[test]
fn creation_and_updates_are_atomic_and_version_protected() {
    let mut store = fixture();
    let root = store.root().expect("root");
    let raw = "01JZ8Q5CWPN8T7KPN5A1V9B6XN";
    let child = node(raw, Some(root.id), "Child", "child", 0, 1);
    let broken = PreparedNodeMutation {
        node: child.copy(),
        revision: revision(&child),
        derived: misplaced(&child, 100),
    };
    assert!(store.create_node(broken).is_err());
    assert!(store.get(child.id).is_none());

    create(&mut store, &child, 200);
    let changed = node(raw, Some(root.id), "Renamed", "renamed", 0, 2);
    let changed_revision = revision(&changed);
    let changed_derived = derived(&changed, 300);
    let invalid_update = misplaced(&changed, 300);
    assert!(store
        .update_node(NodeChange {
            node: &changed,
            expected_version: 1,
            revision: &changed_revision,
            derived: &invalid_update,
        })
        .is_err());
    assert_eq!(store.get(child.id).expect("unchanged child").metadata.title, "Child");
    let change = NodeChange {
        node: &changed,
        expected_version: 1,
        revision: &changed_revision,
        derived: &changed_derived,
    };
    store.rename_node(change).expect("rename");
    assert_eq!(store.get(child.id).expect("node").id, child.id);
    assert_eq!(store.breadcrumb_line(child.id), "Project > Renamed");
    assert!(matches!(store.update_node(change), Err(StoreError::Conflict { .. })));
    let history = store.revisions(child.id);
    assert_eq!(versions(&store, child.id), vec![1, 2]);
    assert_eq!(history[0].metadata.title, "Child");
    assert_eq!(history[1].metadata.title, "Renamed");
    assert_eq!(history[1].created_by.as_deref(), Some("test"));
    let first = store.revision(child.id, 1).expect("revision read").expect("revision");
    assert_eq!(first.version, 1);
    assert_eq!(first.revision_hash, history[0].revision_hash);

    let records = derived(&child, 500);
    assert_eq!(
        store
            .restore_version(
                child.id,
                1,
                2,
                3,
                Some("test-restorer".into()),
                child.content_hash,
                hash(9),
                &records,
            )
            .expect("restore"),
        MutationOutcome::Applied
    );
    let restored = store.get(child.id).expect("restored");
    assert_eq!(restored.version, 3);
    assert_eq!(restored.metadata.title, "Child");
    let fts: Vec<&str> = store
        .fts
        .iter()
        .filter(|row| row.document.node_id == child.id)
        .map(|row| row.document.title.as_str())
        .collect();
    assert_eq!(fts, vec!["Child"]);

    let mut no_op = restored.copy();
    no_op.version = 4;
    no_op.updated_at = 4;
    assert_eq!(
        store.update_node(prepared(&no_op, 600).change(3)).expect("no-op update"),
        MutationOutcome::NoOp
    );
    assert_eq!(store.revisions(child.id).len(), 3);

    let mut skipping = node(raw, Some(root.id), "Skip", "skip", 0, 6);
    skipping.revision_hash = hash(77);
    assert_eq!(
        store.update_node(prepared(&skipping, 700).change(3)).expect_err("skip").message(),
        "tree invariant violation: mutation must create exactly the next revision"
    );
    assert_eq!(
        store.update_node(prepared(&skipping, 700).change(5)).expect_err("conflict").message(),
        format!("version conflict for {raw}: expected 5, found 3")
    );
}

#[test]
fn move_reorder_and_removal_enforce_tree_safety() {
    let mut store = fixture();
    let root = store.root().expect("root");
    let raw = "01JZ8Q5CWPN8T7KPN5A1V9B6XN";
    let area = node(raw, Some(root.id), "Area", "area", 0, 1);
    let leaf = node("01JZ8Q5CWPN8T7KPN5A1V9B6XP", Some(area.id), "Leaf", "leaf", 0, 1);
    let destination =
        node("01JZ8Q5CWPN8T7KPN5A1V9B6XQ", Some(root.id), "Destination", "destination", 1, 1);
    create(&mut store, &area, 100);
    create(&mut store, &leaf, 200);
    create(&mut store, &destination, 250);

    let cyclic = node(raw, Some(leaf.id), "Area", "area", 0, 2);
    assert!(matches!(
        store.move_subtree(prepared(&cyclic, 300).change(1)),
        Err(StoreError::Invariant(_))
    ));
    let rootless = node(raw, None, "Area", "area", 0, 2);
    assert_eq!(
        store.move_subtree(prepared(&rootless, 300).change(1)).expect_err("root").message(),
        "tree invariant violation: root cannot be moved"
    );

    let moved = node(raw, Some(destination.id), "Area", "area", 0, 2);
    store.move_subtree(prepared(&moved, 350).change(1)).expect("valid move");
    assert_eq!(store.breadcrumb_line(leaf.id), "Project > Destination > Area > Leaf");

    let reordered = node(raw, Some(destination.id), "Area", "area", 7, 3);
    store.reorder_node(prepared(&reordered, 400).change(2), &vec![]).expect("reorder");
    assert_eq!(store.get(area.id).expect("area").sibling_order, 0);
    assert!(store.remove_subtree(root.id, 1, false).is_err());
    let impact = store.remove_subtree(area.id, 2, true).expect("dry run");
    assert_eq!(impact.node_count, 2);
    assert!(!impact.deleted);
    assert!(store.remove_subtree(area.id, 2, false).expect("delete").deleted);
    assert!(store.get(leaf.id).is_none());
    let orphans = store
        .nodes
        .iter()
        .filter(|n| n.parent_id.is_some_and(|parent| store.get(parent).is_none()))
        .count();
    assert_eq!(orphans, 0);
}

fn prepared_reorder(node: &Node, sibling_order: u32, now: u64) -> PreparedNodeMutation {
    let draft = NodeMutationDraft {
        id: node.id,
        parent_id: node.parent_id,
        slug: node.slug.clone(),
        metadata: node.metadata.clone(),
        markdown_content: node.markdown_content.clone(),
        sibling_order,
        version: node.version + 1,
        created_at: node.created_at,
        updated_at: now,
        created_by: Some("test".into()),
        change_summary: Some("test reorder".into()),
    };
    let records = derived(node, now);
    let fresh = NodeHash { high: u128::from(now), low: node.id.value };
    prepare_node_mutation(draft, node.content_hash, fresh, records)
}

fn reorder(store: &mut SqliteStore, target: NodeId, order: u32, now: u64) {
    let current = store.get(target).expect("node");
    let change = prepared_reorder(&current, order, now);
    let hashes: Vec<SiblingHash> = store
        .reorder_shifts(change.change(current.version))
        .expect("shifts")
        .iter()
        .map(|shift| SiblingHash {
            node_id: shift.node_id,
            revision_hash: NodeHash {
                high: u128::from(now),
                low: shift.node_id.value ^ u128::from(shift.sibling_order),
            },
        })
        .collect();
    assert!(matches!(
        store.reorder_node(change.change(current.version), &hashes),
        Ok(MutationOutcome::Applied)
    ));
}

#[test]
fn reorder_inserts_at_exact_index_preserves_references_and_revisions_siblings() {
    let mut store = fixture();
    let root = store.root().expect("root");
    let specs = [
        ("01JZ8Q5CWPN8T7KPN5A1V9B6XN", "Alpha", "alpha"),
        ("01JZ8Q5CWPN8T7KPN5A1V9B6XP", "Bravo", "bravo"),
        ("01JZ8Q5CWPN8T7KPN5A1V9B6XQ", "Charlie", "charlie"),
        ("01JZ8Q5CWPN8T7KPN5A1V9B6XR", "Delta", "delta"),
    ];
    for (order, (raw_id, title, slug)) in specs.iter().enumerate() {
        let child = node(
            raw_id,
            Some(root.id),
            title,
            slug,
            u32::try_from(order).expect("order"),
            1,
        );
        create(&mut store, &child, 100 + u64::try_from(order).expect("seed"));
    }
    let alpha = id(specs[0].0);
    let delta = id(specs[3].0);
    let target = ReferenceTarget::Resolved {
        node_id: delta,
        target_ref: Some(delta.to_text()),
        anchor: None,
    };
    store.insert_reference(&explicit(alpha, "depends_on", target)).expect("explicit reference");

    reorder(&mut store, alpha, 2, 500);
    assert_eq!(titles(&store, root.id), ["Bravo", "Charlie", "Alpha", "Delta"]);

    // Exercise the opposite ULID tie-break direction as well: the largest
    // ID moves onto an index currently occupied by a smaller ID.
    reorder(&mut store, delta, 1, 600);
    assert_eq!(titles(&store, root.id), ["Bravo", "Delta", "Charlie", "Alpha"]);
    let children = store.children(root.id);
    assert!(children
        .iter()
        .enumerate()
        .all(|(index, child)| child.sibling_order == u32::try_from(index).expect("order")));
    assert_eq!(store.outgoing_references(alpha).len(), 1);
    for child in children {
        let latest = store.revisions(child.id).pop().expect("latest revision");
        assert_eq!(latest.version, child.version);
        assert_eq!(latest.sibling_order, child.sibling_order);
        assert_eq!(latest.revision_hash, child.revision_hash);
    }
}

#[test]
fn focused_and_heterogeneous_batches_are_atomic_and_dry_runnable() {
    let mut store = fixture();
    let root = store.root().expect("root");
    let left = node("01JZ8Q5CWPN8T7KPN5A1V9B701", Some(root.id), "Left", "left", 0, 1);
    let right = node("01JZ8Q5CWPN8T7KPN5A1V9B702", Some(root.id), "Right", "right", 1, 1);
    let destination =
        node("01JZ8Q5CWPN8T7KPN5A1V9B703", Some(root.id), "Destination", "destination", 2, 1);
    let trash = node("01JZ8Q5CWPN8T7KPN5A1V9B704", Some(root.id), "Trash", "trash", 3, 1);
    for (offset, item) in [&left, &right, &destination, &trash].into_iter().enumerate() {
        create(&mut store, item, 100 + u64::try_from(offset).expect("offset"));
    }
    let moved =
        node("01JZ8Q5CWPN8T7KPN5A1V9B701", Some(destination.id), "Left", "left", 0, 2);
    let moves = vec![AtomicTreeMove { prepared: prepared(&moved, 200), expected_version: 1 }];
    let removals = vec![AtomicTreeRemoval { node_id: trash.id, expected_version: 1 }];
    let planned = store
        .apply_atomic_tree_batch(&moves, &removals, true)
        .expect("focused dry run");
    assert_eq!(planned.status, "planned");
    assert_eq!(planned.removed_node_count, 1);
    assert_eq!(store.get(left.id).expect("left").parent_id, Some(root.id));
    assert!(store.get(trash.id).is_some());
    let applied = store
        .apply_atomic_tree_batch(&moves, &removals, false)
        .expect("focused apply");
    assert_eq!(applied.status, "applied");
    assert_eq!(applied.moved_node_ids, planned.moved_node_ids);
    assert_eq!(applied.removed_root_ids, planned.removed_root_ids);
    assert_eq!(store.get(left.id).expect("left").parent_id, Some(destination.id));
    assert!(store.get(trash.id).is_none());

    let renamed = node("01JZ8Q5CWPN8T7KPN5A1V9B702", Some(root.id), "Renamed", "renamed", 0, 2);
    let created = node("01JZ8Q5CWPN8T7KPN5A1V9B705", Some(root.id), "Created", "created", 4, 1);
    let operations = vec![
        PreparedBatchOperation::Replace {
            prepared: prepared(&renamed, 300),
            expected_version: 1,
        },
        PreparedBatchOperation::Create(prepared(&created, 400)),
    ];
    assert_eq!(
        store.apply_mutation_batch(&operations, true).expect("generic dry run").status,
        "planned"
    );
    assert!(store.get(created.id).is_none());
    let result = store.apply_mutation_batch(&operations, false).expect("generic apply");
    assert_eq!(result.operation_count, 2);
    assert_eq!(result.node_ids, vec![right.id, created.id]);
    assert_eq!(store.get(right.id).expect("right").metadata.title, "Renamed");
    assert!(store.get(created.id).is_some());

    let rolled_back =
        node("01JZ8Q5CWPN8T7KPN5A1V9B702", Some(root.id), "Rolled Back", "rolled-back", 0, 3);
    let broken = node("01JZ8Q5CWPN8T7KPN5A1V9B706", Some(root.id), "Broken", "broken", 5, 1);
    let failing = vec![
        PreparedBatchOperation::Replace {
            prepared: prepared(&rolled_back, 600),
            expected_version: 2,
        },
        PreparedBatchOperation::Create(PreparedNodeMutation {
            node: broken.copy(),
            revision: revision(&broken),
            derived: misplaced(&broken, 500),
        }),
    ];
    assert!(store.apply_mutation_batch(&failing, false).is_err());
    assert_eq!(store.get(right.id).expect("right").metadata.title, "Renamed");
    assert!(store.get(broken.id).is_none());
}

#[test]
fn mutation_batches_hold_each_replacement_against_the_stored_tree() {
    let mut store = fixture();
    let root = store.root().expect("root");
    let (a, b) = ("01JZ8Q5CWPN8T7KPN5A1V9B701", "01JZ8Q5CWPN8T7KPN5A1V9B702");
    let left = node(a, Some(root.id), "Left", "left", 0, 1);
    let right = node(b, Some(root.id), "Right", "right", 1, 1);
    create(&mut store, &left, 100);
    create(&mut store, &right, 101);
    let replace = |raw: &str, parent: NodeId, title: &str, slug: &str, version: u64| {
        let moved = node(raw, Some(parent), title, slug, 0, version);
        PreparedBatchOperation::Replace {
            prepared: PreparedNodeMutation {
                revision: revision(&moved),
                derived: DerivedNodeRecords {
                    content_hash: moved.content_hash,
                    sections: vec![],
                    references: vec![],
                    fts_documents: vec![],
                },
                node: moved,
            },
            expected_version: version - 1,
        }
    };
    let below = vec![replace(a, right.id, "Left", "left", 2)];
    store.apply_mutation_batch(&below, false).expect("one move");
    assert_eq!(store.get(left.id).expect("left").parent_id, Some(right.id));
    assert!(store.is_well_formed());
    let back = vec![replace(b, left.id, "Right", "right", 2)];
    for dry_run in [true, false] {
        assert!(matches!(
            store.apply_mutation_batch(&back, dry_run),
            Err(StoreError::Invariant(message)) if message == "batch replacement would create a cycle"
        ));
    }
    let apart = vec![replace(a, root.id, "Left", "left", 3)];
    store.apply_mutation_batch(&apart, false).expect("apart again");
    let together = vec![
        replace(a, right.id, "Left", "left", 4),
        replace(b, left.id, "Right", "right", 2),
    ];
    assert_eq!(store.apply_mutation_batch(&together, true).expect("plan").status, "planned");
    assert!(store.is_well_formed());
    store.apply_mutation_batch(&together, false).expect("each fits the stored tree");
    assert!(!store.is_well_formed());
}

fn context(store: &SqliteStore, id: NodeId) -> (String, String, String) {
    let row = store.fts.iter().find(|row| row.document.node_id == id).expect("document");
    (
        row.context.breadcrumb.clone(),
        row.context.ancestor_context.clone(),
        row.context.child_context.clone(),
    )
}

fn told(breadcrumb: &str, ancestors: &str, children: &str) -> (String, String, String) {
    (breadcrumb.into(), ancestors.into(), children.into())
}

#[test]
fn documents_keep_their_context_until_their_node_is_written() {
    let mut store = fixture();
    let root = store.root().expect("root");
    let (area_id, leaf_id, trash_id) = (
        "01JZ8Q5CWPN8T7KPN5A1V9B701",
        "01JZ8Q5CWPN8T7KPN5A1V9B702",
        "01JZ8Q5CWPN8T7KPN5A1V9B703",
    );
    let area = node(area_id, Some(root.id), "Area", "area", 0, 1);
    let leaf = node(leaf_id, Some(area.id), "Leaf", "leaf", 0, 1);
    let trash = node(trash_id, Some(root.id), "Trash", "trash", 1, 1);
    store
        .create_nodes(&vec![prepared(&area, 100), prepared(&leaf, 101), prepared(&trash, 102)])
        .expect("create");
    assert_eq!(context(&store, root.id), told("Project", "", "Area Trash"));
    assert_eq!(context(&store, area.id), told("Project > Area", "Project ", "Leaf"));
    assert_eq!(context(&store, leaf.id), told("Project > Area > Leaf", "Area  Project ", ""));

    // A rename renews the renamed node's documents alone.
    let renamed = node(area_id, Some(root.id), "Zone", "zone", 0, 2);
    store.rename_node(prepared(&renamed, 200).change(1)).expect("rename");
    assert_eq!(context(&store, area.id), told("Project > Zone", "Project ", "Leaf"));
    assert_eq!(context(&store, leaf.id), told("Project > Area > Leaf", "Area  Project ", ""));
    assert_eq!(context(&store, root.id), told("Project", "", "Area Trash"));

    // A removal on its own renews nothing; one in a batch renews the parent.
    let moved = node(leaf_id, Some(root.id), "Leaf", "leaf", 2, 2);
    let moves = vec![AtomicTreeMove { prepared: prepared(&moved, 300), expected_version: 1 }];
    store.apply_atomic_tree_batch(&moves, &vec![], false).expect("move");
    assert_eq!(context(&store, root.id), told("Project", "", "Zone Trash Leaf"));
    assert_eq!(context(&store, area.id), told("Project > Zone", "Project ", ""));
    assert_eq!(context(&store, leaf.id), told("Project > Leaf", "Project ", ""));
    store.remove_subtree(trash.id, 1, false).expect("remove");
    assert_eq!(context(&store, root.id), told("Project", "", "Zone Trash Leaf"));
    let operations = vec![PreparedBatchOperation::Remove(AtomicTreeRemoval {
        node_id: leaf.id,
        expected_version: 2,
    })];
    store.apply_mutation_batch(&operations, false).expect("batch");
    assert_eq!(context(&store, root.id), told("Project", "", "Zone"));
}

#[test]
fn tree_batches_refuse_overlaps_and_stale_versions() {
    let mut store = fixture();
    let root = store.root().expect("root");
    let area = node("01JZ8Q5CWPN8T7KPN5A1V9B701", Some(root.id), "Area", "area", 0, 1);
    let leaf = node("01JZ8Q5CWPN8T7KPN5A1V9B702", Some(area.id), "Leaf", "leaf", 0, 1);
    create(&mut store, &area, 100);
    create(&mut store, &leaf, 101);
    assert!(store.apply_atomic_tree_batch(&vec![], &vec![], true).is_err());
    let removal = AtomicTreeRemoval { node_id: area.id, expected_version: 1 };
    let nested = AtomicTreeRemoval { node_id: leaf.id, expected_version: 1 };
    assert!(store.apply_atomic_tree_batch(&vec![], &vec![removal, nested], true).is_err());
    let stale = AtomicTreeRemoval { node_id: area.id, expected_version: 2 };
    assert!(matches!(
        store.apply_atomic_tree_batch(&vec![], &vec![stale], false),
        Err(StoreError::Conflict { .. })
    ));
    assert_eq!(store.nodes.len(), 3);
    let done = store.apply_atomic_tree_batch(&vec![], &vec![removal], false).expect("removal");
    assert_eq!(done.removed_node_count, 2);
    assert_eq!(store.nodes.len(), 1);
}

#[test]
fn workspace_revision_advances_and_is_visible_to_a_second_open_handle() {
    let mut store = fixture();
    let baseline = store.workspace_revision();
    assert_eq!(store.copy().workspace_revision(), baseline);

    let root = store.root().expect("root");
    let scope = || CursorScope {
        operation: "children".into(),
        node_id: Some(root.id),
        request_key: "parent=project".into(),
    };
    let cursor = PageCursor::issue(
        baseline,
        scope(),
        PagePosition::Sibling { sibling_order: 0, node_id: root.id },
    );
    assert!(cursor.resume(&scope(), baseline).is_ok());
    let child = node("01JZ8Q5CWPN8T7KPN5A1V9B6XN", Some(root.id), "Child", "child", 0, 1);
    create(&mut store, &child, 200);

    assert!(store.workspace_revision() > baseline);
    assert_eq!(
        cursor
            .resume(&scope(), store.workspace_revision())
            .expect_err("create must stale cursor"),
        PaginationError::StaleCursor
    );
    assert_eq!(
        store.copy().workspace_revision(),
        store.workspace_revision(),
        "a copy of the tables must show the same advanced revision"
    );

    let after_create = store.workspace_revision();
    let renamed = node("01JZ8Q5CWPN8T7KPN5A1V9B6XN", Some(root.id), "Renamed", "renamed", 0, 2);
    store.rename_node(prepared(&renamed, 300).change(1)).expect("rename");
    assert!(store.workspace_revision() > after_create);
    let after_rename = store.workspace_revision();
    store.remove_subtree(child.id, 2, false).expect("remove");
    assert!(store.workspace_revision() > after_rename);
}

#[test]
fn resolves_reads_and_mutates_typed_references() {
    let mut store = fixture();
    let root = store.root().expect("root");
    let raw = "01JZ8Q5CWPN8T7KPN5A1V9B6XN";
    let source = node(raw, Some(root.id), "Source", "source", 0, 1);
    let target = node("01JZ8Q5CWPN8T7KPN5A1V9B6XP", Some(root.id), "Target", "target", 1, 1);
    let duplicate =
        node("01JZ8Q5CWPN8T7KPN5A1V9B6XQ", Some(root.id), "Target", "other-target", 2, 1);
    create(&mut store, &source, 100);
    create(&mut store, &target, 200);
    create(&mut store, &duplicate, 300);

    assert!(matches!(
        store
            .resolve_reference(&target.id.to_text(), Some(target.id), None)
            .expect("ID resolution"),
        ReferenceResolution::Resolved { node_id, .. } if node_id == target.id
    ));
    assert!(matches!(
        store
            .resolve_reference(
                "project/target#target",
                None,
                Some(&path(&["project", "target"])),
            )
            .expect("path resolution"),
        ReferenceResolution::Resolved { node_id, anchor: Some(_) } if node_id == target.id
    ));
    assert!(matches!(
        store.resolve_reference("Target", None, None).expect("title resolution"),
        ReferenceResolution::Ambiguous { candidates } if candidates.len() == 2
    ));
    assert!(matches!(
        store.resolve_reference("Missing", None, None).expect("unresolved"),
        ReferenceResolution::Unresolved
    ));

    let wanted = || {
        explicit(
            source.id,
            "depends_on",
            ReferenceTarget::Resolved {
                node_id: target.id,
                target_ref: Some("Target".into()),
                anchor: None,
            },
        )
    };
    let dangling = || {
        explicit(
            source.id,
            "related_to",
            ReferenceTarget::Unresolved { target_ref: "Missing target".into() },
        )
    };
    let changed = node(raw, Some(root.id), "Source", "source", 0, 2);
    assert!(matches!(
        store.set_explicit_references(prepared(&changed, 400).change(1), &vec![wanted(), wanted()]),
        Err(StoreError::Invariant(_))
    ));
    store
        .set_explicit_references(
            prepared(&changed, 400).change(1),
            &vec![wanted(), dangling()],
        )
        .expect("add explicit reference");
    let outgoing = store.outgoing_references(source.id);
    let kinds: Vec<&str> = outgoing.iter().map(|r| r.reference_type.as_str()).collect();
    assert_eq!(kinds, vec!["depends_on", "related_to"]);
    assert!(matches!(
        &outgoing[1].target,
        ReferenceTarget::Unresolved { target_ref } if target_ref == "Missing target"
    ));
    let backlinks = store.backlinks(target.id);
    assert_eq!(backlinks.len(), 1);
    assert_eq!(backlinks[0].source_node_id, source.id);

    let removed = node(raw, Some(root.id), "Source", "source", 0, 3);
    store
        .set_explicit_references(prepared(&removed, 500).change(2), &vec![])
        .expect("remove explicit reference");
    assert!(store.backlinks(target.id).is_empty());
}

#[test]
fn integrity_diagnostics_and_rebuild_are_deterministic() {
    let mut store = fixture();
    let root = store.root().expect("root");
    let first = node("01JZ8Q5CWPN8T7KPN5A1V9B6XN", Some(root.id), "Duplicate", "first", 0, 1);
    let second = node("01JZ8Q5CWPN8T7KPN5A1V9B6XP", Some(root.id), "Duplicate", "second", 1, 1);
    create(&mut store, &first, 100);
    create(&mut store, &second, 200);
    let mut missing = explicit(
        first.id,
        "references",
        ReferenceTarget::Unresolved { target_ref: "Missing".into() },
    );
    missing.origin = ReferenceOrigin::Agent;
    store.references.push(ReferenceRow { row_id: 1, reference: missing });
    let duplicates = store.duplicate_candidates();
    assert_eq!(duplicates.len(), 1);
    assert_eq!(duplicates[0].node_ids.len(), 2);
    assert_eq!(duplicates[0].breadcrumbs.len(), 2);
    let unresolved = store.unresolved_references().expect("unresolved");
    assert!(unresolved
        .iter()
        .any(|item| item.reference.origin == ReferenceOrigin::Agent));
    assert!(unresolved.iter().all(|item| !item.source_breadcrumb.is_empty()));

    let hits = |store: &SqliteStore| {
        store
            .fts
            .iter()
            .filter(|row| row.document.content.to_lowercase().contains("duplicate"))
            .count()
    };
    let before = hits(&store);
    let hashes: Vec<ComputedHashes> = [&root, &first, &second]
        .iter()
        .map(|n| ComputedHashes {
            node_id: n.id,
            content_hash: hash(200),
            revision_hash: n.revision_hash,
        })
        .collect();

    store.fts.retain(|row| row.document.node_id != first.id);
    let at = store.nodes.iter().position(|n| n.id == second.id).expect("second");
    store.nodes[at].sibling_order = 9;
    let report = store.validate_integrity(&hashes, &no_vectors());
    let codes: Vec<&str> = report.findings.iter().map(|finding| finding.code.as_str()).collect();
    assert!(codes.contains(&"fts_consistency"));
    assert!(codes.contains(&"sibling_order"));
    assert!(codes.contains(&"content_hash"));
    assert!(!report.is_healthy());

    store.fts.clear();
    store.references.clear();
    store.sections.clear();
    let rebuilt: Vec<RebuiltNode> = [&root, &first, &second]
        .iter()
        .enumerate()
        .map(|(at, n)| RebuiltNode { node_id: n.id, derived: derived(n, 1000 + at as u64) })
        .collect();
    store.rebuild_derived(&rebuilt).expect("rebuild");
    assert_eq!(hits(&store), before);
}

#[test]
fn every_kind_of_damage_has_its_own_finding() {
    let mut store = fixture();
    let root = store.root().expect("root");
    let child = node("01JZ8Q5CWPN8T7KPN5A1V9B6XN", Some(root.id), "Child", "child", 0, 1);
    create(&mut store, &child, 100);
    let hashes: Vec<ComputedHashes> = store
        .nodes
        .iter()
        .map(|n| ComputedHashes {
            node_id: n.id,
            content_hash: n.content_hash,
            revision_hash: n.revision_hash,
        })
        .collect();
    assert!(store.validate_integrity(&hashes, &no_vectors()).is_healthy());
    let codes = |store: &SqliteStore, hashes: &Vec<ComputedHashes>| -> Vec<String> {
        store.validate_integrity(hashes, &no_vectors()).findings.iter().map(|f| f.code.clone()).collect()
    };
    let at = store.nodes.iter().position(|n| n.id == child.id).expect("child");

    let mut orphaned = store.copy();
    orphaned.nodes[at].parent_id = Some(id("01JZ8Q5CWPN8T7KPN5A1V9B6XZ"));
    assert_eq!(codes(&orphaned, &hashes), vec!["orphan", "unreachable"]);

    let mut rootless = store.copy();
    rootless.nodes[at].parent_id = None;
    rootless.nodes[at].sibling_order = 1;
    assert_eq!(codes(&rootless, &hashes), vec!["root_count"]);

    let mut rehashed = store.copy();
    rehashed.nodes[at].revision_hash = hash(99);
    assert_eq!(codes(&rehashed, &hashes), vec!["revision_hash", "revision_head"]);

    let mut short = store.copy();
    let mut section = derived(&child, 100);
    let old = section.sections.remove(0);
    short.sections.retain(|s| s.node_id != child.id);
    short.sections.push(Arc::new(Section {
        id: old.id,
        node_id: old.node_id,
        parent_section_id: None,
        heading: None,
        heading_level: None,
        anchor: None,
        start_byte: 0,
        end_byte: 1,
        content: String::new(),
        content_hash: vec![1; 31],
        position: 0,
    }));
    assert_eq!(codes(&short, &hashes), vec!["section_hash"]);
}

#[test]
fn receipts_make_repeated_operations_recognizable() {
    let mut store = fixture();
    assert!(store.mutation_receipt("op-1", "create_node", hash(1)).expect("none").is_none());
    store
        .record_mutation_receipt("op-1", "create_node", hash(1), "{\"ok\":true}", 5)
        .expect("record");
    assert_eq!(
        store.mutation_receipt("op-1", "create_node", hash(1)).expect("found").as_deref(),
        Some("{\"ok\":true}")
    );
    assert!(matches!(
        store.mutation_receipt("op-1", "create_node", hash(2)),
        Err(StoreError::IdempotencyConflict(_))
    ));
    assert!(matches!(
        store.mutation_receipt("op-1", "move_subtree", hash(1)),
        Err(StoreError::IdempotencyConflict(_))
    ));
    assert!(matches!(
        store.record_mutation_receipt("op-1", "create_node", hash(1), "{}", 6),
        Err(StoreError::Unique)
    ));
    assert!(matches!(
        store.record_mutation_receipt("op-2", "create_node", hash(1), "{}", u64::MAX),
        Err(StoreError::InvalidData(_))
    ));
}

#[test]
fn identities_are_written_as_ulids() {
    assert_eq!(id(ROOT).to_text(), ROOT);
    assert_eq!(NodeId::new(0).to_text(), "00000000000000000000000000");
    assert_eq!(NodeId::new(u128::MAX).to_text(), "7ZZZZZZZZZZZZZZZZZZZZZZZZZ");
    assert_eq!(NodeId::new(33).to_text(), "00000000000000000000000011");
}

#[test]
fn a_removed_target_leaves_an_unresolved_reference() {
    let mut store = fixture();
    let root = store.root().expect("root");
    let source = node("01JZ8Q5CWPN8T7KPN5A1V9B6XN", Some(root.id), "Source", "source", 0, 1);
    let target = node("01JZ8Q5CWPN8T7KPN5A1V9B6XP", Some(root.id), "Target", "target", 1, 1);
    create(&mut store, &source, 100);
    create(&mut store, &target, 200);
    let link = explicit(
        source.id,
        "depends_on",
        ReferenceTarget::Resolved {
            node_id: target.id,
            target_ref: Some("Target".into()),
            anchor: None,
        },
    );
    store.insert_reference(&link).expect("reference");
    let impact = store.removal_impact(target.id).expect("impact");
    assert_eq!((impact.node_count, impact.incoming_reference_count), (1, 1));
    store.remove_subtree(target.id, 1, false).expect("remove");
    let left = store.outgoing_references(source.id);
    assert_eq!(left.len(), 1);
    assert!(matches!(
        &left[0].target,
        ReferenceTarget::Unresolved { target_ref } if target_ref == "Target"
    ));
}

#[test]
fn reference_pages_list_both_sides_in_persisted_order() {
    let mut store = fixture();
    let root = store.root().expect("root");
    for i in 0..5 {
        let target = if i == 2 {
            ReferenceTarget::Unresolved { target_ref: "Missing".into() }
        } else {
            ReferenceTarget::Resolved { node_id: root.id, target_ref: None, anchor: None }
        };
        store
            .insert_reference(&explicit(root.id, &format!("kind-{i}"), target))
            .expect("reference");
    }
    let limit = PageLimit::new(2).expect("limit");
    let mut cursor = None;
    let mut kinds = Vec::new();
    loop {
        let page = store
            .outgoing_references_page(root.id, limit, cursor.as_ref())
            .expect("page");
        kinds.extend(page.items.into_iter().map(|r| r.reference_type));
        cursor = page.next_cursor;
        if cursor.is_none() {
            break;
        }
    }
    assert_eq!(kinds, ["kind-0", "kind-1", "kind-2", "kind-3", "kind-4"]);
    let back = store.backlinks_page(root.id, limit, None).expect("backlinks");
    let kinds: Vec<&str> = back.items.iter().map(|r| r.reference_type.as_str()).collect();
    assert_eq!(kinds, ["kind-0", "kind-1"]);
    let next = store.backlinks_page(root.id, limit, back.next_cursor.as_ref()).expect("next");
    assert_eq!(next.items[0].reference_type, "kind-3");
    assert!(store.outgoing_references_page(root.id, limit, next.next_cursor.as_ref()).is_ok());
    assert!(store
        .outgoing_references_page(root.id, limit, back.next_cursor.as_ref())
        .is_err());
}

#[test]
fn origins_are_stored_under_stable_names() {
    for value in [
        ReferenceOrigin::Explicit,
        ReferenceOrigin::Markdown,
        ReferenceOrigin::Wikilink,
        ReferenceOrigin::ImportedMetadata,
        ReferenceOrigin::Inferred,
        ReferenceOrigin::Agent,
    ] {
        assert_eq!(parse_origin(&origin(value).to_string()).expect("origin"), value);
    }
    assert_eq!(origin(ReferenceOrigin::ImportedMetadata), "imported_metadata");
    assert!(matches!(
        parse_origin(&"elsewhere".to_string()),
        Err(StoreError::InvalidData(_))
    ));
}

#[test]
fn stored_integers_are_signed_and_not_negative() {
    assert_eq!(integer(5).expect("fits"), 5);
    assert_eq!(
        integer(u64::MAX).expect_err("range").message(),
        "invalid persisted node: integer range"
    );
    assert_eq!(nonnegative(5).expect("fits"), 5);
    assert_eq!(
        nonnegative(-5).expect_err("sign").message(),
        "invalid persisted node: negative integer"
    );
}
