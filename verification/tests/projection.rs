//! Pages, lookups, relations and statistics over wide and deep trees.

use std::sync::Arc;

use mdtree::clone::{CloneRecords, CloneSubtreeRequest};
use mdtree::integrity::ComputedHashes;
use mdtree::lookup::{BatchChildrenRequest, SelectorText};
use mdtree::model::{
    DerivedNodeRecords, FtsDocument, Node, NodeHash, NodeId, NodeMetadata, NodeRevision, Reference,
    ReferenceOrigin, ReferenceTarget, Section, StoreError,
};
use mdtree::pages::StructuralPredicate;
use mdtree::paging::{PageLimit, PaginationErrorCode};
use mdtree::reads::NodeSelector;
use mdtree::semantic::SemanticIndex;
use mdtree::tables::{ReferenceRow, SqliteStore};
use mdtree::traverse::TraversalOrder;

struct Tree {
    store: SqliteStore,
    root_id: NodeId,
    wide_parent_id: NodeId,
    wide_child_ids: Vec<NodeId>,
    deep_parent_id: NodeId,
    deep_leaf_id: NodeId,
    history_node_id: NodeId,
}

struct Spec {
    wide_children: u32,
    deep_descendants: u32,
    history_revisions: u64,
    relations: u64,
}

fn no_vectors() -> SemanticIndex {
    SemanticIndex { profiles: vec![], active: None, revision: 0, chunks: vec![] }
}

fn hash(value: u128) -> NodeHash {
    NodeHash { high: 1, low: value }
}

fn node(id: u128, parent: Option<NodeId>, slug: &str, order: u32, version: u64) -> Node {
    Node {
        id: NodeId::new(id),
        parent_id: parent,
        slug: slug.into(),
        metadata: Arc::new(NodeMetadata {
            title: format!("Node {slug}"),
            summary: Some(format!("About {slug}")),
            node_type: Some("topic".into()),
            accepts_children: vec![],
            aliases: vec![],
            tags: vec![],
            keywords: vec![],
            owns: vec![],
            excludes: vec![],
            extra: "{}".into(),
        }),
        markdown_content: format!("# {slug}\n"),
        sibling_order: order,
        version,
        content_hash: hash(id),
        revision_hash: hash(id + 1000 * u128::from(version)),
        created_at: 1,
        updated_at: version,
    }
}

fn revision(node: &Node, version: u64) -> NodeRevision {
    NodeRevision {
        node_id: node.id,
        parent_id: node.parent_id,
        slug: node.slug.clone(),
        metadata: node.metadata.clone(),
        markdown_content: node.markdown_content.clone(),
        sibling_order: node.sibling_order,
        version,
        content_hash: node.content_hash,
        revision_hash: hash(node.id.value + 1000 * u128::from(version)),
        change_summary: None,
        created_by: None,
        created_at: version,
    }
}

fn records(node: &Node, seed: u128) -> DerivedNodeRecords {
    let section_id = NodeId::new(seed);
    DerivedNodeRecords {
        content_hash: node.content_hash,
        sections: vec![Arc::new(Section {
            id: section_id,
            node_id: node.id,
            parent_section_id: None,
            heading: Some(node.metadata.title.clone()),
            heading_level: Some(1),
            anchor: None,
            start_byte: 0,
            end_byte: node.markdown_content.len() as u64,
            content: node.markdown_content.clone(),
            content_hash: vec![1; 32],
            position: 0,
        })],
        references: vec![],
        fts_documents: vec![Arc::new(FtsDocument {
            section_id,
            node_id: node.id,
            title: node.metadata.title.clone(),
            aliases: String::new(),
            summary: String::new(),
            heading: String::new(),
            content: node.markdown_content.clone(),
            tags: String::new(),
            keywords: String::new(),
        })],
    }
}

/// A root over a wide parent, a deep chain, a node with a long history and two
/// more leaves.
fn tree(spec: &Spec) -> Tree {
    let root_id = NodeId::new(1);
    let wide_parent_id = NodeId::new(2);
    let deep_parent_id = NodeId::new(3);
    let history_node_id = NodeId::new(4);
    let mut nodes = vec![
        node(1, None, "root", 0, 1),
        node(2, Some(root_id), "wide", 0, 1),
        node(3, Some(root_id), "deep", 1, 1),
        node(4, Some(root_id), "history-heavy", 2, spec.history_revisions.max(1)),
        node(5, Some(root_id), "boundary", 3, 1),
        node(6, Some(root_id), "relations", 4, 1),
    ];
    let mut wide_child_ids = Vec::new();
    for i in 0..spec.wide_children {
        // Identities do not follow the sibling order.
        let value = 10_000 + (u128::from(i) * 7919) % 10_007;
        nodes.push(node(value, Some(wide_parent_id), &format!("wide-{i:05}"), i, 1));
        wide_child_ids.push(NodeId::new(value));
    }
    let mut parent = deep_parent_id;
    for i in 0..spec.deep_descendants {
        let value = 100_000 + u128::from(i);
        nodes.push(node(value, Some(parent), &format!("deep-{i:05}"), 0, 1));
        parent = NodeId::new(value);
    }
    let mut revisions = Vec::new();
    for n in &nodes {
        for version in 1..=n.version {
            revisions.push(revision(n, version));
        }
    }
    let mut references = Vec::new();
    for i in 0..spec.relations {
        let count = u64::from(spec.wide_children);
        let at = |k: u64| wide_child_ids[usize::try_from(k % count).expect("index")];
        references.push(ReferenceRow {
            row_id: i + 1,
            reference: Reference {
                source_node_id: at(i),
                source_section_id: None,
                reference_type: "depends_on".into(),
                target: ReferenceTarget::Resolved {
                    node_id: at(i + 1),
                    target_ref: Some(format!("wide-{i}")),
                    anchor: None,
                },
                origin: ReferenceOrigin::Explicit,
                metadata: "{}".into(),
            },
        });
    }
    let mut sections = Vec::new();
    let mut fts = Vec::new();
    for n in &nodes {
        let derived = records(n, 1_000_000 + n.id.value);
        sections.extend(derived.sections);
        fts.extend(mdtree::fts::make_rows(&derived.fts_documents));
    }
    let store = SqliteStore {
        nodes,
        revisions,
        references,
        sections,
        fts,
        receipts: vec![],
        revision: 1,
    };
    assert!(store.is_well_formed());
    Tree {
        store,
        root_id,
        wide_parent_id,
        wide_child_ids,
        deep_parent_id,
        deep_leaf_id: parent,
        history_node_id,
    }
}

fn fixture() -> Tree {
    tree(&Spec { wide_children: 24, deep_descendants: 8, history_revisions: 9, relations: 20 })
}

fn limit(value: u32) -> PageLimit {
    PageLimit::new(value).expect("limit")
}

fn by_id(id: NodeId) -> SelectorText {
    SelectorText { raw: id.to_text(), parsed: Ok(NodeSelector::Id(id)) }
}

fn by_slug(slug: &str) -> SelectorText {
    SelectorText { raw: slug.into(), parsed: Ok(NodeSelector::Slug(slug.into())) }
}

fn ids(nodes: &[Node]) -> Vec<NodeId> {
    nodes.iter().map(|node| node.id).collect()
}

#[test]
fn page_limits_are_bounded() {
    assert!(PageLimit::new(0).is_err());
    assert!(PageLimit::new(1).is_ok());
    assert!(PageLimit::new(100).is_ok());
    assert!(PageLimit::new(101).is_err());
}

#[test]
fn subtree_diff_pages_are_bounded_resumable_and_structural() {
    let fixture =
        tree(&Spec { wide_children: 128, deep_descendants: 8, history_revisions: 4, relations: 8 });
    let left: Vec<NodeId> =
        fixture.store.subtree(fixture.root_id).iter().map(|row| row.node.id).collect();
    let right: Vec<NodeId> =
        fixture.store.subtree(fixture.wide_parent_id).iter().map(|row| row.node.id).collect();
    let differences = || -> Vec<(NodeId, &'static str)> {
        left.iter()
            .map(|id| (*id, if right.contains(id) { "moved" } else { "removed" }))
            .collect()
    };
    let mut cursor = None;
    let mut items = Vec::new();
    loop {
        let page = fixture
            .store
            .subtree_diff_page(
                fixture.root_id,
                fixture.wide_parent_id,
                differences(),
                limit(17),
                cursor.as_ref(),
            )
            .expect("diff page");
        assert!(page.items.len() <= 17);
        items.extend(page.items);
        cursor = page.next_cursor;
        if cursor.is_none() {
            assert!(page.complete);
            break;
        }
        assert!(page.truncated);
    }
    assert!(items.len() > 100, "fixture must cross the maximum page size");
    assert_eq!(items, differences());
    assert!(items.iter().any(|item| item.1 == "moved"));
    assert!(items.iter().any(|item| item.1 == "removed"));
}

#[test]
fn selected_nodes_and_depth_rows_preserve_exact_fields_and_caller_order() {
    let fixture = fixture();
    let requested = vec![
        fixture.wide_child_ids[7],
        fixture.history_node_id,
        fixture.wide_child_ids[1],
        fixture.wide_child_ids[7],
    ];
    let projected = fixture.store.project_nodes(&requested);
    assert_eq!(ids(&projected), requested);
    for node in &projected {
        let expected = fixture.store.get(node.id).expect("fixture node");
        assert_eq!(node.slug, expected.slug);
        assert_eq!(node.version, expected.version);
        assert_eq!(node.revision_hash, expected.revision_hash);
        assert_eq!(node.markdown_content, expected.markdown_content);
    }
    let missing = fixture.store.project_nodes(&vec![NodeId::new(999), fixture.root_id]);
    assert_eq!(ids(&missing), vec![fixture.root_id]);
    let rows = fixture.store.descendants(fixture.deep_parent_id);
    assert_eq!(
        rows.iter().map(|row| row.depth).collect::<Vec<_>>(),
        (1..=8).collect::<Vec<_>>()
    );
}

#[test]
fn batch_node_lookup_preserves_order_duplicates_and_per_item_errors() {
    let fixture = fixture();
    let store = &fixture.store;
    let selectors = vec![
        by_id(fixture.root_id),
        by_slug("wide-00000"),
        by_id(fixture.root_id),
        by_slug("missing-node"),
        SelectorText { raw: " ".into(), parsed: Err("empty selector".into()) },
    ];
    let items = store.batch_node_lookup(&selectors).expect("batch lookup");
    assert_eq!(items.len(), selectors.len());
    assert_eq!(items[0].node.as_ref().expect("root").id, fixture.root_id);
    assert_eq!(items[1].node.as_ref().expect("slug result").id, fixture.wide_child_ids[0]);
    assert_eq!(items[2].node.as_ref().expect("duplicate root").id, fixture.root_id);
    assert_eq!(items[3].error.as_ref().expect("missing").code, "not_found");
    assert_eq!(
        items[3].error.as_ref().expect("missing").message,
        "node not found: missing-node"
    );
    assert_eq!(items[4].error.as_ref().expect("invalid").code, "invalid_selector");
    let many: Vec<SelectorText> = (0..101).map(|_| by_slug("root")).collect();
    assert!(store.batch_node_lookup(&many).is_err());
    assert!(store.batch_node_lookup(&vec![]).is_err());

    let request = |parent: SelectorText, limit: u32| BatchChildrenRequest {
        parent,
        limit,
        cursor: None,
    };
    let groups = store
        .batch_children_lookup(&vec![
            request(by_id(fixture.wide_parent_id), 10),
            request(by_id(fixture.root_id), 5),
            request(by_slug("missing-node"), 1),
        ])
        .expect("batch children");
    assert_eq!(groups.len(), 3);
    let mut groups = groups.into_iter();
    let wide_page = groups.next().expect("group").page.expect("wide page");
    assert_eq!(wide_page.items.len(), 10);
    assert!(wide_page.next_cursor.is_some());
    assert_eq!(groups.next().expect("group").page.expect("root page").items.len(), 5);
    assert_eq!(groups.next().expect("group").error.expect("missing").code, "not_found");
    let continued = store
        .batch_children_lookup(&vec![BatchChildrenRequest {
            parent: by_id(fixture.wide_parent_id),
            limit: 10,
            cursor: wide_page.next_cursor.map(Ok),
        }])
        .expect("continued batch children");
    assert_eq!(
        ids(&continued[0].page.as_ref().expect("continued").items),
        fixture.wide_child_ids[10..20].to_vec()
    );
    assert!(store
        .batch_children_lookup(&vec![
            request(by_id(fixture.root_id), 51),
            request(by_id(fixture.wide_parent_id), 50),
        ])
        .is_err());
}

#[test]
fn atomic_subtree_clone_remaps_internal_explicit_references() {
    let mut fixture = fixture();
    let store = &mut fixture.store;
    let request = |dry_run: bool, expected_version: u64| CloneSubtreeRequest {
        source_id: fixture.wide_parent_id,
        destination_parent_id: fixture.root_id,
        expected_version,
        sibling_order: Some(0),
        dry_run,
        created_at: 500,
        created_by: Some("test".into()),
        change_summary: Some("Clone wide branch".into()),
    };
    let fallback = "wide-copy".to_string();
    let fresh = |from: u128| -> Vec<NodeId> { (from..from + 25).map(NodeId::new).collect() };
    let before = store.tree_statistics(fixture.root_id).expect("before").subtree_size;
    let planned = store
        .clone_subtree(&request(true, 1), &fallback, &fresh(500_000), &vec![])
        .expect("clone plan");
    assert_eq!(planned.status, "planned");
    assert_eq!(planned.node_count, 25);
    assert_eq!(planned.explicit_reference_count, 20);
    assert_eq!(
        store.tree_statistics(fixture.root_id).expect("after plan").subtree_size,
        before
    );

    let plan = store
        .plan_clone(&request(false, 1), &fallback, &fresh(600_000))
        .expect("drafts");
    let computed: Vec<CloneRecords> = plan
        .drafts
        .iter()
        .map(|draft| {
            let copy = draft.node(hash(draft.id.value), hash(draft.id.value + 1));
            CloneRecords {
                content_hash: copy.content_hash,
                revision_hash: copy.revision_hash,
                derived: records(&copy, 2_000_000 + draft.id.value),
            }
        })
        .collect();
    let applied = store
        .clone_subtree(&request(false, 1), &fallback, &fresh(600_000), &computed)
        .expect("apply clone");
    assert_eq!(applied.root_slug, "wide-copy");
    let clone_root = applied.cloned_root_id.expect("clone root");
    let cloned = store.subtree(clone_root);
    assert_eq!(cloned.len(), 25);
    let cloned_ids: Vec<NodeId> = cloned.iter().map(|row| row.node.id).collect();
    let explicit: Vec<Reference> =
        cloned.iter().flat_map(|row| store.outgoing_references(row.node.id)).collect();
    assert_eq!(explicit.len(), 20);
    assert!(explicit.iter().all(|reference| match reference.target {
        ReferenceTarget::Resolved { node_id, .. } => cloned_ids.contains(&node_id),
        ReferenceTarget::Unresolved { .. } => true,
    }));
    assert_eq!(
        store.tree_statistics(fixture.root_id).expect("after").subtree_size,
        before + 25
    );
    assert!(store.is_well_formed());
    assert!(matches!(
        store.clone_subtree(&request(true, 99), &fallback, &fresh(700_000), &vec![]),
        Err(StoreError::Conflict { .. })
    ));
}

#[test]
fn projections_and_aggregate_counts_do_not_load_history_or_references() {
    let mut fixture = fixture();
    fixture.store.revisions.clear();
    fixture.store.references.clear();
    let store = &fixture.store;
    let requested =
        vec![fixture.history_node_id, fixture.wide_parent_id, fixture.history_node_id];
    assert_eq!(store.project_nodes(&requested).len(), 3);
    let node = store.get(fixture.history_node_id).expect("history node");
    let summary = store.project_summary(&node).expect("targeted summary");
    assert_eq!(summary.node_id, fixture.history_node_id);
    assert_eq!(summary.title, node.metadata.title);
    assert_eq!(summary.summary, node.metadata.summary);
    assert_eq!(summary.node_type, node.metadata.node_type);
    assert_eq!(summary.breadcrumb, vec!["Node root", "Node history-heavy"]);
    let counts = store.child_counts(&requested).expect("child counts");
    assert_eq!(counts[0].node_id, fixture.history_node_id);
    assert_eq!(counts[0].child_count, 0);
    assert_eq!(counts[1].node_id, fixture.wide_parent_id);
    assert_eq!(counts[1].child_count, 24);
    assert_eq!(counts[2].node_id, fixture.history_node_id);
    assert_eq!(counts[2].child_count, 0);
}

#[test]
fn root_resolved_node_and_parent_reads_are_targeted_and_bounded() {
    let fixture = tree(&Spec {
        wide_children: 240,
        deep_descendants: 32,
        history_revisions: 20,
        relations: 80,
    });
    let store = &fixture.store;
    assert_eq!(store.root_projection().expect("root projection").id, fixture.root_id);
    let selectors = [
        (NodeSelector::Id(fixture.history_node_id), "ID selector"),
        (NodeSelector::Slug("history-heavy".into()), "slug selector"),
        (NodeSelector::Path(vec!["history-heavy".into()]), "path selector"),
    ];
    for (selector, label) in selectors {
        let node = store.resolve_projection(&selector).expect(label).expect("selected node");
        assert_eq!(node.id, fixture.history_node_id, "{label}");
    }
    let parent = store.parent_projection(fixture.history_node_id).expect("root parent");
    assert_eq!(parent.id, fixture.root_id);
    assert!(store.parent_projection(fixture.root_id).is_none());
}

fn assert_canonical_wide_order(nodes: &[Node], expected_ids: &[NodeId]) {
    assert_eq!(ids(nodes), expected_ids);
    assert!(nodes.windows(2).all(|pair| {
        (pair[0].sibling_order, pair[0].id.value) < (pair[1].sibling_order, pair[1].id.value)
    }));
    assert!(nodes.windows(2).any(|pair| pair[0].id.value > pair[1].id.value));
}

#[test]
fn children_and_siblings_preserve_canonical_order_without_unrelated_reads() {
    let fixture = tree(&Spec {
        wide_children: 128,
        deep_descendants: 16,
        history_revisions: 20,
        relations: 160,
    });
    let children = fixture.store.children_projections(fixture.wide_parent_id);
    assert_canonical_wide_order(&children, &fixture.wide_child_ids);
    let siblings = fixture
        .store
        .sibling_projections(fixture.wide_child_ids[73])
        .expect("ordered siblings");
    assert_canonical_wide_order(&siblings, &fixture.wide_child_ids);
}

#[test]
fn child_and_sibling_pages_enumerate_wide_sets_exactly_once() {
    let fixture = tree(&Spec {
        wide_children: 128,
        deep_descendants: 8,
        history_revisions: 4,
        relations: 16,
    });
    let store = &fixture.store;
    for (operation, selected) in [
        ("children", fixture.wide_parent_id),
        ("siblings", fixture.wide_child_ids[73]),
    ] {
        let mut cursor = None;
        let mut listed = Vec::new();
        loop {
            let page = if operation == "children" {
                store.children_page(selected, limit(17), cursor.as_ref())
            } else {
                store.siblings_page(selected, limit(17), cursor.as_ref())
            }
            .expect("ordered page");
            listed.extend(page.items.iter().map(|node| node.id));
            assert_eq!(page.complete, page.next_cursor.is_none());
            assert_eq!(page.truncated, page.next_cursor.is_some());
            cursor = page.next_cursor;
            if cursor.is_none() {
                break;
            }
        }
        assert_eq!(listed, fixture.wide_child_ids, "{operation}");
    }
}

#[test]
fn sibling_page_cursors_reject_changed_requests_and_workspace_revisions() {
    let mut fixture = fixture();
    let first = fixture
        .store
        .children_page(fixture.wide_parent_id, limit(2), None)
        .expect("first page");
    let cursor = first.next_cursor.expect("continuation");

    let changed_request = fixture
        .store
        .siblings_page(fixture.wide_child_ids[0], limit(2), Some(&cursor))
        .expect_err("cursor is bound to children request");
    assert_eq!(
        changed_request.pagination_code().expect("pagination error"),
        PaginationErrorCode::InvalidCursor
    );

    fixture.store.advance();
    let stale = fixture
        .store
        .children_page(fixture.wide_parent_id, limit(2), Some(&cursor))
        .expect_err("mutation stales cursor");
    assert_eq!(
        stale.pagination_code().expect("pagination error"),
        PaginationErrorCode::StaleCursor
    );
}

#[test]
fn traversal_pages_equal_complete_dfs_and_bound_first_page_work() {
    let fixture = tree(&Spec {
        wide_children: 128,
        deep_descendants: 32,
        history_revisions: 4,
        relations: 16,
    });
    let store = &fixture.store;
    let expected: Vec<(usize, NodeId)> = store
        .subtree(fixture.root_id)
        .into_iter()
        .map(|row| (row.depth, row.node.id))
        .collect();

    let collect = |order: TraversalOrder, with_root: bool| -> Vec<(usize, NodeId)> {
        let mut rows = Vec::new();
        let mut cursor = None;
        loop {
            let page = match (order, with_root) {
                (TraversalOrder::Dfs, true) => {
                    store.subtree_page(fixture.root_id, limit(3), cursor.as_ref())
                }
                (TraversalOrder::Dfs, false) => {
                    store.descendants_page(fixture.root_id, limit(3), cursor.as_ref())
                }
                (order, true) => {
                    store.subtree_page_ordered(fixture.root_id, order, limit(3), cursor.as_ref())
                }
                (order, false) => store.descendants_page_ordered(
                    fixture.root_id,
                    order,
                    limit(3),
                    cursor.as_ref(),
                ),
            }
            .expect("traversal page");
            assert!(page.items.len() <= 3);
            rows.extend(page.items.iter().map(|row| (row.depth, row.node.id)));
            cursor = page.next_cursor;
            if cursor.is_none() {
                return rows;
            }
        }
    };
    assert_eq!(collect(TraversalOrder::Dfs, true), expected);
    assert_eq!(collect(TraversalOrder::Dfs, false), expected[1..].to_vec());
    let mut expected_bfs = expected.clone();
    expected_bfs.sort_by_key(|(depth, _)| *depth);
    assert_eq!(collect(TraversalOrder::Bfs, true), expected_bfs);
    assert_eq!(collect(TraversalOrder::Bfs, false), expected_bfs[1..].to_vec());
}

#[test]
fn traversal_rows_are_projected_in_one_targeted_canonical_query() {
    let fixture = tree(&Spec {
        wide_children: 240,
        deep_descendants: 64,
        history_revisions: 20,
        relations: 160,
    });
    let store = &fixture.store;
    let deep_ids: Vec<NodeId> = store
        .nodes
        .iter()
        .filter(|node| node.id == fixture.deep_parent_id || node.slug.starts_with("deep-"))
        .map(|node| node.id)
        .collect();
    let mut expected_ancestors = vec![(fixture.root_id, 65)];
    expected_ancestors.extend(
        deep_ids[..deep_ids.len() - 1]
            .iter()
            .enumerate()
            .map(|(index, id)| (*id, 64 - index)),
    );
    assert_eq!(
        store
            .ancestors(fixture.deep_leaf_id)
            .iter()
            .map(|row| (row.node.id, row.depth))
            .collect::<Vec<_>>(),
        expected_ancestors
    );
    let subtree: Vec<(NodeId, usize)> = store
        .subtree(fixture.deep_parent_id)
        .iter()
        .map(|row| (row.node.id, row.depth))
        .collect();
    assert_eq!(
        subtree,
        deep_ids.iter().enumerate().map(|(depth, id)| (*id, depth)).collect::<Vec<_>>()
    );
    assert_eq!(
        store
            .descendants(fixture.deep_parent_id)
            .iter()
            .map(|row| (row.node.id, row.depth))
            .collect::<Vec<_>>(),
        subtree[1..].to_vec()
    );
}

#[test]
fn revision_history_pages_are_bounded_complete_and_newest_first() {
    let fixture =
        tree(&Spec { wide_children: 0, deep_descendants: 0, history_revisions: 250, relations: 0 });
    let mut cursor = None;
    let mut summaries = Vec::new();
    loop {
        let page = fixture
            .store
            .revision_history_page(fixture.history_node_id, limit(100), cursor.as_ref())
            .expect("history page");
        summaries.extend(page.items);
        cursor = page.next_cursor;
        if cursor.is_none() {
            break;
        }
    }
    assert_eq!(summaries.len(), 250);
    assert_eq!(summaries[0].version, 250);
    assert_eq!(summaries[249].version, 1);
    assert!(summaries.windows(2).all(|pair| pair[0].version > pair[1].version));
    assert!(summaries.iter().all(|item| item.node_id == fixture.history_node_id));
}

#[test]
fn integrity_pages_bound_large_read_only_finding_sets() {
    let mut fixture =
        tree(&Spec { wide_children: 120, deep_descendants: 0, history_revisions: 1, relations: 0 });
    let hashes: Vec<ComputedHashes> = fixture
        .store
        .nodes
        .iter()
        .map(|node| ComputedHashes {
            node_id: node.id,
            content_hash: node.content_hash,
            revision_hash: node.revision_hash,
        })
        .collect();
    for node in &mut fixture.store.nodes {
        if node.parent_id == Some(fixture.wide_parent_id) {
            node.content_hash = NodeHash { high: 0, low: 0 };
        }
    }
    let mut cursor = None;
    let mut findings = Vec::new();
    loop {
        let result = fixture
            .store
            .integrity_page(&hashes, &no_vectors(), limit(37), cursor.as_ref())
            .expect("integrity page");
        assert!(!result.healthy);
        assert_eq!(result.total_findings, 120);
        findings.extend(result.page.items);
        cursor = result.page.next_cursor;
        if cursor.is_none() {
            break;
        }
    }
    assert_eq!(findings.len(), 120);
    assert!(findings.iter().all(|finding| finding.code == "content_hash"));
}

#[test]
fn tree_statistics_cover_root_wide_deep_and_leaf_shapes() {
    let mut fixture = tree(&Spec {
        wide_children: 120,
        deep_descendants: 24,
        history_revisions: 1,
        relations: 0,
    });
    let store = &fixture.store;
    let root = store.tree_statistics(fixture.root_id).expect("root stats");
    assert_eq!(root.direct_child_count, 5);
    assert_eq!(root.subtree_size, 150);
    assert_eq!(root.leaf_count, 124);
    assert_eq!(root.max_relative_depth, 25);
    assert_eq!(root.max_width, 121);

    let wide = store.tree_statistics(fixture.wide_parent_id).expect("wide stats");
    assert_eq!((wide.direct_child_count, wide.subtree_size), (120, 121));
    assert_eq!((wide.leaf_count, wide.max_relative_depth, wide.max_width), (120, 1, 120));

    let leaf = store.tree_statistics(fixture.wide_child_ids[0]).expect("leaf stats");
    assert_eq!(
        (
            leaf.direct_child_count,
            leaf.subtree_size,
            leaf.leaf_count,
            leaf.max_relative_depth,
            leaf.max_width,
        ),
        (0, 1, 1, 0, 1)
    );
    assert!(store.tree_statistics(NodeId::new(999)).is_err());

    let contains = |a: NodeId, b: NodeId| store.contains_ancestor(a, b).expect("nodes").contains;
    assert!(contains(fixture.root_id, fixture.deep_leaf_id));
    assert!(contains(fixture.deep_leaf_id, fixture.deep_leaf_id));
    assert!(!contains(fixture.deep_leaf_id, fixture.root_id));
    assert_eq!(
        store
            .lowest_common_ancestor(fixture.wide_child_ids[0], fixture.wide_child_ids[119])
            .expect("wide LCA")
            .id,
        fixture.wide_parent_id
    );
    assert_eq!(
        store
            .lowest_common_ancestor(fixture.wide_child_ids[0], fixture.deep_leaf_id)
            .expect("branch LCA")
            .id,
        fixture.root_id
    );
    let route = store
        .path_between(fixture.wide_child_ids[0], fixture.deep_leaf_id)
        .expect("cross-branch route");
    assert_eq!(route.distance, 27);
    assert_eq!(route.nodes.first().expect("origin").id, fixture.wide_child_ids[0]);
    assert_eq!(route.nodes[2].id, fixture.root_id);
    assert_eq!(route.nodes.last().expect("destination").id, fixture.deep_leaf_id);
    assert_eq!(route.nodes.len(), 28);
    for pair in route.nodes.windows(2) {
        assert!(
            pair[0].parent_id == Some(pair[1].id) || pair[1].parent_id == Some(pair[0].id)
        );
    }
    for (at, node) in route.nodes.iter().enumerate() {
        assert!(route.nodes[at + 1..].iter().all(|other| other.id != node.id));
    }
    let same = store.path_between(fixture.root_id, fixture.root_id).expect("same-node route");
    assert_eq!(same.distance, 0);
    assert_eq!(ids(&same.nodes), vec![fixture.root_id]);
    assert_eq!(
        store
            .tree_distance(fixture.wide_child_ids[0], fixture.deep_leaf_id)
            .expect("distance")
            .distance,
        27
    );

    let mut cursor = None;
    let mut leaves = Vec::new();
    loop {
        let page = store
            .filtered_subtree_page(
                fixture.root_id,
                StructuralPredicate::Leaf,
                None,
                limit(37),
                cursor.as_ref(),
            )
            .expect("leaf page");
        leaves.extend(page.items);
        cursor = page.next_cursor;
        if cursor.is_none() {
            break;
        }
    }
    assert_eq!(leaves.len(), 124);
    assert!(leaves.windows(2).all(|pair| pair[0].depth <= 25 && pair[1].depth <= 25));
    let internal = store
        .filtered_subtree_page(
            fixture.root_id,
            StructuralPredicate::Internal,
            Some(1),
            limit(10),
            None,
        )
        .expect("bounded internal page");
    assert_eq!(
        internal.items.iter().map(|item| item.node.id).collect::<Vec<_>>(),
        vec![fixture.root_id, fixture.wide_parent_id, fixture.deep_parent_id]
    );

    let child_at = |index: u32| {
        store
            .child_at(fixture.wide_parent_id, index)
            .expect("indexed child")
            .node
            .map(|node| node.id)
    };
    assert_eq!(child_at(0), Some(fixture.wide_child_ids[0]));
    assert_eq!(child_at(119), Some(fixture.wide_child_ids[119]));
    assert_eq!(child_at(120), None);

    let neighbors = |id: NodeId| {
        let found = store.adjacent_siblings(id).expect("neighbors");
        (found.previous.map(|node| node.id), found.next.map(|node| node.id))
    };
    let wide_ids = &fixture.wide_child_ids;
    assert_eq!(neighbors(wide_ids[0]), (None, Some(wide_ids[1])));
    assert_eq!(neighbors(wide_ids[63]), (Some(wide_ids[62]), Some(wide_ids[64])));
    assert_eq!(neighbors(wide_ids[119]), (Some(wide_ids[118]), None));
    assert_eq!(neighbors(fixture.root_id), (None, None));

    let mut tied_ids = fixture.wide_child_ids[..2].to_vec();
    tied_ids.sort_by_key(|id| id.value);
    for node in &mut fixture.store.nodes {
        if tied_ids.contains(&node.id) {
            node.sibling_order = 0;
        }
    }
    let store = &fixture.store;
    assert_eq!(
        store
            .child_at(fixture.wide_parent_id, 0)
            .expect("tied first child")
            .node
            .expect("tied first child node")
            .id,
        tied_ids[0]
    );
    assert_eq!(
        store
            .adjacent_siblings(tied_ids[0])
            .expect("tied neighbors")
            .next
            .expect("ID tie-break next sibling")
            .id,
        tied_ids[1]
    );
}

#[test]
fn observer_proves_inspection_uses_bounded_lookahead_and_batched_counts() {
    let fixture = tree(&Spec {
        wide_children: 24,
        deep_descendants: 16,
        history_revisions: 12,
        relations: 32,
    });
    let store = &fixture.store;
    let inspect = |id: NodeId, depth: u32, size: u32| {
        store
            .inspect_subtree_page("inspect", id, depth, limit(size), None)
            .expect("inspection")
    };
    assert_eq!(inspect(fixture.wide_parent_id, 1, 1).items.len(), 1);
    let inspection = inspect(fixture.wide_parent_id, 1, 8);
    assert_eq!(inspection.items.len(), 8);
    assert_eq!(inspection.items[0].child_count, 24);
    assert!(inspection.items[1..].iter().all(|item| item.child_count == 0));
    assert!(inspection.truncated);
    assert!(inspection.next_cursor.is_some());

    let depth_limited = inspect(fixture.deep_parent_id, 2, 10);
    assert_eq!(
        depth_limited
            .items
            .iter()
            .map(|item| (item.depth, item.child_count))
            .collect::<Vec<_>>(),
        [(0, 1), (1, 1), (2, 1)]
    );
    assert!(depth_limited.truncated);
    assert!(depth_limited.next_cursor.is_none());

    let complete = inspect(fixture.deep_parent_id, 16, 100);
    assert_eq!(complete.items.len(), 17);
    assert_eq!(complete.items.last().expect("leaf").child_count, 0);
    assert!(!complete.truncated);
    assert!(complete.next_cursor.is_none());
}
