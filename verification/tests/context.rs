//! Subtree inspection and contexts within a byte budget.

use std::sync::Arc;

use mdtree::context::{compact_omissions, push_omitted, Budget, BudgetStep, ReadContext, WriteContext};
use mdtree::model::{
    Node, NodeHash, NodeId, NodeMetadata, NodeRevision, Reference, ReferenceOrigin,
    ReferenceTarget, StoreError,
};
use mdtree::paging::PageLimit;
use mdtree::tables::{ReferenceRow, SqliteStore};

struct Fixture {
    store: SqliteStore,
    root: NodeId,
    parent: NodeId,
    target: NodeId,
    sibling: NodeId,
}

fn node(value: u128, parent: Option<u128>, title: &str, order: u32) -> Node {
    Node {
        id: NodeId::new(value),
        parent_id: parent.map(NodeId::new),
        slug: title.to_lowercase(),
        metadata: Arc::new(NodeMetadata {
            title: title.into(),
            summary: Some(format!("{title} summary")),
            node_type: None,
            accepts_children: vec![],
            aliases: vec![],
            tags: vec![],
            keywords: vec![],
            owns: if title == "Target" { vec!["database definitions".into()] } else { vec![] },
            excludes: vec![],
            extra: "{}".into(),
        }),
        markdown_content: format!("# {title}\n"),
        sibling_order: order,
        version: 1,
        content_hash: NodeHash { high: 1, low: value },
        revision_hash: NodeHash { high: 2, low: value },
        created_at: 1,
        updated_at: 1,
    }
}

fn fixture() -> Fixture {
    let nodes = vec![
        node(1, None, "Project", 0),
        node(2, Some(1), "Parent", 0),
        node(3, Some(2), "Target", 0),
        node(4, Some(2), "Sibling", 1),
        node(5, Some(3), "Child", 0),
    ];
    let revisions = nodes
        .iter()
        .map(|n| NodeRevision {
            node_id: n.id,
            parent_id: n.parent_id,
            slug: n.slug.clone(),
            metadata: n.metadata.clone(),
            markdown_content: n.markdown_content.clone(),
            sibling_order: n.sibling_order,
            version: 1,
            content_hash: n.content_hash,
            revision_hash: n.revision_hash,
            change_summary: None,
            created_by: None,
            created_at: 1,
        })
        .collect();
    Fixture {
        store: SqliteStore {
            nodes,
            revisions,
            references: vec![],
            sections: vec![],
            fts: vec![],
            receipts: vec![],
            revision: 1,
        },
        root: NodeId::new(1),
        parent: NodeId::new(2),
        target: NodeId::new(3),
        sibling: NodeId::new(4),
    }
}

fn limit(value: u32) -> PageLimit {
    PageLimit::new(value).expect("limit")
}

fn read_size(context: &ReadContext) -> usize {
    format!("{context:?}").len()
}

fn write_size(context: &WriteContext) -> usize {
    format!("{context:?}").len()
}

fn fit_read(store: &SqliteStore, id: NodeId, bytes: usize) -> Result<ReadContext, (usize, usize)> {
    let mut context = store.read_context(id).expect("context");
    let mut budget = Budget::new(bytes);
    loop {
        let length = read_size(&context);
        match budget.measured_read(&mut context, length) {
            BudgetStep::Measure => {}
            BudgetStep::Fits => return Ok(context),
            BudgetStep::Exceeded { minimum, requested } => return Err((minimum, requested)),
        }
    }
}

fn fit_write(store: &SqliteStore, id: NodeId, bytes: usize) -> Result<WriteContext, (usize, usize)> {
    let mut context = store.write_context(id).expect("context");
    let mut budget = Budget::new(bytes);
    loop {
        let length = write_size(&context);
        match budget.measured_write(&mut context, length) {
            BudgetStep::Measure => {}
            BudgetStep::Fits => return Ok(context),
            BudgetStep::Exceeded { minimum, requested } => return Err((minimum, requested)),
        }
    }
}

#[test]
fn inspection_continuation_preserves_depth_counts_and_breadcrumbs() {
    let fixture = fixture();
    let store = &fixture.store;
    let first_page = store
        .inspect_subtree_page("inspect", fixture.root, 2, limit(2), None)
        .expect("first inspection page");
    assert_eq!(
        first_page.items.iter().map(|item| item.node.node_id).collect::<Vec<_>>(),
        [fixture.root, fixture.parent]
    );
    let cursor = first_page.next_cursor.expect("continuation");
    let second_page = store
        .inspect_subtree_page("inspect", fixture.root, 2, limit(2), Some(&cursor))
        .expect("second inspection page");
    assert_eq!(
        second_page.items.iter().map(|item| item.node.node_id).collect::<Vec<_>>(),
        [fixture.target, fixture.sibling]
    );
    assert_eq!(second_page.items[0].node.breadcrumb, ["Project", "Parent", "Target"]);
    assert!(second_page.next_cursor.is_none());
    assert!(second_page.truncated, "depth two omits Target's child");
    assert!(store
        .inspect_subtree_page("inspect", fixture.parent, 2, limit(2), Some(&cursor))
        .is_err());
}

#[test]
fn inspection_and_context_limits_are_exact_and_priority_ordered() {
    let mut fixture = fixture();
    fixture.store.references.push(ReferenceRow {
        row_id: 1,
        reference: Reference {
            source_node_id: fixture.target,
            source_section_id: None,
            reference_type: "related_to".into(),
            target: ReferenceTarget::Unresolved { target_ref: "Missing".into() },
            origin: ReferenceOrigin::Agent,
            metadata: "{}".into(),
        },
    });
    let store = &fixture.store;
    let inspection = store
        .inspect_subtree_page("inspect", fixture.root, 1, limit(2), None)
        .expect("inspection");
    assert_eq!(inspection.items.len(), 2);
    assert!(inspection.items.iter().all(|item| item.depth <= 1));
    assert!(inspection.truncated);
    assert!(inspection.next_cursor.is_none());

    let full = fit_read(store, fixture.target, 20_000).expect("read context");
    assert_eq!(full.ancestors.len(), 2);
    assert_eq!(full.children.len(), 1);
    assert_eq!(full.references.len(), 1);
    assert!(!full.truncated);
    assert_eq!(full.content.as_deref(), Some("# Target\n"));
    let full_size = read_size(&full);
    let limited = fit_read(store, fixture.target, full_size - 1).expect("limited context");
    assert!(read_size(&limited) < full_size);
    assert!(limited.truncated);
    assert!(limited.omitted.contains(&"references".into()));
    assert_eq!(limited.children.len(), 1);
    let (minimum, requested) = fit_read(store, fixture.target, 1).expect_err("too small");
    assert!(minimum > requested);
    assert_eq!(requested, 1);

    let write = fit_write(store, fixture.target, 20_000).expect("write context");
    assert_eq!(write.version, 1);
    assert_eq!(write.content_hash, NodeHash { high: 1, low: 3 });
    assert_eq!(write.owns, ["database definitions"]);
    assert_eq!(write.sibling_examples.len(), 1);
    assert_eq!(write.ancestor_conventions.len(), 2);
    assert_eq!(write.references.len(), 1);
    let full_write = write_size(&write);
    let limited_write = fit_write(store, fixture.target, full_write - 1).expect("limited write");
    assert!(write_size(&limited_write) < full_write);
    assert!(limited_write.omitted.contains(&"references".into()));
    assert!(fit_write(store, fixture.target, 1).is_err());
}

#[test]
fn contexts_of_unknown_nodes_are_refused() {
    let fixture = fixture();
    let unknown = NodeId::new(99);
    assert!(matches!(fixture.store.read_context(unknown), Err(StoreError::NotFound(_))));
    assert!(matches!(fixture.store.write_context(unknown), Err(StoreError::NotFound(_))));
}

#[test]
fn a_context_that_fits_once_its_labels_are_shortened_is_returned() {
    let fixture = fixture();
    let mut context = fixture.store.read_context(fixture.root).expect("context");
    context.references.clear();
    context.children.clear();
    context.content = None;
    context.ancestors.clear();
    let mut budget = Budget::new(100);
    let mut measured = |length: usize| loop {
        match budget.measured_read(&mut context, length) {
            BudgetStep::Measure if context.truncated && context.omitted.len() == 1 => return None,
            BudgetStep::Measure => {}
            step => return Some(step),
        }
    };
    assert_eq!(measured(120), None);
    assert_eq!(context.omitted, ["additional context omitted"]);
    loop {
        match budget.measured_read(&mut context, 90) {
            BudgetStep::Measure => {}
            step => {
                assert_eq!(step, BudgetStep::Fits);
                break;
            }
        }
    }
    loop {
        match budget.measured_read(&mut context, 101) {
            BudgetStep::Measure => {}
            step => {
                assert_eq!(step, BudgetStep::Exceeded { minimum: 101, requested: 100 });
                break;
            }
        }
    }
}

#[test]
fn omissions_are_named_once() {
    let mut omitted = vec![];
    push_omitted(&mut omitted, "references");
    push_omitted(&mut omitted, "children");
    push_omitted(&mut omitted, "references");
    assert_eq!(omitted, ["references", "children"]);
    compact_omissions(&mut omitted);
    assert_eq!(omitted, ["additional context omitted"]);
}
