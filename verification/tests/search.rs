//! Content search, destinations and the words behind them.

use std::sync::Arc;

use mdtree::destinations::{
    locate_target, DestinationCandidate, DestinationEvidence, LocateAction, LocateResult,
    LocateStatus,
};
use mdtree::fts::make_rows;
use mdtree::model::{
    FtsDocument, Node, NodeHash, NodeId, NodeMetadata, Reference, ReferenceOrigin, ReferenceTarget, StoreError,
};
use mdtree::pages::StructuralPredicate;
use mdtree::paging::{Page, PageCursor, PageLimit, PageReadError, PaginationErrorCode};
use mdtree::search::{
    MatchedDocument, SearchFilters, SearchHit, SearchMatch, SearchRequest, SearchScope, Signal,
};
use mdtree::tables::{ReferenceRow, SqliteStore};
use mdtree::words::{
    contains, contains_ignore_case, infer_type, join, split_words, suggested_title, tokens,
};

struct Fixture {
    store: SqliteStore,
    tables: NodeId,
    orders: NodeId,
    create_order: NodeId,
    endpoints: NodeId,
}

struct Entry {
    value: u128,
    parent: Option<u128>,
    slug: &'static str,
    title: &'static str,
    kind: &'static str,
    content: &'static str,
    order: u32,
}

fn node(entry: &Entry) -> Node {
    let mut metadata = NodeMetadata {
        title: entry.title.into(),
        summary: None,
        node_type: Some(entry.kind.into()),
        accepts_children: vec![],
        aliases: vec![],
        tags: vec![],
        keywords: vec![],
        owns: vec![],
        excludes: vec![],
        extra: "{}".into(),
    };
    match entry.slug {
        "tables" => {
            metadata.owns =
                vec!["database table definitions".into(), "column definitions".into()];
            metadata.accepts_children = vec!["database_table".into()];
            metadata.excludes = vec!["api contracts".into()];
        }
        "endpoints" => {
            metadata.owns = vec!["http endpoint definitions".into()];
            metadata.accepts_children = vec!["api_endpoint".into()];
        }
        "orders" => metadata.tags = vec!["database".into(), "orders".into()],
        "create-order" | "get-order" => metadata.tags = vec!["api".into(), "orders".into()],
        "central-models" | "billing-models" => {
            metadata.owns = vec!["database model definitions".into()];
            metadata.accepts_children = vec!["database_model".into()];
        }
        _ => {}
    }
    Node {
        id: NodeId::new(entry.value),
        parent_id: entry.parent.map(NodeId::new),
        slug: entry.slug.into(),
        metadata: Arc::new(metadata),
        markdown_content: entry.content.into(),
        sibling_order: entry.order,
        version: 1,
        content_hash: NodeHash { high: 1, low: entry.value },
        revision_hash: NodeHash { high: 2, low: entry.value },
        created_at: 1,
        updated_at: 1,
    }
}

fn entry(
    value: u128,
    parent: Option<u128>,
    slug: &'static str,
    title: &'static str,
    kind: &'static str,
    content: &'static str,
    order: u32,
) -> Entry {
    Entry { value, parent, slug, title, kind, content, order }
}

fn northstar_fixture() -> Fixture {
    let entries = [
        entry(1, None, "northstar-platform", "Northstar Platform", "project", "# Northstar\n", 0),
        entry(2, Some(1), "database", "Database", "area", "# Database\n", 0),
        entry(3, Some(2), "tables", "Tables", "collection", "# Tables\nCanonical database tables.\n", 0),
        entry(4, Some(3), "products", "Products", "database_table", "# Products\nProduct table model.\n", 0),
        entry(5, Some(3), "customers", "Customers", "database_table", "# Customers\nCustomer table model.\n", 1),
        entry(6, Some(3), "orders", "Orders", "database_table", "# Orders\nCanonical order model and table.\n", 2),
        entry(7, Some(1), "api", "API", "area", "# API\n", 1),
        entry(8, Some(7), "endpoints", "Endpoints", "collection", "# Endpoints\n", 0),
        entry(9, Some(8), "create-order", "Create Order", "api_endpoint", "# Create Order\nOrder model endpoint.\n", 0),
        entry(10, Some(8), "get-order", "Get Order", "api_endpoint", "# Get Order\nRead order model endpoint.\n", 1),
    ];
    let store = SqliteStore {
        nodes: entries.iter().map(node).collect(),
        revisions: vec![],
        references: vec![ReferenceRow {
            row_id: 1,
            reference: Reference {
                source_node_id: NodeId::new(9),
                source_section_id: None,
                reference_type: "reads_from".into(),
                target: ReferenceTarget::Resolved {
                    node_id: NodeId::new(6),
                    target_ref: Some("Orders".into()),
                    anchor: None,
                },
                origin: ReferenceOrigin::Explicit,
                metadata: "{}".into(),
            },
        }],
        sections: vec![],
        fts: vec![],
        receipts: vec![],
        revision: 1,
    };
    assert!(store.is_well_formed());
    Fixture {
        store,
        tables: NodeId::new(3),
        orders: NodeId::new(6),
        create_order: NodeId::new(9),
        endpoints: NodeId::new(8),
    }
}

/// Every document in which each word of the query stands somewhere.
fn matched(store: &SqliteStore, query: &str) -> Vec<MatchedDocument> {
    let words = tokens(query);
    store
        .nodes
        .iter()
        .map(|node| {
            let context = store.fts_context(node.id);
            MatchedDocument {
                section_id: NodeId::new(node.id.value + 1000),
                node_id: node.id,
                heading: node.metadata.title.clone(),
                content: node.markdown_content.clone(),
                title: node.metadata.title.clone(),
                aliases: node.metadata.aliases.join(" "),
                summary: node.metadata.summary.clone().unwrap_or_default(),
                tags: node.metadata.tags.join(" "),
                keywords: node.metadata.keywords.join(" "),
                ancestor_context: context.ancestor_context,
                child_context: context.child_context,
            }
        })
        .filter(|document| {
            let all = format!(
                "{} {} {} {} {}",
                document.title,
                document.content,
                document.tags,
                document.ancestor_context,
                document.child_context
            )
            .to_lowercase();
            words.iter().all(|word| all.contains(word.as_str()))
        })
        .collect()
}

fn score(signals: &[Signal]) -> f64 {
    signals
        .iter()
        .map(|signal| {
            f64::from(signal.weight) / 100.0 * (signal.matched as f64) / (signal.total as f64)
        })
        .sum()
}

/// The hits of a request, each with the bits of its score.
fn scored(
    store: &SqliteStore,
    request: &SearchRequest,
) -> Result<(Vec<SearchHit>, Vec<u64>), StoreError> {
    let hits = store.search_hits(request, Some(&matched(store, &request.query)))?;
    let scores = hits.iter().map(|hit| score(&hit.signals).to_bits()).collect();
    Ok((hits, scores))
}

fn search(store: &SqliteStore, request: &SearchRequest) -> Result<Vec<NodeId>, StoreError> {
    let (hits, scores) = scored(store, request)?;
    let matches = store.search_content(request, &hits, &scores)?;
    Ok(matches.into_iter().map(|item| item.node_id).collect())
}

fn search_page(
    store: &SqliteStore,
    request: &SearchRequest,
    limit: u32,
    cursor: Option<&PageCursor>,
) -> Result<Page<SearchMatch>, PageReadError> {
    let (hits, scores) = scored(store, request).expect("hits");
    let key = format!(
        "{:?}",
        (&request.query, request.scope, request.scope_node, &request.filters)
    );
    let limit = PageLimit::new(limit).expect("limit");
    store.search_content_page(request, &key, &hits, &scores, limit, cursor)
}

fn filters() -> SearchFilters {
    SearchFilters {
        node_types: vec![],
        tags: vec![],
        statuses: vec![],
        structure: None,
        min_depth: None,
        max_depth: None,
        created_from: None,
        created_to: None,
        updated_from: None,
        updated_to: None,
    }
}

fn request(query: &str, scope: SearchScope, scope_node: Option<NodeId>) -> SearchRequest {
    SearchRequest {
        query: query.into(),
        scope,
        scope_node,
        filters: filters(),
        limit: 20,
        offset: 0,
        prefix_last_token: false,
    }
}

#[test]
fn weighted_search_and_scopes_are_structural() {
    let fixture = northstar_fixture();
    let store = &fixture.store;
    let workspace =
        search(store, &request("order model", SearchScope::Workspace, None)).expect("search");
    assert_eq!(workspace[0], fixture.orders);
    for (scope, node, allowed) in [
        (SearchScope::CurrentNode, fixture.orders, vec![fixture.orders]),
        (SearchScope::Subtree, fixture.tables, vec![fixture.orders, fixture.tables]),
        (SearchScope::Siblings, fixture.orders, vec![fixture.orders]),
        (SearchScope::ParentSubtree, fixture.orders, vec![fixture.orders, fixture.tables]),
        (
            SearchScope::Linked,
            fixture.create_order,
            vec![fixture.orders, fixture.create_order],
        ),
    ] {
        let results = search(store, &request("order", scope, Some(node))).expect("scope");
        assert!(results.iter().all(|id| allowed.contains(id)), "{scope:?} {results:?}");
    }
    let ancestor = search(store, &request("database products", SearchScope::Workspace, None))
        .expect("ancestor");
    assert_eq!(store.get(ancestor[0]).expect("node").metadata.title, "Products");
}

#[test]
fn node_type_and_required_tag_filters_apply_before_pagination() {
    let fixture = northstar_fixture();
    let store = &fixture.store;
    let mut filtered = request("order model", SearchScope::Workspace, None);
    filtered.filters.node_types = vec!["database_table".into()];
    filtered.filters.tags = vec!["database".into()];
    assert_eq!(search(store, &filtered).expect("filtered search"), vec![fixture.orders]);

    filtered.filters.node_types = vec!["database_table".into(), "api_endpoint".into()];
    filtered.filters.tags = vec!["orders".into()];
    filtered.limit = 1;
    let first = search_page(store, &filtered, 1, None).expect("first filtered page");
    assert_eq!(first.items.len(), 1);
    let second = search_page(store, &filtered, 1, first.next_cursor.as_ref())
        .expect("second filtered page");
    assert_eq!(second.items.len(), 1);
    assert_ne!(first.items[0].node_id, second.items[0].node_id);
    assert!(second.next_cursor.is_some());
    assert_eq!(search(store, &filtered).expect("limited"), vec![first.items[0].node_id]);
    filtered.offset = 1;
    assert_eq!(search(store, &filtered).expect("offset"), vec![second.items[0].node_id]);
    filtered.limit = 0;
    assert!(search(store, &filtered).expect("nothing").is_empty());

    let mut structural = request("order model", SearchScope::Subtree, Some(fixture.tables));
    structural.filters.min_depth = Some(1);
    structural.filters.max_depth = Some(1);
    structural.filters.created_from = Some(1);
    structural.filters.created_to = Some(1);
    structural.filters.updated_from = Some(1);
    structural.filters.updated_to = Some(1);
    structural.filters.structure = Some(StructuralPredicate::Leaf);
    assert_eq!(search(store, &structural).expect("structural"), vec![fixture.orders]);

    let mut status = request("order model", SearchScope::Workspace, None);
    status.filters.statuses = vec!["reads_from".into()];
    assert_eq!(search(store, &status).expect("status search"), vec![fixture.create_order]);

    let mut linked = request("order", SearchScope::Linked, Some(fixture.create_order));
    linked.filters.min_depth = Some(1);
    assert!(search(store, &linked).is_err());
    assert!(search(store, &request("order", SearchScope::Subtree, None)).is_err());
}

struct WideFixture {
    store: SqliteStore,
    wide_parent_id: NodeId,
    wide_child_ids: Vec<NodeId>,
}

/// One parent with many children that say the same, under identities in no order, and a
/// reference from the parent to each of them.
fn wide_fixture(children: u32) -> WideFixture {
    let mut nodes = vec![
        node(&entry(1, None, "project", "Project", "project", "# Project\n", 0)),
        node(&entry(2, Some(1), "wide", "Wide", "area", "# Wide\n", 0)),
        node(&entry(3, Some(1), "aside", "Aside", "area", "# Aside\n", 1)),
    ];
    let mut wide_child_ids = Vec::new();
    let mut references = Vec::new();
    for order in 0..children {
        let value = 1000 + u128::from(order * 37 % children);
        let content = "# Child\nA deterministic child of the wide fixture.\n";
        let mut child = node(&entry(value, Some(2), "child", "Child", "leaf", content, order));
        child.slug = format!("child-{order}");
        wide_child_ids.push(child.id);
        references.push(ReferenceRow {
            row_id: u64::from(order) + 1,
            reference: Reference {
                source_node_id: NodeId::new(2),
                source_section_id: None,
                reference_type: "search_scope".into(),
                target: ReferenceTarget::Resolved {
                    node_id: child.id,
                    target_ref: Some(child.id.to_text()),
                    anchor: None,
                },
                origin: ReferenceOrigin::Explicit,
                metadata: "{}".into(),
            },
        });
        nodes.push(child);
    }
    let store = SqliteStore {
        nodes,
        revisions: vec![],
        references,
        sections: vec![],
        fts: vec![],
        receipts: vec![],
        revision: 1,
    };
    assert!(store.is_well_formed());
    WideFixture { store, wide_parent_id: NodeId::new(2), wide_child_ids }
}

#[test]
fn paged_search_enumerates_large_tied_rankings_and_binds_the_request() {
    let fixture = wide_fixture(230);
    let store = &fixture.store;
    let expected = {
        let mut ids = fixture.wide_child_ids.clone();
        ids.sort_unstable_by_key(|id| id.value);
        ids
    };
    for (scope, scope_node) in [
        (SearchScope::Workspace, None),
        (SearchScope::Subtree, Some(fixture.wide_parent_id)),
        (SearchScope::Siblings, Some(fixture.wide_child_ids[0])),
        (SearchScope::ParentSubtree, Some(fixture.wide_child_ids[0])),
        (SearchScope::Linked, Some(fixture.wide_parent_id)),
    ] {
        let request = request("deterministic wide fixture", scope, scope_node);
        let mut cursor = None;
        let mut ids = Vec::new();
        loop {
            let page = search_page(store, &request, 37, cursor.as_ref()).expect("search page");
            assert!(page.items.len() <= 37);
            ids.extend(page.items.into_iter().map(|item| item.node_id));
            cursor = page.next_cursor;
            if cursor.is_none() {
                break;
            }
        }
        assert_eq!(ids, expected, "{scope:?}");
    }

    let original = request(
        "deterministic wide fixture",
        SearchScope::Subtree,
        Some(fixture.wide_parent_id),
    );
    let first = search_page(store, &original, 2, None).expect("first page");
    let changed = request("different query", original.scope, original.scope_node);
    let error = search_page(store, &changed, 2, first.next_cursor.as_ref())
        .expect_err("changed query must reject continuation");
    assert_eq!(error.pagination_code(), Some(PaginationErrorCode::InvalidCursor));
}

#[test]
fn a_query_with_nothing_to_search_for_finds_nothing() {
    let fixture = northstar_fixture();
    let blank = request(" ", SearchScope::Subtree, None);
    assert!(fixture.store.search_hits(&blank, None).expect("no hits").is_empty());
    assert!(fixture.store.search_hits(&blank, Some(&vec![])).is_err());
}

#[test]
fn results_are_ranked_capped_and_give_their_reasons() {
    let fixture = northstar_fixture();
    let hit = |node: u128, section: u128| SearchHit {
        node_id: NodeId::new(node),
        section_id: NodeId::new(section),
        signals: vec![Signal { weight: 55, label: "title".into(), matched: 1, total: 1 }],
    };
    let hits = vec![hit(9, 1), hit(6, 2), hit(6, 3), hit(4, 4)];
    let scores: Vec<u64> =
        [1.5_f64, 1.25, 1.75, 0.5].iter().map(|score| score.to_bits()).collect();
    let asked = request("order", SearchScope::Workspace, None);
    let matches = fixture.store.search_content(&asked, &hits, &scores).expect("matches");
    let shown: Vec<(u128, Option<NodeId>, f64)> = matches
        .iter()
        .map(|item| (item.node_id.value, item.section_id, f64::from_bits(item.score)))
        .collect();
    assert_eq!(
        shown,
        vec![
            (6, Some(NodeId::new(3)), 1.0),
            (9, Some(NodeId::new(1)), 1.0),
            (4, Some(NodeId::new(4)), 0.5),
        ]
    );
    assert_eq!(matches[0].match_reasons, ["title matched"]);
    let unknown = vec![hit(99, 1)];
    assert!(matches!(
        fixture.store.search_content(&asked, &unknown, &vec![0]),
        Err(StoreError::NotFound(_))
    ));
}

fn destination_score(evidence: &DestinationEvidence) -> f64 {
    let mut total = score(&evidence.signals);
    if evidence.excluded {
        total -= 0.35;
    }
    if evidence.accepts_child == Some(true) {
        total += 0.38;
    }
    if evidence.matching > 0 {
        total += 0.18;
    }
    if evidence.barren {
        total -= 0.08;
    }
    total
}

fn candidates(store: &SqliteStore, query: &str, kind: &str) -> Vec<DestinationCandidate> {
    let kind = kind.to_string();
    let evidence = store.destination_evidence(query, Some(&kind));
    let scores = evidence.iter().map(|weighed| destination_score(weighed).to_bits()).collect();
    store.destination_candidates(&evidence, &scores, 5).expect("candidates")
}

fn locate(query: &str, found: &[DestinationCandidate]) -> LocateResult {
    let accepts = found.iter().map(|candidate| candidate.result.accepts_child).collect();
    let near_tie = found.len() > 1
        && f64::from_bits(found[0].result.score) - f64::from_bits(found[1].result.score) < 0.08;
    locate_target(query, &accepts, near_tie)
}

#[test]
fn locate_refunds_returns_tables_action_reasons_and_examples() {
    let fixture = northstar_fixture();
    let store = &fixture.store;
    let found = candidates(store, "Add refunds table", "database_table");
    let result = locate("Add refunds table", &found);
    assert_eq!(result.status, LocateStatus::Recommended);
    assert_eq!(result.action, Some(LocateAction::CreateChild));
    assert_eq!(found[0].result.node_id, fixture.tables);
    assert_eq!(result.suggested_title.as_deref(), Some("Refunds"));
    assert!(found[0].result.match_reasons.iter().any(|reason| reason.contains("ownership")));
    assert_eq!(found[0].example_node_ids.len(), 3);
    let endpoint = "api_endpoint".to_string();
    assert_eq!(
        store.examples_for(fixture.endpoints, Some(&endpoint), 10)[0],
        fixture.create_order
    );
    assert_eq!(store.examples_for(fixture.tables, None, 2).len(), 2);
}

#[test]
fn near_equal_destinations_report_ambiguity() {
    let mut fixture = northstar_fixture();
    fixture.store.nodes.push(node(&entry(
        11,
        Some(1),
        "central-models",
        "Central Models",
        "collection",
        "# Models\n",
        2,
    )));
    fixture.store.nodes.push(node(&entry(
        12,
        Some(1),
        "billing-models",
        "Billing Models",
        "collection",
        "# Models\n",
        3,
    )));
    let found = candidates(&fixture.store, "Add invoice model", "database_model");
    assert!(found.len() >= 2);
    let result = locate("Add invoice model", &found);
    assert_eq!(result.status, LocateStatus::Ambiguous);
    assert!(result.ambiguity.is_some());
    let none = locate_target("Add invoice model", &vec![], false);
    assert_eq!(none.status, LocateStatus::NotFound);
    assert!(none.action.is_none() && none.suggested_title.is_none());
    let plain = locate_target("note", &vec![Some(false)], false);
    assert_eq!(plain.action, Some(LocateAction::AppendToNode));
}

#[test]
fn destinations_without_a_score_above_zero_are_left_out() {
    let fixture = northstar_fixture();
    let store = &fixture.store;
    let evidence = store.destination_evidence("order", None);
    assert_eq!(evidence.len(), store.nodes.len());
    let mut scores: Vec<u64> = evidence.iter().map(|_| (-0.5_f64).to_bits()).collect();
    scores[1] = 0.0_f64.to_bits();
    scores[2] = 0.25_f64.to_bits();
    scores[3] = 1.5_f64.to_bits();
    scores[4] = 1.25_f64.to_bits();
    let ranked = |limit: u32| -> Vec<(NodeId, f64)> {
        store
            .destination_candidates(&evidence, &scores, limit)
            .expect("candidates")
            .iter()
            .map(|item| (item.result.node_id, f64::from_bits(item.result.score)))
            .collect()
    };
    let expected = vec![
        (evidence[3].node_id, 1.0),
        (evidence[4].node_id, 1.0),
        (evidence[2].node_id, 0.25),
    ];
    assert_eq!(ranked(5), expected);
    assert_eq!(ranked(2), expected[..2].to_vec());
    assert!(ranked(0).is_empty());
}

#[test]
fn words_are_runs_of_letters_and_digits() {
    assert_eq!(split_words("Add order-table, v2!"), ["Add", "order", "table", "v2"]);
    assert_eq!(split_words("R\u{12b}ga \u{2014} 2"), ["R\u{12b}ga", "2"]);
    assert_eq!(tokens("Order order TABLE a"), ["a", "order", "table"]);
    assert!(tokens(" - ").is_empty());
    assert_eq!(tokens("b a c"), ["a", "b", "c"]);
}

#[test]
fn letter_case_is_set_aside_beyond_ascii() {
    assert!(contains_ignore_case("R\u{12a}GA", "\u{12b}g"));
    assert!(!contains_ignore_case("Riga", "\u{12b}"));
    assert!(contains("abc", "bc") && contains("abc", "") && !contains("abc", "cb"));
}

#[test]
fn titles_and_types_are_inferred_from_queries() {
    assert_eq!(suggested_title("Add new refunds table").as_deref(), Some("Refunds"));
    assert_eq!(
        suggested_title("Add architecture decision for API retries").as_deref(),
        Some("Architecture Decision For API Retries")
    );
    assert_eq!(suggested_title("\u{fc}bersicht").as_deref(), Some("\u{dc}bersicht"));
    assert_eq!(suggested_title("add table"), None);
    assert_eq!(infer_type("New Table").as_deref(), Some("database_table"));
    assert_eq!(infer_type("an endpoint").as_deref(), Some("api_endpoint"));
    assert_eq!(infer_type("a model").as_deref(), Some("database_model"));
    assert_eq!(infer_type("a note"), None);
    assert_eq!(join(&vec!["a".into(), "b".into()], ", "), "a, b");
    assert_eq!(join(&vec![], ", "), "");
}

#[test]
fn the_index_sees_a_node_in_its_context() {
    let fixture = northstar_fixture();
    let context = fixture.store.fts_context(fixture.tables);
    assert_eq!(context.breadcrumb, "Northstar Platform > Database > Tables");
    assert_eq!(context.ancestor_context, "Database  Northstar Platform ");
    assert_eq!(context.child_context, "Products Customers Orders");

    let mut store = fixture.store;
    let documents = [(70, fixture.tables), (71, NodeId::new(99)), (72, fixture.orders)]
        .into_iter()
        .map(|(section, node_id)| {
            Arc::new(FtsDocument {
                section_id: NodeId::new(section),
                node_id,
                title: "Tables".into(),
                aliases: String::new(),
                summary: String::new(),
                heading: String::new(),
                content: String::new(),
                tags: String::new(),
                keywords: String::new(),
            })
        })
        .collect();
    store.fts = make_rows(&documents);
    store.refresh_contexts(&vec![fixture.tables, NodeId::new(99)]);
    let contexts: Vec<(&str, &str)> = store
        .fts
        .iter()
        .map(|row| (row.context.breadcrumb.as_str(), row.context.child_context.as_str()))
        .collect();
    assert_eq!(
        contexts,
        [
            ("Northstar Platform > Database > Tables", "Products Customers Orders"),
            ("", ""),
            ("", ""),
        ]
    );
}

#[test]
fn results_are_presented_with_their_place_in_the_tree() {
    let fixture = northstar_fixture();
    let item = fixture
        .store
        .search_match(
            fixture.tables,
            Some(NodeId::new(77)),
            0.5_f64.to_bits(),
            vec!["title matched".into()],
            Some(true),
        )
        .expect("match");
    assert_eq!(item.breadcrumb, ["Northstar Platform", "Database", "Tables"]);
    assert_eq!((item.title.as_str(), item.child_count), ("Tables", 3));
    assert_eq!(item.node_type.as_deref(), Some("collection"));
    assert_eq!(item.section_id, Some(NodeId::new(77)));
    assert_eq!(item.accepts_child, Some(true));
    assert!(fixture.store.search_match(NodeId::new(99), None, 0, vec![], None).is_err());
}
