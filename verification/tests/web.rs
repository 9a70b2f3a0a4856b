//! What the browser reads, searches and commands.

use std::sync::Arc;

use mdtree::commands::{read_command, reject_unknown, requested_slug, CommandName, SlugChoice};
use mdtree::create::{prepare_node_mutation, NodeMutationDraft};
use mdtree::lookup::SelectorText;
use mdtree::model::{
    DerivedNodeRecords, Node, NodeHash, NodeId, NodeMetadata, NodeRevision, Reference,
    ReferenceOrigin, ReferenceTarget,
};
use mdtree::mutate::PreparedNodeMutation;
use mdtree::query::parse_query;
use mdtree::reads::NodeSelector;
use mdtree::realtime::{
    check_upgrade, Action, ChangeEvent, ChangeNotice, Connection, Envelope, Event, Frame,
    MessageKind, Payload, RevisionWatch, UpgradeDecision, PROTOCOL_VERSION,
};
use mdtree::reorder::SiblingHash;
use mdtree::semantic::{EmbeddingMetric, EmbeddingProfile};
use mdtree::session::ClientActivity;
use mdtree::summaries::{ApiError, ReferenceTargetSummary};
use mdtree::tables::{ReferenceRow, SqliteStore};
use mdtree::web_search::{
    active_profile, admits_workspace, lexical_search, merge_ranked, plan_search, RankedMatch,
    SearchMode, SearchPlan, SearchedWorkspace, SemanticErrorCode, MAX_RESULTS,
};

fn metadata(title: &str) -> Arc<NodeMetadata> {
    Arc::new(NodeMetadata {
        title: title.into(),
        summary: None,
        node_type: None,
        accepts_children: vec![],
        aliases: vec![],
        tags: vec![],
        keywords: vec![],
        owns: vec![],
        excludes: vec![],
        extra: "{}".into(),
    })
}

fn node(value: u128, parent: Option<u128>, title: &str, slug: &str, order: u32) -> Node {
    Node {
        id: NodeId::new(value),
        parent_id: parent.map(NodeId::new),
        slug: slug.into(),
        metadata: metadata(title),
        markdown_content: format!("# {title}\n"),
        sibling_order: order,
        version: 1,
        content_hash: NodeHash { high: 1, low: value },
        revision_hash: NodeHash { high: 2, low: value },
        created_at: 1,
        updated_at: 1,
    }
}

fn store() -> SqliteStore {
    let nodes = vec![
        node(1, None, "Project", "project", 0),
        node(2, Some(1), "Area", "area", 0),
        node(3, Some(1), "Notes", "notes", 1),
        node(4, Some(2), "Leaf", "leaf", 0),
    ];
    let revisions = nodes
        .iter()
        .map(|n| NodeRevision {
            node_id: n.id,
            parent_id: n.parent_id,
            slug: n.slug.clone(),
            metadata: n.metadata.clone(),
            markdown_content: n.markdown_content.clone(),
            sibling_order: n.sibling_order,
            version: 1,
            content_hash: n.content_hash,
            revision_hash: n.revision_hash,
            change_summary: None,
            created_by: None,
            created_at: 1,
        })
        .collect();
    let reference = |row_id: u64, target: ReferenceTarget, kind: &str| ReferenceRow {
        row_id,
        reference: Reference {
            source_node_id: NodeId::new(3),
            source_section_id: None,
            reference_type: kind.into(),
            target,
            origin: ReferenceOrigin::Explicit,
            metadata: "{}".into(),
        },
    };
    let resolved = |value: u128, text: Option<&str>| ReferenceTarget::Resolved {
        node_id: NodeId::new(value),
        target_ref: text.map(Into::into),
        anchor: None,
    };
    let store = SqliteStore {
        nodes,
        revisions,
        references: vec![
            reference(1, resolved(4, None), "uses"),
            reference(2, resolved(99, Some("Gone")), "was"),
            reference(3, ReferenceTarget::Unresolved { target_ref: "Later".into() }, "plans"),
        ],
        sections: vec![],
        fts: vec![],
        receipts: vec![],
        revision: 5,
    };
    assert!(store.is_well_formed());
    store
}

fn by_slug(slug: &str) -> SelectorText {
    SelectorText { raw: slug.into(), parsed: Ok(NodeSelector::Slug(slug.into())) }
}

fn unreadable() -> SelectorText {
    SelectorText { raw: "??".into(), parsed: Err("invalid selector".into()) }
}

fn prepared(draft: NodeMutationDraft) -> PreparedNodeMutation {
    let content_hash = NodeHash { high: 5, low: draft.id.value };
    let revision_hash =
        NodeHash { high: 6 + u128::from(draft.version), low: draft.id.value };
    let records = DerivedNodeRecords {
        content_hash,
        sections: vec![],
        references: vec![],
        fts_documents: vec![],
    };
    prepare_node_mutation(draft, content_hash, revision_hash, records)
}

#[test]
fn only_command_envelopes_are_answered() {
    let named = |kind: &str, name: Option<&str>| {
        read_command(1, &kind.to_string(), &name.map(Into::into))
    };
    assert_eq!(read_command(2, &"command".into(), &Some("remove_node".into())), None);
    assert_eq!(read_command(0, &"command".into(), &Some("fly".into())), None);
    assert_eq!(named("hello", Some("move_subtree")), None);
    assert_eq!(named("command", None), None);
    assert_eq!(named("command", Some("reorder_node")), Some(CommandName::ReorderNode));
    assert_eq!(named("command", Some("move_subtree")), Some(CommandName::MoveSubtree));
    assert_eq!(named("command", Some("update_node")), Some(CommandName::UpdateNode));
    assert_eq!(named("command", Some("create_node")), Some(CommandName::CreateNode));
    assert_eq!(named("command", Some("remove_node")), Some(CommandName::RemoveNode));
    assert_eq!(named("command", Some("fly")), Some(CommandName::Unknown));
    let outcome = reject_unknown("fly");
    assert_eq!(outcome.command, "fly");
    assert!(!outcome.ok);
    assert_eq!(outcome.reason.as_deref(), Some("unknown command"));
}

#[test]
fn reordering_is_checked_clamped_and_applied() {
    let mut store = store();
    let reason = |selector: SelectorText, version: u64, store: &SqliteStore| {
        store
            .plan_reorder_command(&selector, 0, version, 9)
            .expect_err("rejected")
            .reason
            .expect("reason")
    };
    assert_eq!(reason(unreadable(), 1, &store), "invalid selector");
    assert_eq!(reason(by_slug("missing"), 1, &store), "node not found");
    assert_eq!(reason(by_slug("project"), 1, &store), "workspace root cannot be reordered");
    assert_eq!(
        reason(by_slug("area"), 2, &store),
        "version conflict: the node changed since the drag began"
    );
    let draft = store
        .plan_reorder_command(&by_slug("area"), 50, 1, 9)
        .expect("draft");
    assert_eq!((draft.sibling_order, draft.version, draft.updated_at), (1, 2, 9));
    assert_eq!(draft.change_summary.as_deref(), Some("Reorder node via browse-ui"));
    let change = prepared(draft);
    let hashes: Vec<SiblingHash> = store
        .reorder_shifts(change.change(1))
        .expect("shifts")
        .iter()
        .map(|shift| SiblingHash {
            node_id: shift.node_id,
            revision_hash: NodeHash { high: 50, low: shift.node_id.value },
        })
        .collect();
    let outcome = store.finish_reorder_command(&change, 1, &hashes);
    assert!(outcome.ok);
    assert_eq!(outcome.version, Some(2));
    let slugs: Vec<String> =
        store.children(NodeId::new(1)).iter().map(|n| n.slug.clone()).collect();
    assert_eq!(slugs, ["notes", "area"]);
    let stale = store.finish_reorder_command(&change, 1, &hashes);
    assert!(!stale.ok);
    assert!(stale.reason.expect("reason").starts_with("version conflict for"));
}

#[test]
fn moving_below_itself_is_rejected() {
    let mut store = store();
    let reason = |selector: &str, parent: SelectorText, version: u64, store: &SqliteStore| {
        store
            .plan_move_command(&by_slug(selector), &parent, version)
            .expect_err("rejected")
            .reason
            .expect("reason")
    };
    assert_eq!(reason("missing", by_slug("notes"), 1, &store), "node not found");
    assert_eq!(reason("project", by_slug("notes"), 1, &store), "workspace root cannot be moved");
    assert_eq!(
        reason("area", by_slug("notes"), 7, &store),
        "version conflict: the node changed since the drag began"
    );
    assert_eq!(reason("area", unreadable(), 1, &store), "invalid selector");
    assert_eq!(reason("area", by_slug("missing"), 1, &store), "destination parent not found");
    assert_eq!(reason("area", by_slug("area"), 1, &store), "cannot move a node below itself");
    assert_eq!(
        reason("area", by_slug("leaf"), 1, &store),
        "cannot move a node below its own subtree"
    );
    let (current, parent) = store
        .plan_move_command(&by_slug("area"), &by_slug("notes"), 1)
        .expect("target");
    let draft = store.draft_move_command(&current, parent, "area-2".into(), 9);
    assert_eq!(draft.parent_id, Some(NodeId::new(3)));
    assert_eq!((draft.slug.as_str(), draft.sibling_order), ("area-2", 0));
    let outcome = store.finish_move_command(&prepared(draft), 1);
    assert_eq!(outcome.version, Some(2));
    assert_eq!(store.path_line(NodeId::new(4)), "project/notes/area-2/leaf");
}

#[test]
fn edits_replace_the_body_alone() {
    let mut store = store();
    assert_eq!(
        store
            .plan_update_command(&by_slug("leaf"), "x".into(), 2, 9)
            .expect_err("rejected")
            .reason
            .as_deref(),
        Some("version conflict: the node changed since editing began")
    );
    let draft = store
        .plan_update_command(&by_slug("leaf"), "new body".into(), 1, 9)
        .expect("draft");
    assert_eq!(draft.slug, "leaf");
    assert_eq!(draft.metadata.title, "Leaf");
    let change = prepared(draft);
    let outcome = store.finish_update_command(&change, 1);
    assert_eq!((outcome.ok, outcome.version), (true, Some(2)));
    assert_eq!(store.get(NodeId::new(4)).expect("leaf").markdown_content, "new body");
    let mut same = store
        .plan_update_command(&by_slug("leaf"), "new body".into(), 2, 10)
        .expect("draft");
    same.version = 3;
    let mut again = prepared(same);
    again.node.revision_hash = change.node.revision_hash;
    let outcome = store.finish_update_command(&again, 2);
    assert_eq!((outcome.ok, outcome.version), (true, Some(2)));
}

#[test]
fn new_nodes_take_a_free_slug() {
    let mut store = store();
    assert_eq!(
        store.plan_create_command(&by_slug("missing")).expect_err("rejected").reason.as_deref(),
        Some("parent not found")
    );
    let parent = store.plan_create_command(&by_slug("project")).expect("parent");
    assert_eq!(requested_slug(&Some("  area ".into())).as_deref(), Some("area"));
    assert_eq!(requested_slug(&Some("   ".into())), None);
    assert_eq!(requested_slug(&None), None);
    let draft = |choice: SlugChoice, content: Option<String>, store: &SqliteStore| {
        store.draft_create_command(parent, choice, NodeId::new(9), metadata("Ideas"), content, 9)
    };
    assert_eq!(
        draft(SlugChoice::Requested(Ok("area".into())), None, &store)
            .expect_err("taken")
            .reason
            .as_deref(),
        Some("slug \"area\" is already used by a sibling")
    );
    assert_eq!(
        draft(SlugChoice::Requested(Err("bad slug".into())), None, &store)
            .expect_err("bad")
            .reason
            .as_deref(),
        Some("bad slug")
    );
    let given = draft(SlugChoice::Generated("ideas".into()), Some("text".into()), &store)
        .expect("draft");
    assert_eq!(given.markdown_content, "text");
    let fresh = draft(SlugChoice::Requested(Ok("ideas".into())), None, &store).expect("draft");
    assert_eq!(fresh.markdown_content, "# Ideas\n");
    assert_eq!((fresh.sibling_order, fresh.version), (2, 1));
    let outcome = store.finish_create_command(prepared(fresh));
    assert!(outcome.ok);
    assert_eq!(outcome.node_id.as_deref(), Some("00000000000000000000000009"));
    assert_eq!(outcome.version, Some(1));
    let again = draft(SlugChoice::Generated("ideas-2".into()), None, &store).expect("draft");
    assert!(!store.finish_create_command(prepared(again)).ok);
}

#[test]
fn removal_reports_no_version() {
    let mut store = store();
    let rejected = store.remove_command(&by_slug("project"), 1);
    assert_eq!(
        rejected.reason.as_deref(),
        Some("tree invariant violation: root cannot be removed")
    );
    assert!(!store.remove_command(&by_slug("area"), 4).ok);
    assert!(!store.remove_command(&by_slug("missing"), 1).ok);
    let outcome = store.remove_command(&by_slug("area"), 1);
    assert_eq!((outcome.ok, outcome.version), (true, None));
    assert_eq!(store.nodes.len(), 2);
}

#[test]
fn nodes_are_summarized_with_children_and_references() {
    let store = store();
    let response = store.node_response(&by_slug("project")).expect("node");
    assert_eq!(response.summary.path, "project");
    assert_eq!(response.summary.children_count, 2);
    let slugs: Vec<&str> = response.children.iter().map(|c| c.slug.as_str()).collect();
    assert_eq!(slugs, ["area", "notes"]);
    assert_eq!(response.children[0].children_count, 1);
    let references = &response.children[1].references;
    assert_eq!(references.len(), 3);
    assert!(matches!(
        &references[0].target,
        ReferenceTargetSummary::Resolved { title, path, .. }
            if title == "Leaf" && path == "project/area/leaf"
    ));
    assert!(matches!(
        &references[1].target,
        ReferenceTargetSummary::Unresolved { target_ref } if target_ref == "Gone"
    ));
    assert!(matches!(
        &references[2].target,
        ReferenceTargetSummary::Unresolved { target_ref } if target_ref == "Later"
    ));
    assert!(matches!(store.node_response(&unreadable()), Err(ApiError::NotFound)));
    assert!(matches!(store.node_response(&by_slug("missing")), Err(ApiError::NotFound)));
}

#[test]
fn an_ambiguous_address_is_an_internal_error() {
    let mut store = store();
    let twin = node(7, Some(3), "Leaf", "leaf", 0);
    store.insert_node(&twin).expect("twin");
    assert!(matches!(store.source_response(&by_slug("leaf")), Err(ApiError::Internal(_))));
}

#[test]
fn rendered_and_raw_markdown_come_from_the_node() {
    let store = store();
    let html = store.render_response(&by_slug("leaf")).expect("html");
    assert!(html.contains("<h1>Leaf</h1>"), "{html}");
    let source = store.source_response(&by_slug("leaf")).expect("source");
    assert_eq!((source.markdown_content.as_str(), source.version), ("# Leaf\n", 1));
    let ancestors = store.ancestors_response(&by_slug("leaf")).expect("ancestors");
    assert_eq!(ancestors, [NodeId::new(1).to_text(), NodeId::new(2).to_text()]);
    let summary = store.workspace_summary(0, "Project".into(), NodeId::new(1));
    assert_eq!(summary.relation_types, ["plans", "uses", "was"]);
    assert_eq!(summary.root, "00000000000000000000000001");
}

fn searched(name: &str, text_hits: Vec<NodeId>) -> SearchedWorkspace {
    SearchedWorkspace { store: store(), root: NodeId::new(1), name: name.into(), text_hits }
}

#[test]
fn lexical_search_filters_by_workspace_slug_title_and_text() {
    let workspaces = vec![searched("Alpha", vec![NodeId::new(4)]), searched("Beta", vec![])];
    let found = |query: &str| -> Vec<(usize, u128)> {
        lexical_search(&workspaces, &parse_query(query))
            .iter()
            .map(|item| (item.workspace_id, item.node_id.value))
            .collect()
    };
    assert!(admits_workspace(&parse_query("workspace: BET"), "Beta"));
    assert!(!admits_workspace(&parse_query("workspace: bet"), "Alpha"));
    assert!(admits_workspace(&parse_query("area"), "Alpha"));
    assert_eq!(found("AREA"), vec![(0, 2), (1, 2)]);
    assert_eq!(found("area workspace: beta"), vec![(1, 2)]);
    assert_eq!(found("slug: ea"), vec![(0, 2), (0, 4), (1, 2), (1, 4)]);
    assert_eq!(found("text: anything"), vec![(0, 4)]);
    assert_eq!(found("nothing like this"), vec![]);
    let items = lexical_search(&workspaces, &parse_query("leaf workspace: alpha"));
    let item = &items[0];
    assert_eq!(item.path, "project/area/leaf");
    assert_eq!(item.ancestor_ids, [NodeId::new(1).to_text(), NodeId::new(2).to_text()]);
    assert_eq!((item.workspace_name.as_str(), item.title.as_str()), ("Alpha", "Leaf"));
    assert!(item.score.is_none() && item.match_reasons.is_empty());
}

#[test]
fn search_results_are_capped_across_workspaces() {
    let mut wide = store();
    for i in 0..80 {
        let child = node(1000 + i, Some(3), "Many", &format!("many-{i}"), i as u32);
        wide.insert_node(&child).expect("child");
    }
    let workspaces = vec![
        SearchedWorkspace {
            store: wide,
            root: NodeId::new(1),
            name: "Wide".into(),
            text_hits: vec![],
        },
        searched("Narrow", vec![]),
    ];
    let items = lexical_search(&workspaces, &parse_query("slug: a"));
    assert_eq!(items.len(), MAX_RESULTS);
    assert_eq!(items[0].node_id, NodeId::new(2));
    let of = |id: usize| items.iter().filter(|item| item.workspace_id == id).count();
    assert_eq!((of(0), of(1)), (MAX_RESULTS - 1, 1));
    assert_eq!(items[MAX_RESULTS - 1].workspace_id, 1);
    let first = lexical_search(&workspaces, &parse_query("slug: a workspace: wide"));
    assert_eq!(first.len(), MAX_RESULTS);
    assert!(first.iter().all(|item| item.workspace_id == 0));
    assert_eq!(lexical_search(&workspaces, &parse_query("slug: many")).len(), MAX_RESULTS);
}

#[test]
fn every_workspace_with_a_match_is_represented_while_there_is_room() {
    let many: Vec<SearchedWorkspace> =
        (0..MAX_RESULTS).map(|i| searched(&format!("W{i}"), vec![])).collect();
    let items = lexical_search(&many, &parse_query("slug: ea"));
    let ids: Vec<usize> = items.iter().map(|item| item.workspace_id).collect();
    assert_eq!(ids, (0..MAX_RESULTS).collect::<Vec<_>>());
    let more: Vec<SearchedWorkspace> =
        (0..MAX_RESULTS + 3).map(|i| searched(&format!("W{i}"), vec![])).collect();
    let ids: Vec<usize> = lexical_search(&more, &parse_query("slug: ea"))
        .iter()
        .map(|item| item.workspace_id)
        .collect();
    assert_eq!(ids, (0..MAX_RESULTS).collect::<Vec<_>>());
}

#[test]
fn an_unchanged_reorder_or_move_reports_the_prepared_version() {
    let mut store = store();
    let draft = store
        .plan_reorder_command(&by_slug("area"), 0, 1, 9)
        .expect("draft");
    let mut same = prepared(draft);
    let current = store.get(NodeId::new(2)).expect("area");
    same.node.revision_hash = current.revision_hash;
    same.revision.revision_hash = current.revision_hash;
    let outcome = store.finish_reorder_command(&same, 1, &vec![]);
    assert!(outcome.ok, "{outcome:?}");
    assert_eq!(outcome.version, Some(2));
    assert_eq!(store.get(NodeId::new(2)).expect("area").version, 1);
    let outcome = store.finish_move_command(&same, 1);
    assert_eq!(outcome.version, Some(2));
    let outcome = store.finish_update_command(&same, 1);
    assert_eq!(outcome.version, Some(1));
}

#[test]
fn searches_are_planned_from_query_and_mode() {
    let plan = |query: &str, mode: SearchMode, fallback: bool| {
        plan_search(&parse_query(query), mode, fallback)
    };
    assert!(matches!(plan("", SearchMode::Hybrid, true), SearchPlan::Empty));
    assert!(matches!(
        plan("a", SearchMode::Lexical, true),
        SearchPlan::FallbackWithoutHybrid
    ));
    assert!(matches!(plan("a", SearchMode::Lexical, false), SearchPlan::Lexical));
    assert!(matches!(
        plan("free text: exact words", SearchMode::Semantic, false),
        SearchPlan::Semantic(query) if query == "exact words"
    ));
    assert!(matches!(
        plan("free", SearchMode::Hybrid, true),
        SearchPlan::Semantic(query) if query == "free"
    ));
    assert!(matches!(plan("slug: a", SearchMode::Semantic, false), SearchPlan::Empty));
}

#[test]
fn a_search_by_meaning_needs_the_configured_profile() {
    let profile = || {
        Some(EmbeddingProfile {
            provider: "ollama".into(),
            model: "embed".into(),
            dimensions: 2,
            metric: EmbeddingMetric::Cosine,
            input_format_version: 1,
        })
    };
    assert_eq!(
        active_profile(&None, &None).expect_err("unset").code,
        SemanticErrorCode::NotConfigured
    );
    assert_eq!(
        active_profile(&profile(), &Some("other".into())).expect_err("other").code,
        SemanticErrorCode::IncompatibleProfile
    );
    assert_eq!(active_profile(&profile(), &None).expect("profile").model, "embed");
    assert!(active_profile(&profile(), &Some("embed".into())).is_ok());
}

#[test]
fn matches_by_meaning_are_merged_by_score() {
    let store = store();
    let ranked = |pairs: &[(u128, f64)]| -> Vec<RankedMatch> {
        pairs
            .iter()
            .map(|(value, score)| RankedMatch {
                node_id: NodeId::new(*value),
                score: score.to_bits(),
                match_reasons: vec!["semantic".into()],
            })
            .collect()
    };
    let mut items = store
        .semantic_items(0, "Alpha", &None, &ranked(&[(2, 0.5), (4, -0.25), (3, 0.9)]))
        .expect("items");
    items.extend(
        store
            .semantic_items(1, "Beta", &Some("ea".into()), &ranked(&[(2, 0.5), (3, 2.0), (4, -0.5)]))
            .expect("items"),
    );
    let merged: Vec<(usize, u128, f64)> = merge_ranked(&items)
        .iter()
        .map(|item| {
            let score = f64::from_bits(item.score.expect("score"));
            (item.workspace_id, item.node_id.value, score)
        })
        .collect();
    assert_eq!(
        merged,
        vec![(0, 3, 0.9), (0, 2, 0.5), (1, 2, 0.5), (0, 4, -0.25), (1, 4, -0.5)]
    );
    let error = store
        .semantic_items(0, "Alpha", &None, &ranked(&[(77, 0.5)]))
        .expect_err("gone");
    assert_eq!(error.message, "search result node no longer exists");
    assert_eq!(error.code, SemanticErrorCode::OperationFailed);
}

#[test]
fn upgrades_need_credential_and_workspace() {
    let decide = |session: &str, workspace: usize| {
        check_upgrade(&session.to_string(), &"secret".to_string(), workspace, 2)
    };
    assert_eq!(decide("wrong", 0), UpgradeDecision::InvalidCredential);
    assert_eq!(decide("wrong", 9), UpgradeDecision::InvalidCredential);
    assert_eq!(decide("secret", 2), UpgradeDecision::UnknownWorkspace);
    assert_eq!(decide("secret", 1), UpgradeDecision::Accepted);
}

fn sent(action: Action) -> Envelope {
    match action {
        Action::Send(envelope) => envelope,
        other => panic!("expected a message, got {other:?}"),
    }
}

#[test]
fn a_connection_greets_reacts_and_is_counted_once() {
    let mut activity = ClientActivity::default();
    let (mut connection, action) = Connection::start(&mut activity, false, NodeId::new(1), 7);
    assert_eq!(activity.connected(), 1);
    assert_eq!(connection.id.len(), 26);
    assert!(matches!(&action, Action::Send(envelope) if envelope.id.len() == 26));
    let init = sent(action);
    assert_eq!((init.v, init.kind, init.revision), (PROTOCOL_VERSION, MessageKind::Init, Some(7)));
    assert_eq!(init.kind.name(), "init");
    assert_eq!(init.session, connection.id);
    assert_eq!(init.id.len(), 26);
    assert_ne!(init.id, connection.id);
    assert!(matches!(&init.payload, Payload::Root(root) if *root == NodeId::new(1).to_text()));

    let beat = sent(connection.step(&mut activity, Event::HeartbeatDue, 1));
    assert_eq!(beat.kind.name(), "heartbeat");
    let change = Event::Changed(ChangeNotice::Revision(8));
    assert_eq!(sent(connection.step(&mut activity, change, 1)).revision, Some(8));
    let lagged = sent(connection.step(&mut activity, Event::Changed(ChangeNotice::Lagged), 1));
    assert_eq!((lagged.kind.name(), lagged.revision), ("change", None));
    let quiet = Event::Incoming(Frame::Quiet);
    assert!(matches!(connection.step(&mut activity, quiet, 1), Action::Wait));
    let calm = Event::ShutdownSignal { sender_gone: false, requested: false };
    assert!(matches!(connection.step(&mut activity, calm, 1), Action::Wait));
    let rejected = Event::Incoming(Frame::Command(reject_unknown("fly")));
    let reject = sent(connection.step(&mut activity, rejected, 1));
    assert_eq!(reject.kind.name(), "reject");
    assert!(matches!(
        &reject.payload,
        Payload::Outcome { command, reason, .. }
            if command == "fly" && reason.as_deref() == Some("unknown command")
    ));
    assert_eq!(activity.connected(), 1);
    assert!(matches!(connection.step(&mut activity, Event::SendFailed, 3), Action::End));
    assert!(!connection.open);
    assert_eq!((activity.connected(), activity.disconnected_at), (0, Some(3)));
}

#[test]
fn shutdown_ends_connections_whenever_it_is_seen() {
    let mut activity = ClientActivity::default();
    let (late, action) = Connection::start(&mut activity, true, NodeId::new(1), 7);
    assert!(!late.open);
    assert!(matches!(
        action,
        Action::CloseForShutdown(envelope) if envelope.kind.name() == "shutdown"
    ));
    assert!(!activity.ever_connected);
    for (sender_gone, requested) in [(true, false), (false, true)] {
        let (mut connection, _) = Connection::start(&mut activity, false, NodeId::new(1), 7);
        let signal = Event::ShutdownSignal { sender_gone, requested };
        assert!(matches!(
            connection.step(&mut activity, signal, 2),
            Action::CloseForShutdown(_)
        ));
        assert_eq!(activity.connected(), 0);
    }
    let (mut connection, _) = Connection::start(&mut activity, false, NodeId::new(1), 7);
    let gone = Event::Incoming(Frame::Gone);
    assert!(matches!(connection.step(&mut activity, gone, 2), Action::End));
    let (mut connection, _) = Connection::start(&mut activity, false, NodeId::new(1), 7);
    let closed = Event::Changed(ChangeNotice::Closed);
    assert!(matches!(connection.step(&mut activity, closed, 2), Action::End));
}

#[test]
fn clients_hear_of_a_revision_exactly_when_it_moves() {
    let mut watch = RevisionWatch { last_seen: 4 };
    assert_eq!(watch.observe(Some(4)), None);
    assert_eq!(watch.observe(Some(6)), Some(ChangeEvent { revision: 6 }));
    assert_eq!(watch.observe(Some(6)), None);
    assert_eq!(watch.observe(None), Some(ChangeEvent { revision: 0 }));
    assert_eq!(watch.observe(None), None);
}
