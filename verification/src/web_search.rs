//! Node search across open workspaces, behind the header search box.
//!
//! Default matching is a plain title or slug substring match, letter case aside.
//! Results of meaning-based search are merged by score.

use crate::diagnostics::texts;
use crate::listing::{arranges, lemma_arranged_lists, lemma_lists_unique, lists, picks};
use crate::model::{Node, NodeId};
use crate::order::sorted_positions;
use crate::query::{trim, trimmed, ParsedQuery, QueryView};
use crate::reads::subtree_extent;
use crate::semantic::EmbeddingProfile;
use crate::summaries::{ancestor_texts, path_text};
use crate::tables::SqliteStore;
use crate::text::{chars_of, text_of};
use crate::traverse::nodes_of;
use crate::tree::{find, is_forest, lemma_position, lookup, present};
use crate::words::{contains_ignore_case, occurs_ignoring_case};
use vstd::prelude::*;

verus! {

/// Total matches returned across every searched workspace.
pub const MAX_RESULTS: usize = 50;

/// Most matches of one workspace before the merge. The merge keeps a place for every
/// other workspace with a match, so that a large workspace does not crowd them out.
pub const MAX_RESULTS_PER_WORKSPACE: usize = 50;

/// Most matches asked of a meaning-based search.
pub const MAX_SEMANTIC_RESULTS: u32 = 50;

/// Most section matches asked of a content search.
pub const MAX_TEXT_HITS: u32 = 1000;

/// How to search.
#[derive(Clone, Copy, Debug, PartialEq, Eq, Structural)]
pub enum SearchMode {
    Lexical,
    Semantic,
    Hybrid,
}

/// One match.
#[derive(Debug)]
pub struct SearchResultItem {
    pub workspace_id: usize,
    pub workspace_name: String,
    pub node_id: NodeId,
    pub slug: String,
    pub title: String,
    /// Canonical root-to-node slug path, for display.
    pub path: String,
    /// Root-to-parent identities, so that the client can bring the match into view.
    pub ancestor_ids: Vec<String>,
    /// The bits of the score, where there is one.
    pub score: Option<u64>,
    pub match_reasons: Vec<String>,
}

/// The contents of a [`SearchResultItem`].
pub struct ItemView {
    pub workspace_id: usize,
    pub workspace_name: Seq<char>,
    pub node_id: NodeId,
    pub slug: Seq<char>,
    pub title: Seq<char>,
    pub path: Seq<char>,
    pub ancestor_ids: Seq<Seq<char>>,
    pub score: Option<u64>,
    pub match_reasons: Seq<Seq<char>>,
}

impl View for SearchResultItem {
    type V = ItemView;

    open spec fn view(&self) -> ItemView {
        ItemView {
            workspace_id: self.workspace_id,
            workspace_name: self.workspace_name@,
            node_id: self.node_id,
            slug: self.slug@,
            title: self.title@,
            path: self.path@,
            ancestor_ids: texts(self.ancestor_ids@),
            score: self.score,
            match_reasons: texts(self.match_reasons@),
        }
    }
}

pub open spec fn item_views(items: Seq<SearchResultItem>) -> Seq<ItemView> {
    Seq::new(items.len(), |i: int| items[i]@)
}

/// A node as a match.
pub open spec fn item_of(
    nodes: Seq<Node>,
    workspace_id: usize,
    workspace_name: Seq<char>,
    node: Node,
    score: Option<u64>,
    match_reasons: Seq<Seq<char>>,
) -> ItemView {
    ItemView {
        workspace_id,
        workspace_name,
        node_id: node.id,
        slug: node.slug@,
        title: node.metadata.title@,
        path: path_text(nodes, node.id),
        ancestor_ids: ancestor_texts(nodes, node.id),
        score,
        match_reasons,
    }
}

impl SqliteStore {
    /// Presents a node of the workspace as a match.
    pub fn search_result_item(
        &self,
        workspace_id: usize,
        workspace_name: &str,
        node: &Node,
        score: Option<u64>,
        match_reasons: Vec<String>,
    ) -> (item: SearchResultItem)
        requires
            is_forest(self@.nodes),
            present(self@.nodes, node.id),
        ensures
            item@ == item_of(
                self@.nodes,
                workspace_id,
                workspace_name@,
                *node,
                score,
                texts(match_reasons@),
            ),
    {
        SearchResultItem {
            workspace_id,
            workspace_name: workspace_name.to_owned(),
            node_id: node.id,
            slug: node.slug.clone(),
            title: node.metadata.title.clone(),
            path: self.path_line(node.id),
            ancestor_ids: self.ancestor_ids(node.id),
            score,
            match_reasons,
        }
    }
}

/// What a search does.
#[derive(Debug)]
pub enum SearchPlan {
    /// Nothing is asked for.
    Empty,
    /// "hybrid_fallback requires mode hybrid".
    FallbackWithoutHybrid,
    Lexical,
    /// Search by meaning for this text.
    Semantic(String),
}

/// The text that a meaning-based search looks for.
pub open spec fn semantic_query(query: QueryView) -> Seq<char> {
    match query.text {
        Some(text) => text,
        None => match query.default {
            Some(text) => text,
            None => Seq::empty(),
        },
    }
}

/// Whether the query asks for anything.
pub open spec fn asks(query: QueryView) -> bool {
    query.workspace is Some || query.slug is Some || query.text is Some || query.default is Some
}

/// Decides how a query is searched.
pub fn plan_search(query: &ParsedQuery, mode: SearchMode, hybrid_fallback: bool) -> (plan:
    SearchPlan)
    ensures
        is_plan(query@, mode, hybrid_fallback, plan),
{
    if query.is_empty() {
        return SearchPlan::Empty;
    }
    if hybrid_fallback && mode != SearchMode::Hybrid {
        return SearchPlan::FallbackWithoutHybrid;
    }
    if mode == SearchMode::Lexical {
        return SearchPlan::Lexical;
    }
    let text: String = match &query.text {
        Some(text) => text.clone(),
        None => match &query.default {
            Some(text) => text.clone(),
            None => {
                let empty = String::new();
                assert(empty@ =~= Seq::<char>::empty());
                empty
            },
        },
    };
    let rest = trim(text.as_str());
    if chars_of(rest.as_str()).len() == 0 {
        SearchPlan::Empty
    } else {
        SearchPlan::Semantic(text)
    }
}

/// A workspace to search, with the nodes whose content matches where the query
/// asks for content.
#[derive(Debug)]
pub struct SearchedWorkspace {
    pub store: SqliteStore,
    /// The root of the subtree that is served.
    pub root: NodeId,
    pub name: String,
    pub text_hits: Vec<NodeId>,
}

/// The nodes of a subtree, depth first.
pub open spec fn subtree_nodes(nodes: Seq<Node>, root: NodeId) -> Seq<Node> {
    choose|listed: Seq<Node>| #[trigger] lists_subtree(nodes, root, listed)
}

pub open spec fn lists_subtree(nodes: Seq<Node>, root: NodeId, listed: Seq<Node>) -> bool {
    lists(
        nodes,
        |n: Node| subtree_extent(root).covers(nodes, n),
        |n: Node| subtree_extent(root).key(nodes, n),
        listed,
    )
}

/// Whether a filter is absent or matches the text, letter case aside.
pub open spec fn admits(filter: Option<Seq<char>>, text: Seq<char>) -> bool {
    match filter {
        Some(term) => occurs_ignoring_case(text, term),
        None => true,
    }
}

/// Whether a node matches a query.
pub open spec fn wanted(query: QueryView, hits: Seq<NodeId>, node: Node) -> bool {
    &&& admits(query.slug, node.slug@)
    &&& admits(query.default, node.metadata.title@) || admits(query.default, node.slug@)
    &&& query.text is Some ==> hits.contains(node.id)
}

/// The matches among the first `n` of some nodes, no more than fit.
pub open spec fn found_among(
    w: SearchedWorkspace,
    workspace_id: usize,
    query: QueryView,
    listed: Seq<Node>,
    n: int,
) -> Seq<ItemView>
    decreases n,
{
    if n <= 0 {
        Seq::empty()
    } else {
        let before = found_among(w, workspace_id, query, listed, n - 1);
        if before.len() < MAX_RESULTS_PER_WORKSPACE && wanted(query, w.text_hits@, listed[n - 1]) {
            before.push(
                item_of(
                    w.store@.nodes,
                    workspace_id,
                    w.name@,
                    listed[n - 1],
                    None,
                    Seq::empty(),
                ),
            )
        } else {
            before
        }
    }
}

/// The matches of one workspace: none where its name is filtered out.
pub open spec fn found_in(w: SearchedWorkspace, workspace_id: usize, query: QueryView) -> Seq<
    ItemView,
> {
    if admits(query.workspace, w.name@) {
        let listed = subtree_nodes(w.store@.nodes, w.root);
        found_among(w, workspace_id, query, listed, listed.len() as int)
    } else {
        Seq::empty()
    }
}

/// How many of the workspaces from `from` on have a match.
pub open spec fn matching_from(ws: Seq<SearchedWorkspace>, query: QueryView, from: int) -> nat
    decreases ws.len() - from,
{
    if from < 0 || from >= ws.len() {
        0
    } else if found_in(ws[from], from as usize, query).len() > 0 {
        1 + matching_from(ws, query, from + 1)
    } else {
        matching_from(ws, query, from + 1)
    }
}

/// How many matches of the next workspace are returned where `taken` are returned
/// already and `later` more workspaces behind it have a match: what is left, but for
/// one place for each of those; one at least while any place is left.
pub open spec fn room(taken: nat, later: nat) -> int {
    let left = MAX_RESULTS - taken;
    if left <= 0 {
        0
    } else if left > later {
        left - later
    } else {
        1
    }
}

/// The first items, no more than `n`.
pub open spec fn at_most<T>(items: Seq<T>, n: int) -> Seq<T> {
    if items.len() > n {
        items.take(n)
    } else {
        items
    }
}

/// The matches of the first `n` workspaces that are returned.
pub open spec fn found_across(ws: Seq<SearchedWorkspace>, query: QueryView, n: int) -> Seq<ItemView>
    decreases n,
{
    if n <= 0 {
        Seq::empty()
    } else {
        let before = found_across(ws, query, n - 1);
        before + at_most(
            found_in(ws[n - 1], (n - 1) as usize, query),
            room(before.len(), matching_from(ws, query, n)),
        )
    }
}

/// The first items, no more than are returned.
pub open spec fn truncated<T>(items: Seq<T>) -> Seq<T> {
    if items.len() > MAX_RESULTS {
        items.take(MAX_RESULTS as int)
    } else {
        items
    }
}

fn term_admits(filter: &Option<String>, text: &String) -> (yes: bool)
    ensures
        yes == admits(text_of(*filter), text@),
{
    match filter {
        Some(term) => contains_ignore_case(text.as_str(), term.as_str()),
        None => true,
    }
}

/// Whether the query asks for workspaces of that name.
pub fn admits_workspace(query: &ParsedQuery, name: &str) -> (yes: bool)
    ensures
        yes == admits(query@.workspace, name@),
{
    match &query.workspace {
        Some(term) => contains_ignore_case(name, term.as_str()),
        None => true,
    }
}

fn holds_id(ids: &Vec<NodeId>, id: NodeId) -> (yes: bool)
    ensures
        yes == ids@.contains(id),
{
    let mut i: usize = 0;
    while i < ids.len()
        invariant
            i <= ids.len(),
            forall|k: int| 0 <= k < i ==> #[trigger] ids@[k] != id,
        decreases ids.len() - i,
    {
        if ids[i] == id {
            return true;
        }
        i = i + 1;
    }
    false
}

fn matches_query(query: &ParsedQuery, hits: &Vec<NodeId>, node: &Node) -> (yes: bool)
    ensures
        yes == wanted(query@, hits@, *node),
{
    if !term_admits(&query.slug, &node.slug) {
        return false;
    }
    if !term_admits(&query.default, &node.metadata.title) && !term_admits(
        &query.default,
        &node.slug,
    ) {
        return false;
    }
    match &query.text {
        Some(_) => holds_id(hits, node.id),
        None => true,
    }
}

/// The matches of one workspace.
fn search_workspace(w: &SearchedWorkspace, workspace_id: usize, query: &ParsedQuery) -> (items: Vec<
    SearchResultItem,
>)
    requires
        is_forest(w.store@.nodes),
    ensures
        item_views(items@) == found_in(*w, workspace_id, query@),
{
    let mut items: Vec<SearchResultItem> = Vec::new();
    if !admits_workspace(query, w.name.as_str()) {
        assert(item_views(items@) =~= Seq::<ItemView>::empty());
        return items;
    }
    let walked = w.store.subtree(w.root);
    let ghost listed = nodes_of(walked@);
    proof {
        assert(lists_subtree(w.store@.nodes, w.root, listed));
        lemma_lists_unique(
            w.store@.nodes,
            |n: Node| subtree_extent(w.root).covers(w.store@.nodes, n),
            |n: Node| subtree_extent(w.root).key(w.store@.nodes, n),
            listed,
            subtree_nodes(w.store@.nodes, w.root),
        );
    }
    let mut i: usize = 0;
    assert(item_views(items@) =~= found_among(*w, workspace_id, query@, listed, 0));
    while i < walked.len()
        invariant
            i <= walked.len(),
            is_forest(w.store@.nodes),
            listed == nodes_of(walked@),
            lists_subtree(w.store@.nodes, w.root, listed),
            items.len() <= MAX_RESULTS_PER_WORKSPACE,
            item_views(items@) == found_among(*w, workspace_id, query@, listed, i as int),
        decreases walked.len() - i,
    {
        let node = &walked[i].node;
        assert(listed[i as int] == *node);
        let ghost before = item_views(items@);
        assert(before.len() == items@.len());
        if items.len() < MAX_RESULTS_PER_WORKSPACE && matches_query(query, &w.text_hits, node) {
            proof {
                assert(listed.contains(*node));
                let at = choose|j: int| 0 <= j < w.store@.nodes.len() && w.store@.nodes[j] == *node;
                lemma_position(w.store@.nodes, at);
            }
            let reasons: Vec<String> = Vec::new();
            assert(texts(reasons@) =~= Seq::<Seq<char>>::empty());
            let item = w.store.search_result_item(
                workspace_id,
                w.name.as_str(),
                node,
                None,
                reasons,
            );
            let ghost view = item@;
            items.push(item);
            assert(item_views(items@) =~= before.push(view));
        }
        i = i + 1;
    }
    items
}

/// Searches titles, slugs and content hits of every workspace, in workspace order.
pub fn lexical_search(workspaces: &Vec<SearchedWorkspace>, query: &ParsedQuery) -> (items: Vec<
    SearchResultItem,
>)
    requires
        forall|i: int|
            0 <= i < workspaces@.len() ==> is_forest((#[trigger] workspaces@[i]).store@.nodes),
    ensures
        item_views(items@) == found_across(workspaces@, query@, workspaces@.len() as int),
        items@.len() <= MAX_RESULTS,
{
    let ghost ws = workspaces@;
    let ghost total = ws.len() as int;
    let mut later: usize = 0;
    // The matches of each workspace, the last workspace first.
    let mut waiting: Vec<Vec<SearchResultItem>> = Vec::new();
    let mut k: usize = workspaces.len();
    while k > 0
        invariant
            k <= workspaces.len(),
            ws == workspaces@,
            total == ws.len(),
            later + k <= workspaces.len(),
            later == matching_from(ws, query@, k as int),
            waiting.len() == total - k,
            forall|m: int|
                0 <= m < waiting.len() ==> item_views((#[trigger] waiting@[m])@) == found_in(
                    ws[total - 1 - m],
                    (total - 1 - m) as usize,
                    query@,
                ),
            forall|j: int|
                0 <= j < ws.len() ==> is_forest((#[trigger] ws[j]).store@.nodes),
        decreases k,
    {
        k = k - 1;
        let found = search_workspace(&workspaces[k], k, query);
        assert(item_views(found@).len() == found@.len());
        if found.len() > 0 {
            later = later + 1;
        }
        waiting.push(found);
    }
    let mut items: Vec<SearchResultItem> = Vec::new();
    let mut i: usize = 0;
    assert(item_views(items@) =~= found_across(ws, query@, 0));
    while i < workspaces.len()
        invariant
            i <= workspaces.len(),
            ws == workspaces@,
            total == ws.len(),
            items.len() <= MAX_RESULTS,
            later == matching_from(ws, query@, i as int),
            waiting.len() == total - i,
            forall|m: int|
                0 <= m < waiting.len() ==> item_views((#[trigger] waiting@[m])@) == found_in(
                    ws[total - 1 - m],
                    (total - 1 - m) as usize,
                    query@,
                ),
            item_views(items@) == found_across(ws, query@, i as int),
        decreases workspaces.len() - i,
    {
        let ghost before = item_views(items@);
        assert(before.len() == items@.len());
        let mut found: Vec<SearchResultItem> = match waiting.pop() {
            Some(found) => found,
            None => Vec::new(),
        };
        let ghost all = item_views(found@);
        assert(all == found_in(ws[i as int], i, query@));
        assert(all.len() == found@.len());
        if found.len() > 0 {
            later = later - 1;
        }
        let left: usize = MAX_RESULTS - items.len();
        let most: usize = if left == 0 {
            0
        } else if left > later {
            left - later
        } else {
            1
        };
        assert(most == room(before.len(), later as nat));
        if found.len() > most {
            found.truncate(most);
            assert(item_views(found@) =~= all.take(most as int));
        }
        let ghost added = item_views(found@);
        items.append(&mut found);
        assert(item_views(items@) =~= before + added);
        i = i + 1;
    }
    items
}

proof fn lemma_places(ws: Seq<SearchedWorkspace>, query: QueryView, n: int)
    requires
        0 <= n <= ws.len(),
        matching_from(ws, query, 0) <= MAX_RESULTS,
    ensures
        found_across(ws, query, n).len() + matching_from(ws, query, n) <= MAX_RESULTS,
    decreases n,
{
    if n > 0 {
        lemma_places(ws, query, n - 1);
    }
}

/// Every searched workspace with a match is represented, as long as no more of them
/// have one than matches are returned.
pub proof fn law_no_workspace_is_crowded_out(
    ws: Seq<SearchedWorkspace>,
    query: QueryView,
    n: int,
    k: int,
)
    requires
        0 <= k < n <= ws.len() <= usize::MAX,
        matching_from(ws, query, 0) <= MAX_RESULTS,
        found_in(ws[k], k as usize, query).len() > 0,
    ensures
        exists|i: int|
            0 <= i < found_across(ws, query, n).len() && (#[trigger] found_across(
                ws,
                query,
                n,
            )[i]).workspace_id == k,
    decreases n,
{
    let all = found_across(ws, query, n);
    let before = found_across(ws, query, n - 1);
    if k < n - 1 {
        law_no_workspace_is_crowded_out(ws, query, n - 1, k);
        let i = choose|i: int|
            0 <= i < before.len() && (#[trigger] found_across(ws, query, n - 1)[i]).workspace_id
                == k;
        assert(all[i] == before[i]);
    } else {
        lemma_places(ws, query, n - 1);
        let w = ws[k];
        let listed = subtree_nodes(w.store@.nodes, w.root);
        lemma_found_among(w, k as usize, query, listed, listed.len() as int, 0);
        assert(all[before.len() as int] == found_in(w, k as usize, query)[0]);
    }
}

/// Every match of a search is a node that the query asks for, in a workspace whose
/// name it admits.
pub proof fn law_matches_are_wanted(ws: Seq<SearchedWorkspace>, query: QueryView, n: int, i: int)
    requires
        0 <= n <= ws.len() <= usize::MAX,
        0 <= i < found_across(ws, query, n).len(),
    ensures
        ({
            let item = found_across(ws, query, n)[i];
            let w = ws[item.workspace_id as int];
            &&& item.workspace_id < n
            &&& admits(query.workspace, w.name@)
            &&& exists|node: Node|
                {
                    &&& #[trigger] wanted(query, w.text_hits@, node)
                    &&& node.id == item.node_id
                    &&& subtree_nodes(w.store@.nodes, w.root).contains(node)
                }
        }),
    decreases n,
{
    if n > 0 {
        let before = found_across(ws, query, n - 1);
        if i < before.len() {
            law_matches_are_wanted(ws, query, n - 1, i);
        } else {
            let w = ws[n - 1];
            let listed = subtree_nodes(w.store@.nodes, w.root);
            lemma_found_among(
                w,
                (n - 1) as usize,
                query,
                listed,
                listed.len() as int,
                i - before.len(),
            );
        }
    }
}

proof fn lemma_found_among(
    w: SearchedWorkspace,
    workspace_id: usize,
    query: QueryView,
    listed: Seq<Node>,
    n: int,
    i: int,
)
    requires
        0 <= n <= listed.len(),
        0 <= i < found_among(w, workspace_id, query, listed, n).len(),
    ensures
        ({
            let item = found_among(w, workspace_id, query, listed, n)[i];
            &&& item.workspace_id == workspace_id
            &&& exists|node: Node|
                {
                    &&& #[trigger] wanted(query, w.text_hits@, node)
                    &&& node.id == item.node_id
                    &&& listed.contains(node)
                }
        }),
    decreases n,
{
    if n > 0 {
        let before = found_among(w, workspace_id, query, listed, n - 1);
        if i < before.len() {
            lemma_found_among(w, workspace_id, query, listed, n - 1, i);
        } else {
            let node = listed[n - 1];
            assert(wanted(query, w.text_hits@, node));
            assert(listed.contains(node));
        }
    }
}

/// Why a meaning-based search failed.
#[derive(Clone, Copy, Debug, PartialEq, Eq, Structural)]
pub enum SemanticErrorCode {
    NotConfigured,
    IncompatibleProfile,
    OperationFailed,
}

/// A failed meaning-based search.
#[derive(Debug)]
pub struct SemanticError {
    pub code: SemanticErrorCode,
    pub message: String,
}

/// Whether the error has this code and message.
pub open spec fn is_semantic_error(
    error: SemanticError,
    code: SemanticErrorCode,
    message: Seq<char>,
) -> bool {
    error.code == code && error.message@ == message
}

/// Builds the failure of an operation.
pub fn operation_error(message: &str) -> (error: SemanticError)
    ensures
        is_semantic_error(error, SemanticErrorCode::OperationFailed, message@),
{
    SemanticError { code: SemanticErrorCode::OperationFailed, message: message.to_owned() }
}

/// The profile to search with: the active one, if it has the expected model.
pub fn active_profile<'a>(
    profile: &'a Option<EmbeddingProfile>,
    expected_model: &Option<String>,
) -> (result: Result<&'a EmbeddingProfile, SemanticError>)
    ensures
        match *profile {
            None => result is Err && is_semantic_error(
                result->Err_0,
                SemanticErrorCode::NotConfigured,
                "semantic index is not configured"@,
            ),
            Some(active) => if (text_of(*expected_model) is Some && text_of(*expected_model)
                != Some(active.model@)) {
                result is Err && is_semantic_error(
                    result->Err_0,
                    SemanticErrorCode::IncompatibleProfile,
                    "configured Ollama model does not match the active index"@,
                )
            } else {
                result is Ok && *result->Ok_0 == active
            },
        },
{
    match profile {
        None => Err(
            SemanticError {
                code: SemanticErrorCode::NotConfigured,
                message: "semantic index is not configured".to_owned(),
            },
        ),
        Some(active) => {
            let other: bool = match expected_model {
                Some(model) => *model != active.model,
                None => false,
            };
            if other {
                Err(
                    SemanticError {
                        code: SemanticErrorCode::IncompatibleProfile,
                        message: "configured Ollama model does not match the active index".to_owned(),
                    },
                )
            } else {
                Ok(active)
            }
        },
    }
}

/// One node found by meaning, with the bits of its score.
#[derive(Debug)]
pub struct RankedMatch {
    pub node_id: NodeId,
    pub score: u64,
    pub match_reasons: Vec<String>,
}

/// The matches among the first `n` ranked nodes that the slug filter admits; `None`
/// where one of the nodes is gone.
pub open spec fn ranked_items(
    nodes: Seq<Node>,
    workspace_id: usize,
    name: Seq<char>,
    slug: Option<Seq<char>>,
    ranked: Seq<RankedMatch>,
    n: int,
) -> Option<Seq<ItemView>>
    decreases n,
{
    if n <= 0 {
        Some(Seq::empty())
    } else {
        match ranked_items(nodes, workspace_id, name, slug, ranked, n - 1) {
            None => None,
            Some(before) => match lookup(nodes, ranked[n - 1].node_id) {
                None => None,
                Some(node) => if admits(slug, node.slug@) {
                    Some(
                        before.push(
                            item_of(
                                nodes,
                                workspace_id,
                                name,
                                node,
                                Some(ranked[n - 1].score),
                                texts(ranked[n - 1].match_reasons@),
                            ),
                        ),
                    )
                } else {
                    Some(before)
                },
            },
        }
    }
}

proof fn lemma_ranked_gone(
    nodes: Seq<Node>,
    workspace_id: usize,
    name: Seq<char>,
    slug: Option<Seq<char>>,
    ranked: Seq<RankedMatch>,
    n: int,
    m: int,
)
    requires
        0 <= n <= m,
        ranked_items(nodes, workspace_id, name, slug, ranked, n) is None,
    ensures
        ranked_items(nodes, workspace_id, name, slug, ranked, m) is None,
    decreases m,
{
    if m > n {
        lemma_ranked_gone(nodes, workspace_id, name, slug, ranked, n, m - 1);
    }
}

fn copy_reasons(reasons: &Vec<String>) -> (copy: Vec<String>)
    ensures
        texts(copy@) == texts(reasons@),
{
    let copy = crate::context::copy_texts(reasons);
    assert(texts(copy@) =~= texts(reasons@));
    copy
}

impl SqliteStore {
    /// Presents the nodes found by meaning, without those that the slug filter
    /// leaves out.
    pub fn semantic_items(
        &self,
        workspace_id: usize,
        workspace_name: &str,
        slug: &Option<String>,
        ranked: &Vec<RankedMatch>,
    ) -> (result: Result<Vec<SearchResultItem>, SemanticError>)
        requires
            is_forest(self@.nodes),
        ensures
            match ranked_items(
                self@.nodes,
                workspace_id,
                workspace_name@,
                text_of(*slug),
                ranked@,
                ranked@.len() as int,
            ) {
                Some(items) => result is Ok && item_views(result->Ok_0@) == items,
                None => result is Err && is_semantic_error(
                    result->Err_0,
                    SemanticErrorCode::OperationFailed,
                    "search result node no longer exists"@,
                ),
            },
    {
        let mut items: Vec<SearchResultItem> = Vec::new();
        let mut i: usize = 0;
        assert(item_views(items@) =~= Seq::<ItemView>::empty());
        while i < ranked.len()
            invariant
                i <= ranked.len(),
                is_forest(self@.nodes),
                ranked_items(
                    self@.nodes,
                    workspace_id,
                    workspace_name@,
                    text_of(*slug),
                    ranked@,
                    i as int,
                ) == Some(item_views(items@)),
            decreases ranked.len() - i,
        {
            match find(&self.nodes, ranked[i].node_id) {
                None => {
                    proof {
                        lemma_ranked_gone(
                            self@.nodes,
                            workspace_id,
                            workspace_name@,
                            text_of(*slug),
                            ranked@,
                            i + 1,
                            ranked@.len() as int,
                        );
                    }
                    return Err(operation_error("search result node no longer exists"));
                },
                Some(at) => {
                    let node = &self.nodes[at];
                    if term_admits(slug, &node.slug) {
                        let ghost before = item_views(items@);
                        let item = self.search_result_item(
                            workspace_id,
                            workspace_name,
                            node,
                            Some(ranked[i].score),
                            copy_reasons(&ranked[i].match_reasons),
                        );
                        let ghost view = item@;
                        items.push(item);
                        assert(item_views(items@) =~= before.push(view));
                    }
                },
            }
            i = i + 1;
        }
        Ok(items)
    }
}

/// The place of a score among all scores, from its bits: negative ones come below
/// positive ones, and the further from zero the further out. A missing score counts
/// as zero.
pub open spec fn score_place(score: Option<u64>) -> int {
    let bits: u64 = match score {
        Some(b) => b,
        None => 0,
    };
    if bits >= 0x8000_0000_0000_0000 {
        0xffff_ffff_ffff_ffff - bits
    } else {
        bits + 0x8000_0000_0000_0000
    }
}

/// The order of merged matches: by score from the highest, then by workspace, then
/// by node, then as they came.
pub open spec fn merge_key(items: Seq<ItemView>, i: int) -> Seq<u128> {
    seq![
        (0xffff_ffff_ffff_ffff - score_place(items[i].score)) as u128,
        items[i].workspace_id as u128,
        items[i].node_id.value,
        i as u128,
    ]
}

/// Whether the positions name all matches in merged order.
pub open spec fn merges(items: Seq<ItemView>, order: Seq<usize>) -> bool {
    lists(
        Seq::new(items.len(), |i: int| i as usize),
        |i: usize| true,
        |i: usize| merge_key(items, i as int),
        order,
    )
}

fn place_score(score: Option<u64>) -> (place: u64)
    ensures
        place == score_place(score),
{
    let bits: u64 = match score {
        Some(b) => b,
        None => 0,
    };
    if bits >= 0x8000_0000_0000_0000 {
        0xffff_ffff_ffff_ffff - bits
    } else {
        bits + 0x8000_0000_0000_0000
    }
}

impl SearchResultItem {
    fn copy(&self) -> (item: SearchResultItem)
        ensures
            item@ == self@,
    {
        SearchResultItem {
            workspace_id: self.workspace_id,
            workspace_name: self.workspace_name.clone(),
            node_id: self.node_id,
            slug: self.slug.clone(),
            title: self.title.clone(),
            path: self.path.clone(),
            ancestor_ids: copy_reasons(&self.ancestor_ids),
            score: self.score,
            match_reasons: copy_reasons(&self.match_reasons),
        }
    }
}

/// Merges the matches of all workspaces by score and keeps the first ones.
pub fn merge_ranked(items: &Vec<SearchResultItem>) -> (merged: Vec<SearchResultItem>)
    ensures
        exists|order: Seq<usize>| #[trigger]
            merges(item_views(items@), order) && item_views(merged@) == truncated(
                Seq::new(order.len(), |i: int| item_views(items@)[order[i] as int]),
            ),
{
    let ghost views = item_views(items@);
    let ghost rows = Seq::new(views.len(), |i: int| i as usize);
    let ghost pred = |i: usize| true;
    let ghost key = |i: usize| merge_key(views, i as int);
    let mut picked: Vec<usize> = Vec::new();
    let mut keys: Vec<Vec<u128>> = Vec::new();
    let mut i: usize = 0;
    while i < items.len()
        invariant
            i <= items.len(),
            views == item_views(items@),
            key == (|i: usize| merge_key(views, i as int)),
            keys.len() == i,
            picked.len() == i,
            forall|k: int| 0 <= k < i ==> #[trigger] picked@[k] == k,
            forall|k: int| 0 <= k < i ==> (#[trigger] keys@[k])@ == key(k as usize),
        decreases items.len() - i,
    {
        let mut k: Vec<u128> = Vec::new();
        assert(views[i as int] == items@[i as int]@);
        k.push((0xffff_ffff_ffff_ffff - place_score(items[i].score)) as u128);
        k.push(items[i].workspace_id as u128);
        k.push(items[i].node_id.value);
        k.push(i as u128);
        assert(k@ =~= key(i));
        keys.push(k);
        picked.push(i);
        i = i + 1;
    }
    let order = sorted_positions(&keys);
    let ghost listed = order@;
    proof {
        assert forall|k: int, l: int|
            0 <= k < picked.len() && 0 <= l < picked.len() && k != l implies key(
            rows[#[trigger] picked@[k] as int],
        ) != key(rows[#[trigger] picked@[l] as int]) by {
            assert(rows[k] == k as usize && rows[l] == l as usize);
            assert(key(rows[k])[3] == k as u128);
            assert(key(rows[l])[3] == l as u128);
        }
        assert forall|i: int|
            #![trigger rows[i]]
            0 <= i < rows.len() implies picked@.contains(i as usize) by {
            assert(picked@[i] == i);
        }
        assert(picks(rows, pred, picked@));
        assert forall|i: int| 0 <= i < order@.len() implies #[trigger] listed[i]
            == rows[picked@[order@[i] as int] as int] by {
            assert(picked@[order@[i] as int] == order@[i]);
        }
        assert forall|k: int| 0 <= k < keys@.len() implies (#[trigger] keys@[k])@ == key(
            rows[picked@[k] as int],
        ) by {
            assert(rows[k] == k as usize);
            assert(picked@[k] == k);
        }
        assert(arranges(rows, picked@, keys@, order@, listed));
        lemma_arranged_lists(rows, pred, key, picked@, keys@, order@, listed);
        assert(merges(views, listed));
    }
    let ghost all = Seq::new(listed.len(), |i: int| views[listed[i] as int]);
    let mut merged: Vec<SearchResultItem> = Vec::new();
    let mut n: usize = 0;
    while n < order.len() && n < MAX_RESULTS
        invariant
            n <= order.len(),
            n <= MAX_RESULTS,
            order@ == listed,
            order.len() == items.len(),
            views == item_views(items@),
            all == Seq::new(listed.len(), |i: int| views[listed[i] as int]),
            forall|i: int| 0 <= i < order.len() ==> #[trigger] order@[i] < items.len(),
            merged.len() == n,
            forall|m: int| 0 <= m < n ==> (#[trigger] merged@[m])@ == all[m],
        decreases order.len() - n,
    {
        assert(views[listed[n as int] as int] == items@[order@[n as int] as int]@);
        merged.push(items[order[n]].copy());
        n = n + 1;
    }
    assert(item_views(merged@) =~= truncated(all));
    merged
}

/// Whether the plan is the one for a query in a mode.
pub open spec fn is_plan(
    query: QueryView,
    mode: SearchMode,
    hybrid_fallback: bool,
    plan: SearchPlan,
) -> bool {
    if !asks(query) {
        plan is Empty
    } else if hybrid_fallback && mode != SearchMode::Hybrid {
        plan is FallbackWithoutHybrid
    } else if mode == SearchMode::Lexical {
        plan is Lexical
    } else if trimmed(semantic_query(query)).len() == 0 {
        plan is Empty
    } else {
        plan is Semantic && plan->Semantic_0@ == semantic_query(query)
    }
}

} // verus!
