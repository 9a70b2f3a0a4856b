//! Evidence for structural destinations, and the recommendation made of it.

use crate::context::copy_texts;
use crate::diagnostics::texts;
use crate::history::offset_items;
use crate::listing::{arranges, lemma_arranged_lists, lists, picks};
use crate::model::{Node, NodeId, Refusal, StoreError};
use crate::order::sorted_positions;
use crate::paging::page_items;
use crate::reads::{above, level, lists_children};
use crate::removal::count_where;
use crate::search::{
    add_signal, count_matched, first_ids, has_type, holds, holds_text, match_refusal,
    matched_words, presents, show, shown, signal_of, signal_views, type_of, SearchMatch, Signal,
    SignalView,
};
use crate::tables::SqliteStore;
use crate::text::{decimal, joined, push_wide, text_of};
use crate::tree::{is_forest, node_at, present, unique_ids};
use crate::words::{
    are_tokens, infer_type, inferred_type, join, joined_by, suggested_title, title_words, tokens,
    words_of,
};
use vstd::prelude::*;

verus! {

/// What speaks for and against one node as a destination.
#[derive(Debug)]
pub struct DestinationEvidence {
    pub node_id: NodeId,
    pub signals: Vec<Signal>,
    /// Whether the node leaves such things to others.
    pub excluded: bool,
    /// Whether the node takes the requested type, if one is requested.
    pub accepts_child: Option<bool>,
    /// Children of the requested type.
    pub matching: usize,
    /// Whether the node neither takes nor has children.
    pub barren: bool,
    pub reasons: Vec<String>,
    pub example_node_ids: Vec<NodeId>,
}

/// Titles from the root down to the node, as one text.
pub open spec fn breadcrumb_text(nodes: Seq<Node>, id: NodeId) -> Seq<char> {
    let n = level(nodes, id);
    joined_by(
        Seq::new(n, |i: int| above(nodes, id, n - 1 - i).metadata.title@),
        " > "@,
        n as int,
    )
}

pub open spec fn titles_of(listed: Seq<Node>) -> Seq<Seq<char>> {
    Seq::new(listed.len(), |i: int| listed[i].metadata.title@)
}

pub open spec fn all_joined(list: Seq<Seq<char>>) -> Seq<char> {
    joined_by(list, " "@, list.len() as int)
}

/// The summary of a node, or nothing.
pub open spec fn summary_text(node: Node) -> Seq<char> {
    match node.metadata.summary {
        Some(text) => text@,
        None => ""@,
    }
}

/// What the texts of a node and its surroundings say for the words.
pub open spec fn destination_signals(
    nodes: Seq<Node>,
    node: Node,
    children: Seq<Node>,
    words: Seq<Seq<char>>,
) -> Seq<SignalView> {
    signal_of(words, node.metadata.title@, 20, "title"@) + signal_of(
        words,
        all_joined(texts(node.metadata.aliases@)),
        18,
        "alias"@,
    ) + signal_of(words, summary_text(node), 15, "summary"@) + signal_of(
        words,
        all_joined(texts(node.metadata.owns@)),
        45,
        "ownership"@,
    ) + signal_of(words, breadcrumb_text(nodes, node.id), 12, "ancestor path"@) + signal_of(
        words,
        all_joined(titles_of(children)),
        12,
        "existing child pattern"@,
    )
}

/// Whether one of the node's exclusions speaks of the words.
pub open spec fn is_excluded(node: Node, words: Seq<Seq<char>>) -> bool {
    exists|i: int|
        0 <= i < node.metadata.excludes@.len() && matched_words(
            words,
            (#[trigger] node.metadata.excludes@[i])@,
        ) > 0
}

/// Whether the node takes the requested type, if one is requested.
pub open spec fn takes(node: Node, kind: Option<Seq<char>>) -> Option<bool> {
    match kind {
        Some(k) => Some(holds(node.metadata.accepts_children@, k)),
        None => None,
    }
}

/// Number of children of the requested type.
pub open spec fn matching_children(children: Seq<Node>, kind: Option<Seq<char>>) -> nat {
    match kind {
        Some(k) => count_where(
            children,
            |n: Node| has_type(n, Some(k)),
            children.len() as int,
        ),
        None => 0,
    }
}

pub open spec fn signal_reasons(signals: Seq<SignalView>) -> Seq<Seq<char>> {
    Seq::new(signals.len(), |i: int| signals[i].label + " matched"@)
}

/// The reasons in words.
pub open spec fn reasons_of(
    signals: Seq<SignalView>,
    excluded: bool,
    kind: Option<Seq<char>>,
    accepts: Option<bool>,
    matching: nat,
) -> Seq<Seq<char>> {
    signal_reasons(signals) + (if excluded {
        seq!["exclusion penalty"@]
    } else {
        Seq::empty()
    }) + (if accepts == Some(true) {
        seq!["accepts "@ + kind->0 + " children"@]
    } else {
        Seq::empty()
    }) + (if matching > 0 {
        seq!["contains "@ + decimal(matching) + " matching child examples"@]
    } else {
        Seq::empty()
    })
}

/// Whether the evidence is that of the node.
pub open spec fn weighs(
    nodes: Seq<Node>,
    node: Node,
    words: Seq<Seq<char>>,
    kind: Option<Seq<char>>,
    evidence: DestinationEvidence,
) -> bool {
    exists|children: Seq<Node>|
        {
            let signals = destination_signals(nodes, node, children, words);
            let excluded = is_excluded(node, words);
            let matching = matching_children(children, kind);
            &&& #[trigger] lists_children(nodes, node.id, children)
            &&& evidence.node_id == node.id
            &&& signal_views(evidence.signals@) == signals
            &&& evidence.excluded == excluded
            &&& evidence.accepts_child == takes(node, kind)
            &&& evidence.matching == matching
            &&& evidence.barren == (node.metadata.accepts_children@.len() == 0 && children.len()
                == 0)
            &&& texts(evidence.reasons@) == reasons_of(
                signals,
                excluded,
                kind,
                takes(node, kind),
                matching,
            )
            &&& evidence.example_node_ids@ == first_ids(
                children,
                kind,
                5,
                children.len() as int,
            )
        }
}

/// The type that is asked for: the proposed one, or what the query speaks of.
pub open spec fn requested_type(query: Seq<char>, proposed: Option<&String>) -> Option<Seq<char>> {
    match proposed {
        Some(kind) => Some(kind@),
        None => inferred_type(query),
    }
}

impl SqliteStore {
    /// Titles from the root down to an existing node, as one text.
    pub fn breadcrumb_line(&self, id: NodeId) -> (text: String)
        requires
            is_forest(self@.nodes),
            present(self@.nodes, id),
        ensures
            text@ == breadcrumb_text(self@.nodes, id),
    {
        match self.breadcrumb(id) {
            Ok(titles) => {
                proof {
                    let n = level(self@.nodes, id);
                    assert(texts(titles@) =~= Seq::new(
                        n,
                        |i: int| above(self@.nodes, id, n - 1 - i).metadata.title@,
                    ));
                }
                join(&titles, " > ")
            },
            Err(_) => {
                assert(false);
                String::new()
            },
        }
    }

    /// Weighs one existing node as a destination.
    fn weigh(&self, node: &Node, words: &Vec<String>, kind: &Option<String>) -> (evidence:
        DestinationEvidence)
        requires
            is_forest(self@.nodes),
            present(self@.nodes, node.id),
        ensures
            weighs(self@.nodes, *node, texts(words@), text_of(*kind), evidence),
    {
        let children = self.children(node.id);
        let ghost listed = children@;
        let ghost list = texts(words@);
        let ghost wanted = text_of(*kind);
        let mut titles: Vec<String> = Vec::new();
        let mut c: usize = 0;
        while c < children.len()
            invariant
                c <= children.len(),
                titles.len() == c,
                forall|k: int|
                    0 <= k < c ==> (#[trigger] titles@[k])@ == children@[k].metadata.title@,
            decreases children.len() - c,
        {
            titles.push(children[c].metadata.title.clone());
            c = c + 1;
        }
        assert(texts(titles@) =~= titles_of(listed));
        let aliases = join(&node.metadata.aliases, " ");
        let owns = join(&node.metadata.owns, " ");
        let path = self.breadcrumb_line(node.id);
        let below = join(&titles, " ");
        let summary: String = match &node.metadata.summary {
            Some(text) => text.clone(),
            None => "".to_owned(),
        };
        assert(texts(node.metadata.aliases@).len() == node.metadata.aliases@.len());
        assert(texts(node.metadata.owns@).len() == node.metadata.owns@.len());
        assert(titles_of(listed).len() == listed.len());
        let mut signals: Vec<Signal> = Vec::new();
        assert(signal_views(signals@) =~= Seq::<SignalView>::empty());
        add_signal(words, node.metadata.title.as_str(), 20, "title", &mut signals);
        add_signal(words, aliases.as_str(), 18, "alias", &mut signals);
        add_signal(words, summary.as_str(), 15, "summary", &mut signals);
        add_signal(words, owns.as_str(), 45, "ownership", &mut signals);
        add_signal(words, path.as_str(), 12, "ancestor path", &mut signals);
        add_signal(words, below.as_str(), 12, "existing child pattern", &mut signals);
        assert(signal_views(signals@) =~= destination_signals(self@.nodes, *node, listed, list));
        let excludes = &node.metadata.excludes;
        let mut excluded: bool = false;
        let mut e: usize = 0;
        while e < excludes.len()
            invariant
                e <= excludes.len(),
                excludes == &node.metadata.excludes,
                list == texts(words@),
                excluded <==> exists|k: int|
                    0 <= k < e && matched_words(
                        list,
                        (#[trigger] node.metadata.excludes@[k])@,
                    ) > 0,
            decreases excludes.len() - e,
        {
            if count_matched(words, excludes[e].as_str()) > 0 {
                assert(matched_words(list, node.metadata.excludes@[e as int]@) > 0);
                excluded = true;
            }
            e = e + 1;
        }
        let accepts_child: Option<bool> = match kind {
            Some(k) => Some(holds_text(&node.metadata.accepts_children, k)),
            None => None,
        };
        let mut matching: usize = 0;
        match kind {
            None => {},
            Some(k) => {
                let ghost pred = |n: Node| has_type(n, Some(k@));
                let mut m: usize = 0;
                while m < children.len()
                    invariant
                        m <= children.len(),
                        matching <= m,
                        listed == children@,
                        pred == (|n: Node| has_type(n, Some(k@))),
                        matching == count_where(listed, pred, m as int),
                    decreases children.len() - m,
                {
                    let same: bool = match &children[m].metadata.node_type {
                        Some(own) => *own == *k,
                        None => false,
                    };
                    if same {
                        matching = matching + 1;
                    }
                    m = m + 1;
                }
            },
        }
        let mut reasons: Vec<String> = Vec::new();
        let mut s: usize = 0;
        while s < signals.len()
            invariant
                s <= signals.len(),
                reasons.len() == s,
                forall|k: int|
                    0 <= k < s ==> (#[trigger] reasons@[k])@ == signals@[k].label@ + " matched"@,
            decreases signals.len() - s,
        {
            reasons.push(joined(signals[s].label.as_str(), " matched"));
            s = s + 1;
        }
        let ghost base = texts(reasons@);
        assert(base =~= signal_reasons(signal_views(signals@)));
        if excluded {
            reasons.push("exclusion penalty".to_owned());
        }
        match (kind, accepts_child) {
            (Some(k), Some(true)) => {
                let mut text = "accepts ".to_owned();
                text.push_str(k.as_str());
                text.push_str(" children");
                reasons.push(text);
            },
            _ => {},
        }
        if matching > 0 {
            let mut text = "contains ".to_owned();
            push_wide(&mut text, matching as u128);
            text.push_str(" matching child examples");
            reasons.push(text);
        }
        assert(texts(reasons@) =~= reasons_of(
            signal_views(signals@),
            excluded,
            wanted,
            accepts_child,
            matching as nat,
        ));
        let example_node_ids = self.examples_of(node.id, kind, &children);
        let evidence = DestinationEvidence {
            node_id: node.id,
            signals,
            excluded,
            accepts_child,
            matching,
            barren: node.metadata.accepts_children.len() == 0 && children.len() == 0,
            reasons,
            example_node_ids,
        };
        assert(lists_children(self@.nodes, node.id, listed));
        evidence
    }

    /// The first five children of the requested type.
    fn examples_of(&self, id: NodeId, kind: &Option<String>, children: &Vec<Node>) -> (ids: Vec<
        NodeId,
    >)
        requires
            unique_ids(self@.nodes),
            lists_children(self@.nodes, id, children@),
        ensures
            ids@ == first_ids(children@, text_of(*kind), 5, children@.len() as int),
    {
        let wanted: Option<&String> = match kind {
            Some(k) => Some(k),
            None => None,
        };
        let ids = self.examples_for(id, wanted, 5);
        proof {
            let other = choose|c: Seq<Node>| #[trigger]
                lists_children(self@.nodes, id, c) && ids@ == first_ids(
                    c,
                    type_of(wanted),
                    5,
                    c.len() as int,
                );
            crate::listing::lemma_lists_unique(
                self@.nodes,
                |n: Node| n.parent_id == Some(id),
                |n: Node| crate::tree::sibling_key(n),
                other,
                children@,
            );
        }
        ids
    }

    /// Weighs every node, by identity, as a destination for what a query speaks
    /// of.
    pub fn destination_evidence(&self, query: &str, proposed_type: Option<&String>) -> (result: Vec<
        DestinationEvidence,
    >)
        requires
            is_forest(self@.nodes),
        ensures
            weighed_ids(result@).no_duplicates(),
            exists|by_id: Seq<Node>, words: Seq<Seq<char>>|
                {
                    &&& #[trigger] self@.by_identity(by_id)
                    &&& #[trigger] are_tokens(query@, words)
                    &&& result@.len() == by_id.len()
                    &&& forall|i: int|
                        0 <= i < result@.len() ==> weighs(
                            self@.nodes,
                            by_id[i],
                            words,
                            requested_type(query@, proposed_type),
                            #[trigger] result@[i],
                        )
                },
    {
        let words = tokens(query);
        let ghost list = texts(words@);
        let kind: Option<String> = match proposed_type {
            Some(kind) => Some(kind.clone()),
            None => infer_type(query),
        };
        assert(text_of(kind) == requested_type(query@, proposed_type));
        let order = self.positions_by_id();
        let ghost by_id = Seq::new(order@.len(), |i: int| self@.nodes[order@[i] as int]);
        let mut result: Vec<DestinationEvidence> = Vec::new();
        let mut i: usize = 0;
        while i < order.len()
            invariant
                i <= order.len(),
                is_forest(self@.nodes),
                list == texts(words@),
                by_id == Seq::new(order@.len(), |i: int| self@.nodes[order@[i] as int]),
                order.len() == self@.nodes.len(),
                forall|k: int| 0 <= k < order.len() ==> #[trigger] order@[k] < self@.nodes.len(),
                result.len() == i,
                forall|k: int|
                    0 <= k < i ==> weighs(
                        self@.nodes,
                        by_id[k],
                        list,
                        text_of(kind),
                        #[trigger] result@[k],
                    ),
            decreases order.len() - i,
        {
            let node = &self.nodes[order[i]];
            assert(by_id[i as int] == *node);
            assert(self@.nodes[order@[i as int] as int].id == node.id);
            assert(present(self@.nodes, node.id));
            result.push(self.weigh(node, &words, &kind));
            i = i + 1;
        }
        assert(self@.by_identity(by_id));
        assert(are_tokens(query@, list));
        proof {
            crate::snapshot_laws::lemma_listed_nodes(self@, by_id);
            let ids = weighed_ids(result@);
            assert forall|a: int, b: int|
                0 <= a < ids.len() && 0 <= b < ids.len() && a != b implies ids[a] != ids[b] by {
                assert(weighs(self@.nodes, by_id[a], list, text_of(kind), result@[a]));
                assert(weighs(self@.nodes, by_id[b], list, text_of(kind), result@[b]));
                assert(by_id[a].id != by_id[b].id);
            }
        }
        result
    }
}

/// Whether the bits are those of a score above zero.
pub open spec fn is_positive(score: u64) -> bool {
    0 < score <= i64::MAX
}

/// The identities of the weighed nodes.
pub open spec fn weighed_ids(evidence: Seq<DestinationEvidence>) -> Seq<NodeId> {
    Seq::new(evidence.len(), |i: int| evidence[i].node_id)
}

/// The order of destinations: by shown score from the highest, then by node.
pub open spec fn destination_key(ids: Seq<NodeId>, scores: Seq<u64>, i: int) -> Seq<u128> {
    seq![(u64::MAX - shown(scores[i])) as u128, ids[i].value]
}

/// Whether the positions name every destination with a score above zero, in order.
pub open spec fn ranks_destinations(ids: Seq<NodeId>, scores: Seq<u64>, listed: Seq<usize>) -> bool {
    lists(
        Seq::new(ids.len(), |i: int| i as usize),
        |i: usize| is_positive(scores[i as int]),
        |i: usize| destination_key(ids, scores, i as int),
        listed,
    )
}

/// Orders the destinations that have a score above zero.
fn rank_destinations(evidence: &Vec<DestinationEvidence>, scores: &Vec<u64>) -> (listed: Vec<usize>)
    requires
        evidence.len() == scores.len(),
        weighed_ids(evidence@).no_duplicates(),
    ensures
        ranks_destinations(weighed_ids(evidence@), scores@, listed@),
        forall|i: int| 0 <= i < listed.len() ==> #[trigger] listed@[i] < evidence.len(),
{
    let ghost ids = weighed_ids(evidence@);
    let ghost rows = Seq::new(ids.len(), |i: int| i as usize);
    let ghost pred = |i: usize| is_positive(scores@[i as int]);
    let ghost key = |i: usize| destination_key(ids, scores@, i as int);
    let mut picked: Vec<usize> = Vec::new();
    let mut keys: Vec<Vec<u128>> = Vec::new();
    let mut i: usize = 0;
    while i < evidence.len()
        invariant
            i <= evidence.len(),
            evidence.len() == scores.len(),
            ids == weighed_ids(evidence@),
            rows == Seq::new(ids.len(), |i: int| i as usize),
            pred == (|i: usize| is_positive(scores@[i as int])),
            key == (|i: usize| destination_key(ids, scores@, i as int)),
            keys.len() == picked.len(),
            picked@.no_duplicates(),
            forall|k: int|
                0 <= k < picked.len() ==> #[trigger] picked@[k] < i && pred(
                    rows[picked@[k] as int],
                ),
            forall|j: int| 0 <= j < i && pred(#[trigger] rows[j]) ==> picked@.contains(j as usize),
            forall|k: int|
                0 <= k < picked.len() ==> #[trigger] keys@[k]@ == key(rows[picked@[k] as int]),
        decreases evidence.len() - i,
    {
        let ghost before = picked@;
        assert(rows[i as int] == i);
        if 0 < scores[i] && scores[i] <= 0x7fff_ffff_ffff_ffff {
            let mut k: Vec<u128> = Vec::new();
            k.push((u64::MAX - show(scores[i])) as u128);
            k.push(evidence[i].node_id.value);
            assert(k@ =~= key(i));
            keys.push(k);
            picked.push(i);
            proof {
                assert(picked@[before.len() as int] == i);
                assert forall|j: int| 0 <= j < i + 1 && pred(#[trigger] rows[j]) implies picked@.contains(
                j as usize) by {
                    if j < i {
                        let k = choose|k: int| 0 <= k < before.len() && before[k] == j as usize;
                        assert(picked@[k] == j as usize);
                    }
                }
            }
        }
        i = i + 1;
    }
    let order = sorted_positions(&keys);
    let mut listed: Vec<usize> = Vec::new();
    let mut n: usize = 0;
    while n < order.len()
        invariant
            n <= order.len(),
            order.len() == picked.len(),
            rows == Seq::new(ids.len(), |i: int| i as usize),
            ids.len() == evidence.len(),
            forall|i: int| 0 <= i < order.len() ==> #[trigger] order@[i] < picked.len(),
            forall|k: int| 0 <= k < picked.len() ==> #[trigger] picked@[k] < rows.len(),
            listed.len() == n,
            forall|m: int|
                0 <= m < n ==> #[trigger] listed@[m] == rows[picked@[order@[m] as int] as int],
            forall|m: int| 0 <= m < n ==> #[trigger] listed@[m] < evidence.len(),
        decreases order.len() - n,
    {
        listed.push(picked[order[n]]);
        assert(rows[picked@[order@[n as int] as int] as int] == picked@[order@[n as int] as int]);
        n = n + 1;
    }
    proof {
        assert forall|k: int, l: int|
            0 <= k < picked.len() && 0 <= l < picked.len() && k != l implies key(
            rows[#[trigger] picked@[k] as int],
        ) != key(rows[#[trigger] picked@[l] as int]) by {
            let a = picked@[k] as int;
            let b = picked@[l] as int;
            assert(rows[a] == a as usize && rows[b] == b as usize);
            assert(key(rows[a])[1] == ids[a].value);
            assert(key(rows[b])[1] == ids[b].value);
            if ids[a].value == ids[b].value {
                assert(ids[a] == ids[b]);
            }
        }
        assert(picks(rows, pred, picked@));
        assert(arranges(rows, picked@, keys@, order@, listed@));
        lemma_arranged_lists(rows, pred, key, picked@, keys@, order@, listed@);
    }
    listed
}

/// A ranked destination with local examples.
#[derive(Debug)]
pub struct DestinationCandidate {
    pub result: SearchMatch,
    pub example_node_ids: Vec<NodeId>,
}

/// Whether a candidate presents a weighed node with its score.
pub open spec fn is_candidate(
    nodes: Seq<Node>,
    evidence: DestinationEvidence,
    score: u64,
    item: DestinationCandidate,
) -> bool {
    &&& presents(nodes, node_at(nodes, evidence.node_id), item.result)
    &&& item.result.section_id is None
    &&& item.result.score == shown(score)
    &&& texts(item.result.match_reasons@) == texts(evidence.reasons@)
    &&& item.result.accepts_child == evidence.accepts_child
    &&& item.example_node_ids@ == evidence.example_node_ids@
}

/// Why one of the first `n` listed destinations cannot be presented.
pub open spec fn candidate_refusal(
    nodes: Seq<Node>,
    ids: Seq<NodeId>,
    listed: Seq<usize>,
    n: int,
) -> Option<Refusal>
    decreases n,
{
    if n <= 0 {
        None
    } else {
        match candidate_refusal(nodes, ids, listed, n - 1) {
            Some(e) => Some(e),
            None => match_refusal(nodes, ids[listed[n - 1] as int]),
        }
    }
}

proof fn lemma_candidate_refused(
    nodes: Seq<Node>,
    ids: Seq<NodeId>,
    listed: Seq<usize>,
    n: int,
    m: int,
)
    requires
        0 <= n <= m,
        candidate_refusal(nodes, ids, listed, n) is Some,
    ensures
        candidate_refusal(nodes, ids, listed, m) == candidate_refusal(nodes, ids, listed, n),
    decreases m,
{
    if m > n {
        lemma_candidate_refused(nodes, ids, listed, n, m - 1);
    }
}

/// The outcome of ranking destinations: those with a score above zero in order, no more
/// than the limit.
pub open spec fn answers_destinations(
    nodes: Seq<Node>,
    evidence: Seq<DestinationEvidence>,
    scores: Seq<u64>,
    limit: int,
    result: Result<Vec<DestinationCandidate>, StoreError>,
) -> bool {
    exists|listed: Seq<usize>|
        {
            &&& #[trigger] ranks_destinations(weighed_ids(evidence), scores, listed)
            &&& match candidate_refusal(
                nodes,
                weighed_ids(evidence),
                listed,
                listed.len() as int,
            ) {
                Some(e) => result is Err && result->Err_0@ == e,
                None => {
                    let kept = page_items(listed, 0, limit);
                    &&& result is Ok
                    &&& result->Ok_0@.len() == kept.len()
                    &&& forall|i: int|
                        0 <= i < kept.len() ==> is_candidate(
                            nodes,
                            evidence[kept[i] as int],
                            scores[kept[i] as int],
                            #[trigger] result->Ok_0@[i],
                        )
                },
            }
        }
}

impl SqliteStore {
    /// Ranks structural destinations by their scores: those above zero, the best first,
    /// no more than the limit.
    pub fn destination_candidates(
        &self,
        evidence: &Vec<DestinationEvidence>,
        scores: &Vec<u64>,
        limit: u32,
    ) -> (result: Result<Vec<DestinationCandidate>, StoreError>)
        requires
            is_forest(self@.nodes),
            evidence.len() == scores.len(),
            weighed_ids(evidence@).no_duplicates(),
        ensures
            answers_destinations(self@.nodes, evidence@, scores@, limit as int, result),
    {
        let ghost nodes = self@.nodes;
        let ghost ids = weighed_ids(evidence@);
        let listed = rank_destinations(evidence, scores);
        assert(ranks_destinations(ids, scores@, listed@));
        let mut items: Vec<DestinationCandidate> = Vec::new();
        let mut i: usize = 0;
        while i < listed.len()
            invariant
                i <= listed.len(),
                nodes == self@.nodes,
                is_forest(nodes),
                evidence.len() == scores.len(),
                ids == weighed_ids(evidence@),
                ranks_destinations(ids, scores@, listed@),
                forall|k: int| 0 <= k < listed.len() ==> #[trigger] listed@[k] < evidence.len(),
                candidate_refusal(nodes, ids, listed@, i as int) is None,
                items.len() == i,
                forall|k: int|
                    0 <= k < i ==> is_candidate(
                        nodes,
                        evidence@[listed@[k] as int],
                        scores@[listed@[k] as int],
                        #[trigger] items@[k],
                    ),
            decreases listed.len() - i,
        {
            let at: usize = listed[i];
            let weighed = &evidence[at];
            assert(ids[at as int] == weighed.node_id);
            let reasons = copy_texts(&weighed.reasons);
            match self.search_match(
                weighed.node_id,
                None,
                show(scores[at]),
                reasons,
                weighed.accepts_child,
            ) {
                Ok(result) => {
                    items.push(
                        DestinationCandidate {
                            result,
                            example_node_ids: copy_ids(&weighed.example_node_ids),
                        },
                    );
                },
                Err(e) => {
                    proof {
                        lemma_candidate_refused(
                            nodes,
                            ids,
                            listed@,
                            i + 1,
                            listed@.len() as int,
                        );
                    }
                    return Err(e);
                },
            }
            i = i + 1;
        }
        let ghost all = items@;
        let kept = offset_items(items, 0, limit);
        assert forall|k: int| 0 <= k < kept@.len() implies is_candidate(
            nodes,
            evidence@[page_items(listed@, 0, limit as int)[k] as int],
            scores@[page_items(listed@, 0, limit as int)[k] as int],
            #[trigger] kept@[k],
        ) by {
            assert(kept@[k] == all[k]);
        }
        Ok(kept)
    }
}

fn copy_ids(ids: &Vec<NodeId>) -> (copy: Vec<NodeId>)
    ensures
        copy@ == ids@,
{
    let mut copy: Vec<NodeId> = Vec::new();
    let mut i: usize = 0;
    while i < ids.len()
        invariant
            i <= ids.len(),
            copy@ =~= ids@.take(i as int),
        decreases ids.len() - i,
    {
        copy.push(ids[i]);
        i = i + 1;
    }
    assert(copy@ =~= ids@);
    copy
}

/// How sure a recommendation is.
#[derive(Clone, Copy, Debug, PartialEq, Eq, Structural)]
pub enum LocateStatus {
    NotFound,
    Recommended,
    Ambiguous,
}

/// What to do at the recommended destination.
#[derive(Clone, Copy, Debug, PartialEq, Eq, Structural)]
pub enum LocateAction {
    CreateChild,
    AppendToNode,
}

/// The recommendation for a query.
#[derive(Debug)]
pub struct LocateResult {
    pub status: LocateStatus,
    pub action: Option<LocateAction>,
    pub suggested_title: Option<String>,
    pub ambiguity: Option<String>,
}

/// Recommends the best of ranked destinations. `near_tie` tells whether the two
/// best scores lie close together.
pub fn locate_target(query: &str, accepts: &Vec<Option<bool>>, near_tie: bool) -> (result:
    LocateResult)
    ensures
        locates(query@, accepts@, near_tie, result),
{
    if accepts.len() == 0 {
        return LocateResult {
            status: LocateStatus::NotFound,
            action: None,
            suggested_title: None,
            ambiguity: None,
        };
    }
    let ambiguous: bool = accepts.len() > 1 && near_tie;
    let create: bool = match accepts[0] {
        Some(true) => true,
        _ => false,
    };
    LocateResult {
        status: if ambiguous {
            LocateStatus::Ambiguous
        } else {
            LocateStatus::Recommended
        },
        action: Some(
            if create {
                LocateAction::CreateChild
            } else {
                LocateAction::AppendToNode
            },
        ),
        suggested_title: suggested_title(query),
        ambiguity: if ambiguous {
            Some("Top structural destinations have near-equal scores".to_owned())
        } else {
            None
        },
    }
}

/// Whether the result is what is recommended for a query, given which of the candidates
/// accept it as a child.
pub open spec fn locates(
    query: Seq<char>,
    accepts: Seq<Option<bool>>,
    near_tie: bool,
    result: LocateResult,
) -> bool {
    &&& accepts.len() == 0 ==> result == (LocateResult {
        status: LocateStatus::NotFound,
        action: None,
        suggested_title: None,
        ambiguity: None,
    })
    &&& accepts.len() > 0 ==> {
        let ambiguous = accepts.len() > 1 && near_tie;
        let telling = title_words(query, words_of(query).len() as int);
        &&& result.status == if ambiguous {
            LocateStatus::Ambiguous
        } else {
            LocateStatus::Recommended
        }
        &&& result.action == Some(
            if accepts[0] == Some(true) {
                LocateAction::CreateChild
            } else {
                LocateAction::AppendToNode
            },
        )
        &&& text_of(result.suggested_title) == if telling.len() == 0 {
            None
        } else {
            Some(joined_by(telling, " "@, telling.len() as int))
        }
        &&& text_of(result.ambiguity) == if ambiguous {
            Some("Top structural destinations have near-equal scores"@)
        } else {
            None
        }
    }
}

} // verus!
