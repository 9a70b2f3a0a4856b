//! What a search finds, why, and in which order.

use crate::destinations::{destination_signals, is_excluded, summary_text, takes, weighs, DestinationEvidence};
use crate::model::{Node, NodeId};
use crate::reads::{lists_children, root_of};
use crate::search::{
    first_ids, has_type, identity, is_best, matched_words, outranks, ranks_hits, shown, signal_of,
    HitView, MatchedDocument, SearchRequest, SearchScope, SignalView,
};
use crate::tables::Tables;
use crate::tree::{climb, is_forest, lemma_depth_is, links};
use crate::words::{lowercase, occurs};
use vstd::prelude::*;

verus! {

/// Words that stand in a text, letter case aside.
pub open spec fn stands_in(text: Seq<char>) -> spec_fn(Seq<char>) -> bool {
    |word: Seq<char>| occurs(lowercase(text), word)
}

/// Whether one of the words stands in the text.
pub open spec fn is_hit(list: Seq<Seq<char>>, text: Seq<char>) -> bool {
    exists|w: int| 0 <= w < list.len() && stands_in(text)(#[trigger] list[w])
}

/// Whether the signals say of a text what the words say: one signal with the label, exactly
/// when a word stands in the text, with the number of words that do.
pub open spec fn reports(
    signals: Seq<SignalView>,
    list: Seq<Seq<char>>,
    text: Seq<char>,
    weight: u32,
    label: Seq<char>,
) -> bool {
    &&& is_hit(list, text) <==> exists|s: SignalView| #[trigger]
        signals.contains(s) && s.label == label
    &&& forall|s: SignalView| #[trigger]
        signals.contains(s) && s.label == label ==> {
            &&& s.weight == weight
            &&& s.matched == list.filter(stands_in(text)).len()
            &&& s.matched > 0
            &&& s.total == list.len()
        }
}

proof fn lemma_matched_words(list: Seq<Seq<char>>, text: Seq<char>)
    ensures
        matched_words(list, text) == list.filter(stands_in(text)).len(),
        matched_words(list, text) > 0 <==> is_hit(list, text),
{
    let n = list.len() as int;
    let counted = |t: Seq<char>| occurs(lowercase(text), t);
    crate::record_laws::lemma_count_is_filter(list, counted, stands_in(text), n);
    assert(list.take(n) =~= list);
    crate::shape::lemma_filter_facts(list, stands_in(text));
    let kept = list.filter(stands_in(text));
    if kept.len() > 0 {
        assert(kept.contains(kept[0]));
        let w = choose|w: int| 0 <= w < list.len() && list[w] == kept[0];
        assert(stands_in(text)(list[w]));
    }
    if is_hit(list, text) {
        let w = choose|w: int| 0 <= w < list.len() && stands_in(text)(#[trigger] list[w]);
        assert(list.contains(list[w]));
        assert(kept.contains(list[w]));
    }
}

proof fn lemma_signal_of(
    list: Seq<Seq<char>>,
    text: Seq<char>,
    weight: u32,
    label: Seq<char>,
)
    ensures
        forall|s: SignalView| #[trigger]
            signal_of(list, text, weight, label).contains(s) <==> is_hit(list, text) && s == (
            SignalView {
                weight,
                label,
                matched: list.filter(stands_in(text)).len(),
                total: list.len(),
            }),
{
    lemma_matched_words(list, text);
    let made = signal_of(list, text, weight, label);
    let one = SignalView {
        weight,
        label,
        matched: list.filter(stands_in(text)).len(),
        total: list.len(),
    };
    if is_hit(list, text) {
        assert(made[0] == one);
    }
}

pub proof fn lemma_sum_contains<T>(a: Seq<T>, b: Seq<T>)
    ensures
        forall|x: T| #[trigger] (a + b).contains(x) <==> a.contains(x) || b.contains(x),
{
    assert forall|x: T| #[trigger] (a + b).contains(x) <==> a.contains(x) || b.contains(x) by {
        if a.contains(x) {
            let i = choose|i: int| 0 <= i < a.len() && a[i] == x;
            assert((a + b)[i] == x);
        }
        if b.contains(x) {
            let i = choose|i: int| 0 <= i < b.len() && b[i] == x;
            assert((a + b)[a.len() + i] == x);
        }
        if (a + b).contains(x) {
            let i = choose|i: int| 0 <= i < (a + b).len() && (a + b)[i] == x;
            if i < a.len() {
                assert(a[i] == x);
            } else {
                assert(b[i - a.len()] == x);
            }
        }
    }
}

/// A table of what is looked at: the text, the weight and the label of each part.
pub struct Part {
    pub text: Seq<char>,
    pub weight: u32,
    pub label: Seq<char>,
}

spec fn all_signals(list: Seq<Seq<char>>, parts: Seq<Part>, n: int) -> Seq<SignalView>
    decreases n,
{
    if n <= 0 {
        Seq::empty()
    } else {
        all_signals(list, parts, n - 1) + signal_of(
            list,
            parts[n - 1].text,
            parts[n - 1].weight,
            parts[n - 1].label,
        )
    }
}

spec fn made_of(list: Seq<Seq<char>>, part: Part, s: SignalView) -> bool {
    is_hit(list, part.text) && s == (SignalView {
        weight: part.weight,
        label: part.label,
        matched: list.filter(stands_in(part.text)).len(),
        total: list.len(),
    })
}

proof fn lemma_all_signals(list: Seq<Seq<char>>, parts: Seq<Part>, n: int)
    requires
        0 <= n <= parts.len(),
    ensures
        forall|s: SignalView| #[trigger]
            all_signals(list, parts, n).contains(s) <==> exists|k: int|
                0 <= k < n && made_of(list, #[trigger] parts[k], s),
    decreases n,
{
    if n > 0 {
        lemma_all_signals(list, parts, n - 1);
        let last = parts[n - 1];
        let before = all_signals(list, parts, n - 1);
        let tail = signal_of(list, last.text, last.weight, last.label);
        lemma_sum_contains(before, tail);
        lemma_signal_of(list, last.text, last.weight, last.label);
        assert forall|s: SignalView| #[trigger]
            all_signals(list, parts, n).contains(s) <==> exists|k: int|
            0 <= k < n && made_of(list, #[trigger] parts[k], s) by {
            assert((before + tail).contains(s) <==> before.contains(s) || tail.contains(s));
            if tail.contains(s) {
                assert(made_of(list, parts[n - 1], s));
            }
            if before.contains(s) {
                let k = choose|k: int| 0 <= k < n - 1 && made_of(list, #[trigger] parts[k], s);
                assert(made_of(list, parts[k], s));
            }
        }
    }
}

proof fn lemma_reports(list: Seq<Seq<char>>, parts: Seq<Part>, k: int)
    requires
        0 <= k < parts.len(),
        forall|i: int, j: int|
            0 <= i < parts.len() && 0 <= j < parts.len() && i != j ==> (#[trigger] parts[i]).label
                != (#[trigger] parts[j]).label,
    ensures
        reports(
            all_signals(list, parts, parts.len() as int),
            list,
            parts[k].text,
            parts[k].weight,
            parts[k].label,
        ),
{
    let n = parts.len() as int;
    let signals = all_signals(list, parts, n);
    lemma_all_signals(list, parts, n);
    lemma_matched_words(list, parts[k].text);
    if is_hit(list, parts[k].text) {
        let s = SignalView {
            weight: parts[k].weight,
            label: parts[k].label,
            matched: list.filter(stands_in(parts[k].text)).len(),
            total: list.len(),
        };
        assert(made_of(list, parts[k], s));
        assert(signals.contains(s));
    }
    assert forall|s: SignalView| #[trigger]
        signals.contains(s) && s.label == parts[k].label implies made_of(list, parts[k], s) by {
        let j = choose|j: int| 0 <= j < n && made_of(list, #[trigger] parts[j], s);
        if j != k {
            assert(parts[j].label != parts[k].label);
        }
    }
}

/// What is looked at in a document.
pub open spec fn document_parts(d: MatchedDocument) -> Seq<Part> {
    seq![
        Part { text: d.title@, weight: 55, label: "title"@ },
        Part { text: d.aliases@, weight: 48, label: "alias"@ },
        Part { text: d.summary@, weight: 34, label: "summary"@ },
        Part { text: d.keywords@, weight: 30, label: "keyword"@ },
        Part { text: d.tags@, weight: 24, label: "tag"@ },
        Part { text: d.ancestor_context@, weight: 24, label: "ancestor context"@ },
        Part { text: d.child_context@, weight: 20, label: "child context"@ },
        Part { text: d.heading@, weight: 18, label: "heading"@ },
        Part { text: d.content@, weight: 8, label: "content"@ },
    ]
}

proof fn lemma_document_labels()
    ensures
        ({
            let l = seq![
                "title"@,
                "alias"@,
                "summary"@,
                "keyword"@,
                "tag"@,
                "ancestor context"@,
                "child context"@,
                "heading"@,
                "content"@,
            ];
            forall|i: int, j: int| 0 <= i < 9 && 0 <= j < 9 && i != j ==> #[trigger] l[i] != #[trigger] l[j]
        }),
{
    reveal_strlit("title");
    reveal_strlit("alias");
    reveal_strlit("summary");
    reveal_strlit("keyword");
    reveal_strlit("tag");
    reveal_strlit("ancestor context");
    reveal_strlit("child context");
    reveal_strlit("heading");
    reveal_strlit("content");
    assert("title"@[0] == 't' && "alias"@[0] == 'a');
    assert("summary"@[0] == 's' && "keyword"@[0] == 'k' && "heading"@[0] == 'h' && "content"@[0]
        == 'c');
    assert("tag"@.len() == 3 && "ancestor context"@.len() == 16 && "child context"@.len() == 13);
}

/// The signals of a document name exactly the parts in which a word of the query stands, each
/// with its weight and the number of words: the title before aliases, summary, keywords, tags
/// and ancestors, children, headings and content.
pub proof fn law_signals_name_the_matching_parts(
    d: MatchedDocument,
    list: Seq<Seq<char>>,
    k: int,
)
    requires
        0 <= k < 9,
    ensures
        reports(
            d.evidence(list),
            list,
            document_parts(d)[k].text,
            document_parts(d)[k].weight,
            document_parts(d)[k].label,
        ),
{
    let parts = document_parts(d);
    reveal_with_fuel(all_signals, 10);
    assert(all_signals(list, parts, 9) =~= d.evidence(list));
    lemma_document_labels();
    let l = seq![
        "title"@,
        "alias"@,
        "summary"@,
        "keyword"@,
        "tag"@,
        "ancestor context"@,
        "child context"@,
        "heading"@,
        "content"@,
    ];
    assert forall|i: int, j: int|
        0 <= i < parts.len() && 0 <= j < parts.len() && i != j implies (#[trigger] parts[i]).label
        != (#[trigger] parts[j]).label by {
        assert(parts[i].label == l[i] && parts[j].label == l[j]);
    }
    lemma_reports(list, parts, k);
}

/// Documents that a request covers.
pub open spec fn covered(request: SearchRequest, t: Tables) -> spec_fn(MatchedDocument) -> bool {
    |d: MatchedDocument| request.covers(t, d.node_id)
}

proof fn lemma_hits(
    t: Tables,
    request: SearchRequest,
    list: Seq<Seq<char>>,
    documents: Seq<MatchedDocument>,
    n: int,
)
    requires
        0 <= n <= documents.len(),
    ensures
        ({
            let kept = documents.take(n).filter(covered(request, t));
            let hits = request.hits(t, list, documents, n);
            &&& hits.len() == kept.len()
            &&& forall|i: int|
                0 <= i < hits.len() ==> (#[trigger] hits[i]).node_id == kept[i].node_id
                    && hits[i].section_id == kept[i].section_id && hits[i].signals
                    == kept[i].evidence(list)
        }),
    decreases n,
{
    reveal(Seq::filter);
    if n > 0 {
        lemma_hits(t, request, list, documents, n - 1);
        assert(documents.take(n).drop_last() =~= documents.take(n - 1));
        assert(documents.take(n).last() == documents[n - 1]);
    }
}

/// The hits are those of the covered documents, one each, in their order.
pub proof fn law_hits_are_the_covered_documents(
    t: Tables,
    request: SearchRequest,
    list: Seq<Seq<char>>,
    documents: Seq<MatchedDocument>,
)
    ensures
        ({
            let kept = documents.filter(covered(request, t));
            let hits = request.hits(t, list, documents, documents.len() as int);
            &&& hits.len() == kept.len()
            &&& forall|i: int|
                0 <= i < hits.len() ==> (#[trigger] hits[i]).node_id == kept[i].node_id
                    && hits[i].section_id == kept[i].section_id && hits[i].signals
                    == kept[i].evidence(list)
        }),
{
    lemma_hits(t, request, list, documents, documents.len() as int);
    assert(documents.take(documents.len() as int) =~= documents);
}

/// Whether one hit of a node is preferred to another: a higher score, or the lower section
/// where scores are the same, or the earlier hit.
pub open spec fn preferred(hits: Seq<HitView>, scores: Seq<u64>, i: int, j: int) -> bool {
    ||| scores[i] > scores[j]
    ||| scores[i] == scores[j] && hits[i].section_id.value < hits[j].section_id.value
    ||| scores[i] == scores[j] && hits[i].section_id.value == hits[j].section_id.value && i < j
}

proof fn lemma_best_hit(hits: Seq<HitView>, scores: Seq<u64>, i: int, n: int) -> (b: int)
    requires
        scores.len() == hits.len(),
        0 <= i < n <= hits.len(),
    ensures
        0 <= b < n,
        hits[b].node_id == hits[i].node_id,
        b == i || preferred(hits, scores, b, i),
        forall|j: int|
            0 <= j < n && (#[trigger] hits[j]).node_id == hits[i].node_id && j != b ==> preferred(
                hits,
                scores,
                b,
                j,
            ),
    decreases n,
{
    if i == n - 1 {
        lemma_best_of_rest(hits, scores, i, n - 1)
    } else {
        let b = lemma_best_hit(hits, scores, i, n - 1);
        if hits[n - 1].node_id == hits[i].node_id && preferred(hits, scores, n - 1, b) {
            n - 1
        } else {
            b
        }
    }
}

proof fn lemma_best_of_rest(hits: Seq<HitView>, scores: Seq<u64>, i: int, n: int) -> (b: int)
    requires
        scores.len() == hits.len(),
        0 <= n <= i < hits.len(),
    ensures
        0 <= b < n || b == i,
        hits[b].node_id == hits[i].node_id,
        b == i || preferred(hits, scores, b, i),
        forall|j: int|
            0 <= j < n && (#[trigger] hits[j]).node_id == hits[i].node_id && j != b ==> preferred(
                hits,
                scores,
                b,
                j,
            ),
    decreases n,
{
    if n <= 0 {
        i
    } else {
        let b = lemma_best_of_rest(hits, scores, i, n - 1);
        if hits[n - 1].node_id == hits[i].node_id && preferred(hits, scores, n - 1, b) {
            n - 1
        } else {
            b
        }
    }
}

/// Every node with a hit is listed, by the one of its hits that is preferred to all others,
/// and no node is listed by another. The listing goes by descending score, as far as scores
/// are shown, and by ascending identity where they are the same.
pub proof fn law_every_hit_node_is_listed(
    hits: Seq<HitView>,
    scores: Seq<u64>,
    listed: Seq<usize>,
    i: int,
)
    requires
        scores.len() == hits.len(),
        hits.len() <= usize::MAX,
        ranks_hits(hits, scores, listed),
        0 <= i < hits.len(),
    ensures
        exists|k: int|
            {
                &&& 0 <= k < listed.len()
                &&& (#[trigger] listed[k]) < hits.len()
                &&& hits[listed[k] as int].node_id == hits[i].node_id
                &&& listed[k] == i || preferred(hits, scores, listed[k] as int, i)
            },
        forall|k: int|
            0 <= k < listed.len() && hits[(#[trigger] listed[k]) as int].node_id == hits[i].node_id
                ==> listed[k] == i || preferred(hits, scores, listed[k] as int, i),
{
    let rows = Seq::new(hits.len(), |i: int| i as usize);
    let pred = |i: usize| is_best(hits, scores, i as int);
    let b = lemma_best_hit(hits, scores, i, hits.len() as int);
    assert(is_best(hits, scores, b)) by {
        assert forall|j: int|
            0 <= j < hits.len() && hits[j].node_id == hits[b].node_id && j != b implies outranks(
            hits,
            scores,
            b,
            #[trigger] identity(j),
        ) by {
            assert(hits[j].node_id == hits[i].node_id);
            assert(preferred(hits, scores, b, j));
            if hits[b].section_id.value == hits[j].section_id.value {
                assert(hits[b].section_id == hits[j].section_id);
            }
        }
    }
    assert(rows[b] == b as usize);
    assert(rows.contains(b as usize));
    assert(pred(b as usize));
    assert(listed.contains(b as usize));
    let k = choose|k: int| 0 <= k < listed.len() && listed[k] == b as usize;
    assert(listed[k] < hits.len());
    assert forall|k: int|
        0 <= k < listed.len() && hits[(#[trigger] listed[k]) as int].node_id
            == hits[i].node_id implies listed[k] == i || preferred(
        hits,
        scores,
        listed[k] as int,
        i,
    ) by {
        assert(listed.contains(listed[k]));
        assert(pred(listed[k]));
        assert(rows.contains(listed[k]));
        let m = choose|m: int| 0 <= m < rows.len() && rows[m] == listed[k];
        if listed[k] != i {
            assert(outranks(hits, scores, listed[k] as int, identity(i)));
        }
    }
}

/// A depth filter counts the links between a covered node and the node that the scope starts
/// from: the root of the workspace, the node itself, or its parent.
pub proof fn law_depth_filters_count_links(t: Tables, request: SearchRequest, id: NodeId)
    requires
        is_forest(t.nodes),
        request.covers(t, id),
        request.filters.min_depth is Some || request.filters.max_depth is Some,
        request.refusal(t.nodes) is None,
    ensures
        exists|k: nat|
            {
                &&& (#[trigger] climb(links(t.nodes), id, k)) is Some
                &&& request.filters.min_depth matches Some(m) ==> k >= m
                &&& request.filters.max_depth matches Some(m) ==> k <= m
                &&& request.scope == SearchScope::Workspace ==> root_of(t.nodes) is Some && climb(
                    links(t.nodes),
                    id,
                    k,
                ) == Some(root_of(t.nodes)->0.id)
                &&& request.scope == SearchScope::Subtree || request.scope
                    == SearchScope::CurrentNode ==> climb(links(t.nodes), id, k)
                    == request.scope_node
            },
{
    let up = links(t.nodes);
    let from = request.anchor(t.nodes)->0;
    let k = choose|k: nat| #[trigger] climb(up, id, k) == Some(from);
    crate::tree::lemma_depth_is(up, from, id, k);
    let q = crate::tree::position(t.nodes, id);
    assert(t.nodes[q].id == id);
    assert(climb(up, id, k) == Some(from));
}

/// Nodes of a type; any node where none is asked for.
pub open spec fn typed(kind: Option<Seq<char>>) -> spec_fn(Node) -> bool {
    |n: Node|
        match kind {
            None => true,
            Some(k) => match n.metadata.node_type {
                Some(own) => own@ == k,
                None => false,
            },
        }
}

proof fn lemma_first_ids(listed: Seq<Node>, kind: Option<Seq<char>>, limit: int, n: int)
    requires
        0 <= n <= listed.len(),
        0 <= limit,
    ensures
        ({
            let kept = listed.take(n).filter(typed(kind));
            let ids = first_ids(listed, kind, limit, n);
            &&& ids.len() == if kept.len() < limit {
                kept.len() as int
            } else {
                limit
            }
            &&& forall|i: int| 0 <= i < ids.len() ==> #[trigger] ids[i] == kept[i].id
        }),
    decreases n,
{
    reveal(Seq::filter);
    if n > 0 {
        lemma_first_ids(listed, kind, limit, n - 1);
        assert(listed.take(n).drop_last() =~= listed.take(n - 1));
        assert(listed.take(n).last() == listed[n - 1]);
        assert(has_type(listed[n - 1], kind) == typed(kind)(listed[n - 1]));
    }
}

/// The examples below a destination are its first children of the type, as many as asked for
/// or as there are.
pub proof fn law_examples_are_the_first_children(
    children: Seq<Node>,
    kind: Option<Seq<char>>,
    limit: int,
)
    requires
        0 <= limit,
    ensures
        ({
            let kept = children.filter(typed(kind));
            let ids = first_ids(children, kind, limit, children.len() as int);
            &&& ids.len() == if kept.len() < limit {
                kept.len() as int
            } else {
                limit
            }
            &&& forall|i: int| 0 <= i < ids.len() ==> #[trigger] ids[i] == kept[i].id
        }),
{
    lemma_first_ids(children, kind, limit, children.len() as int);
    assert(children.take(children.len() as int) =~= children);
}

/// What is looked at in a destination.
pub open spec fn destination_parts(nodes: Seq<Node>, node: Node, children: Seq<Node>) -> Seq<Part> {
    seq![
        Part { text: node.metadata.title@, weight: 20, label: "title"@ },
        Part {
            text: crate::destinations::all_joined(crate::diagnostics::texts(node.metadata.aliases@)),
            weight: 18,
            label: "alias"@,
        },
        Part { text: summary_text(node), weight: 15, label: "summary"@ },
        Part {
            text: crate::destinations::all_joined(crate::diagnostics::texts(node.metadata.owns@)),
            weight: 45,
            label: "ownership"@,
        },
        Part {
            text: crate::destinations::breadcrumb_text(nodes, node.id),
            weight: 12,
            label: "ancestor path"@,
        },
        Part {
            text: crate::destinations::all_joined(crate::destinations::titles_of(children)),
            weight: 12,
            label: "existing child pattern"@,
        },
    ]
}

/// The signals of a destination name exactly the parts in which a word of the query stands.
pub proof fn law_destination_signals_name_the_matching_parts(
    nodes: Seq<Node>,
    node: Node,
    children: Seq<Node>,
    list: Seq<Seq<char>>,
    k: int,
)
    requires
        0 <= k < 6,
    ensures
        reports(
            destination_signals(nodes, node, children, list),
            list,
            destination_parts(nodes, node, children)[k].text,
            destination_parts(nodes, node, children)[k].weight,
            destination_parts(nodes, node, children)[k].label,
        ),
{
    let parts = destination_parts(nodes, node, children);
    reveal_with_fuel(all_signals, 7);
    assert(all_signals(list, parts, 6) =~= destination_signals(nodes, node, children, list));
    reveal_strlit("title");
    reveal_strlit("alias");
    reveal_strlit("summary");
    reveal_strlit("ownership");
    reveal_strlit("ancestor path");
    reveal_strlit("existing child pattern");
    assert("title"@[0] == 't' && "alias"@[0] == 'a');
    assert("title"@.len() == 5 && "alias"@.len() == 5 && "summary"@.len() == 7 && "ownership"@.len()
        == 9 && "ancestor path"@.len() == 13 && "existing child pattern"@.len() == 22);
    lemma_reports(list, parts, k);
}

/// Whether a child of the node has the type.
pub open spec fn has_child_typed(nodes: Seq<Node>, id: NodeId, kind: Seq<char>) -> bool {
    exists|i: int|
        0 <= i < nodes.len() && (#[trigger] nodes[i]).parent_id == Some(id) && typed(Some(kind))(
            nodes[i],
        )
}

/// What is found of a destination: it is excluded where a word stands in one of its exclusions;
/// it accepts a child where it lists the type; it has matching children where a child has the
/// type; and it is barren where it lists no type and has no child.
pub proof fn law_destinations_are_weighed_by_the_tree(
    nodes: Seq<Node>,
    node: Node,
    words: Seq<Seq<char>>,
    kind: Option<Seq<char>>,
    evidence: DestinationEvidence,
)
    requires
        weighs(nodes, node, words, kind, evidence),
    ensures
        evidence.node_id == node.id,
        evidence.excluded <==> exists|e: int|
            0 <= e < node.metadata.excludes@.len() && is_hit(
                words,
                (#[trigger] node.metadata.excludes@[e])@,
            ),
        kind is None <==> evidence.accepts_child is None,
        kind is Some ==> (evidence.accepts_child == Some(true) <==> exists|a: int|
            0 <= a < node.metadata.accepts_children@.len() && (
            #[trigger] node.metadata.accepts_children@[a])@ == kind->0),
        kind is None ==> evidence.matching == 0,
        kind is Some ==> (evidence.matching > 0 <==> has_child_typed(nodes, node.id, kind->0)),
        evidence.barren <==> node.metadata.accepts_children@.len() == 0 && forall|i: int|
            0 <= i < nodes.len() ==> (#[trigger] nodes[i]).parent_id != Some(node.id),
        evidence.example_node_ids@.len() <= 5,
        forall|k: int|
            0 <= k < evidence.example_node_ids@.len() ==> exists|i: int|
                0 <= i < nodes.len() && (#[trigger] nodes[i]).parent_id == Some(node.id)
                    && nodes[i].id == #[trigger] evidence.example_node_ids@[k] && typed(kind)(
                    nodes[i],
                ),
{
    let children = choose|children: Seq<Node>|
        {
            let signals = destination_signals(nodes, node, children, words);
            let excluded = is_excluded(node, words);
            let matching = crate::destinations::matching_children(children, kind);
            &&& #[trigger] lists_children(nodes, node.id, children)
            &&& evidence.node_id == node.id
            &&& crate::search::signal_views(evidence.signals@) == signals
            &&& evidence.excluded == excluded
            &&& evidence.accepts_child == takes(node, kind)
            &&& evidence.matching == matching
            &&& evidence.barren == (node.metadata.accepts_children@.len() == 0 && children.len()
                == 0)
            &&& crate::diagnostics::texts(evidence.reasons@) == crate::destinations::reasons_of(
                signals,
                excluded,
                kind,
                takes(node, kind),
                matching,
            )
            &&& evidence.example_node_ids@ == first_ids(children, kind, 5, children.len() as int)
        };
    assert forall|e: int| 0 <= e < node.metadata.excludes@.len() implies (matched_words(
        words,
        (#[trigger] node.metadata.excludes@[e])@,
    ) > 0 <==> is_hit(words, node.metadata.excludes@[e]@)) by {
        lemma_matched_words(words, node.metadata.excludes@[e]@);
    }
    let n = children.len() as int;
    if let Some(k) = kind {
        let counted = |n: Node| has_type(n, Some(k));
        crate::record_laws::lemma_count_is_filter(children, counted, typed(Some(k)), n);
        assert(children.take(n) =~= children);
        let kept = children.filter(typed(Some(k)));
        crate::shape::lemma_filter_facts(children, typed(Some(k)));
        if kept.len() > 0 {
            assert(kept.contains(kept[0]));
            assert(children.contains(kept[0]));
            lemma_listed_child(nodes, node.id, children, kept[0]);
            let i = choose|i: int| 0 <= i < nodes.len() && nodes[i] == kept[0];
            assert(nodes[i].parent_id == Some(node.id));
        }
        if has_child_typed(nodes, node.id, k) {
            let i = choose|i: int|
                0 <= i < nodes.len() && (#[trigger] nodes[i]).parent_id == Some(node.id) && typed(
                    Some(k),
                )(nodes[i]);
            assert(nodes.contains(nodes[i]));
            lemma_listed_child(nodes, node.id, children, nodes[i]);
            assert(kept.contains(nodes[i]));
        }
    }
    if children.len() > 0 {
        assert(children.contains(children[0]));
        lemma_listed_child(nodes, node.id, children, children[0]);
        let i = choose|i: int| 0 <= i < nodes.len() && nodes[i] == children[0];
        assert(nodes[i].parent_id == Some(node.id));
    }
    assert forall|i: int| 0 <= i < nodes.len() && (#[trigger] nodes[i]).parent_id == Some(
        node.id,
    ) implies children.len() > 0 by {
        assert(nodes.contains(nodes[i]));
        lemma_listed_child(nodes, node.id, children, nodes[i]);
    }
    law_examples_are_the_first_children(children, kind, 5);
    let kept = children.filter(typed(kind));
    crate::shape::lemma_filter_facts(children, typed(kind));
    assert forall|k: int| 0 <= k < evidence.example_node_ids@.len() implies exists|i: int|
        0 <= i < nodes.len() && (#[trigger] nodes[i]).parent_id == Some(node.id) && nodes[i].id
            == #[trigger] evidence.example_node_ids@[k] && typed(kind)(nodes[i]) by {
        assert(evidence.example_node_ids@[k] == kept[k].id);
        assert(kept.contains(kept[k]));
        assert(children.contains(kept[k]));
        lemma_listed_child(nodes, node.id, children, kept[k]);
        let i = choose|i: int| 0 <= i < nodes.len() && nodes[i] == kept[k];
        assert(nodes[i].parent_id == Some(node.id) && nodes[i].id
            == evidence.example_node_ids@[k]);
    }
}

pub proof fn lemma_listed_child(nodes: Seq<Node>, parent: NodeId, children: Seq<Node>, x: Node)
    requires
        lists_children(nodes, parent, children),
    ensures
        children.contains(x) <==> nodes.contains(x) && x.parent_id == Some(parent),
{
    let pred = |n: Node| n.parent_id == Some(parent);
    assert(children.contains(x) <==> nodes.contains(x) && pred(x));
}

} // verus!
