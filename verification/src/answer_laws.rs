//! What requests are answered with: rankings, lookups, pages of findings, highlights.

use crate::clone_laws::child_total;
use crate::commands::{named_command, wanted_slug, CommandName};
use crate::context::{presents, SubtreeInspection};
use crate::destinations::{
    answers_destinations, is_candidate, ranks_destinations, requested_type, weighed_ids,
    DestinationCandidate, DestinationEvidence,
};
use crate::integrity::{finding_key, serves_findings, sorts, text_key, FindingView, IntegrityPage};
use crate::lookup::{answers, BatchNodeLookupItem, SelectorText};
use crate::markdown::{
    highlighted, image_depth, in_code_block, replacement, spliced, PartView, PieceView,
    WrittenView,
};
use crate::model::{Node, NodeId, Section, StoreError};
use crate::order::{lex_le, lex_lt};
use crate::pages::NodeDepthProjection;
use crate::paging::{page_items, Page, PageLimit, PageReadError};
use crate::query::trimmed;
use crate::reads::lists_children;
use crate::search::shown;
use crate::semantic::{
    chunk_refusal, first_section, is_blank, range_refusal, replacement_refusal, ProfileView,
    SemanticChunk,
};
use crate::serving::{closed, lemma_closed_order, lemma_code_points_bounded};
use crate::session::{is_same_origin, HeaderText};
use crate::summaries::{node_summary, summarizes_children, NodeSummary};
use crate::tables::Tables;
use crate::text::code_points;
use crate::tree::present;
use crate::words::whitespace;
use std::sync::Arc;
use vstd::prelude::*;

verus! {

proof fn lemma_text_key(text: Seq<char>)
    ensures
        text_key(text) == closed(code_points(text)),
{
    lemma_code_points_bounded(text);
    assert(text_key(text) =~= closed(code_points(text)));
}

/// Sorted findings go by code. Under one code those of no node come first, then by ascending
/// identity of the node, and under one identity by detail.
pub proof fn law_findings_go_by_code(
    sorted: Seq<FindingView>,
    findings: Seq<FindingView>,
    i: int,
    j: int,
)
    requires
        sorts(sorted, findings),
        0 <= i < j < sorted.len(),
    ensures
        sorted.len() == findings.len(),
        findings.contains(sorted[i]),
        ({
            let a = sorted[i];
            let b = sorted[j];
            ||| lex_lt(code_points(a.code), code_points(b.code))
            ||| code_points(a.code) == code_points(b.code) && match (a.node_id, b.node_id) {
                (None, Some(_)) => true,
                (Some(_), None) => false,
                (Some(x), Some(y)) => x.value < y.value || (x.value == y.value && lex_le(
                    code_points(a.detail),
                    code_points(b.detail),
                )),
                (None, None) => lex_le(code_points(a.detail), code_points(b.detail)),
            }
        }),
{
    let a = sorted[i];
    let b = sorted[j];
    let order = choose|order: Seq<usize>| #[trigger]
        crate::integrity::permutes(order, sorted, findings);
    assert(order[i] < findings.len() && sorted[i] == findings[order[i] as int]);
    assert(lex_le(finding_key(a), finding_key(b)));
    lemma_text_key(a.code);
    lemma_text_key(b.code);
    lemma_code_points_bounded(a.code);
    lemma_code_points_bounded(b.code);
    let node_a = match a.node_id {
        None => seq![0u128],
        Some(id) => seq![1u128, id.value],
    };
    let node_b = match b.node_id {
        None => seq![0u128],
        Some(id) => seq![1u128, id.value],
    };
    let c = code_points(a.code);
    let d = code_points(b.code);
    let x = node_a + code_points(a.detail);
    let y = node_b + code_points(b.detail);
    assert(finding_key(a) =~= closed(c) + x);
    assert(finding_key(b) =~= closed(d) + y);
    lemma_closed_order(c, d, x, y);
    lemma_closed_order(d, c, y, x);
    if finding_key(a) == finding_key(b) {
        crate::order::lemma_lex_irreflexive(finding_key(a));
        lemma_lex_apart(c, d);
        assert(c == d);
        lemma_lex_apart(x, y);
        assert(x == y);
    }
    if c == d {
        crate::order::lemma_lex_irreflexive(c);
        lemma_node_part(a, b, x, y);
    }
}

proof fn lemma_lex_apart(a: Seq<u128>, b: Seq<u128>)
    ensures
        a == b || lex_lt(a, b) || lex_lt(b, a),
    decreases a.len(),
{
    if a.len() > 0 && b.len() > 0 {
        if a[0] == b[0] {
            lemma_lex_apart(a.skip(1), b.skip(1));
            if a.skip(1) == b.skip(1) {
                assert(a =~= seq![a[0]] + a.skip(1));
                assert(b =~= seq![b[0]] + b.skip(1));
            }
        }
    } else if a.len() == 0 && b.len() == 0 {
        assert(a =~= b);
    }
}

proof fn lemma_node_part(a: FindingView, b: FindingView, x: Seq<u128>, y: Seq<u128>)
    requires
        x == match a.node_id {
            None => seq![0u128],
            Some(id) => seq![1u128, id.value],
        } + code_points(a.detail),
        y == match b.node_id {
            None => seq![0u128],
            Some(id) => seq![1u128, id.value],
        } + code_points(b.detail),
        x == y || lex_lt(x, y),
    ensures
        match (a.node_id, b.node_id) {
            (None, Some(_)) => true,
            (Some(_), None) => false,
            (Some(p), Some(q)) => p.value < q.value || (p.value == q.value && lex_le(
                code_points(a.detail),
                code_points(b.detail),
            )),
            (None, None) => lex_le(code_points(a.detail), code_points(b.detail)),
        },
{
    let e = code_points(a.detail);
    let f = code_points(b.detail);
    reveal_with_fuel(lex_lt, 3);
    match (a.node_id, b.node_id) {
        (None, None) => {
            assert(x.skip(1) =~= e && y.skip(1) =~= f);
            assert(x[0] == 0 && y[0] == 0);
        },
        (Some(p), Some(q)) => {
            assert(x[0] == 1 && y[0] == 1 && x[1] == p.value && y[1] == q.value);
            assert(x.skip(1)[0] == p.value && y.skip(1)[0] == q.value);
            assert(x.skip(1).skip(1) =~= e && y.skip(1).skip(1) =~= f);
        },
        (Some(p), None) => {
            assert(x[0] == 1 && y[0] == 0);
        },
        (None, Some(q)) => {},
    }
}

/// A page of findings says how many there are in all, and is healthy exactly without any.
pub proof fn law_pages_of_findings_count_them_all(
    revision: u64,
    sorted: Seq<FindingView>,
    start: int,
    limit: PageLimit,
    result: Result<IntegrityPage, PageReadError>,
)
    requires
        serves_findings(revision, sorted, start, limit, result),
        result is Ok,
        0 <= start,
        0 <= limit.size(),
    ensures
        result->Ok_0.total_findings == sorted.len(),
        result->Ok_0.healthy <==> sorted.len() == 0,
        result->Ok_0.page.items@.len() <= limit.size(),
        start + result->Ok_0.page.items@.len() <= sorted.len(),
        forall|i: int|
            0 <= i < result->Ok_0.page.items@.len() ==> (
            #[trigger] result->Ok_0.page.items@[i])@ == sorted[start + i],
        result->Ok_0.page.next_cursor is None <==> start + limit.size() >= sorted.len(),
{
    let items = result->Ok_0.page.items@;
    let views = crate::integrity::finding_views(items);
    assert(views == page_items(sorted, start, limit.size()));
    assert(views.len() == items.len());
    assert forall|i: int| 0 <= i < items.len() implies (#[trigger] items[i])@ == sorted[start
        + i] by {
        assert(views[i] == items[i]@);
    }
}

/// The ranked destinations are exactly those with a positive score, the higher before the lower
/// as far as scores are shown, and the lower identity first where they are the same.
pub proof fn law_destinations_are_ranked_by_score(
    ids: Seq<NodeId>,
    scores: Seq<u64>,
    listed: Seq<usize>,
    k: int,
    i: int,
    j: int,
)
    requires
        ids.len() == scores.len() <= usize::MAX,
        ranks_destinations(ids, scores, listed),
        0 <= k < ids.len(),
    ensures
        listed.contains(k as usize) <==> 0 < scores[k] <= 0x7fff_ffff_ffff_ffff,
        0 <= i < j < listed.len() ==> {
            let a = listed[i] as int;
            let b = listed[j] as int;
            &&& a < ids.len() && b < ids.len()
            &&& shown(scores[a]) > shown(scores[b]) || (shown(scores[a]) == shown(scores[b])
                && ids[a].value < ids[b].value)
        },
{
    let rows = Seq::new(ids.len(), |i: int| i as usize);
    let pred = |i: usize| crate::destinations::is_positive(scores[i as int]);
    let key = |i: usize| crate::destinations::destination_key(ids, scores, i as int);
    assert(rows[k] == k as usize);
    assert(rows.contains(k as usize));
    assert(listed.contains(k as usize) <==> rows.contains(k as usize) && pred(k as usize));
    if 0 <= i < j < listed.len() {
        assert(listed.contains(listed[i]) && listed.contains(listed[j]));
        assert(rows.contains(listed[i]) && rows.contains(listed[j]));
        let m = choose|m: int| 0 <= m < rows.len() && rows[m] == listed[i];
        let p = choose|p: int| 0 <= p < rows.len() && rows[p] == listed[j];
        assert(lex_lt(key(listed[i]), key(listed[j])));
        crate::lookup_laws::lemma_pair_order(key(listed[i]), key(listed[j]));
    }
}

/// The destinations that are answered are the best ranked ones, as many as asked for or as there
/// are, each with the reasons, the examples and the acceptance that were found for it.
pub proof fn law_the_best_destinations_are_answered(
    nodes: Seq<Node>,
    evidence: Seq<DestinationEvidence>,
    scores: Seq<u64>,
    limit: int,
    result: Result<Vec<DestinationCandidate>, StoreError>,
)
    requires
        0 <= limit,
        answers_destinations(nodes, evidence, scores, limit, result),
        result is Ok,
    ensures
        exists|listed: Seq<usize>|
            {
                &&& #[trigger] ranks_destinations(weighed_ids(evidence), scores, listed)
                &&& result->Ok_0@.len() == if listed.len() < limit {
                    listed.len() as int
                } else {
                    limit
                }
                &&& forall|i: int|
                    0 <= i < result->Ok_0@.len() ==> {
                        let item = #[trigger] result->Ok_0@[i];
                        let found = evidence[listed[i] as int];
                        &&& item.result.score == shown(scores[listed[i] as int])
                        &&& crate::diagnostics::texts(item.result.match_reasons@)
                            == crate::diagnostics::texts(found.reasons@)
                        &&& item.result.accepts_child == found.accepts_child
                        &&& item.example_node_ids@ == found.example_node_ids@
                    }
            },
{
    let listed = choose|listed: Seq<usize>|
        {
            &&& #[trigger] ranks_destinations(weighed_ids(evidence), scores, listed)
            &&& match crate::destinations::candidate_refusal(
                nodes,
                weighed_ids(evidence),
                listed,
                listed.len() as int,
            ) {
                Some(e) => result is Err && result->Err_0@ == e,
                None => {
                    let kept = page_items(listed, 0, limit);
                    &&& result is Ok
                    &&& result->Ok_0@.len() == kept.len()
                    &&& forall|i: int|
                        0 <= i < kept.len() ==> is_candidate(
                            nodes,
                            evidence[kept[i] as int],
                            scores[kept[i] as int],
                            #[trigger] result->Ok_0@[i],
                        )
                },
            }
        };
    let kept = page_items(listed, 0, limit);
    assert forall|i: int| 0 <= i < result->Ok_0@.len() implies ({
        let item = #[trigger] result->Ok_0@[i];
        let found = evidence[listed[i] as int];
        &&& item.result.score == shown(scores[listed[i] as int])
        &&& crate::diagnostics::texts(item.result.match_reasons@) == crate::diagnostics::texts(
            found.reasons@,
        )
        &&& item.result.accepts_child == found.accepts_child
        &&& item.example_node_ids@ == found.example_node_ids@
    }) by {
        assert(kept[i] == listed[i]);
        assert(is_candidate(
            nodes,
            evidence[kept[i] as int],
            scores[kept[i] as int],
            result->Ok_0@[i],
        ));
    }
}

/// A proposed type is taken as it is.
pub proof fn law_proposed_types_are_taken(query: Seq<char>, proposed: &String)
    ensures
        requested_type(query, Some(proposed)) == Some(proposed@),
{
}

proof fn lemma_section(sections: Seq<Arc<Section>>, id: NodeId, i: int)
    requires
        0 <= i,
    ensures
        match first_section(sections, id, i) {
            Some(k) => i <= k < sections.len() && sections[k].id == id && forall|j: int|
                i <= j < k ==> (#[trigger] sections[j]).id != id,
            None => forall|j: int| i <= j < sections.len() ==> (#[trigger] sections[j]).id != id,
        },
    decreases sections.len() - i,
{
    if i < sections.len() && sections[i].id != id {
        lemma_section(sections, id, i + 1);
    }
}

/// Whether a chunk is one of the node's: its section is there and belongs to the node.
pub open spec fn is_section_of(sections: Seq<Arc<Section>>, id: NodeId, node_id: NodeId) -> bool {
    exists|k: int|
        0 <= k < sections.len() && (#[trigger] sections[k]).id == id && sections[k].node_id
            == node_id
}

proof fn lemma_chunks(
    sections: Seq<Arc<Section>>,
    node_id: NodeId,
    chunks: Seq<SemanticChunk>,
    n: int,
)
    requires
        0 <= n <= chunks.len(),
        forall|i: int, j: int|
            0 <= i < sections.len() && 0 <= j < sections.len() && (#[trigger] sections[i]).id == (
            #[trigger] sections[j]).id ==> i == j,
    ensures
        chunk_refusal(sections, node_id, chunks, n) is None <==> forall|i: int|
            0 <= i < n ==> is_section_of(sections, (#[trigger] chunks[i]).section_id, node_id),
        range_refusal(chunks, n) is None <==> forall|i: int|
            0 <= i < n ==> (#[trigger] chunks[i]).start_byte <= 0x7fff_ffff_ffff_ffff
                && chunks[i].end_byte <= 0x7fff_ffff_ffff_ffff,
    decreases n,
{
    if n > 0 {
        lemma_chunks(sections, node_id, chunks, n - 1);
        let id = chunks[n - 1].section_id;
        lemma_section(sections, id, 0);
        if is_section_of(sections, id, node_id) {
            let k = choose|k: int|
                0 <= k < sections.len() && (#[trigger] sections[k]).id == id && sections[k].node_id
                    == node_id;
            let f = first_section(sections, id, 0)->0;
            assert(sections[f].id == sections[k].id);
        }
        if chunk_refusal(sections, node_id, chunks, n) is None {
            let f = first_section(sections, id, 0)->0;
            assert(sections[f].node_id == node_id);
            assert(is_section_of(sections, chunks[n - 1].section_id, node_id));
        }
        if range_refusal(chunks, n) is None {
            assert(chunks[n - 1].start_byte <= 0x7fff_ffff_ffff_ffff);
        }
    }
}

/// Chunks are admitted exactly when the profile is whole, the node is there, every chunk is the
/// node's and of one of its sections, and the numbers can be stored.
pub proof fn law_chunks_are_admitted(
    nodes: Seq<Node>,
    sections: Seq<Arc<Section>>,
    node_id: NodeId,
    profile: ProfileView,
    chunks: Seq<SemanticChunk>,
    updated_at: u64,
)
    requires
        forall|i: int, j: int|
            0 <= i < sections.len() && 0 <= j < sections.len() && (#[trigger] sections[i]).id == (
            #[trigger] sections[j]).id ==> i == j,
        profile.dimensions * 4 <= usize::MAX,
    ensures
        replacement_refusal(nodes, sections, node_id, profile, chunks, updated_at) is None <==> {
            &&& exists|i: int| 0 <= i < profile.provider.len() && !whitespace(
                #[trigger] profile.provider[i],
            )
            &&& exists|i: int| 0 <= i < profile.model.len() && !whitespace(
                #[trigger] profile.model[i],
            )
            &&& profile.dimensions > 0
            &&& profile.input_format_version > 0
            &&& updated_at <= 0x7fff_ffff_ffff_ffff
            &&& present(nodes, node_id)
            &&& forall|i: int|
                0 <= i < chunks.len() ==> (#[trigger] chunks[i]).node_id == node_id
                    && is_section_of(sections, chunks[i].section_id, node_id)
                    && chunks[i].start_byte <= 0x7fff_ffff_ffff_ffff && chunks[i].end_byte
                    <= 0x7fff_ffff_ffff_ffff
        },
{
    let n = chunks.len() as int;
    lemma_chunks(sections, node_id, chunks, n);
    assert(is_blank(profile.provider) <==> !(exists|i: int|
        0 <= i < profile.provider.len() && !whitespace(#[trigger] profile.provider[i])));
    assert(is_blank(profile.model) <==> !(exists|i: int|
        0 <= i < profile.model.len() && !whitespace(#[trigger] profile.model[i])));
    if replacement_refusal(nodes, sections, node_id, profile, chunks, updated_at) is None {
        assert forall|i: int| 0 <= i < n implies (#[trigger] chunks[i]).node_id == node_id
            && is_section_of(sections, chunks[i].section_id, node_id) && chunks[i].start_byte
            <= 0x7fff_ffff_ffff_ffff && chunks[i].end_byte <= 0x7fff_ffff_ffff_ffff by {}
    }
}

/// An item of a batch lookup answers its own selector: with the node that the selector names,
/// or else with an error, and never with both.
pub proof fn law_lookups_answer_their_selector(
    nodes: Seq<Node>,
    selector: SelectorText,
    item: BatchNodeLookupItem,
)
    requires
        answers(nodes, selector, item),
    ensures
        item.selector@ == selector.raw@,
        item.node is Some <==> item.error is None,
        item.node matches Some(node) ==> crate::command_laws::is_selected(nodes, selector, node),
        selector.parsed is Err ==> item.error is Some && item.error->0.code@
            == "invalid_selector"@,
        selector.parsed is Ok && item.node is None ==> item.error is Some && item.error->0.code@
            == "not_found"@,
{
}

/// Each command has a name of its own; another name is unknown.
pub proof fn law_commands_have_their_names(name: Seq<char>)
    ensures
        named_command("reorder_node"@) == CommandName::ReorderNode,
        named_command("move_subtree"@) == CommandName::MoveSubtree,
        named_command("update_node"@) == CommandName::UpdateNode,
        named_command("create_node"@) == CommandName::CreateNode,
        named_command("remove_node"@) == CommandName::RemoveNode,
        named_command(name) == CommandName::Unknown <==> name != "reorder_node"@ && name
            != "move_subtree"@ && name != "update_node"@ && name != "create_node"@ && name
            != "remove_node"@,
{
    reveal_strlit("reorder_node");
    reveal_strlit("move_subtree");
    reveal_strlit("update_node");
    reveal_strlit("create_node");
    reveal_strlit("remove_node");
    assert("reorder_node"@[0] == 'r' && "move_subtree"@[0] == 'm' && "update_node"@[0] == 'u'
        && "create_node"@[0] == 'c' && "remove_node"@[0] == 'r');
    assert("reorder_node"@.len() == 12 && "remove_node"@.len() == 11);
}

/// A slug is asked for exactly when one is given that is not all white space; it is taken
/// without the white space around it.
pub proof fn law_asked_slugs_are_trimmed(slug: Option<Seq<char>>)
    ensures
        wanted_slug(slug) matches Some(w) ==> {
            &&& slug is Some
            &&& w == trimmed(slug->0)
            &&& w.len() > 0
            &&& !whitespace(w[0]) && !whitespace(w.last())
        },
        wanted_slug(slug) is None && slug is Some ==> forall|i: int|
            0 <= i < slug->0.len() ==> whitespace(#[trigger] slug->0[i]),
{
    if slug is Some {
        let text = slug->0;
        crate::text_laws::law_trimming_takes_white_space(text);
        if trimmed(text).len() == 0 {
            let (a, b) = choose|a: int, b: int|
                {
                    &&& 0 <= a <= b <= text.len()
                    &&& trimmed(text) == #[trigger] text.subrange(a, b)
                    &&& forall|k: int| 0 <= k < a ==> whitespace(#[trigger] text[k])
                    &&& forall|k: int| b <= k < text.len() ==> whitespace(#[trigger] text[k])
                };
            assert(text.subrange(a, b).len() == 0);
            assert(a == b);
        }
    }
}

/// A request passes without an origin, or with the origin of its own host. An origin that is
/// another, cannot be read, or stands without a readable host, does not pass.
pub proof fn law_foreign_origins_do_not_pass(origin: String, host: String, other: HeaderText)
    ensures
        is_same_origin(HeaderText::Absent, other),
        is_same_origin(HeaderText::Text(origin), HeaderText::Text(host)) <==> origin@ == "http://"@
            + host@,
        !is_same_origin(HeaderText::Unreadable, other),
        !is_same_origin(HeaderText::Text(origin), HeaderText::Absent),
        !is_same_origin(HeaderText::Text(origin), HeaderText::Unreadable),
{
}

/// Whether the summary is that of a child of the node.
pub open spec fn is_child_summary(t: Tables, id: NodeId, summary: NodeSummary) -> bool {
    exists|m: int|
        0 <= m < t.nodes.len() && (#[trigger] t.nodes[m]).parent_id == Some(id) && summary@
            == node_summary(t, t.nodes[m])
}

/// The summarized children are exactly those of the node.
pub proof fn law_all_children_are_summarized(t: Tables, id: NodeId, children: Seq<NodeSummary>, k: int)
    requires
        summarizes_children(t, id, children),
        0 <= k < t.nodes.len(),
    ensures
        t.nodes[k].parent_id == Some(id) ==> exists|i: int|
            0 <= i < children.len() && (#[trigger] children[i])@ == node_summary(t, t.nodes[k]),
        forall|i: int| 0 <= i < children.len() ==> is_child_summary(t, id, #[trigger] children[i]),
{
    let listed = choose|listed: Seq<Node>|
        #![trigger lists_children(t.nodes, id, listed)]
        {
            &&& lists_children(t.nodes, id, listed)
            &&& children.len() == listed.len()
            &&& forall|i: int|
                0 <= i < children.len() ==> (#[trigger] children[i])@ == node_summary(t, listed[i])
        };
    if t.nodes[k].parent_id == Some(id) {
        assert(t.nodes.contains(t.nodes[k]));
        crate::search_laws::lemma_listed_child(t.nodes, id, listed, t.nodes[k]);
        let i = choose|i: int| 0 <= i < listed.len() && listed[i] == t.nodes[k];
        assert(children[i]@ == node_summary(t, listed[i]));
    }
    assert forall|i: int| 0 <= i < children.len() implies is_child_summary(
        t,
        id,
        #[trigger] children[i],
    ) by {
        assert(children[i]@ == node_summary(t, listed[i]));
        assert(listed.contains(listed[i]));
        crate::search_laws::lemma_listed_child(t.nodes, id, listed, listed[i]);
        let m = choose|m: int| 0 <= m < t.nodes.len() && t.nodes[m] == listed[i];
        assert(t.nodes[m].parent_id == Some(id));
    }
}

/// An inspection shows each node of the page with its depth and the number of its children. It
/// is cut off exactly where the page goes on, or a node at the greatest depth has children.
pub proof fn law_inspections_say_where_they_are_cut_off(
    nodes: Seq<Node>,
    page: Page<NodeDepthProjection>,
    max_depth: u32,
    inspection: SubtreeInspection,
)
    requires
        presents(nodes, page, max_depth, inspection),
    ensures
        inspection.items@.len() == page.items@.len(),
        forall|i: int|
            0 <= i < page.items@.len() ==> {
                let item = #[trigger] inspection.items@[i];
                &&& item.node.node_id == page.items@[i].node.id
                &&& item.depth == page.items@[i].depth
                &&& item.child_count == child_total(nodes, page.items@[i].node.id)
            },
        inspection.truncated <==> page.truncated || exists|i: int|
            0 <= i < page.items@.len() && (#[trigger] page.items@[i]).depth == max_depth
                && child_total(nodes, page.items@[i].node.id) > 0,
{
    let n = nodes.len() as int;
    assert(nodes.take(n) =~= nodes);
    assert forall|i: int| 0 <= i < page.items@.len() implies child_total(
        nodes,
        (#[trigger] page.items@[i]).node.id,
    ) == crate::reorder::child_count(nodes, page.items@[i].node.id, n) by {
        crate::clone_laws::lemma_child_count(nodes, page.items@[i].node.id, n);
    }
    assert forall|i: int| 0 <= i < page.items@.len() implies ({
        let item = #[trigger] inspection.items@[i];
        &&& item.node.node_id == page.items@[i].node.id
        &&& item.depth == page.items@[i].depth
        &&& item.child_count == child_total(nodes, page.items@[i].node.id)
    }) by {
        assert(crate::context::shows(nodes, page.items@[i], inspection.items@[i]));
    }
    if exists|i: int|
        0 <= i < page.items@.len() && crate::context::cut_off(
            nodes,
            #[trigger] page.items@[i],
            max_depth,
        ) {
        let i = choose|i: int|
            0 <= i < page.items@.len() && crate::context::cut_off(
                nodes,
                #[trigger] page.items@[i],
                max_depth,
            );
        assert(page.items@[i].depth == max_depth);
    }
}

proof fn lemma_outside(pieces: Seq<PieceView>, n: int)
    requires
        0 <= n <= pieces.len(),
        forall|j: int|
            0 <= j < n ==> !((#[trigger] pieces[j]) is CodeBlockStart) && !(pieces[j] is ImageStart),
    ensures
        !in_code_block(pieces, n),
        image_depth(pieces, n) == 0,
    decreases n,
{
    if n > 0 {
        lemma_outside(pieces, n - 1);
        assert(!(pieces[n - 1] is CodeBlockStart) && !(pieces[n - 1] is ImageStart));
    }
}

proof fn lemma_inside(pieces: Seq<PieceView>, j: int, n: int)
    requires
        0 <= j < n <= pieces.len(),
    ensures
        pieces[j] is CodeBlockStart && (forall|k: int|
            j < k < n ==> !((#[trigger] pieces[k]) is CodeBlockEnd)) ==> in_code_block(pieces, n),
        pieces[j] is ImageStart && (forall|k: int|
            j < k < n ==> !((#[trigger] pieces[k]) is ImageEnd)) ==> image_depth(pieces, n) > 0,
    decreases n,
{
    if j < n - 1 {
        lemma_inside(pieces, j, n - 1);
    }
}

/// Text is highlighted where no code block and no image was begun before it; it stays as it is
/// inside a code block or an image, and everything else stays as it is.
pub proof fn law_only_plain_text_is_highlighted(pieces: Seq<PieceView>, i: int, j: int)
    requires
        0 <= i < pieces.len(),
    ensures
        pieces[i] matches PieceView::Text(text) ==> (forall|k: int|
            0 <= k < i ==> !((#[trigger] pieces[k]) is CodeBlockStart) && !(
            pieces[k] is ImageStart)) ==> replacement(pieces, i) == highlighted(text),
        0 <= j < i && pieces[j] is CodeBlockStart && (forall|k: int|
            j < k < i ==> !((#[trigger] pieces[k]) is CodeBlockEnd)) ==> replacement(
            pieces,
            i,
        ) is None,
        0 <= j < i && pieces[j] is ImageStart && (forall|k: int|
            j < k < i ==> !((#[trigger] pieces[k]) is ImageEnd)) ==> replacement(pieces, i) is None,
        !(pieces[i] is Text) ==> replacement(pieces, i) is None,
{
    if forall|k: int|
        0 <= k < i ==> !((#[trigger] pieces[k]) is CodeBlockStart) && !(pieces[k] is ImageStart) {
        lemma_outside(pieces, i);
    }
    if 0 <= j < i {
        lemma_inside(pieces, j, i);
    }
}

/// What is written keeps exactly the pieces that are not replaced.
pub proof fn law_unreplaced_pieces_are_kept(plan: Seq<Option<Seq<PartView>>>, n: int, i: int)
    requires
        0 <= n <= plan.len(),
    ensures
        spliced(plan, n).contains(WrittenView::Kept(i)) <==> 0 <= i < n && plan[i] is None,
    decreases n,
{
    if n > 0 {
        law_unreplaced_pieces_are_kept(plan, n - 1, i);
        let before = spliced(plan, n - 1);
        let last = match plan[n - 1] {
            None => seq![WrittenView::Kept(n - 1)],
            Some(parts) => Seq::new(
                parts.len(),
                |i: int| crate::markdown::written_part(parts[i]),
            ),
        };
        let kept = WrittenView::Kept(i);
        crate::search_laws::lemma_sum_contains(before, last);
        assert(spliced(plan, n) == before + last);
        assert((before + last).contains(kept) <==> before.contains(kept) || last.contains(kept));
        match plan[n - 1] {
            None => {
                assert(last[0] == WrittenView::Kept(n - 1));
                if last.contains(kept) {
                    let k = choose|k: int| 0 <= k < last.len() && last[k] == kept;
                    assert(k == 0);
                }
            },
            Some(parts) => {
                if last.contains(kept) {
                    let k = choose|k: int| 0 <= k < last.len() && last[k] == kept;
                    assert(last[k] == crate::markdown::written_part(parts[k]));
                }
            },
        }
    }
}

} // verus!
