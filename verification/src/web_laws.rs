//! What the web side promises: what a search across workspaces finds, and what a connection
//! hears.

use crate::diagnostics::texts;
use crate::model::{Node, NodeId};
use crate::order::lex_lt;
use crate::query::QueryView;
use crate::realtime::{
    goes_on, greeting, reaction, ActionView, ChangeNotice, Event, Frame, MessageKind, MessageView,
    PayloadView, PROTOCOL_VERSION,
};
use crate::session::ClientActivity;
use crate::tree::{lookup, present};
use crate::web_search::{
    admits, at_most, found_across, found_among, found_in, item_of, matching_from, merge_key, merges,
    ranked_items, room, score_place, subtree_nodes, wanted, ItemView, RankedMatch,
    SearchedWorkspace, MAX_RESULTS_PER_WORKSPACE,
};
use crate::words::{lowercase, occurs_at};
use vstd::prelude::*;

verus! {

/// Whether a term stands somewhere in a text, letter case aside.
pub open spec fn is_within(term: Seq<char>, text: Seq<char>) -> bool {
    exists|i: int|
        0 <= i <= lowercase(text).len() - lowercase(term).len() && #[trigger] lowercase(
            text,
        ).subrange(i, i + lowercase(term).len()) == lowercase(term)
}

proof fn lemma_is_within(term: Seq<char>, text: Seq<char>)
    ensures
        is_within(term, text) <==> admits(Some(term), text),
{
    let a = lowercase(text);
    let b = lowercase(term);
    if admits(Some(term), text) {
        let i = choose|i: int| #[trigger] occurs_at(a, b, i);
        assert(a.subrange(i, i + b.len()) == b);
    }
    if is_within(term, text) {
        let i = choose|i: int| 0 <= i <= a.len() - b.len() && #[trigger] a.subrange(i, i + b.len()) == b;
        assert(occurs_at(a, b, i));
    }
}

/// A node is wanted exactly when every part of the query that is given holds of it: the slug
/// part of its slug, the unqualified part of its title or its slug, and the text part of the
/// hits of the text search.
pub proof fn law_each_part_of_a_query_narrows(query: QueryView, hits: Seq<NodeId>, node: Node)
    ensures
        wanted(query, hits, node) <==> {
            &&& query.slug is Some ==> is_within(query.slug->0, node.slug@)
            &&& query.default is Some ==> is_within(query.default->0, node.metadata.title@)
                || is_within(query.default->0, node.slug@)
            &&& query.text is Some ==> exists|i: int|
                0 <= i < hits.len() && #[trigger] hits[i] == node.id
        },
{
    if query.slug is Some {
        lemma_is_within(query.slug->0, node.slug@);
    }
    if query.default is Some {
        lemma_is_within(query.default->0, node.metadata.title@);
        lemma_is_within(query.default->0, node.slug@);
    }
    if hits.contains(node.id) {
        let i = choose|i: int| 0 <= i < hits.len() && hits[i] == node.id;
        assert(hits[i] == node.id);
    }
}

/// Nodes that a query wants.
pub open spec fn is_wanted(query: QueryView, hits: Seq<NodeId>) -> spec_fn(Node) -> bool {
    |n: Node| wanted(query, hits, n)
}

proof fn lemma_found_among(
    w: SearchedWorkspace,
    workspace_id: usize,
    query: QueryView,
    listed: Seq<Node>,
    n: int,
)
    requires
        0 <= n <= listed.len(),
    ensures
        ({
            let kept = listed.take(n).filter(is_wanted(query, w.text_hits@));
            let found = found_among(w, workspace_id, query, listed, n);
            &&& found.len() == if kept.len() < MAX_RESULTS_PER_WORKSPACE {
                kept.len() as int
            } else {
                MAX_RESULTS_PER_WORKSPACE as int
            }
            &&& forall|i: int|
                0 <= i < found.len() ==> #[trigger] found[i] == item_of(
                    w.store@.nodes,
                    workspace_id,
                    w.name@,
                    kept[i],
                    None,
                    Seq::empty(),
                )
        }),
    decreases n,
{
    reveal(Seq::filter);
    if n > 0 {
        lemma_found_among(w, workspace_id, query, listed, n - 1);
        assert(listed.take(n).drop_last() =~= listed.take(n - 1));
        assert(listed.take(n).last() == listed[n - 1]);
    }
}

/// A workspace that the query admits gives its first wanted nodes, in walking order, as many
/// as fit; any other gives nothing. An item tells the node's identity, slug and title.
pub proof fn law_workspaces_give_their_first_wanted_nodes(
    w: SearchedWorkspace,
    workspace_id: usize,
    query: QueryView,
)
    ensures
        ({
            let found = found_in(w, workspace_id, query);
            let kept = subtree_nodes(w.store@.nodes, w.root).filter(
                is_wanted(query, w.text_hits@),
            );
            if query.workspace is Some && !is_within(query.workspace->0, w.name@) {
                found.len() == 0
            } else {
                &&& found.len() <= MAX_RESULTS_PER_WORKSPACE
                &&& found.len() <= kept.len()
                &&& found.len() < kept.len() ==> found.len() == MAX_RESULTS_PER_WORKSPACE
                &&& forall|i: int|
                    0 <= i < found.len() ==> {
                        &&& (#[trigger] found[i]).node_id == kept[i].id
                        &&& found[i].slug == kept[i].slug@
                        &&& found[i].title == kept[i].metadata.title@
                        &&& found[i].workspace_id == workspace_id
                        &&& found[i].workspace_name == w.name@
                        &&& found[i].score is None
                    }
            }
        }),
{
    let listed = subtree_nodes(w.store@.nodes, w.root);
    if query.workspace is Some {
        lemma_is_within(query.workspace->0, w.name@);
    }
    lemma_found_among(w, workspace_id, query, listed, listed.len() as int);
    assert(listed.take(listed.len() as int) =~= listed);
}

/// Results go by workspace.
pub proof fn law_results_go_by_workspace(
    ws: Seq<SearchedWorkspace>,
    query: QueryView,
    n: int,
    i: int,
    j: int,
)
    requires
        0 <= n <= ws.len() <= usize::MAX,
        0 <= i <= j < found_across(ws, query, n).len(),
    ensures
        found_across(ws, query, n)[i].workspace_id <= found_across(ws, query, n)[j].workspace_id,
        found_across(ws, query, n)[j].workspace_id < n,
    decreases n,
{
    if n > 0 {
        let before = found_across(ws, query, n - 1);
        let all = found_across(ws, query, n);
        let own = found_in(ws[n - 1], (n - 1) as usize, query);
        let more = at_most(own, room(before.len(), matching_from(ws, query, n)));
        law_workspaces_give_their_first_wanted_nodes(ws[n - 1], (n - 1) as usize, query);
        assert(all == before + more);
        if j < before.len() {
            law_results_go_by_workspace(ws, query, n - 1, i, j);
        } else {
            assert(all[j] == more[j - before.len()]);
            assert(more[j - before.len()] == own[j - before.len()]);
            if i < before.len() {
                law_results_go_by_workspace(ws, query, n - 1, i, i);
            } else {
                assert(all[i] == own[i - before.len()]);
            }
        }
    }
}

/// Matches whose node has a wanted slug.
pub open spec fn slug_fits(nodes: Seq<Node>, slug: Option<Seq<char>>) -> spec_fn(RankedMatch) -> bool {
    |m: RankedMatch| slug is Some ==> is_within(slug->0, lookup(nodes, m.node_id)->0.slug@)
}

proof fn lemma_ranked_items(
    nodes: Seq<Node>,
    workspace_id: usize,
    name: Seq<char>,
    slug: Option<Seq<char>>,
    ranked: Seq<RankedMatch>,
    n: int,
)
    requires
        0 <= n <= ranked.len(),
    ensures
        match ranked_items(nodes, workspace_id, name, slug, ranked, n) {
            None => exists|k: int|
                0 <= k < n && !present(nodes, (#[trigger] ranked[k]).node_id),
            Some(items) => {
                let kept = ranked.take(n).filter(slug_fits(nodes, slug));
                &&& forall|k: int| 0 <= k < n ==> present(nodes, (#[trigger] ranked[k]).node_id)
                &&& items.len() == kept.len()
                &&& forall|i: int|
                    0 <= i < items.len() ==> {
                        &&& Some((#[trigger] items[i]).score->0) == Some(kept[i].score)
                        &&& items[i].score is Some
                        &&& items[i].match_reasons == texts(kept[i].match_reasons@)
                        &&& items[i].slug == lookup(nodes, kept[i].node_id)->0.slug@
                        &&& items[i].node_id == lookup(nodes, kept[i].node_id)->0.id
                        &&& items[i].workspace_id == workspace_id
                    }
            },
        },
    decreases n,
{
    reveal(Seq::filter);
    if n > 0 {
        lemma_ranked_items(nodes, workspace_id, name, slug, ranked, n - 1);
        assert(ranked.take(n).drop_last() =~= ranked.take(n - 1));
        assert(ranked.take(n).last() == ranked[n - 1]);
        if slug is Some && present(nodes, ranked[n - 1].node_id) {
            lemma_is_within(slug->0, lookup(nodes, ranked[n - 1].node_id)->0.slug@);
        }
        match ranked_items(nodes, workspace_id, name, slug, ranked, n - 1) {
            None => {
                let k = choose|k: int|
                    0 <= k < n - 1 && !present(nodes, (#[trigger] ranked[k]).node_id);
                assert(!present(nodes, ranked[k].node_id));
            },
            Some(_) => {
                if !present(nodes, ranked[n - 1].node_id) {
                    assert(!present(nodes, ranked[n - 1].node_id));
                }
            },
        }
    }
}

/// Ranked matches become items in their order, with their scores and reasons, leaving out
/// those whose slug does not fit. A match of a node that is gone fails the whole.
pub proof fn law_ranked_matches_become_items(
    nodes: Seq<Node>,
    workspace_id: usize,
    name: Seq<char>,
    slug: Option<Seq<char>>,
    ranked: Seq<RankedMatch>,
)
    ensures
        ranked_items(nodes, workspace_id, name, slug, ranked, ranked.len() as int) is None
            <==> exists|k: int|
            0 <= k < ranked.len() && !present(nodes, (#[trigger] ranked[k]).node_id),
        ranked_items(nodes, workspace_id, name, slug, ranked, ranked.len() as int) matches Some(
            items,
        ) ==> {
            let kept = ranked.filter(slug_fits(nodes, slug));
            &&& items.len() == kept.len()
            &&& forall|i: int|
                0 <= i < items.len() ==> {
                    &&& Some((#[trigger] items[i]).score->0) == Some(kept[i].score)
                    &&& items[i].score is Some
                    &&& items[i].match_reasons == texts(kept[i].match_reasons@)
                    &&& items[i].slug == lookup(nodes, kept[i].node_id)->0.slug@
                    &&& items[i].node_id == lookup(nodes, kept[i].node_id)->0.id
                    &&& items[i].workspace_id == workspace_id
                }
        },
{
    lemma_ranked_items(nodes, workspace_id, name, slug, ranked, ranked.len() as int);
    assert(ranked.take(ranked.len() as int) =~= ranked);
}

/// Merged results hold every item once. Of two, the one with the higher score comes first; then
/// the one of the earlier workspace, of the lower identity, and the earlier one.
pub proof fn law_merging_goes_by_score(
    items: Seq<ItemView>,
    order: Seq<usize>,
    i: int,
    j: int,
)
    requires
        items.len() <= usize::MAX,
        merges(items, order),
        0 <= i < j < order.len(),
    ensures
        order[i] < items.len(),
        forall|k: int| 0 <= k < items.len() ==> order.contains(#[trigger] (k as usize)),
        ({
            let a = items[order[i] as int];
            let b = items[order[j] as int];
            ||| score_place(a.score) > score_place(b.score)
            ||| score_place(a.score) == score_place(b.score) && (a.workspace_id < b.workspace_id
                || (a.workspace_id == b.workspace_id && (a.node_id.value < b.node_id.value || (
            a.node_id.value == b.node_id.value && order[i] < order[j]))))
        }),
{
    let rows = Seq::new(items.len(), |i: int| i as usize);
    let pred = |i: usize| true;
    let key = |i: usize| merge_key(items, i as int);
    assert(order.contains(order[i]) && order.contains(order[j]));
    assert(rows.contains(order[i]) && rows.contains(order[j]));
    let m = choose|m: int| 0 <= m < rows.len() && rows[m] == order[i];
    let p = choose|p: int| 0 <= p < rows.len() && rows[p] == order[j];
    assert forall|k: int| 0 <= k < items.len() implies order.contains(#[trigger] (k as usize)) by {
        assert(rows[k] == k as usize);
        assert(rows.contains(k as usize));
        assert(pred(k as usize));
    }
    assert(lex_lt(key(order[i]), key(order[j])));
    let x = merge_key(items, order[i] as int);
    let y = merge_key(items, order[j] as int);
    reveal_with_fuel(lex_lt, 5);
    assert(x.skip(1)[0] == x[1] && y.skip(1)[0] == y[1]);
    assert(x.skip(1).skip(1)[0] == x[2] && y.skip(1).skip(1)[0] == y[2]);
    assert(x.skip(1).skip(1).skip(1)[0] == x[3] && y.skip(1).skip(1).skip(1)[0] == y[3]);
    assert(x.skip(1).skip(1).skip(1).skip(1).len() == 0);
}

/// Scores go by the numbers that their bits stand for: a greater number of either sign comes
/// before a smaller one, and no score counts as zero.
pub proof fn law_score_places_follow_numbers(a: u64, b: u64)
    ensures
        score_place(None) == score_place(Some(0)),
        a < b < 0x8000_0000_0000_0000 ==> score_place(Some(a)) < score_place(Some(b)),
        0x8000_0000_0000_0000 <= a < b ==> score_place(Some(a)) > score_place(Some(b)),
        a < 0x8000_0000_0000_0000 <= b ==> score_place(Some(a)) > score_place(Some(b)),
{
}

/// The message that an action sends, if it sends one.
pub open spec fn sent(action: ActionView) -> Option<MessageView> {
    match action {
        ActionView::Send(m) => Some(m),
        ActionView::CloseForShutdown(m) => Some(m),
        ActionView::Wait => None,
        ActionView::End => None,
    }
}

/// Every message of a connection carries the protocol version, its own identity and the session.
pub proof fn law_messages_carry_the_session(
    id: Seq<char>,
    session: Seq<char>,
    event: Event,
    shutdown_requested: bool,
    root: NodeId,
    revision: u64,
)
    ensures
        sent(reaction(id, session, event)) matches Some(m) ==> m.v == PROTOCOL_VERSION && m.id == id
            && m.session == session,
        sent(greeting(id, session, shutdown_requested, root, revision)) matches Some(m) ==> m.v
            == PROTOCOL_VERSION && m.id == id && m.session == session,
{
}

/// Whether the action sends a message of a kind.
pub open spec fn sends(action: ActionView, kind: MessageKind, revision: Option<u64>) -> bool {
    sent(action) matches Some(m) && m.kind == kind && m.revision == revision
}

/// A command is answered: acknowledged where it succeeded, else rejected, with its name, its
/// reason, the node and the version. A change is told with its revision, one that was missed
/// without. A connection ends when it is shut down, cannot send, or is gone, and only then.
pub proof fn law_connections_react_to_events(
    id: Seq<char>,
    session: Seq<char>,
    event: Event,
)
    ensures
        match event {
            Event::Incoming(Frame::Command(outcome)) => {
                let action = reaction(id, session, event);
                &&& sends(
                    action,
                    if outcome@.ok {
                        MessageKind::Ack
                    } else {
                        MessageKind::Reject
                    },
                    outcome@.version,
                )
                &&& sent(action)->0.payload == (PayloadView::Outcome {
                    command: outcome@.command,
                    reason: outcome@.reason,
                    node_id: outcome@.node_id,
                })
                &&& goes_on(action)
            },
            Event::Changed(ChangeNotice::Revision(r)) => sends(
                reaction(id, session, event),
                MessageKind::Change,
                Some(r),
            ) && goes_on(reaction(id, session, event)),
            Event::Changed(ChangeNotice::Lagged) => sends(
                reaction(id, session, event),
                MessageKind::Change,
                None,
            ) && goes_on(reaction(id, session, event)),
            Event::HeartbeatDue => sends(
                reaction(id, session, event),
                MessageKind::Heartbeat,
                None,
            ) && goes_on(reaction(id, session, event)),
            Event::ShutdownSignal { sender_gone, requested } => {
                &&& goes_on(reaction(id, session, event)) <==> !sender_gone && !requested
                &&& sender_gone || requested <==> sends(
                    reaction(id, session, event),
                    MessageKind::Shutdown,
                    None,
                )
            },
            Event::Changed(ChangeNotice::Closed) => !goes_on(reaction(id, session, event)),
            Event::Incoming(Frame::Gone) => !goes_on(reaction(id, session, event)),
            Event::Incoming(Frame::Quiet) => goes_on(reaction(id, session, event)) && sent(
                reaction(id, session, event),
            ) is None,
            Event::SendFailed => !goes_on(reaction(id, session, event)),
        },
{
}

/// A new connection is told the root and the revision, unless the session is shutting down.
pub proof fn law_connections_are_greeted(
    id: Seq<char>,
    session: Seq<char>,
    root: NodeId,
    revision: u64,
)
    ensures
        sends(greeting(id, session, false, root, revision), MessageKind::Init, Some(revision)),
        sent(greeting(id, session, false, root, revision))->0.payload == PayloadView::Root(
            root.text(),
        ),
        goes_on(greeting(id, session, false, root, revision)),
        sends(greeting(id, session, true, root, revision), MessageKind::Shutdown, None),
        !goes_on(greeting(id, session, true, root, revision)),
{
}

/// Clients are counted: one more on joining, one less on leaving; the time of leaving is noted
/// only when the last one leaves, and a new client clears it.
pub proof fn law_clients_are_counted(activity: ClientActivity, now: u64)
    requires
        activity.connected < usize::MAX,
    ensures
        activity.joined().connected == activity.connected + 1,
        activity.joined().ever_connected,
        activity.joined().disconnected_at is None,
        activity.connected > 0 ==> activity.left(now).connected == activity.connected - 1,
        activity.connected == 1 ==> activity.left(now).disconnected_at == Some(now),
        activity.connected > 1 ==> activity.left(now).disconnected_at == activity.disconnected_at,
        activity.left(now).ever_connected == activity.ever_connected,
{
}

} // verus!
