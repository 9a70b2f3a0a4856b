//! Smaller promises: what records, reasons, codes and numbers say.

use crate::create::{restores, revision_of};
use crate::destinations::{breadcrumb_text, reasons_of};
use crate::fts::{context_of, law_context_follows_the_tree, title_and_summary};
use crate::model::{DerivedNodeRecords, Node, NodeHash, NodeId};
use crate::paging::{PaginationError, PaginationErrorCode};
use crate::query::{hits, law_keywords_are_recognized, law_qualifiers_begin_words, Qualifier};
use crate::reads::{above, level};
use crate::resolution_laws::{lemma_same_letters, same_letters};
use crate::search::{SearchRequest, SearchScope, SignalView};
use crate::semantic::is_finite;
use crate::snapshot::{imported_history, Snapshot};
use crate::summaries::{path_text, slug_path};
use crate::tables::{storable, Tables};
use crate::text::{lower_char, lowered};
use crate::tree::{climb, is_forest, lemma_depth_is, links, lookup, position, present};
use crate::web_search::{truncated, ItemView};
use crate::words::joined_by;
use vstd::prelude::*;

verus! {

/// What was recorded of a node can be restored: the restored node has the parent, the slug, the
/// metadata, the content and the position that the node had when its revision was recorded.
pub proof fn law_recorded_states_can_be_restored(
    t: Tables,
    node: Node,
    change_summary: Option<Seq<char>>,
    created_by: Option<Seq<char>>,
    recorded_at: u64,
    current: Node,
    created_at: u64,
    content_hash: NodeHash,
    revision_hash: NodeHash,
    restored: Node,
)
    requires
        t.unique_versions(),
        t.revisions.contains(revision_of(node, change_summary, created_by, recorded_at)),
        current.id == node.id,
        restores(
            t,
            current,
            node.version,
            created_at,
            content_hash,
            revision_hash,
            restored,
        ),
    ensures
        restored.id == node.id,
        restored.parent_id == node.parent_id,
        restored.slug@ == node.slug@,
        *restored.metadata == *node.metadata,
        restored.markdown_content@ == node.markdown_content@,
        restored.sibling_order == node.sibling_order,
{
    let r = revision_of(node, change_summary, created_by, recorded_at);
    let k = choose|k: int| 0 <= k < t.revisions.len() && t.revisions[k] == r;
    let i = choose|i: int|
        {
            &&& 0 <= i < t.revisions.len()
            &&& (#[trigger] t.revisions[i]).node_id == current.id
            &&& t.revisions[i].version == node.version
            &&& t.revisions[i].parent_id == restored.parent_id
            &&& t.revisions[i].slug == restored.slug@
            &&& t.revisions[i].metadata == *restored.metadata
            &&& t.revisions[i].markdown_content == restored.markdown_content@
            &&& t.revisions[i].sibling_order == restored.sibling_order
        };
    assert(t.revisions[k].node_id == t.revisions[i].node_id);
    assert(t.revisions[k].version == t.revisions[i].version);
    assert(i == k);
}

/// A revision names the author, the reason and the time that it was given, and the hashes of the
/// node.
pub proof fn law_revisions_name_their_author(
    node: Node,
    change_summary: Option<Seq<char>>,
    created_by: Option<Seq<char>>,
    created_at: u64,
)
    ensures
        ({
            let r = revision_of(node, change_summary, created_by, created_at);
            &&& r.node_id == node.id
            &&& r.version == node.version
            &&& r.change_summary == change_summary
            &&& r.created_by == created_by
            &&& r.created_at == created_at
            &&& r.content_hash == node.content_hash
            &&& r.revision_hash == node.revision_hash
        }),
{
}

/// Without a history in the snapshot each imported node gets one revision: its present state, of
/// its present version, at the time of its last change.
pub proof fn law_imports_without_history_record_the_heads(snapshot: Snapshot, i: int)
    requires
        snapshot.revisions@.len() == 0,
        0 <= i < snapshot.nodes@.len(),
    ensures
        imported_history(snapshot).len() == snapshot.nodes@.len(),
        ({
            let node = snapshot.nodes@[i];
            let r = imported_history(snapshot)[i];
            &&& r.node_id == node.id
            &&& r.version == node.version
            &&& r.markdown_content == node.markdown_content@
            &&& r.metadata == *node.metadata
            &&& r.slug == node.slug@
            &&& r.parent_id == node.parent_id
            &&& r.sibling_order == node.sibling_order
            &&& r.revision_hash == node.revision_hash
            &&& r.content_hash == node.content_hash
            &&& r.created_at == node.updated_at
        }),
{
}

/// With a history in the snapshot the imported history is that one.
pub proof fn law_imports_keep_the_history(snapshot: Snapshot, i: int)
    requires
        snapshot.revisions@.len() > 0,
        0 <= i < snapshot.revisions@.len(),
    ensures
        imported_history(snapshot).len() == snapshot.revisions@.len(),
        imported_history(snapshot)[i] == snapshot.revisions@[i]@,
{
}

/// In the scopes of siblings and of the parent's subtree a depth counts from the parent of the
/// node, where it has one, and else from the node.
pub proof fn law_depths_count_from_the_parent(t: Tables, request: SearchRequest, id: NodeId, n: NodeId)
    requires
        is_forest(t.nodes),
        request.covers(t, id),
        request.filters.max_depth is Some,
        request.refusal(t.nodes) is None,
        request.scope == SearchScope::Siblings || request.scope == SearchScope::ParentSubtree,
        request.scope_node == Some(n),
        present(t.nodes, n),
    ensures
        exists|k: nat|
            (#[trigger] climb(links(t.nodes), id, k)) == Some(
                match lookup(t.nodes, n)->0.parent_id {
                    Some(p) => p,
                    None => n,
                },
            ) && k <= request.filters.max_depth->0,
{
    let up = links(t.nodes);
    let from = request.anchor(t.nodes)->0;
    let m = position(t.nodes, n);
    assert(t.nodes[m].id == n);
    crate::tree::lemma_position(t.nodes, m);
    if t.nodes[m].parent_id is Some {
        assert(present(t.nodes, t.nodes[m].parent_id->0));
    }
    let k = choose|k: nat| #[trigger] climb(up, id, k) == Some(from);
    lemma_depth_is(up, from, id, k);
    let q = position(t.nodes, id);
    assert(t.nodes[q].id == id);
    assert(climb(up, id, k) == Some(from));
}

/// The reasons for a destination are one for each signal, in order; then the exclusion, exactly
/// where it is excluded; then the acceptance and the examples, where there are any.
pub proof fn law_reasons_follow_the_evidence(
    signals: Seq<SignalView>,
    excluded: bool,
    kind: Seq<char>,
    accepts: bool,
    matching: nat,
)
    ensures
        ({
            let reasons = reasons_of(signals, excluded, Some(kind), Some(accepts), matching);
            let n = signals.len() as int;
            let e: int = if excluded {
                1
            } else {
                0
            };
            let a: int = if accepts {
                1
            } else {
                0
            };
            let m: int = if matching > 0 {
                1
            } else {
                0
            };
            &&& reasons.len() == n + e + a + m
            &&& forall|i: int|
                0 <= i < n ==> #[trigger] reasons[i] == signals[i].label + " matched"@
            &&& excluded ==> reasons[n] == "exclusion penalty"@
            &&& accepts ==> reasons[n + e] == "accepts "@ + kind + " children"@
            &&& matching > 0 ==> reasons[n + e + a] == "contains "@ + crate::text::decimal(matching)
                + " matching child examples"@
        }),
{
}

/// Errors of paging tell a bad limit, a bad cursor and a stale cursor apart.
pub proof fn law_paging_errors_are_told_apart(e: PaginationError)
    ensures
        e.category() == PaginationErrorCode::StaleCursor <==> e == PaginationError::StaleCursor,
        e.category() == PaginationErrorCode::InvalidLimit <==> e == PaginationError::InvalidLimit,
        e.category() == PaginationErrorCode::InvalidCursor <==> e
            == PaginationError::CursorScopeMismatch || e == PaginationError::InvalidCursorPosition,
{
}

proof fn lemma_sections_stored(t: Tables, sections: Seq<std::sync::Arc<crate::model::Section>>, n: int)
    requires
        0 <= n <= sections.len(),
    ensures
        t.section_refusal(sections, n) is None <==> forall|i: int|
            0 <= i < n ==> present(t.nodes, (#[trigger] sections[i]).node_id) && storable(
                sections[i].start_byte,
            ) && storable(sections[i].end_byte),
    decreases n,
{
    if n > 0 {
        lemma_sections_stored(t, sections, n - 1);
        if t.section_refusal(sections, n) is None {
            assert(present(t.nodes, sections[n - 1].node_id));
        }
    }
}

/// Sections are stored only of nodes that are there, within the range of stored numbers.
pub proof fn law_sections_belong_to_nodes(t: Tables, id: NodeId, derived: DerivedNodeRecords, i: int)
    requires
        t.replace_derived(id, derived) is Ok,
        0 <= i < derived.sections@.len(),
    ensures
        present(t.nodes, derived.sections@[i].node_id),
        derived.sections@[i].start_byte <= 0x7fff_ffff_ffff_ffff,
        derived.sections@[i].end_byte <= 0x7fff_ffff_ffff_ffff,
{
    lemma_sections_stored(t, derived.sections@, derived.sections@.len() as int);
}

/// The bits of a component stand for a number unless its exponent is all ones.
pub proof fn law_finite_components_have_room_in_the_exponent(bits: u32)
    ensures
        is_finite(bits) <==> bits & 0x7f80_0000 != 0x7f80_0000,
        is_finite(bits) <==> is_finite(bits ^ 0x8000_0000),
{
    assert(((bits >> 23) & 0xff != 0xff) <==> (bits & 0x7f80_0000 != 0x7f80_0000)) by (bit_vector);
    assert((((bits ^ 0x8000_0000) >> 23) & 0xff) == ((bits >> 23) & 0xff)) by (bit_vector);
}

proof fn lemma_one_up(nodes: Seq<Node>, id: NodeId, p: NodeId)
    requires
        is_forest(nodes),
        present(nodes, id),
        lookup(nodes, id)->0.parent_id == Some(p),
    ensures
        present(nodes, p),
        level(nodes, id) == level(nodes, p) + 1,
        forall|k: int|
            0 <= k < level(nodes, p) ==> above(nodes, id, k + 1) == #[trigger] above(nodes, p, k),
        above(nodes, id, 0) == lookup(nodes, id)->0,
{
    let up = links(nodes);
    let q = position(nodes, id);
    assert(nodes[q].id == id);
    crate::tree::lemma_position(nodes, q);
    assert(present(nodes, nodes[q].parent_id->0));
    assert(crate::tree::ends(up, id));
    crate::tree::lemma_height_parent(up, id);
    assert forall|k: int| 0 <= k < level(nodes, p) implies above(nodes, id, k + 1)
        == #[trigger] above(nodes, p, k) by {
        crate::tree::lemma_climb_shift(up, id, k as nat);
    }
    assert(climb(up, id, 0) == Some(id));
}

/// The path of a node is that of its parent, a slash, and the node's slug; that of a node
/// without a parent is its slug.
pub proof fn law_paths_grow_by_the_slug(nodes: Seq<Node>, id: NodeId)
    requires
        is_forest(nodes),
        present(nodes, id),
    ensures
        match lookup(nodes, id)->0.parent_id {
            Some(p) => path_text(nodes, id) == path_text(nodes, p) + "/"@ + lookup(
                nodes,
                id,
            )->0.slug@,
            None => path_text(nodes, id) == lookup(nodes, id)->0.slug@,
        },
{
    let up = links(nodes);
    let node = lookup(nodes, id)->0;
    assert(crate::tree::ends(up, id));
    crate::tree::lemma_height(up, id);
    assert(climb(up, id, 0) == Some(id));
    let own = slug_path(nodes, id);
    let n = own.len() as int;
    match node.parent_id {
        Some(p) => {
            lemma_one_up(nodes, id, p);
            assert(crate::tree::ends(up, p));
            crate::tree::lemma_height(up, p);
            let parents = slug_path(nodes, p);
            assert(own =~= parents.push(node.slug@)) by {
                assert forall|i: int| 0 <= i < n implies own[i] == parents.push(node.slug@)[i] by {
                    if i < n - 1 {
                        let k = n - 2 - i;
                        assert(above(nodes, id, k + 1) == above(nodes, p, k));
                    }
                }
            }
            crate::text_laws::law_joining_is_associative(parents, seq![node.slug@], "/"@);
            assert(parents + seq![node.slug@] =~= own);
            crate::text_laws::law_joining_is_associative(
                seq![node.slug@],
                seq![node.slug@],
                "/"@,
            );
        },
        None => {
            crate::lookup_laws::law_way_up_follows_parents(nodes, id, 0);
            assert(n == 1);
            assert(own[0] == node.slug@);
        },
    }
}

/// The breadcrumb line of a node is that of its parent, an arrow, and the node's title; that of a
/// node without a parent is its title.
pub proof fn law_breadcrumbs_grow_by_the_title(nodes: Seq<Node>, id: NodeId)
    requires
        is_forest(nodes),
        present(nodes, id),
    ensures
        match lookup(nodes, id)->0.parent_id {
            Some(p) => breadcrumb_text(nodes, id) == breadcrumb_text(nodes, p) + " > "@ + lookup(
                nodes,
                id,
            )->0.metadata.title@,
            None => breadcrumb_text(nodes, id) == lookup(nodes, id)->0.metadata.title@,
        },
{
    let up = links(nodes);
    let node = lookup(nodes, id)->0;
    let title = node.metadata.title@;
    assert(crate::tree::ends(up, id));
    crate::tree::lemma_height(up, id);
    assert(climb(up, id, 0) == Some(id));
    let n = level(nodes, id) as int;
    let own = title_path(nodes, id);
    assert(breadcrumb_text(nodes, id) == joined_by(own, " > "@, n)) by {
        let inner = Seq::new(
            level(nodes, id),
            |i: int| above(nodes, id, level(nodes, id) - 1 - i).metadata.title@,
        );
        assert(inner =~= own);
    }
    match node.parent_id {
        Some(p) => {
            lemma_one_up(nodes, id, p);
            assert(crate::tree::ends(up, p));
            crate::tree::lemma_height(up, p);
            let parents = title_path(nodes, p);
            assert(breadcrumb_text(nodes, p) == joined_by(parents, " > "@, parents.len() as int)) by {
                let inner = Seq::new(
                    level(nodes, p),
                    |i: int| above(nodes, p, level(nodes, p) - 1 - i).metadata.title@,
                );
                assert(inner =~= parents);
            }
            assert(own =~= parents.push(title)) by {
                assert forall|i: int| 0 <= i < n implies own[i] == parents.push(title)[i] by {
                    if i < n - 1 {
                        let k = n - 2 - i;
                        assert(above(nodes, id, k + 1) == above(nodes, p, k));
                    }
                }
            }
            crate::text_laws::law_joining_is_associative(parents, seq![title], " > "@);
            assert(parents + seq![title] =~= own);
            crate::text_laws::law_joining_is_associative(seq![title], seq![title], " > "@);
        },
        None => {
            crate::lookup_laws::law_way_up_follows_parents(nodes, id, 0);
            assert(n == 1);
            assert(own[0] == title);
        },
    }
}

spec fn title_path(nodes: Seq<Node>, id: NodeId) -> Seq<Seq<char>> {
    Seq::new(
        level(nodes, id),
        |i: int| above(nodes, id, level(nodes, id) - 1 - i).metadata.title@,
    )
}

/// A qualifier stands at the start of the query or behind a blank, and is written in any case.
pub proof fn law_qualifiers_stand_behind_blanks(raw: Seq<char>, i: int)
    requires
        0 <= i < hits(raw).len(),
    ensures
        ({
            let at = hits(raw)[i].0;
            let keyword = hits(raw)[i].1.keyword();
            &&& 0 <= at && at + keyword.len() <= raw.len()
            &&& at == 0 || raw[at - 1] == ' ' || raw[at - 1] == '\t' || raw[at - 1] == '\n'
                || raw[at - 1] == '\r' || raw[at - 1] == '\x0c'
            &&& same_letters(raw.subrange(at, at + keyword.len()), keyword)
        }),
{
    law_qualifiers_begin_words(raw, i);
    let at = hits(raw)[i].0;
    let keyword = hits(raw)[i].1.keyword();
    let n = keyword.len() as int;
    if at > 0 {
        assert(lowered(raw)[at - 1] == lower_char(raw[at - 1]));
        assert(raw[at - 1] == lowered(raw)[at - 1] || 'A' <= raw[at - 1] <= 'Z');
    }
    let part = raw.subrange(at, at + n);
    assert(lowered(part) =~= lowered(raw).subrange(at, at + n));
    assert(lowered(part) == keyword);
    lemma_keyword_is_small(hits(raw)[i].1);
    lemma_same_letters(part, keyword);
}

proof fn lemma_keyword_is_small(q: Qualifier)
    ensures
        lowered(q.keyword()) == q.keyword(),
{
    reveal_strlit("workspace:");
    reveal_strlit("slug:");
    reveal_strlit("text:");
    assert(lowered("workspace:"@) =~= "workspace:"@);
    assert(lowered("slug:"@) =~= "slug:"@);
    assert(lowered("text:"@) =~= "text:"@);
}

/// A keyword behind a blank, or at the start, is not overlooked.
pub proof fn law_keywords_behind_blanks_are_found(raw: Seq<char>, q: Qualifier, at: int)
    requires
        0 <= at,
        at + q.keyword().len() <= raw.len(),
        same_letters(raw.subrange(at, at + q.keyword().len()), q.keyword()),
        at == 0 || raw[at - 1] == ' ',
    ensures
        exists|i: int|
            0 <= i < hits(raw).len() && (#[trigger] hits(raw)[i]).0 <= at < hits(raw)[i].0
                + hits(raw)[i].1.keyword().len(),
{
    let n = q.keyword().len() as int;
    let part = raw.subrange(at, at + n);
    lemma_keyword_is_small(q);
    lemma_same_letters(part, q.keyword());
    assert(lowered(part) =~= lowered(raw).subrange(at, at + n));
    if at > 0 {
        assert(lowered(raw)[at - 1] == ' ');
    }
    law_keywords_are_recognized(raw, q, at);
}

/// Merged results are cut off behind the most that are shown, and not before.
pub proof fn law_results_are_cut_off_behind_the_most(items: Seq<ItemView>)
    ensures
        truncated(items).len() <= 50,
        truncated(items).len() < 50 ==> truncated(items) == items,
        forall|i: int| 0 <= i < truncated(items).len() ==> #[trigger] truncated(items)[i] == items[i],
        truncated(items).len() <= items.len(),
{
}

/// What a node says of itself in the contexts of those below it: its title, a blank, and its
/// summary, if it has one.
pub open spec fn own_line(node: Node) -> Seq<char> {
    match node.metadata.summary {
        Some(summary) => node.metadata.title@ + " "@ + summary@,
        None => node.metadata.title@ + " "@,
    }
}

/// The context of a node's ancestors is what its parent says, and behind a blank the context of
/// the parent's ancestors, if it has any; that of a node without a parent is empty.
pub proof fn law_contexts_name_the_ancestors(nodes: Seq<Node>, id: NodeId)
    requires
        is_forest(nodes),
        present(nodes, id),
    ensures
        match lookup(nodes, id)->0.parent_id {
            None => context_of(nodes, id).ancestor_context.len() == 0,
            Some(p) => {
                let parent = lookup(nodes, p)->0;
                context_of(nodes, id).ancestor_context == if parent.parent_id is None {
                    own_line(parent)
                } else {
                    own_line(parent) + " "@ + context_of(nodes, p).ancestor_context
                }
            },
        },
{
    let up = links(nodes);
    let node = lookup(nodes, id)->0;
    law_context_follows_the_tree(nodes, id);
    assert(crate::tree::ends(up, id));
    crate::tree::lemma_height(up, id);
    let own = Seq::new(
        (level(nodes, id) - 1) as nat,
        |i: int| title_and_summary(above(nodes, id, i + 1)),
    );
    match node.parent_id {
        None => {
            crate::lookup_laws::law_way_up_follows_parents(nodes, id, 0);
            assert(climb(up, id, 0) == Some(id));
            assert(own.len() == 0);
        },
        Some(p) => {
            lemma_one_up(nodes, id, p);
            assert(crate::tree::ends(up, p));
            crate::tree::lemma_height(up, p);
            law_context_follows_the_tree(nodes, p);
            let parent = lookup(nodes, p)->0;
            let n = level(nodes, p) as int;
            let next = Seq::new(
                (level(nodes, p) - 1) as nat,
                |i: int| title_and_summary(above(nodes, p, i + 1)),
            );
            assert(above(nodes, p, 0) == parent) by {
                assert(climb(up, p, 0) == Some(p));
            }
            lemma_own_line(parent);
            assert(above(nodes, id, 1) == above(nodes, p, 0));
            assert(own =~= seq![own_line(parent)] + next) by {
                assert forall|i: int| 0 <= i < own.len() implies own[i] == (seq![own_line(parent)]
                    + next)[i] by {
                    assert(above(nodes, id, i + 1) == above(nodes, p, i));
                }
            }
            crate::lookup_laws::law_way_up_follows_parents(nodes, p, 0);
            if next.len() == 0 {
                assert(own[0] == own_line(parent));
            } else {
                crate::text_laws::law_joining_is_associative(seq![own_line(parent)], next, " "@);
            }
        },
    }
}

proof fn lemma_own_line(node: Node)
    ensures
        title_and_summary(node) == own_line(node),
{
    assert(node.metadata.title@ + " "@ + Seq::<char>::empty() =~= node.metadata.title@ + " "@);
}

/// The context of a node's children is their titles, in sibling order, with blanks between them.
pub proof fn law_contexts_list_the_children(nodes: Seq<Node>, id: NodeId, children: Seq<Node>)
    requires
        crate::reads::lists_children(nodes, id, children),
    ensures
        context_of(nodes, id).child_context == joined_by(
            Seq::new(children.len(), |i: int| children[i].metadata.title@),
            " "@,
            children.len() as int,
        ),
{
    crate::fts::lemma_children_of(nodes, id, children);
    assert(crate::destinations::titles_of(children) =~= Seq::new(
        children.len(),
        |i: int| children[i].metadata.title@,
    ));
}

} // verus!
