//! What the diagnostics find, and what a rebuild keeps.

use crate::chunk_laws::{lemma_filter_all, lemma_filter_of_sum};
use crate::diagnostics::{
    describes_title, lists_repeated, normal_title, preserved, titled, trim_spaces, unresolved_rows,
    DuplicateCandidate, RebuiltNode,
};
use crate::model::{Node, NodeId, ReferenceOrigin, ReferenceView, TargetView};
use crate::mutate::run;
use crate::record_laws::belongs;
use crate::reorder::{lemma_derived_nodes, lemma_references_nodes};
use crate::resolution_laws::{lemma_same_letters, same_letters};
use crate::shape::lemma_filter_facts;
use crate::tables::{RowView, Tables};
use crate::tree::{position, present, unique_ids};
use vstd::prelude::*;

verus! {

proof fn lemma_trim_spaces(text: Seq<char>) -> (range: (int, int))
    ensures
        0 <= range.0 <= range.1 <= text.len(),
        trim_spaces(text) == text.subrange(range.0, range.1),
        forall|k: int| 0 <= k < range.0 ==> #[trigger] text[k] == ' ',
        forall|k: int| range.1 <= k < text.len() ==> #[trigger] text[k] == ' ',
        range.0 < range.1 ==> text[range.0] != ' ' && text[range.1 - 1] != ' ',
    decreases text.len(),
{
    if text.len() > 0 && text[0] == ' ' {
        let rest = text.skip(1);
        let (a, b) = lemma_trim_spaces(rest);
        assert forall|k: int| 0 <= k < a + 1 implies #[trigger] text[k] == ' ' by {
            if k > 0 {
                assert(rest[k - 1] == text[k]);
            }
        }
        assert forall|k: int| b + 1 <= k < text.len() implies #[trigger] text[k] == ' ' by {
            assert(rest[k - 1] == text[k]);
        }
        assert(text.subrange(a + 1, b + 1) =~= rest.subrange(a, b));
        (a + 1, b + 1)
    } else if text.len() > 0 && text.last() == ' ' {
        let rest = text.drop_last();
        let (a, b) = lemma_trim_spaces(rest);
        assert forall|k: int| 0 <= k < a implies #[trigger] text[k] == ' ' by {
            assert(rest[k] == text[k]);
        }
        assert forall|k: int| b <= k < text.len() implies #[trigger] text[k] == ' ' by {
            if k < rest.len() {
                assert(rest[k] == text[k]);
            }
        }
        assert(text.subrange(a, b) =~= rest.subrange(a, b));
        (a, b)
    } else {
        assert(text.subrange(0, text.len() as int) =~= text);
        (0, text.len() as int)
    }
}

/// Whether two titles are the same but for spaces around them and ASCII case.
pub open spec fn same_title(a: Seq<char>, b: Seq<char>) -> bool {
    same_letters(trim_spaces(a), trim_spaces(b))
}

/// Trimming a title takes away the spaces around it, all of them, and nothing else; what is the
/// same but for them and ASCII case is normalized to the same text, and nothing else is.
pub proof fn law_titles_are_normalized(a: Seq<char>, b: Seq<char>)
    ensures
        normal_title(a) == normal_title(b) <==> same_title(a, b),
        exists|i: int, j: int|
            {
                &&& 0 <= i <= j <= a.len()
                &&& trim_spaces(a) == #[trigger] a.subrange(i, j)
                &&& forall|k: int| 0 <= k < i ==> #[trigger] a[k] == ' '
                &&& forall|k: int| j <= k < a.len() ==> #[trigger] a[k] == ' '
                &&& i < j ==> a[i] != ' ' && a[j - 1] != ' '
            },
{
    lemma_same_letters(trim_spaces(a), trim_spaces(b));
    let (i, j) = lemma_trim_spaces(a);
    assert(trim_spaces(a) == a.subrange(i, j));
}

proof fn lemma_titled(nodes: Seq<Node>, title: Seq<char>, n: int)
    requires
        0 <= n <= nodes.len(),
    ensures
        forall|x: NodeId| #[trigger]
            titled(nodes, title, n).contains(x) <==> exists|k: int|
                0 <= k < n && (#[trigger] nodes[k]).id == x && normal_title(
                    nodes[k].metadata.title@,
                ) == title,
    decreases n,
{
    if n > 0 {
        lemma_titled(nodes, title, n - 1);
        let before = titled(nodes, title, n - 1);
        let all = titled(nodes, title, n);
        assert forall|x: NodeId| #[trigger] all.contains(x) <==> exists|k: int|
            0 <= k < n && (#[trigger] nodes[k]).id == x && normal_title(nodes[k].metadata.title@)
                == title by {
            if all.contains(x) {
                let i = choose|i: int| 0 <= i < all.len() && all[i] == x;
                if i < before.len() {
                    assert(before[i] == x);
                    assert(before.contains(x));
                    let k = choose|k: int|
                        0 <= k < n - 1 && (#[trigger] nodes[k]).id == x && normal_title(
                            nodes[k].metadata.title@,
                        ) == title;
                    assert(nodes[k].id == x);
                } else {
                    assert(nodes[n - 1].id == x);
                }
            }
            if exists|k: int|
                0 <= k < n && (#[trigger] nodes[k]).id == x && normal_title(
                    nodes[k].metadata.title@,
                ) == title {
                let k = choose|k: int|
                    0 <= k < n && (#[trigger] nodes[k]).id == x && normal_title(
                        nodes[k].metadata.title@,
                    ) == title;
                if k < n - 1 {
                    assert(before.contains(x));
                    let i = choose|i: int| 0 <= i < before.len() && before[i] == x;
                    assert(all[i] == x);
                } else {
                    assert(all[before.len() as int] == x);
                }
            }
        }
    }
}

/// Two nodes whose titles are the same but for spaces around them and ASCII case are candidates
/// for one another: they stand in one group, and no node with another title stands there.
pub proof fn law_same_titles_are_grouped(
    nodes: Seq<Node>,
    titles: Seq<Seq<char>>,
    groups: Seq<DuplicateCandidate>,
    i: int,
    j: int,
)
    requires
        unique_ids(nodes),
        lists_repeated(nodes, titles),
        groups.len() == titles.len(),
        forall|g: int|
            0 <= g < groups.len() ==> describes_title(nodes, titles[g], #[trigger] groups[g]),
        0 <= i < nodes.len(),
        0 <= j < nodes.len(),
        i != j,
    ensures
        same_title(nodes[i].metadata.title@, nodes[j].metadata.title@) <==> exists|g: int|
            0 <= g < groups.len() && (#[trigger] groups[g]).node_ids@.contains(nodes[i].id)
                && groups[g].node_ids@.contains(nodes[j].id),
{
    let a = normal_title(nodes[i].metadata.title@);
    let b = normal_title(nodes[j].metadata.title@);
    let n = nodes.len() as int;
    law_titles_are_normalized(nodes[i].metadata.title@, nodes[j].metadata.title@);
    lemma_titled(nodes, a, n);
    let ids = titled(nodes, a, n);
    if a == b {
        assert(nodes[i].id != nodes[j].id);
        assert(ids.contains(nodes[i].id) && ids.contains(nodes[j].id));
        let p = choose|p: int| 0 <= p < ids.len() && ids[p] == nodes[i].id;
        let q = choose|q: int| 0 <= q < ids.len() && ids[q] == nodes[j].id;
        assert(ids.len() > 1);
        assert(titles.contains(a));
        let g = choose|g: int| 0 <= g < titles.len() && titles[g] == a;
        assert(describes_title(nodes, titles[g], groups[g]));
        assert(groups[g].node_ids@ == ids);
    }
    if exists|g: int|
        0 <= g < groups.len() && (#[trigger] groups[g]).node_ids@.contains(nodes[i].id)
            && groups[g].node_ids@.contains(nodes[j].id) {
        let g = choose|g: int|
            0 <= g < groups.len() && (#[trigger] groups[g]).node_ids@.contains(nodes[i].id)
                && groups[g].node_ids@.contains(nodes[j].id);
        assert(describes_title(nodes, titles[g], groups[g]));
        lemma_titled(nodes, titles[g], n);
        let k = choose|k: int|
            0 <= k < n && (#[trigger] nodes[k]).id == nodes[i].id && normal_title(
                nodes[k].metadata.title@,
            ) == titles[g];
        let l = choose|l: int|
            0 <= l < n && (#[trigger] nodes[l]).id == nodes[j].id && normal_title(
                nodes[l].metadata.title@,
            ) == titles[g];
        assert(k == i && l == j);
    }
}

/// The unresolved references are exactly the stored ones that lead to no node.
pub proof fn law_unresolved_references_lead_nowhere(t: Tables, row: RowView)
    ensures
        unresolved_rows(t).contains(row) <==> t.references.contains(row)
            && match row.reference.target {
            TargetView::Resolved { .. } => false,
            TargetView::Unresolved { .. } => true,
        },
{
    lemma_filter_facts(t.references, |r: RowView| r.reference.target is Unresolved);
}

/// References that no Markdown gives: explicit and inferred ones.
pub open spec fn is_authored() -> spec_fn(RowView) -> bool {
    |r: RowView|
        r.reference.origin != ReferenceOrigin::Markdown && r.reference.origin
            != ReferenceOrigin::Wikilink
}

spec fn rebuild_step(rebuilt: Seq<RebuiltNode>) -> spec_fn(Tables, int) -> Result<
    Tables,
    crate::model::Refusal,
> {
    |t: Tables, i: int| t.take_rebuilt(rebuilt[i])
}

proof fn lemma_derived_none_authored(
    t: Tables,
    id: NodeId,
    derived: crate::model::DerivedNodeRecords,
)
    requires
        belongs(derived, id),
        t.references.filter(is_authored()).len() == 0,
        t.replace_derived(id, derived) is Ok,
    ensures
        t.replace_derived(id, derived)->Ok_0.references.filter(is_authored()).len() == 0,
{
    let u = t.replace_derived(id, derived)->Ok_0;
    crate::record_laws::law_extracted_references_replace_the_old(t, id, derived);
    let authored = is_authored();
    let other = crate::record_laws::other_reference(id);
    lemma_filter_facts(u.references, authored);
    lemma_filter_facts(u.references, other);
    lemma_filter_facts(t.references, other);
    lemma_filter_facts(t.references, authored);
    let kept = u.references.filter(authored);
    if kept.len() > 0 {
        let row = kept[0];
        assert(kept.contains(row));
        assert(authored(row));
        assert(other(row));
        assert(u.references.contains(row));
        assert(u.references.filter(other).contains(row));
        assert(t.references.filter(other).contains(row));
        assert(t.references.contains(row));
        assert(t.references.filter(authored).contains(row));
    }
}

proof fn lemma_rebuilt(t: Tables, rebuilt: Seq<RebuiltNode>, n: int)
    requires
        0 <= n <= rebuilt.len(),
        unique_ids(t.nodes),
        t.references.len() == 0,
        forall|k: int|
            0 <= k < rebuilt.len() ==> belongs((#[trigger] rebuilt[k]).derived, rebuilt[k].node_id),
        run(t, n, rebuild_step(rebuilt)) is Ok,
    ensures
        ({
            let u = run(t, n, rebuild_step(rebuilt))->Ok_0;
            &&& u.references.filter(is_authored()).len() == 0
            &&& u.nodes.len() == t.nodes.len()
            &&& forall|i: int|
                0 <= i < t.nodes.len() ==> #[trigger] u.nodes[i] == (Node {
                    content_hash: u.nodes[i].content_hash,
                    ..t.nodes[i]
                })
            &&& u.revisions == t.revisions
        }),
    decreases n,
{
    reveal(Seq::filter);
    if n > 0 {
        lemma_rebuilt(t, rebuilt, n - 1);
        let before = run(t, n - 1, rebuild_step(rebuilt))->Ok_0;
        let item = rebuilt[n - 1];
        assert(belongs(rebuilt[n - 1].derived, rebuilt[n - 1].node_id));
        let hashed = Tables {
            nodes: crate::diagnostics::rehashed(
                before.nodes,
                item.node_id,
                item.derived.content_hash,
            ),
            ..before
        };
        if present(before.nodes, item.node_id) {
            let q = position(before.nodes, item.node_id);
            assert(before.nodes[q].id == item.node_id);
        }
        lemma_derived_nodes(hashed, item.node_id, item.derived);
        lemma_derived_none_authored(hashed, item.node_id, item.derived);
    }
}

/// A rebuild changes nothing of the nodes but their content hashes, and no revision. It keeps
/// every reference that no Markdown gives, in order, apart from the section it was found in.
pub proof fn law_rebuilding_keeps_what_was_authored(t: Tables, rebuilt: Seq<RebuiltNode>)
    requires
        unique_ids(t.nodes),
        forall|k: int|
            0 <= k < rebuilt.len() ==> belongs((#[trigger] rebuilt[k]).derived, rebuilt[k].node_id),
        t.rebuild(rebuilt) is Ok,
    ensures
        ({
            let u = t.rebuild(rebuilt)->Ok_0;
            let before = t.references.filter(is_authored());
            let after = u.references.filter(is_authored());
            &&& u.nodes.len() == t.nodes.len()
            &&& forall|i: int|
                0 <= i < t.nodes.len() ==> #[trigger] u.nodes[i] == (Node {
                    content_hash: u.nodes[i].content_hash,
                    ..t.nodes[i]
                })
            &&& u.revisions == t.revisions
            &&& after.len() == before.len()
            &&& forall|i: int|
                0 <= i < after.len() ==> (#[trigger] after[i]).reference == (ReferenceView {
                    source_section_id: None,
                    ..before[i].reference
                })
        }),
{
    let n = rebuilt.len() as int;
    let bare = Tables {
        references: Seq::empty(),
        sections: Seq::empty(),
        fts: Seq::empty(),
        ..t
    };
    let w = run(bare, n, |t: Tables, i: int| t.take_rebuilt(rebuilt[i]))->Ok_0;
    assert(run(bare, n, rebuild_step(rebuilt)) == Ok::<Tables, crate::model::Refusal>(w));
    lemma_rebuilt(bare, rebuilt, n);
    let views = preserved(t);
    let u = t.rebuild(rebuilt)->Ok_0;
    lemma_references_nodes(w, views, views.len() as int);
    let added = crate::record_laws::lemma_inserted_rows(w, views, views.len() as int);
    let authored = is_authored();
    let keep = |r: RowView| crate::diagnostics::is_preserved(r);
    lemma_same_filter(t.references, keep, authored);
    let before = t.references.filter(authored);
    lemma_filter_facts(t.references, authored);
    lemma_filter_of_sum(w.references, added, authored);
    assert forall|i: int| 0 <= i < added.len() implies authored(#[trigger] added[i]) by {
        assert(added[i].reference == views[i]);
        assert(authored(before[i]));
    }
    lemma_filter_all(added, authored);
    assert(u.references.filter(authored) =~= added);
}

proof fn lemma_same_filter<T>(rows: Seq<T>, a: spec_fn(T) -> bool, b: spec_fn(T) -> bool)
    requires
        forall|x: T| #[trigger] a(x) <==> b(x),
    ensures
        rows.filter(a) == rows.filter(b),
    decreases rows.len(),
{
    reveal(Seq::filter);
    if rows.len() > 0 {
        lemma_same_filter(rows.drop_last(), a, b);
        assert(a(rows.last()) <==> b(rows.last()));
    }
}

} // verus!
