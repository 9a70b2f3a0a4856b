//! What the reports on a workspace say of it.

use crate::diagnostics::texts;
use crate::integrity::{
    about, all_findings, computed, gather, latest, overall, ComputedHashes, FindingView,
};
use crate::maintenance::{
    combines, diagnosis, finding_lines, problems, schema_finding, CheckReport, CheckStatus,
    OpenedProbe,
};
use crate::migrations::LATEST_SCHEMA_VERSION;
use crate::model::{Node, NodeId, Section};
use crate::semantic::{ChunkState, SemanticView};
use crate::shape::lemma_filter_facts;
use crate::tables::Tables;
use crate::tree::{
    below, climb, ends, is_sole_root, is_tree, lemma_position, links, position, present, unique_ids,
};
use std::sync::Arc;
use vstd::prelude::*;

verus! {

proof fn lemma_gather<T>(rows: Seq<T>, f: spec_fn(T) -> Seq<FindingView>, n: int)
    requires
        0 <= n <= rows.len(),
    ensures
        forall|x: FindingView| #[trigger]
            gather(rows, f, n).contains(x) <==> exists|i: int|
                0 <= i < n && f(#[trigger] rows[i]).contains(x),
        gather(rows, f, n).len() == 0 <==> forall|i: int|
            0 <= i < n ==> f(#[trigger] rows[i]).len() == 0,
    decreases n,
{
    if n > 0 {
        lemma_gather(rows, f, n - 1);
        let before = gather(rows, f, n - 1);
        let last = f(rows[n - 1]);
        crate::search_laws::lemma_sum_contains(before, last);
        assert forall|x: FindingView| #[trigger]
            gather(rows, f, n).contains(x) <==> exists|i: int|
            0 <= i < n && f(#[trigger] rows[i]).contains(x) by {
            assert((before + last).contains(x) <==> before.contains(x) || last.contains(x));
            if before.contains(x) {
                let i = choose|i: int| 0 <= i < n - 1 && f(#[trigger] rows[i]).contains(x);
                assert(f(rows[i]).contains(x));
            }
            if last.contains(x) {
                assert(f(rows[n - 1]).contains(x));
            }
        }
        if gather(rows, f, n).len() == 0 {
            assert(f(rows[n - 1]).len() == 0);
        }
    }
}

proof fn lemma_when(condition: bool, finding: FindingView)
    ensures
        crate::integrity::when(condition, finding).len() == 0 <==> !condition,
        condition ==> crate::integrity::when(condition, finding).contains(finding),
{
    if condition {
        assert(crate::integrity::when(condition, finding)[0] == finding);
    }
}

/// The revision with the highest version of a node is the latest one.
proof fn lemma_latest(t: Tables, id: NodeId, n: int)
    requires
        0 <= n <= t.revisions.len(),
    ensures
        match latest(t, id, n) {
            Some(l) => 0 <= l < n && t.revisions[l].node_id == id && forall|i: int|
                0 <= i < n && (#[trigger] t.revisions[i]).node_id == id ==> t.revisions[i].version
                    <= t.revisions[l].version,
            None => forall|i: int| 0 <= i < n ==> (#[trigger] t.revisions[i]).node_id != id,
        },
    decreases n,
{
    if n > 0 {
        lemma_latest(t, id, n - 1);
    }
}

/// Whether hashes were computed for a node and are the stored ones.
pub open spec fn hashes_hold(hashes: Seq<ComputedHashes>, node: Node) -> bool {
    exists|k: int|
        0 <= k < hashes.len() && (#[trigger] hashes[k]).node_id == node.id
            && hashes[k].content_hash == node.content_hash && hashes[k].revision_hash
            == node.revision_hash
}

/// Whether hashes are given once for a node at most.
pub open spec fn given_once(hashes: Seq<ComputedHashes>) -> bool {
    forall|i: int, j: int|
        0 <= i < hashes.len() && 0 <= j < hashes.len() && (#[trigger] hashes[i]).node_id == (
        #[trigger] hashes[j]).node_id ==> i == j
}

proof fn lemma_computed(hashes: Seq<ComputedHashes>, id: NodeId, n: int)
    requires
        0 <= n <= hashes.len(),
    ensures
        match computed(hashes, id, n) {
            Some(h) => h.node_id == id && exists|k: int| 0 <= k < n && #[trigger] hashes[k] == h,
            None => forall|k: int| 0 <= k < n ==> (#[trigger] hashes[k]).node_id != id,
        },
    decreases n,
{
    if n > 0 && hashes[n - 1].node_id != id {
        lemma_computed(hashes, id, n - 1);
    }
}

/// Whether every recorded version of a node is at most its own, and the one recorded under its
/// own version has its hash, if any version is recorded.
pub open spec fn head_holds(t: Tables, node: Node) -> bool {
    forall|i: int|
        0 <= i < t.revisions.len() && (#[trigger] t.revisions[i]).node_id == node.id ==> (
        t.revisions[i].version < node.version && exists|j: int|
            0 <= j < t.revisions.len() && (#[trigger] t.revisions[j]).node_id == node.id
                && t.revisions[j].version > t.revisions[i].version) || (t.revisions[i].version
            == node.version && t.revisions[i].revision_hash == node.revision_hash)
}

proof fn lemma_head(t: Tables, node: Node)
    requires
        t.unique_versions(),
    ensures
        head_holds(t, node) <==> !(latest(t, node.id, t.revisions.len() as int) matches Some(l) && (
        t.revisions[l].version != node.version || t.revisions[l].revision_hash
            != node.revision_hash)),
{
    let n = t.revisions.len() as int;
    lemma_latest(t, node.id, n);
    match latest(t, node.id, n) {
        None => {},
        Some(l) => {
            if head_holds(t, node) {
                assert(t.revisions[l].node_id == node.id);
                if t.revisions[l].version < node.version {
                    let j = choose|j: int|
                        0 <= j < t.revisions.len() && (#[trigger] t.revisions[j]).node_id == node.id
                            && t.revisions[j].version > t.revisions[l].version;
                }
            }
            if t.revisions[l].version == node.version && t.revisions[l].revision_hash
                == node.revision_hash {
                assert forall|i: int|
                    0 <= i < t.revisions.len() && (#[trigger] t.revisions[i]).node_id
                        == node.id implies (t.revisions[i].version < node.version && exists|j: int|
                    0 <= j < t.revisions.len() && (#[trigger] t.revisions[j]).node_id == node.id
                        && t.revisions[j].version > t.revisions[i].version) || (
                t.revisions[i].version == node.version && t.revisions[i].revision_hash
                    == node.revision_hash) by {
                    if t.revisions[i].version == t.revisions[l].version {
                        assert(i == l);
                    } else {
                        assert(t.revisions[l].node_id == node.id);
                    }
                }
            }
        },
    }
}

/// Number of siblings that stand before a node: at a smaller position, or at the same one with
/// a smaller identity.
pub open spec fn stands_before(node: Node) -> spec_fn(Node) -> bool {
    |other: Node|
        other.parent_id == node.parent_id && (other.sibling_order < node.sibling_order || (
        other.sibling_order == node.sibling_order && other.id.value < node.id.value))
}

proof fn lemma_rank(nodes: Seq<Node>, node: Node, n: int)
    requires
        0 <= n <= nodes.len(),
    ensures
        crate::edits::count_before(nodes, node.parent_id, node, n) == nodes.take(n).filter(
            stands_before(node),
        ).len(),
    decreases n,
{
    reveal(Seq::filter);
    if n > 0 {
        lemma_rank(nodes, node, n - 1);
        assert(nodes.take(n).drop_last() =~= nodes.take(n - 1));
        assert(nodes.take(n).last() == nodes[n - 1]);
    }
}

/// Nodes without a parent.
pub open spec fn is_top() -> spec_fn(Node) -> bool {
    |n: Node| n.parent_id is None
}

/// Whether nothing is wrong with a node: its parent is there; it is below a root; it stands at
/// the position that its siblings leave it; its hashes hold; and its head is its latest
/// revision.
pub open spec fn is_sound_node(t: Tables, hashes: Seq<ComputedHashes>, n: Node) -> bool {
    &&& n.parent_id matches Some(p) ==> present(t.nodes, p)
    &&& exists|r: int|
        0 <= r < t.nodes.len() && (#[trigger] t.nodes[r]).parent_id is None && below(
            links(t.nodes),
            t.nodes[r].id,
            n.id,
        )
    &&& n.sibling_order == t.nodes.filter(stands_before(n)).len()
    &&& hashes_hold(hashes, n)
    &&& head_holds(t, n)
}

/// Whether nothing is wrong with the tables: one root, sound nodes, whole section hashes, and a
/// document for each section.
pub open spec fn is_sound(t: Tables, hashes: Seq<ComputedHashes>) -> bool {
    &&& t.nodes.filter(is_top()).len() == 1
    &&& forall|i: int|
        0 <= i < t.nodes.len() ==> #[trigger] is_sound_node(t, hashes, t.nodes[i])
    &&& forall|i: int|
        0 <= i < t.sections.len() ==> (#[trigger] t.sections[i]).content_hash@.len() == 32
    &&& t.sections.len() == t.fts.len()
}

/// Whether every ready chunk has a finite vector of its profile's length.
pub open spec fn vectors_hold(index: SemanticView) -> bool {
    forall|i: int|
        0 <= i < index.chunks.len() && (#[trigger] index.chunks[i]).state == ChunkState::Ready ==> {
            let c = index.chunks[i];
            &&& c.profile < index.profiles.len()
            &&& c.embedding is Some
            &&& crate::semantic::is_stored_vector(
                c.embedding->0,
                index.profiles[c.profile as int].dimensions,
            )
        }
}

proof fn lemma_vectors(index: SemanticView, n: int)
    requires
        0 <= n <= index.chunks.len(),
    ensures
        index.vector_findings(n).len() == 0 <==> forall|i: int|
            0 <= i < n ==> !index.is_corrupt(#[trigger] index.chunks[i]),
    decreases n,
{
    if n > 0 {
        lemma_vectors(index, n - 1);
        if index.vector_findings(n).len() == 0 {
            assert forall|i: int| 0 <= i < n implies !index.is_corrupt(
                #[trigger] index.chunks[i],
            ) by {
                if i == n - 1 {
                    assert(!index.is_corrupt(index.chunks[n - 1]));
                }
            }
        }
    }
}

pub proof fn lemma_counted_all<T>(rows: Seq<T>, pred: spec_fn(T) -> bool, n: int)
    requires
        0 <= n <= rows.len(),
    ensures
        crate::removal::count_where(rows, pred, n) <= n,
        crate::removal::count_where(rows, pred, n) == n <==> forall|i: int|
            0 <= i < n ==> pred(#[trigger] rows[i]),
    decreases n,
{
    if n > 0 {
        lemma_counted_all(rows, pred, n - 1);
        if crate::removal::count_where(rows, pred, n) == n {
            assert(pred(rows[n - 1]));
        }
    }
}

proof fn lemma_sound_node(t: Tables, hashes: Seq<ComputedHashes>, x: Node)
    requires
        t.unique_versions(),
        given_once(hashes),
    ensures
        is_sound_node(t, hashes, x) <==> t.orphan_finding(x).len() == 0 && t.order_finding(x).len()
            == 0 && t.node_findings(hashes, x).len() == 0 && t.is_reachable(x),
{
    let n = t.nodes.len() as int;
    assert(t.nodes.take(n) =~= t.nodes);
    lemma_rank(t.nodes, x, n);
    lemma_head(t, x);
    lemma_computed(hashes, x.id, hashes.len() as int);
    if hashes_hold(hashes, x) {
        let k = choose|k: int|
            0 <= k < hashes.len() && (#[trigger] hashes[k]).node_id == x.id
                && hashes[k].content_hash == x.content_hash && hashes[k].revision_hash
                == x.revision_hash;
        let h = computed(hashes, x.id, hashes.len() as int)->0;
        let m = choose|m: int| 0 <= m < hashes.len() && #[trigger] hashes[m] == h;
        assert(hashes[m].node_id == hashes[k].node_id);
    }
}

proof fn lemma_sound_rows(
    t: Tables,
    hashes: Seq<ComputedHashes>,
    by_id: Seq<Node>,
)
    requires
        t.unique_versions(),
        given_once(hashes),
        t.by_identity(by_id),
    ensures
        (forall|i: int| 0 <= i < t.nodes.len() ==> #[trigger] is_sound_node(t, hashes, t.nodes[i]))
            <==> {
            let n = t.nodes.len() as int;
            &&& gather(t.nodes, |x: Node| t.orphan_finding(x), n).len() == 0
            &&& gather(t.nodes, |x: Node| t.order_finding(x), n).len() == 0
            &&& gather(by_id, |x: Node| t.node_findings(hashes, x), by_id.len() as int).len() == 0
            &&& t.reachable_count() == n
        },
{
    let n = t.nodes.len() as int;
    let orphan = |x: Node| t.orphan_finding(x);
    let order = |x: Node| t.order_finding(x);
    let own = |x: Node| t.node_findings(hashes, x);
    let reached = |x: Node| t.is_reachable(x);
    lemma_gather(t.nodes, orphan, n);
    lemma_gather(t.nodes, order, n);
    lemma_gather(by_id, own, by_id.len() as int);
    lemma_counted_all(t.nodes, reached, n);
    let everything = |x: Node| true;
    if forall|i: int| 0 <= i < n ==> #[trigger] is_sound_node(t, hashes, t.nodes[i]) {
        assert forall|i: int| 0 <= i < n implies orphan(#[trigger] t.nodes[i]).len() == 0 && order(
            t.nodes[i],
        ).len() == 0 && reached(t.nodes[i]) by {
            assert(is_sound_node(t, hashes, t.nodes[i]));
            lemma_sound_node(t, hashes, t.nodes[i]);
        }
        assert forall|i: int| 0 <= i < by_id.len() implies own(#[trigger] by_id[i]).len() == 0 by {
            assert(by_id.contains(by_id[i]));
            let k = choose|k: int| 0 <= k < n && t.nodes[k] == by_id[i];
            assert(is_sound_node(t, hashes, t.nodes[k]));
            lemma_sound_node(t, hashes, t.nodes[k]);
        }
    }
    if gather(t.nodes, orphan, n).len() == 0 && gather(t.nodes, order, n).len() == 0 && gather(
        by_id,
        own,
        by_id.len() as int,
    ).len() == 0 && t.reachable_count() == n {
        assert forall|i: int| 0 <= i < n implies #[trigger] is_sound_node(
            t,
            hashes,
            t.nodes[i],
        ) by {
            let x = t.nodes[i];
            assert(t.nodes.contains(x));
            assert(everything(x));
            assert(by_id.contains(x));
            let k = choose|k: int| 0 <= k < by_id.len() && by_id[k] == x;
            assert(own(by_id[k]).len() == 0);
            assert(orphan(t.nodes[i]).len() == 0 && order(t.nodes[i]).len() == 0);
            assert(reached(t.nodes[i]));
            lemma_sound_node(t, hashes, x);
        }
    }
}

proof fn lemma_sound_vectors(index: SemanticView)
    ensures
        index.vector_findings(index.chunks.len() as int).len() == 0 <==> vectors_hold(index),
{
    lemma_vectors(index, index.chunks.len() as int);
    if index.vector_findings(index.chunks.len() as int).len() == 0 {
        assert forall|i: int|
            0 <= i < index.chunks.len() && (#[trigger] index.chunks[i]).state
                == ChunkState::Ready implies ({
            let c = index.chunks[i];
            &&& c.profile < index.profiles.len()
            &&& c.embedding is Some
            &&& crate::semantic::is_stored_vector(
                c.embedding->0,
                index.profiles[c.profile as int].dimensions,
            )
        }) by {
            assert(!index.is_corrupt(index.chunks[i]));
        }
    }
    if vectors_hold(index) {
        assert forall|i: int| 0 <= i < index.chunks.len() implies !index.is_corrupt(
            #[trigger] index.chunks[i],
        ) by {}
    }
}

proof fn lemma_sound_sections(t: Tables)
    ensures
        gather(
            t.sections,
            |s: Arc<Section>| t.section_finding(s),
            t.sections.len() as int,
        ).len() == 0 <==> forall|i: int|
            0 <= i < t.sections.len() ==> (#[trigger] t.sections[i]).content_hash@.len() == 32,
{
    let section = |s: Arc<Section>| t.section_finding(s);
    let m = t.sections.len() as int;
    lemma_gather(t.sections, section, m);
    if gather(t.sections, section, m).len() == 0 {
        assert forall|i: int| 0 <= i < m implies (#[trigger] t.sections[i]).content_hash@.len()
            == 32 by {
            assert(section(t.sections[i]).len() == 0);
        }
    }
}

/// No finding is reported exactly when nothing is wrong.
pub proof fn law_no_finding_means_sound(
    t: Tables,
    index: SemanticView,
    hashes: Seq<ComputedHashes>,
    by_id: Seq<Node>,
)
    requires
        t.unique_versions(),
        given_once(hashes),
        t.by_identity(by_id),
    ensures
        all_findings(t, index, hashes, by_id).len() == 0 <==> is_sound(t, hashes) && vectors_hold(
            index,
        ),
{
    let n = t.nodes.len() as int;
    assert(t.nodes.take(n) =~= t.nodes);
    let top = |x: Node| x.parent_id is None;
    crate::record_laws::lemma_count_is_filter(t.nodes, top, is_top(), n);
    lemma_sound_rows(t, hashes, by_id);
    lemma_sound_vectors(index);
    lemma_sound_sections(t);
    assert(all_findings(t, index, hashes, by_id).len() == t.findings(hashes, by_id).len()
        + index.vector_findings(index.chunks.len() as int).len());
}

proof fn lemma_sound_ends(t: Tables, hashes: Seq<ComputedHashes>, id: NodeId)
    requires
        unique_ids(t.nodes),
        is_sound(t, hashes),
    ensures
        ends(links(t.nodes), id),
{
    let up = links(t.nodes);
    if present(t.nodes, id) {
        let i = position(t.nodes, id);
        assert(t.nodes[i].id == id);
        assert(is_sound_node(t, hashes, t.nodes[i]));
        let r = choose|r: int|
            0 <= r < t.nodes.len() && (#[trigger] t.nodes[r]).parent_id is None && below(
                up,
                t.nodes[r].id,
                id,
            );
        lemma_position(t.nodes, r);
        let k = choose|k: nat| #[trigger] climb(up, id, k) == Some(t.nodes[r].id);
        assert(!up.contains_key(t.nodes[r].id));
        assert(climb(up, id, k + 1) is None);
    } else {
        assert(climb(up, id, 0) == Some(id));
        assert(climb(up, id, 1) is None) by {
            reveal_with_fuel(climb, 2);
        }
    }
}

proof fn lemma_sole_root(nodes: Seq<Node>)
    requires
        unique_ids(nodes),
        nodes.filter(is_top()).len() == 1,
    ensures
        exists|r: int| is_sole_root(nodes, r),
{
    let kept = nodes.filter(is_top());
    lemma_filter_facts(nodes, is_top());
    assert(kept.contains(kept[0]));
    let r = choose|r: int| 0 <= r < nodes.len() && nodes[r] == kept[0];
    assert(is_sole_root(nodes, r)) by {
        assert forall|i: int| 0 <= i < nodes.len() implies (#[trigger] nodes[i].parent_id is None
            <==> i == r) by {
            if nodes[i].parent_id is None {
                assert(is_top()(nodes[i]));
                assert(nodes.contains(nodes[i]));
                assert(kept.contains(nodes[i]));
                let k = choose|k: int| 0 <= k < kept.len() && kept[k] == nodes[i];
                assert(k == 0);
                assert(nodes[i].id == nodes[r].id);
            }
            assert(is_top()(kept[0]));
        }
    }
}

/// Where no finding is reported the nodes form one tree.
pub proof fn law_no_finding_means_one_tree(
    t: Tables,
    index: SemanticView,
    hashes: Seq<ComputedHashes>,
    by_id: Seq<Node>,
)
    requires
        unique_ids(t.nodes),
        t.unique_versions(),
        given_once(hashes),
        t.by_identity(by_id),
        all_findings(t, index, hashes, by_id).len() == 0,
    ensures
        is_tree(t.nodes),
{
    law_no_finding_means_sound(t, index, hashes, by_id);
    assert forall|id: NodeId| #[trigger] ends(links(t.nodes), id) by {
        lemma_sound_ends(t, hashes, id);
    }
    assert forall|i: int| 0 <= i < t.nodes.len() && (#[trigger] t.nodes[i]).parent_id is Some implies present(
        t.nodes,
        t.nodes[i].parent_id->0,
    ) by {
        assert(is_sound_node(t, hashes, t.nodes[i]));
    }
    lemma_sole_root(t.nodes);
}

/// A fault of a node is reported under the node's identity.
pub proof fn law_faults_name_their_node(
    t: Tables,
    index: SemanticView,
    hashes: Seq<ComputedHashes>,
    by_id: Seq<Node>,
    i: int,
)
    requires
        t.by_identity(by_id),
        0 <= i < t.nodes.len(),
    ensures
        ({
            let n = t.nodes[i];
            let all = all_findings(t, index, hashes, by_id);
            &&& n.parent_id is Some && !present(t.nodes, n.parent_id->0) ==> all.contains(
                about("orphan"@, n.id, "parent does not exist"@),
            )
            &&& n.sibling_order != t.nodes.filter(stands_before(n)).len() ==> all.contains(
                about("sibling_order"@, n.id, "sibling order is not normalized"@),
            )
            &&& (forall|k: int|
                0 <= k < hashes.len() && (#[trigger] hashes[k]).node_id == n.id
                    ==> hashes[k].content_hash != n.content_hash) ==> all.contains(
                about("content_hash"@, n.id, "content hash mismatch"@),
            )
            &&& (forall|k: int|
                0 <= k < hashes.len() && (#[trigger] hashes[k]).node_id == n.id
                    ==> hashes[k].revision_hash != n.revision_hash) ==> all.contains(
                about("revision_hash"@, n.id, "revision hash does not match canonical fields"@),
            )
            &&& t.unique_versions() && !head_holds(t, n) ==> all.contains(
                about("revision_head"@, n.id, "head does not match latest revision"@),
            )
        }),
{
    let n = t.nodes[i];
    let m = t.nodes.len() as int;
    assert(t.nodes.take(m) =~= t.nodes);
    lemma_rank(t.nodes, n, m);
    if t.unique_versions() {
        lemma_head(t, n);
    }
    lemma_computed(hashes, n.id, hashes.len() as int);
    let orphan = |x: Node| t.orphan_finding(x);
    let order = |x: Node| t.order_finding(x);
    let own = |x: Node| t.node_findings(hashes, x);
    lemma_gather(t.nodes, orphan, m);
    lemma_gather(t.nodes, order, m);
    lemma_gather(by_id, own, by_id.len() as int);
    let everything = |x: Node| true;
    assert(t.nodes.contains(n) && everything(n));
    assert(by_id.contains(n));
    let k = choose|k: int| 0 <= k < by_id.len() && by_id[k] == n;
    assert(own(by_id[k]) == own(n));
    let one = crate::integrity::when(
        t.root_count() != 1,
        overall(
            "root_count"@,
            "expected 1 root, found "@ + crate::text::decimal(t.root_count()),
        ),
    );
    let two = gather(t.nodes, orphan, m);
    let three = crate::integrity::when(
        t.reachable_count() != t.nodes.len(),
        overall(
            "unreachable"@,
            crate::text::decimal(t.reachable_count()) + " of "@ + crate::text::decimal(
                t.nodes.len(),
            ) + " nodes reachable"@,
        ),
    );
    let four = gather(t.nodes, order, m);
    let five = gather(by_id, own, by_id.len() as int);
    let six = gather(
        t.sections,
        |s: Arc<Section>| t.section_finding(s),
        t.sections.len() as int,
    );
    let seven = crate::integrity::when(
        t.sections.len() != t.fts.len(),
        overall(
            "fts_consistency"@,
            crate::text::decimal(t.sections.len()) + " sections but "@ + crate::text::decimal(
                t.fts.len(),
            ) + " FTS rows"@,
        ),
    );
    let eight = index.vector_findings(index.chunks.len() as int);
    assert(all_findings(t, index, hashes, by_id) == one + two + three + four + five + six + seven
        + eight);
    crate::search_laws::lemma_sum_contains(one, two);
    crate::search_laws::lemma_sum_contains(one + two, three);
    crate::search_laws::lemma_sum_contains(one + two + three, four);
    crate::search_laws::lemma_sum_contains(one + two + three + four, five);
    crate::search_laws::lemma_sum_contains(one + two + three + four + five, six);
    crate::search_laws::lemma_sum_contains(one + two + three + four + five + six, seven);
    crate::search_laws::lemma_sum_contains(one + two + three + four + five + six + seven, eight);
    if t.is_orphan(n) {
        let f = about("orphan"@, n.id, "parent does not exist"@);
        lemma_when(true, f);
        assert(orphan(t.nodes[i]).contains(f));
    }
    if n.sibling_order != crate::edits::sibling_rank(t.nodes, n) {
        let f = about("sibling_order"@, n.id, "sibling order is not normalized"@);
        lemma_when(true, f);
        assert(order(t.nodes[i]).contains(f));
    }
    let given = computed(hashes, n.id, hashes.len() as int);
    let head = latest(t, n.id, t.revisions.len() as int);
    let content = about("content_hash"@, n.id, "content hash mismatch"@);
    let revision = about("revision_hash"@, n.id, "revision hash does not match canonical fields"@);
    let behind = about("revision_head"@, n.id, "head does not match latest revision"@);
    let p = crate::integrity::when(!(given matches Some(h) && h.content_hash == n.content_hash), content);
    let q = crate::integrity::when(!(given matches Some(h) && h.revision_hash == n.revision_hash), revision);
    let r = crate::integrity::when(
        head matches Some(l) && (t.revisions[l].version != n.version || t.revisions[l].revision_hash
            != n.revision_hash),
        behind,
    );
    assert(own(n) == p + q + r);
    crate::search_laws::lemma_sum_contains(p, q);
    crate::search_laws::lemma_sum_contains(p + q, r);
    lemma_when(true, content);
    lemma_when(true, revision);
    lemma_when(true, behind);
    assert(own(by_id[k]).contains(content) ==> five.contains(content));
    assert(own(by_id[k]).contains(revision) ==> five.contains(revision));
    assert(own(by_id[k]).contains(behind) ==> five.contains(behind));
}

/// A check is healthy exactly when every message says so and there is no finding. It repeats
/// the other messages and every finding.
pub proof fn law_a_check_is_healthy_without_problems(
    report: CheckReport,
    messages: Seq<Seq<char>>,
    findings: Seq<FindingView>,
)
    requires
        combines(report, messages, findings),
    ensures
        report.status == CheckStatus::Healthy <==> findings.len() == 0 && forall|i: int|
            0 <= i < messages.len() ==> #[trigger] messages[i] == "ok"@,
        forall|m: Seq<char>|
            m != "ok"@ ==> (#[trigger] messages.contains(m) <==> texts(
                report.sqlite_findings@,
            ).contains(m)),
        report.mdtree_findings@.len() == findings.len(),
        forall|i: int|
            0 <= i < findings.len() ==> (#[trigger] report.mdtree_findings@[i])@
                == findings[i].code + ": "@ + findings[i].detail,
{
    let bad = |m: Seq<char>| m != "ok"@;
    lemma_filter_facts(messages, bad);
    let kept = messages.filter(bad);
    assert(problems(messages) == kept);
    if kept.len() == 0 {
        assert forall|i: int| 0 <= i < messages.len() implies #[trigger] messages[i] == "ok"@ by {
            assert(messages.contains(messages[i]));
            if messages[i] != "ok"@ {
                assert(bad(messages[i]));
                assert(kept.contains(messages[i]));
            }
        }
    } else {
        assert(bad(kept[0]));
        assert(kept.contains(kept[0]));
        assert(messages.contains(kept[0]));
        let i = choose|i: int| 0 <= i < messages.len() && messages[i] == kept[0];
        assert(messages[i] != "ok"@);
    }
    assert forall|m: Seq<char>| m != "ok"@ implies (#[trigger] messages.contains(m) <==> texts(
        report.sqlite_findings@,
    ).contains(m)) by {
        assert(bad(m));
        assert(kept.contains(m) <==> messages.contains(m));
    }
    let lines = texts(report.mdtree_findings@);
    assert(lines == finding_lines(findings));
    assert(lines.len() == findings.len());
    assert forall|i: int| 0 <= i < findings.len() implies (#[trigger] report.mdtree_findings@[i])@
        == findings[i].code + ": "@ + findings[i].detail by {
        assert(lines[i] == finding_lines(findings)[i]);
    }
}

/// A diagnosis blocks exactly when the workspace does not open, is newer than supported, is
/// read-only or locked, or has no full-text index.
pub proof fn law_a_diagnosis_blocks_for_a_reason(
    probe: Result<OpenedProbe, String>,
    healthy: Option<bool>,
)
    ensures
        (exists|i: int|
            0 <= i < diagnosis(probe, healthy).len() && (#[trigger] diagnosis(
                probe,
                healthy,
            )[i]).blocking) <==> match probe {
            Err(_) => true,
            Ok(p) => p.schema > LATEST_SCHEMA_VERSION || p.read_only || p.locked
                || !p.fts5_available,
        },
        (exists|i: int|
            0 <= i < diagnosis(probe, healthy).len() && (#[trigger] diagnosis(
                probe,
                healthy,
            )[i]).code == "rebuild_recommended"@) <==> healthy == Some(false),
{
    let all = diagnosis(probe, healthy);
    reveal_strlit("rebuild_recommended");
    reveal_strlit("format_compatibility");
    reveal_strlit("write_permission");
    reveal_strlit("write_lock");
    reveal_strlit("fts5");
    reveal_strlit("open");
    assert("rebuild_recommended"@.len() == 19 && "format_compatibility"@.len() == 20
        && "write_permission"@.len() == 16 && "write_lock"@.len() == 10 && "fts5"@.len() == 4
        && "open"@.len() == 4);
    match probe {
        Ok(p) => {
            assert(all[0] == schema_finding(p.schema));
            assert(all[1].blocking == p.read_only && all[1].code == "write_permission"@);
            assert(all[2].blocking == p.locked && all[2].code == "write_lock"@);
            assert(all[3].blocking == !p.fts5_available && all[3].code == "fts5"@);
            if healthy == Some(false) {
                assert(all.len() == 5);
                assert(all[4].code == "rebuild_recommended"@ && !all[4].blocking);
            } else {
                assert(all.len() == 4);
            }
        },
        Err(e) => {
            assert(all[0].blocking && all[0].code == "open"@);
            assert(all[1].code == "fts5"@);
            if healthy == Some(false) {
                assert(all.len() == 3);
                assert(all[2].code == "rebuild_recommended"@);
            } else {
                assert(all.len() == 2);
            }
        },
    }
}

} // verus!
