//! Workspace validation: every broken rule as a finding.

use crate::edits::{rank_of, sibling_rank, subtree_flags};
use crate::listing::{arranges, lemma_arranged_lists, lists, picks};
use crate::model::{Node, NodeHash, NodeId, Section};
use crate::order::{lex_le, sorted_positions};
use crate::pages::{resume_at, resume_point, take_page};
use crate::paging::{
    page_items, CursorScope, Page, PageCursor, PageLimit, PagePosition, PageReadError,
    PaginationError, PositionView, ScopeView,
};
use crate::removal::count_where;
use crate::semantic::{SemanticIndex, SemanticView};
use crate::tables::{SqliteStore, Tables};
use crate::text::{code_points, decimal, push_wide, to_code_points};
use crate::tree::{below, find, links, present, unique_ids};
use std::sync::Arc;
use vstd::prelude::*;

verus! {

/// One precise workspace-integrity violation.
#[derive(Debug)]
pub struct IntegrityFinding {
    /// Stable machine-readable finding code.
    pub code: String,
    /// Affected node when applicable.
    pub node_id: Option<NodeId>,
    /// Actionable detail.
    pub detail: String,
}

/// The contents of an [`IntegrityFinding`].
pub struct FindingView {
    pub code: Seq<char>,
    pub node_id: Option<NodeId>,
    pub detail: Seq<char>,
}

impl View for IntegrityFinding {
    type V = FindingView;

    open spec fn view(&self) -> FindingView {
        FindingView { code: self.code@, node_id: self.node_id, detail: self.detail@ }
    }
}

impl IntegrityFinding {
    pub fn copy(&self) -> (finding: IntegrityFinding)
        ensures
            finding@ == self@,
    {
        IntegrityFinding {
            code: self.code.clone(),
            node_id: self.node_id,
            detail: self.detail.clone(),
        }
    }
}

/// Complete non-mutating workspace validation result.
#[derive(Debug)]
pub struct IntegrityReport {
    /// All detected violations.
    pub findings: Vec<IntegrityFinding>,
}

impl IntegrityReport {
    /// Whether no violations were found.
    pub fn is_healthy(&self) -> (healthy: bool)
        ensures
            healthy == (self.findings@.len() == 0),
    {
        self.findings.len() == 0
    }
}

/// The hashes that a node's contents have.
#[derive(Clone, Copy, Debug, PartialEq, Eq, Structural)]
pub struct ComputedHashes {
    pub node_id: NodeId,
    pub content_hash: NodeHash,
    pub revision_hash: NodeHash,
}

/// The hashes computed for a node, among the first `n`.
pub open spec fn computed(hashes: Seq<ComputedHashes>, id: NodeId, n: int) -> Option<ComputedHashes>
    decreases n,
{
    if n <= 0 {
        None
    } else if hashes[n - 1].node_id == id {
        Some(hashes[n - 1])
    } else {
        computed(hashes, id, n - 1)
    }
}

fn find_computed(hashes: &Vec<ComputedHashes>, id: NodeId) -> (found: Option<ComputedHashes>)
    ensures
        found == computed(hashes@, id, hashes@.len() as int),
{
    let mut i: usize = hashes.len();
    while i > 0
        invariant
            i <= hashes.len(),
            computed(hashes@, id, hashes@.len() as int) == computed(hashes@, id, i as int),
        decreases i,
    {
        i = i - 1;
        if hashes[i].node_id == id {
            return Some(hashes[i]);
        }
    }
    None
}

pub open spec fn finding_views(findings: Seq<IntegrityFinding>) -> Seq<FindingView> {
    Seq::new(findings.len(), |i: int| findings[i]@)
}

/// A finding about one row.
pub open spec fn about(code: Seq<char>, id: NodeId, detail: Seq<char>) -> FindingView {
    FindingView { code, node_id: Some(id), detail }
}

/// A finding about the whole workspace.
pub open spec fn overall(code: Seq<char>, detail: Seq<char>) -> FindingView {
    FindingView { code, node_id: None, detail }
}

/// One finding if the condition holds, else none.
pub open spec fn when(condition: bool, finding: FindingView) -> Seq<FindingView> {
    if condition {
        seq![finding]
    } else {
        Seq::empty()
    }
}

/// The findings of the first `n` rows, in row order.
pub open spec fn gather<T>(
    rows: Seq<T>,
    findings: spec_fn(T) -> Seq<FindingView>,
    n: int,
) -> Seq<FindingView>
    decreases n,
{
    if n <= 0 {
        Seq::empty()
    } else {
        gather(rows, findings, n - 1) + findings(rows[n - 1])
    }
}

/// The latest stored version of a node among the first `n` revisions: its
/// position.
pub open spec fn latest(t: Tables, id: NodeId, n: int) -> Option<int>
    decreases n,
{
    if n <= 0 {
        None
    } else {
        let before = latest(t, id, n - 1);
        if t.revisions[n - 1].node_id != id {
            before
        } else {
            match before {
                Some(b) => if t.revisions[b].version > t.revisions[n - 1].version {
                    Some(b)
                } else {
                    Some(n - 1)
                },
                None => Some(n - 1),
            }
        }
    }
}

impl Tables {
    pub open spec fn root_count(self) -> nat {
        count_where(self.nodes, |n: Node| n.parent_id is None, self.nodes.len() as int)
    }

    /// Whether the node's parent does not exist.
    pub open spec fn is_orphan(self, node: Node) -> bool {
        node.parent_id matches Some(p) && !present(self.nodes, p)
    }

    /// Whether the node hangs on a root.
    pub open spec fn is_reachable(self, node: Node) -> bool {
        exists|r: int|
            0 <= r < self.nodes.len() && (#[trigger] self.nodes[r]).parent_id is None && below(
                links(self.nodes),
                self.nodes[r].id,
                node.id,
            )
    }

    pub open spec fn reachable_count(self) -> nat {
        count_where(self.nodes, |n: Node| self.is_reachable(n), self.nodes.len() as int)
    }

    pub open spec fn orphan_finding(self, node: Node) -> Seq<FindingView> {
        when(self.is_orphan(node), about("orphan"@, node.id, "parent does not exist"@))
    }

    pub open spec fn order_finding(self, node: Node) -> Seq<FindingView> {
        when(
            node.sibling_order != sibling_rank(self.nodes, node),
            about("sibling_order"@, node.id, "sibling order is not normalized"@),
        )
    }

    /// What is wrong with the hashes and the head of one node.
    pub open spec fn node_findings(self, hashes: Seq<ComputedHashes>, node: Node) -> Seq<
        FindingView,
    > {
        let own = computed(hashes, node.id, hashes.len() as int);
        let head = latest(self, node.id, self.revisions.len() as int);
        when(
            !(own matches Some(h) && h.content_hash == node.content_hash),
            about("content_hash"@, node.id, "content hash mismatch"@),
        ) + when(
            !(own matches Some(h) && h.revision_hash == node.revision_hash),
            about(
                "revision_hash"@,
                node.id,
                "revision hash does not match canonical fields"@,
            ),
        ) + when(
            head matches Some(l) && (self.revisions[l].version != node.version
                || self.revisions[l].revision_hash != node.revision_hash),
            about("revision_head"@, node.id, "head does not match latest revision"@),
        )
    }

    pub open spec fn section_finding(self, section: Arc<Section>) -> Seq<FindingView> {
        when(
            section.content_hash@.len() != 32,
            about("section_hash"@, section.id, "invalid section hash"@),
        )
    }

    /// Every finding, given the nodes by identity.
    pub open spec fn findings(self, hashes: Seq<ComputedHashes>, by_id: Seq<Node>) -> Seq<
        FindingView,
    > {
        when(
            self.root_count() != 1,
            overall("root_count"@, "expected 1 root, found "@ + decimal(self.root_count())),
        ) + gather(
            self.nodes,
            |n: Node| self.orphan_finding(n),
            self.nodes.len() as int,
        ) + when(
            self.reachable_count() != self.nodes.len(),
            overall(
                "unreachable"@,
                decimal(self.reachable_count()) + " of "@ + decimal(self.nodes.len())
                    + " nodes reachable"@,
            ),
        ) + gather(
            self.nodes,
            |n: Node| self.order_finding(n),
            self.nodes.len() as int,
        ) + gather(
            by_id,
            |n: Node| self.node_findings(hashes, n),
            by_id.len() as int,
        ) + gather(
            self.sections,
            |s: Arc<Section>| self.section_finding(s),
            self.sections.len() as int,
        ) + when(
            self.sections.len() != self.fts.len(),
            overall(
                "fts_consistency"@,
                decimal(self.sections.len()) + " sections but "@ + decimal(self.fts.len())
                    + " FTS rows"@,
            ),
        )
    }

    /// Whether the sequence holds all nodes by identity.
    pub open spec fn by_identity(self, listed: Seq<Node>) -> bool {
        lists(self.nodes, |n: Node| true, |n: Node| seq![n.id.value], listed)
    }
}

/// Every finding of a workspace with its semantic index, given the nodes by identity.
pub open spec fn all_findings(
    t: Tables,
    index: SemanticView,
    hashes: Seq<ComputedHashes>,
    by_id: Seq<Node>,
) -> Seq<FindingView> {
    t.findings(hashes, by_id) + index.vector_findings(index.chunks.len() as int)
}

fn finding(code: &str, node_id: Option<NodeId>, detail: &str) -> (finding: IntegrityFinding)
    ensures
        finding@ == (FindingView { code: code@, node_id, detail: detail@ }),
{
    IntegrityFinding { code: code.to_owned(), node_id, detail: detail.to_owned() }
}

/// Adds a finding if the condition holds.
fn note(
    findings: &mut Vec<IntegrityFinding>,
    condition: bool,
    code: &str,
    node_id: Option<NodeId>,
    detail: &str,
)
    ensures
        finding_views(final(findings)@) == finding_views(old(findings)@) + when(
            condition,
            FindingView { code: code@, node_id, detail: detail@ },
        ),
{
    if condition {
        findings.push(finding(code, node_id, detail));
    }
    assert(finding_views(findings@) =~= finding_views(old(findings)@) + when(
        condition,
        FindingView { code: code@, node_id, detail: detail@ },
    ));
}

impl SqliteStore {
    /// The nodes by identity: their positions.
    pub(crate) fn positions_by_id(&self) -> (order: Vec<usize>)
        requires
            unique_ids(self@.nodes),
        ensures
            order.len() == self.nodes.len(),
            forall|i: int| 0 <= i < order.len() ==> #[trigger] order@[i] < self.nodes.len(),
            self@.by_identity(
                Seq::new(order@.len(), |i: int| self@.nodes[order@[i] as int]),
            ),
    {
        let ghost nodes = self@.nodes;
        let ghost pred = |n: Node| true;
        let ghost key = |n: Node| seq![n.id.value];
        let mut picked: Vec<usize> = Vec::new();
        let mut keys: Vec<Vec<u128>> = Vec::new();
        let mut i: usize = 0;
        while i < self.nodes.len()
            invariant
                i <= self.nodes.len(),
                nodes == self@.nodes,
                key == (|n: Node| seq![n.id.value]),
                keys.len() == i,
                picked.len() == i,
                forall|k: int| 0 <= k < i ==> #[trigger] picked@[k] == k,
                forall|k: int| 0 <= k < i ==> #[trigger] keys@[k]@ == key(nodes[k]),
            decreases self.nodes.len() - i,
        {
            let mut k: Vec<u128> = Vec::new();
            k.push(self.nodes[i].id.value);
            assert(k@ =~= key(nodes[i as int]));
            keys.push(k);
            picked.push(i);
            i = i + 1;
        }
        let order = sorted_positions(&keys);
        proof {
            let listed = Seq::new(order@.len(), |i: int| nodes[order@[i] as int]);
            assert forall|k: int, l: int|
                0 <= k < picked.len() && 0 <= l < picked.len() && k != l implies key(
                nodes[#[trigger] picked@[k] as int],
            ) != key(nodes[#[trigger] picked@[l] as int]) by {
                assert(key(nodes[k])[0] == nodes[k].id.value);
                assert(key(nodes[l])[0] == nodes[l].id.value);
                if key(nodes[k]) == key(nodes[l]) {
                    assert(nodes[k].id == nodes[l].id);
                }
            }
            assert forall|i: int|
                #![trigger nodes[i]]
                0 <= i < nodes.len() implies picked@.contains(i as usize) by {
                assert(picked@[i] == i);
            }
            assert(picks(nodes, pred, picked@));
            assert(arranges(nodes, picked@, keys@, order@, listed));
            lemma_arranged_lists(nodes, pred, key, picked@, keys@, order@, listed);
        }
        order
    }

    fn count_roots(&self) -> (count: usize)
        ensures
            count == self@.root_count(),
    {
        let ghost pred = |n: Node| n.parent_id is None;
        let mut count: usize = 0;
        let mut i: usize = 0;
        while i < self.nodes.len()
            invariant
                i <= self.nodes.len(),
                count <= i,
                pred == (|n: Node| n.parent_id is None),
                count == count_where(self@.nodes, pred, i as int),
            decreases self.nodes.len() - i,
        {
            if self.nodes[i].parent_id.is_none() {
                count = count + 1;
            }
            i = i + 1;
        }
        count
    }

    fn count_reachable(&self) -> (count: usize)
        requires
            unique_ids(self@.nodes),
        ensures
            count == self@.reachable_count(),
    {
        let ghost nodes = self@.nodes;
        let ghost up = links(nodes);
        let mut flags: Vec<bool> = Vec::new();
        let mut k: usize = 0;
        while k < self.nodes.len()
            invariant
                k <= self.nodes.len(),
                flags.len() == k,
                forall|m: int| 0 <= m < k ==> !#[trigger] flags@[m],
            decreases self.nodes.len() - k,
        {
            flags.push(false);
            k = k + 1;
        }
        let mut r: usize = 0;
        while r < self.nodes.len()
            invariant
                r <= self.nodes.len(),
                nodes == self@.nodes,
                unique_ids(nodes),
                up == links(nodes),
                flags.len() == nodes.len(),
                forall|m: int|
                    0 <= m < flags.len() ==> #[trigger] flags@[m] == exists|q: int|
                        0 <= q < r && (#[trigger] nodes[q]).parent_id is None && below(
                            up,
                            nodes[q].id,
                            nodes[m].id,
                        ),
            decreases self.nodes.len() - r,
        {
            let ghost before = flags@;
            if self.nodes[r].parent_id.is_none() {
                let inside = subtree_flags(&self.nodes, self.nodes[r].id);
                let mut q: usize = 0;
                while q < self.nodes.len()
                    invariant
                        q <= self.nodes.len(),
                        nodes == self@.nodes,
                        flags.len() == nodes.len(),
                        before.len() == flags.len(),
                        inside.len() == nodes.len(),
                        forall|m: int|
                            0 <= m < q ==> #[trigger] flags@[m] == (before[m] || inside@[m]),
                        forall|m: int| q <= m < flags.len() ==> #[trigger] flags@[m] == before[m],
                    decreases self.nodes.len() - q,
                {
                    if inside[q] {
                        flags.set(q, true);
                    }
                    q = q + 1;
                }
                proof {
                    assert forall|m: int| 0 <= m < flags.len() implies #[trigger] flags@[m]
                        == exists|q: int|
                        0 <= q < r + 1 && (#[trigger] nodes[q]).parent_id is None && below(
                            up,
                            nodes[q].id,
                            nodes[m].id,
                        ) by {
                        assert(flags@[m] == (before[m] || inside@[m]));
                        if inside@[m] {
                            assert(nodes[r as int].parent_id is None);
                        }
                    }
                }
            }
            r = r + 1;
        }
        let ghost pred = |n: Node| self@.is_reachable(n);
        let mut count: usize = 0;
        let mut i: usize = 0;
        while i < self.nodes.len()
            invariant
                i <= self.nodes.len(),
                nodes == self@.nodes,
                up == links(nodes),
                count <= i,
                flags.len() == nodes.len(),
                forall|m: int|
                    0 <= m < flags.len() ==> #[trigger] flags@[m] == exists|q: int|
                        0 <= q < nodes.len() && (#[trigger] nodes[q]).parent_id is None && below(
                            up,
                            nodes[q].id,
                            nodes[m].id,
                        ),
                pred == (|n: Node| self@.is_reachable(n)),
                count == count_where(nodes, pred, i as int),
            decreases self.nodes.len() - i,
        {
            assert(flags@[i as int] == self@.is_reachable(nodes[i as int]));
            if flags[i] {
                count = count + 1;
            }
            i = i + 1;
        }
        count
    }

    /// Position of the latest stored revision of a node.
    fn latest_revision(&self, id: NodeId) -> (found: Option<usize>)
        ensures
            latest(self@, id, self@.revisions.len() as int) == match found {
                Some(i) => Some(i as int),
                None => None,
            },
            found matches Some(i) ==> i < self.revisions.len(),
    {
        let mut found: Option<usize> = None;
        let mut i: usize = 0;
        while i < self.revisions.len()
            invariant
                i <= self.revisions.len(),
                found matches Some(b) ==> b < i,
                latest(self@, id, i as int) == match found {
                    Some(b) => Some(b as int),
                    None => None,
                },
            decreases self.revisions.len() - i,
        {
            assert(self@.revisions[i as int] == self.revisions@[i as int]@);
            if self.revisions[i].node_id == id {
                match found {
                    Some(b) => {
                        assert(self@.revisions[b as int] == self.revisions@[b as int]@);
                        if !(self.revisions[b].version > self.revisions[i].version) {
                            found = Some(i);
                        }
                    },
                    None => {
                        found = Some(i);
                    },
                }
            }
            i = i + 1;
        }
        found
    }

    /// Validates root, reachability, ordering, hashes, history, derived rows, FTS
    /// consistency and stored vectors, against the hashes computed from the nodes'
    /// contents.
    pub fn validate_integrity(
        &self,
        hashes: &Vec<ComputedHashes>,
        index: &SemanticIndex,
    ) -> (report: IntegrityReport)
        requires
            unique_ids(self@.nodes),
        ensures
            exists|by_id: Seq<Node>| #[trigger]
                self@.by_identity(by_id) && finding_views(report.findings@) == all_findings(
                    self@,
                    index@,
                    hashes@,
                    by_id,
                ),
    {
        let ghost t = self@;
        let mut findings: Vec<IntegrityFinding> = Vec::new();
        assert(finding_views(findings@) =~= Seq::<FindingView>::empty());
        let roots = self.count_roots();
        let mut detail = "expected 1 root, found ".to_owned();
        push_wide(&mut detail, roots as u128);
        note(&mut findings, roots != 1, "root_count", None, detail.as_str());
        let ghost s1 = finding_views(findings@);
        assert(s1 =~= when(
            t.root_count() != 1,
            overall("root_count"@, "expected 1 root, found "@ + decimal(t.root_count())),
        ));
        let ghost orphan = |n: Node| t.orphan_finding(n);
        assert(s1 + gather(t.nodes, orphan, 0) =~= s1);
        let mut i: usize = 0;
        while i < self.nodes.len()
            invariant
                i <= self.nodes.len(),
                t == self@,
                orphan == (|n: Node| t.orphan_finding(n)),
                finding_views(findings@) == s1 + gather(t.nodes, orphan, i as int),
            decreases self.nodes.len() - i,
        {
            let node = &self.nodes[i];
            let missing: bool = match node.parent_id {
                Some(p) => find(&self.nodes, p).is_none(),
                None => false,
            };
            note(&mut findings, missing, "orphan", Some(node.id), "parent does not exist");
            assert(finding_views(findings@) =~= s1 + gather(t.nodes, orphan, i + 1));
            i = i + 1;
        }
        let ghost s2 = finding_views(findings@);
        let reachable = self.count_reachable();
        let mut reach = String::new();
        push_wide(&mut reach, reachable as u128);
        reach.push_str(" of ");
        push_wide(&mut reach, self.nodes.len() as u128);
        reach.push_str(" nodes reachable");
        assert(reach@ =~= decimal(t.reachable_count()) + " of "@ + decimal(t.nodes.len())
            + " nodes reachable"@);
        note(&mut findings, reachable != self.nodes.len(), "unreachable", None, reach.as_str());
        let ghost s3 = finding_views(findings@);
        let ghost unordered = |n: Node| t.order_finding(n);
        assert(s3 + gather(t.nodes, unordered, 0) =~= s3);
        let mut j: usize = 0;
        while j < self.nodes.len()
            invariant
                j <= self.nodes.len(),
                t == self@,
                unordered == (|n: Node| t.order_finding(n)),
                finding_views(findings@) == s3 + gather(t.nodes, unordered, j as int),
            decreases self.nodes.len() - j,
        {
            let node = &self.nodes[j];
            let rank = rank_of(&self.nodes, node.parent_id, node);
            note(
                &mut findings,
                node.sibling_order as u64 != rank as u64,
                "sibling_order",
                Some(node.id),
                "sibling order is not normalized",
            );
            assert(finding_views(findings@) =~= s3 + gather(t.nodes, unordered, j + 1));
            j = j + 1;
        }
        let ghost s4 = finding_views(findings@);
        let order = self.positions_by_id();
        let ghost by_id = Seq::new(order@.len(), |i: int| t.nodes[order@[i] as int]);
        let ghost own = |n: Node| t.node_findings(hashes@, n);
        assert(s4 + gather(by_id, own, 0) =~= s4);
        let mut k: usize = 0;
        while k < order.len()
            invariant
                k <= order.len(),
                t == self@,
                order.len() == t.nodes.len(),
                forall|i: int| 0 <= i < order.len() ==> #[trigger] order@[i] < t.nodes.len(),
                by_id == Seq::new(order@.len(), |i: int| t.nodes[order@[i] as int]),
                own == (|n: Node| t.node_findings(hashes@, n)),
                finding_views(findings@) == s4 + gather(by_id, own, k as int),
            decreases order.len() - k,
        {
            let node = &self.nodes[order[k]];
            assert(by_id[k as int] == *node);
            let expected = find_computed(hashes, node.id);
            let content_ok: bool = match expected {
                Some(h) => h.content_hash == node.content_hash,
                None => false,
            };
            let revision_ok: bool = match expected {
                Some(h) => h.revision_hash == node.revision_hash,
                None => false,
            };
            let head_wrong: bool = match self.latest_revision(node.id) {
                Some(l) => {
                    assert(t.revisions[l as int] == self.revisions@[l as int]@);
                    self.revisions[l].version != node.version || self.revisions[l].revision_hash
                        != node.revision_hash
                },
                None => false,
            };
            note(
                &mut findings,
                !content_ok,
                "content_hash",
                Some(node.id),
                "content hash mismatch",
            );
            note(
                &mut findings,
                !revision_ok,
                "revision_hash",
                Some(node.id),
                "revision hash does not match canonical fields",
            );
            note(
                &mut findings,
                head_wrong,
                "revision_head",
                Some(node.id),
                "head does not match latest revision",
            );
            assert(finding_views(findings@) =~= s4 + gather(by_id, own, k + 1));
            k = k + 1;
        }
        let ghost s5 = finding_views(findings@);
        let ghost unhashed = |s: Arc<Section>| t.section_finding(s);
        assert(s5 + gather(t.sections, unhashed, 0) =~= s5);
        let mut q: usize = 0;
        while q < self.sections.len()
            invariant
                q <= self.sections.len(),
                t == self@,
                unhashed == (|s: Arc<Section>| t.section_finding(s)),
                finding_views(findings@) == s5 + gather(t.sections, unhashed, q as int),
            decreases self.sections.len() - q,
        {
            let section = &self.sections[q];
            note(
                &mut findings,
                section.content_hash.len() != 32,
                "section_hash",
                Some(section.id),
                "invalid section hash",
            );
            assert(finding_views(findings@) =~= s5 + gather(t.sections, unhashed, q + 1));
            q = q + 1;
        }
        let mut counts = String::new();
        push_wide(&mut counts, self.sections.len() as u128);
        counts.push_str(" sections but ");
        push_wide(&mut counts, self.fts.len() as u128);
        counts.push_str(" FTS rows");
        assert(counts@ =~= decimal(t.sections.len()) + " sections but "@ + decimal(t.fts.len())
            + " FTS rows"@);
        note(
            &mut findings,
            self.sections.len() != self.fts.len(),
            "fts_consistency",
            None,
            counts.as_str(),
        );
        assert(t.by_identity(by_id));
        assert(finding_views(findings@) =~= t.findings(hashes@, by_id));
        let mut report = IntegrityReport { findings };
        index.report_vectors(&mut report);
        report
    }
}

/// Bounded read-only integrity result with a stable summary.
#[derive(Debug)]
pub struct IntegrityPage {
    /// Whether the complete validation found no violations.
    pub healthy: bool,
    /// Total findings across all pages.
    pub total_findings: u64,
    /// Bounded stable page of actionable findings.
    pub page: Page<IntegrityFinding>,
}

/// The order of findings: by code, then node, then detail.
pub open spec fn finding_key(finding: FindingView) -> Seq<u128> {
    text_key(finding.code) + match finding.node_id {
        None => seq![0u128],
        Some(id) => seq![1u128, id.value],
    } + code_points(finding.detail)
}

/// A text as a key part: its code points raised by one, then a zero, so that a
/// prefix comes first whatever follows it.
pub open spec fn text_key(text: Seq<char>) -> Seq<u128> {
    Seq::new(text.len(), |i: int| (code_points(text)[i] + 1) as u128).push(0)
}

fn push_text_key(key: &mut Vec<u128>, text: &str)
    ensures
        final(key)@ == old(key)@ + text_key(text@),
{
    let points = to_code_points(text);
    let ghost start = key@;
    let mut i: usize = 0;
    while i < points.len()
        invariant
            i <= points.len(),
            points@ == code_points(text@),
            key@ =~= start + Seq::new(i as nat, |k: int| (code_points(text@)[k] + 1) as u128),
        decreases points.len() - i,
    {
        proof {
            lemma_point_bound(text@, i as int);
        }
        key.push(points[i] + 1);
        i = i + 1;
    }
    key.push(0);
    assert(key@ =~= start + text_key(text@));
}

proof fn lemma_point_bound(text: Seq<char>, i: int)
    requires
        0 <= i < text.len(),
    ensures
        code_points(text)[i] < u128::MAX,
{
    lemma_code_bound(text[i]);
}

proof fn lemma_code_bound(c: char)
    ensures
        (c as u32 as u128) < u128::MAX,
{
}

fn make_finding_key(finding: &IntegrityFinding) -> (key: Vec<u128>)
    ensures
        key@ == finding_key(finding@),
{
    let mut key: Vec<u128> = Vec::new();
    push_text_key(&mut key, finding.code.as_str());
    match finding.node_id {
        None => {
            key.push(0);
        },
        Some(id) => {
            key.push(1);
            key.push(id.value);
        },
    }
    let mut rest = to_code_points(finding.detail.as_str());
    key.append(&mut rest);
    assert(key@ =~= finding_key(finding@));
    key
}

/// Whether `sorted` is an arrangement of `findings` in ascending order.
pub open spec fn sorts(sorted: Seq<FindingView>, findings: Seq<FindingView>) -> bool {
    &&& sorted.len() == findings.len()
    &&& forall|i: int, j: int|
        0 <= i < j < sorted.len() ==> lex_le(
            finding_key(#[trigger] sorted[i]),
            finding_key(#[trigger] sorted[j]),
        )
    &&& exists|order: Seq<usize>| #[trigger] permutes(order, sorted, findings)
}

/// Whether `sorted` takes each item of `findings` once, in the given order.
pub open spec fn permutes(
    order: Seq<usize>,
    sorted: Seq<FindingView>,
    findings: Seq<FindingView>,
) -> bool {
    &&& order.len() == findings.len()
    &&& sorted.len() == findings.len()
    &&& order.no_duplicates()
    &&& forall|i: int|
        0 <= i < order.len() ==> (#[trigger] order[i]) < findings.len() && sorted[i]
            == findings[order[i] as int]
}

/// Sorts findings by code, node and detail.
pub fn sort_findings(findings: &Vec<IntegrityFinding>) -> (sorted: Vec<IntegrityFinding>)
    ensures
        sorts(finding_views(sorted@), finding_views(findings@)),
{
    let mut keys: Vec<Vec<u128>> = Vec::new();
    let mut i: usize = 0;
    while i < findings.len()
        invariant
            i <= findings.len(),
            keys.len() == i,
            forall|k: int| 0 <= k < i ==> (#[trigger] keys@[k])@ == finding_key(findings@[k]@),
        decreases findings.len() - i,
    {
        keys.push(make_finding_key(&findings[i]));
        i = i + 1;
    }
    let order = sorted_positions(&keys);
    let mut sorted: Vec<IntegrityFinding> = Vec::new();
    let mut n: usize = 0;
    while n < order.len()
        invariant
            n <= order.len(),
            order.len() == findings.len(),
            forall|i: int| 0 <= i < order.len() ==> #[trigger] order@[i] < findings.len(),
            sorted.len() == n,
            forall|m: int| 0 <= m < n ==> (#[trigger] sorted@[m])@ == findings@[order@[m] as int]@,
        decreases order.len() - n,
    {
        sorted.push(findings[order[n]].copy());
        n = n + 1;
    }
    proof {
        let a = finding_views(sorted@);
        let b = finding_views(findings@);
        assert(permutes(order@, a, b));
        assert forall|i: int, j: int| 0 <= i < j < a.len() implies lex_le(
            finding_key(#[trigger] a[i]),
            finding_key(#[trigger] a[j]),
        ) by {
            assert(lex_le(keys@[order@[i] as int]@, keys@[order@[j] as int]@));
        }
    }
    sorted
}

pub open spec fn integrity_scope() -> ScopeView {
    ScopeView { operation: "validate"@, node_id: None, request_key: "code_node_detail"@ }
}

/// Where an offset page starts, or why it cannot.
pub open spec fn offset_start(
    cursor: Option<&PageCursor>,
    scope: ScopeView,
    revision: u64,
) -> Result<u32, PaginationError> {
    match resume_point(cursor, scope, revision) {
        Err(e) => Err(e),
        Ok(None) => Ok(0),
        Ok(Some(PositionView::Search { offset })) => Ok(offset),
        Ok(Some(_)) => Err(PaginationError::InvalidCursorPosition),
    }
}

/// Where an offset page starts, or why it cannot.
pub fn start_offset(cursor: Option<&PageCursor>, scope: &CursorScope, revision: u64) -> (result:
    Result<u32, PaginationError>)
    ensures
        result == offset_start(cursor, scope@, revision),
{
    match resume_at(cursor, scope, revision) {
        Err(e) => Err(e),
        Ok(None) => Ok(0),
        Ok(Some(PagePosition::Search { offset })) => Ok(*offset),
        Ok(Some(_)) => Err(PaginationError::InvalidCursorPosition),
    }
}

/// The continuation of a listing read by offsets.
pub open spec fn offset_cursor(
    total: int,
    start: int,
    limit: int,
    revision: u64,
    scope: ScopeView,
    next: Option<PageCursor>,
) -> bool {
    crate::paging::cursor_view(next) == if start + limit < total {
        Some(
            crate::paging::CursorView {
                revision,
                scope,
                position: PositionView::Search { offset: (start + limit) as u32 },
            },
        )
    } else {
        None
    }
}

/// A ready chunk whose vector does not fit its profile, or is not finite, is reported
/// under its node.
pub proof fn law_corrupt_vector_is_reported(
    t: Tables,
    index: SemanticView,
    hashes: Seq<ComputedHashes>,
    by_id: Seq<Node>,
    i: int,
)
    requires
        0 <= i < index.chunks.len(),
        index.is_corrupt(index.chunks[i]),
    ensures
        exists|k: int|
            {
                &&& 0 <= k < all_findings(t, index, hashes, by_id).len()
                &&& (#[trigger] all_findings(t, index, hashes, by_id)[k]).code
                    == "semantic_embedding"@
                &&& all_findings(t, index, hashes, by_id)[k].node_id == Some(
                    index.chunks[i].node_id,
                )
            },
{
    let own = t.findings(hashes, by_id);
    let n = index.chunks.len() as int;
    lemma_vector_finding(index, i, n);
    let found = index.vector_findings(n);
    let k = choose|k: int|
        0 <= k < found.len() && (#[trigger] found[k]).code == "semantic_embedding"@
            && found[k].node_id == Some(index.chunks[i].node_id);
    assert(all_findings(t, index, hashes, by_id)[own.len() + k] == found[k]);
}

proof fn lemma_vector_finding(index: SemanticView, i: int, n: int)
    requires
        0 <= i < n <= index.chunks.len(),
        index.is_corrupt(index.chunks[i]),
    ensures
        exists|k: int|
            0 <= k < index.vector_findings(n).len() && (#[trigger] index.vector_findings(
                n,
            )[k]).code == "semantic_embedding"@ && index.vector_findings(n)[k].node_id == Some(
                index.chunks[i].node_id,
            ),
    decreases n,
{
    let found = index.vector_findings(n);
    if i == n - 1 {
        assert(found[found.len() - 1].code == "semantic_embedding"@);
    } else {
        lemma_vector_finding(index, i, n - 1);
        let before = index.vector_findings(n - 1);
        let k = choose|k: int|
            0 <= k < before.len() && (#[trigger] before[k]).code == "semantic_embedding"@
                && before[k].node_id == Some(index.chunks[i].node_id);
        assert(found[k] == before[k]);
    }
}

impl SqliteStore {
    /// Returns a stable resumable page of read-only integrity findings.
    pub fn integrity_page(
        &self,
        hashes: &Vec<ComputedHashes>,
        index: &SemanticIndex,
        limit: PageLimit,
        cursor: Option<&PageCursor>,
    ) -> (result: Result<IntegrityPage, PageReadError>)
        requires
            unique_ids(self@.nodes),
        ensures
            match offset_start(cursor, integrity_scope(), self@.revision) {
                Err(e) => result matches Err(PageReadError::Pagination(x)) && x == e,
                Ok(start) => exists|by_id: Seq<Node>, sorted: Seq<FindingView>|
                    {
                        &&& #[trigger] self@.by_identity(by_id)
                        &&& #[trigger] sorts(sorted, all_findings(self@, index@, hashes@, by_id))
                        &&& serves_findings(self@.revision, sorted, start as int, limit, result)
                    },
            },
    {
        let scope = CursorScope::new("validate", None, "code_node_detail");
        let start: u32 = match start_offset(cursor, &scope, self.revision) {
            Ok(start) => start,
            Err(e) => {
                return Err(PageReadError::Pagination(e));
            },
        };
        let report = self.validate_integrity(hashes, index);
        let ghost by_id = choose|by_id: Seq<Node>| #[trigger]
            self@.by_identity(by_id) && finding_views(report.findings@) == all_findings(
                self@,
                index@,
                hashes@,
                by_id,
            );
        let sorted = sort_findings(&report.findings);
        let ghost whole = finding_views(sorted@);
        proof {
            assert(self@.by_identity(by_id));
            assert(sorts(whole, all_findings(self@, index@, hashes@, by_id)));
        }
        let total: usize = sorted.len();
        if start as u64 > total as u64 {
            return Err(PageReadError::Pagination(PaginationError::InvalidCursorPosition));
        }
        let size: u32 = limit.get();
        let rest: u64 = (total - start as usize) as u64;
        let ghost rows = sorted@;
        let items = take_page(sorted, start as usize, size);
        assert(finding_views(items@) =~= page_items(whole, start as int, size as int));
        let next: Option<PageCursor> = if (size as u64) < rest {
            if size > u32::MAX - start {
                return Err(
                    PageReadError::Store(crate::model::invalid_data("integrity page offset")),
                );
            }
            Some(
                PageCursor::issue(
                    self.revision,
                    scope,
                    PagePosition::Search { offset: start + size },
                ),
            )
        } else {
            None
        };
        Ok(
            IntegrityPage {
                healthy: total == 0,
                total_findings: total as u64,
                page: Page::new(items, next),
            },
        )
    }
}

/// The outcome of an integrity page read.
pub open spec fn serves_findings(
    revision: u64,
    sorted: Seq<FindingView>,
    start: int,
    limit: PageLimit,
    result: Result<IntegrityPage, PageReadError>,
) -> bool {
    let size = limit.size();
    if start > sorted.len() {
        result matches Err(PageReadError::Pagination(e)) && e
            == PaginationError::InvalidCursorPosition
    } else if start + size < sorted.len() && start + size > u32::MAX {
        result matches Err(PageReadError::Store(e)) && e@ == crate::model::Refusal::InvalidData(
            "integrity page offset"@,
        )
    } else {
        &&& result is Ok
        &&& result->Ok_0.healthy == (sorted.len() == 0)
        &&& result->Ok_0.total_findings == sorted.len()
        &&& finding_views(result->Ok_0.page.items@) == page_items(sorted, start, size)
        &&& result->Ok_0.page.consistent()
        &&& offset_cursor(
            sorted.len() as int,
            start,
            size,
            revision,
            integrity_scope(),
            result->Ok_0.page.next_cursor,
        )
    }
}

} // verus!
