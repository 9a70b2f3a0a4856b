//! Inspection pages and read/write context under a byte budget.
//!
//! The length of a serialized context is measured outside; here it is decided
//! what to leave out next, until the context fits or nothing more can go.

use crate::diagnostics::texts;
use crate::model::{invalid_data, Node, NodeHash, NodeId, Reference, Refusal, StoreError};
use crate::pages::{serves_traversal, NodeDepthProjection};
use crate::paging::{Page, PageCursor, PageLimit, PageReadError};
use crate::reads::{above, is_breadcrumb, level, lists_children};
use crate::references::{references_of, touching, ReferenceSide};
use crate::reorder::{child_count, count_children};
use crate::tables::{reference_views, SqliteStore, Tables};
use crate::text::{copy_text, text_of};
use crate::traverse::{Extent, Placed, TraversalOrder};
use crate::tree::{is_forest, lookup, position, present, unique_ids};
use vstd::prelude::*;

verus! {

/// Compact identity of a node in its place.
#[derive(Debug)]
pub struct ContextSummary {
    pub node_id: NodeId,
    pub title: String,
    pub summary: Option<String>,
    pub node_type: Option<String>,
    /// Titles from the root down to the node.
    pub breadcrumb: Vec<String>,
}

/// Whether the summary is that of the node.
pub open spec fn describes(nodes: Seq<Node>, node: Node, summary: ContextSummary) -> bool {
    &&& summary.node_id == node.id
    &&& summary.title@ == node.metadata.title@
    &&& text_of(summary.summary) == text_of(node.metadata.summary)
    &&& text_of(summary.node_type) == text_of(node.metadata.node_type)
    &&& is_breadcrumb(nodes, node.id, summary.breadcrumb@)
}

/// What a node takes in and what it leaves to others.
#[derive(Debug)]
pub struct ConventionSummary {
    pub node: ContextSummary,
    pub owns: Vec<String>,
    pub excludes: Vec<String>,
}

/// Whether the summaries are those of the nodes, in order.
pub open spec fn describe_all(
    nodes: Seq<Node>,
    listed: Seq<Node>,
    summaries: Seq<ContextSummary>,
) -> bool {
    &&& summaries.len() == listed.len()
    &&& forall|i: int|
        0 <= i < summaries.len() ==> describes(nodes, listed[i], #[trigger] summaries[i])
}

/// One row of a compact inspection.
#[derive(Debug)]
pub struct InspectionItem {
    pub node: ContextSummary,
    pub depth: usize,
    pub child_count: u32,
}

/// A stable tree view bounded by relative depth and item count.
#[derive(Debug)]
pub struct SubtreeInspection {
    pub items: Vec<InspectionItem>,
    pub next_cursor: Option<PageCursor>,
    pub truncated: bool,
}

/// Whether the item shows the traversal row.
pub open spec fn shows(nodes: Seq<Node>, row: Placed, item: InspectionItem) -> bool {
    &&& describes(nodes, row.node, item.node)
    &&& item.depth == row.depth
    &&& item.child_count == child_count(nodes, row.node.id, nodes.len() as int)
}

/// Whether a row at the depth limit has children that the view leaves out.
pub open spec fn cut_off(nodes: Seq<Node>, row: Placed, max_depth: u32) -> bool {
    row.depth == max_depth && child_count(nodes, row.node.id, nodes.len() as int) > 0
}

/// Whether the inspection presents the traversal page.
pub open spec fn presents(
    nodes: Seq<Node>,
    page: Page<NodeDepthProjection>,
    max_depth: u32,
    inspection: SubtreeInspection,
) -> bool {
    &&& inspection.items.len() == page.items.len()
    &&& forall|i: int|
        0 <= i < inspection.items.len() ==> shows(
            nodes,
            page.items@[i],
            #[trigger] inspection.items@[i],
        )
    &&& inspection.next_cursor == page.next_cursor
    &&& inspection.truncated == (page.truncated || exists|i: int|
        0 <= i < page.items.len() && cut_off(nodes, #[trigger] page.items@[i], max_depth))
}

/// Whether some row of the page has more children than can be shown as a count.
pub open spec fn overcrowded(nodes: Seq<Node>, page: Page<NodeDepthProjection>) -> bool {
    exists|i: int|
        0 <= i < page.items.len() && child_count(
            nodes,
            (#[trigger] page.items@[i]).node.id,
            nodes.len() as int,
        ) > u32::MAX
}

pub open spec fn inspection_extent(id: NodeId, max_depth: u32) -> Extent {
    Extent {
        root: id,
        include_root: true,
        max_depth: Some(max_depth),
        order: TraversalOrder::Dfs,
    }
}

/// Every row of a traversal page is a row of the table.
pub proof fn lemma_page_rows_present(
    t: Tables,
    operation: Seq<char>,
    extent: Extent,
    limit: PageLimit,
    cursor: Option<&PageCursor>,
    page: Page<NodeDepthProjection>,
    i: int,
)
    requires
        unique_ids(t.nodes),
        serves_traversal(
            t,
            operation,
            extent,
            limit,
            cursor,
            Ok::<Page<NodeDepthProjection>, PageReadError>(page),
        ),
        0 <= i < page.items.len(),
    ensures
        lookup(t.nodes, page.items@[i].node.id) == Some(page.items@[i].node),
{
    let after = crate::pages::resume_point(
        cursor,
        crate::pages::traversal_scope(operation, extent),
        t.revision,
    )->Ok_0;
    let read = crate::pages::page_extent(extent, after is Some);
    let all = choose|all: Seq<Placed>|
        {
            &&& #[trigger] read.walks(t.nodes, all)
            &&& crate::pages::is_page(
                Ok::<Page<NodeDepthProjection>, PageReadError>(page),
                all,
                crate::pages::traversal_start(extent.order, all, after),
                limit.size(),
                t.revision,
                crate::pages::traversal_scope(operation, extent),
                |p: Placed| crate::pages::traversal_position(extent.order, p),
            )
        };
    let start = crate::pages::traversal_start(extent.order, all, after)->0;
    let listed = crate::traverse::nodes_of(all);
    let items = crate::paging::page_items(all, start, limit.size());
    assert(page.items@ == items);
    lemma_start_bounds(extent.order, all, after);
    limit.lemma_size();
    assert(items[i] == all[start + i]);
    assert(listed[start + i] == page.items@[i].node);
    assert(listed.contains(page.items@[i].node));
    let m = choose|m: int| 0 <= m < t.nodes.len() && t.nodes[m] == page.items@[i].node;
    crate::tree::lemma_position(t.nodes, m);
}

proof fn lemma_start_bounds(
    order: TraversalOrder,
    all: Seq<Placed>,
    after: Option<crate::paging::PositionView>,
)
    ensures
        crate::pages::traversal_start(order, all, after) matches Some(s) ==> 0 <= s,
{
    match (order, after) {
        (
            TraversalOrder::Dfs,
            Some(crate::paging::PositionView::Traversal { ordering_path, .. }),
        ) => {
            lemma_first_bound(
                all,
                |p: Placed| crate::pages::placed_after(order, 0, ordering_path, p),
                0,
            );
        },
        (
            TraversalOrder::Bfs,
            Some(crate::paging::PositionView::BreadthTraversal { depth, ordering_path, .. }),
        ) => {
            lemma_first_bound(
                all,
                |p: Placed| crate::pages::placed_after(order, depth as nat, ordering_path, p),
                0,
            );
        },
        _ => {},
    }
}

proof fn lemma_first_bound<T>(all: Seq<T>, pred: spec_fn(T) -> bool, i: int)
    requires
        0 <= i,
    ensures
        crate::reads::first_from(all, pred, i) matches Some(k) ==> i <= k < all.len(),
    decreases all.len() - i,
{
    if i < all.len() {
        lemma_first_bound(all, pred, i + 1);
    }
}

impl SqliteStore {
    /// Projects one compact summary of an existing node.
    pub fn project_summary(&self, node: &Node) -> (result: Result<ContextSummary, StoreError>)
        requires
            is_forest(self@.nodes),
        ensures
            present(self@.nodes, node.id) ==> result is Ok && describes(
                self@.nodes,
                *node,
                result->Ok_0,
            ),
            !present(self@.nodes, node.id) ==> result is Err && result->Err_0@ == Refusal::NotFound(
                node.id.text(),
            ),
    {
        let breadcrumb = self.breadcrumb(node.id)?;
        Ok(
            ContextSummary {
                node_id: node.id,
                title: node.metadata.title.clone(),
                summary: copy_text(&node.metadata.summary),
                node_type: copy_text(&node.metadata.node_type),
                breadcrumb,
            },
        )
    }

    /// Returns a stable tree view bounded by relative depth and item count.
    pub fn inspect_subtree_page(
        &self,
        operation: &str,
        id: NodeId,
        max_depth: u32,
        limit: PageLimit,
        cursor: Option<&PageCursor>,
    ) -> (result: Result<SubtreeInspection, PageReadError>)
        requires
            is_forest(self@.nodes),
        ensures
            exists|read: Result<Page<NodeDepthProjection>, PageReadError>|
                {
                    &&& #[trigger] serves_traversal(
                        self@,
                        operation@,
                        inspection_extent(id, max_depth),
                        limit,
                        cursor,
                        read,
                    )
                    &&& match read {
                        Err(PageReadError::Pagination(e)) => result matches Err(
                            PageReadError::Pagination(x),
                        ) && x == e,
                        Err(PageReadError::Store(_)) => false,
                        Ok(page) => if overcrowded(self@.nodes, page) {
                            result matches Err(PageReadError::Store(x)) && x@
                                == Refusal::InvalidData("child count"@)
                        } else {
                            result is Ok && presents(
                                self@.nodes,
                                page,
                                max_depth,
                                result->Ok_0,
                            )
                        },
                    }
                },
    {
        let read = self.inspection_traversal_page(operation, id, max_depth, limit, cursor);
        let ghost outcome = read;
        assert(serves_traversal(
            self@,
            operation@,
            inspection_extent(id, max_depth),
            limit,
            cursor,
            outcome,
        ));
        let page = match read {
            Ok(page) => page,
            Err(e) => {
                return Err(e);
            },
        };
        let ghost nodes = self@.nodes;
        let mut items: Vec<InspectionItem> = Vec::new();
        let mut depth_truncated: bool = false;
        let mut i: usize = 0;
        while i < page.items.len()
            invariant
                i <= page.items.len(),
                nodes == self@.nodes,
                is_forest(nodes),
                outcome == Ok::<Page<NodeDepthProjection>, PageReadError>(page),
                serves_traversal(
                    self@,
                    operation@,
                    inspection_extent(id, max_depth),
                    limit,
                    cursor,
                    outcome,
                ),
                items.len() == i,
                forall|k: int|
                    0 <= k < i ==> shows(nodes, page.items@[k], #[trigger] items@[k]),
                depth_truncated <==> exists|k: int|
                    0 <= k < i && cut_off(nodes, #[trigger] page.items@[k], max_depth),
            decreases page.items.len() - i,
        {
            let row = &page.items[i];
            proof {
                lemma_page_rows_present(
                    self@,
                    operation@,
                    inspection_extent(id, max_depth),
                    limit,
                    cursor,
                    page,
                    i as int,
                );
            }
            let count = count_children(&self.nodes, row.node.id);
            if count > u32::MAX as usize {
                assert(overcrowded(nodes, page)) by {
                    assert(child_count(
                        nodes,
                        page.items@[i as int].node.id,
                        nodes.len() as int,
                    ) > u32::MAX);
                }
                return Err(PageReadError::Store(invalid_data("child count")));
            }
            if row.depth as u64 == max_depth as u64 && count > 0 {
                depth_truncated = true;
            }
            let node = match self.project_summary(&row.node) {
                Ok(node) => node,
                Err(e) => {
                    assert(false);
                    return Err(PageReadError::Store(e));
                },
            };
            items.push(InspectionItem { node, depth: row.depth, child_count: count as u32 });
            i = i + 1;
        }
        proof {
            assert(!overcrowded(nodes, page)) by {
                assert forall|k: int| 0 <= k < page.items.len() implies child_count(
                    nodes,
                    (#[trigger] page.items@[k]).node.id,
                    nodes.len() as int,
                ) <= u32::MAX by {
                    assert(shows(nodes, page.items@[k], items@[k]));
                }
            }
        }
        Ok(
            SubtreeInspection {
                items,
                next_cursor: page.next_cursor,
                truncated: page.truncated || depth_truncated,
            },
        )
    }

    /// Summaries of listed nodes.
    fn summaries(&self, listed: &Vec<Node>) -> (summaries: Vec<ContextSummary>)
        requires
            is_forest(self@.nodes),
            forall|i: int| 0 <= i < listed.len() ==> present(self@.nodes, (#[trigger] listed@[i]).id),
        ensures
            describe_all(self@.nodes, listed@, summaries@),
    {
        let mut summaries: Vec<ContextSummary> = Vec::new();
        let mut i: usize = 0;
        while i < listed.len()
            invariant
                i <= listed.len(),
                is_forest(self@.nodes),
                forall|i: int|
                    0 <= i < listed.len() ==> present(self@.nodes, (#[trigger] listed@[i]).id),
                summaries.len() == i,
                forall|k: int|
                    0 <= k < i ==> describes(self@.nodes, listed@[k], #[trigger] summaries@[k]),
            decreases listed.len() - i,
        {
            assert(present(self@.nodes, listed@[i as int].id));
            match self.project_summary(&listed[i]) {
                Ok(summary) => {
                    summaries.push(summary);
                },
                Err(_) => {
                    assert(false);
                },
            }
            i = i + 1;
        }
        summaries
    }

    /// The ancestors of a node, root first, without their distances.
    fn ancestor_nodes(&self, id: NodeId) -> (listed: Vec<Node>)
        requires
            is_forest(self@.nodes),
            present(self@.nodes, id),
        ensures
            listed@ == ancestors_of(self@.nodes, id),
            forall|i: int| 0 <= i < listed.len() ==> present(self@.nodes, (#[trigger] listed@[i]).id),
    {
        let ancestors = self.ancestors(id);
        let mut listed: Vec<Node> = Vec::new();
        let mut i: usize = 0;
        while i < ancestors.len()
            invariant
                i <= ancestors.len(),
                listed.len() == i,
                forall|k: int| 0 <= k < i ==> #[trigger] listed@[k] == ancestors@[k].node,
            decreases ancestors.len() - i,
        {
            listed.push(ancestors[i].node.copy());
            i = i + 1;
        }
        proof {
            let nodes = self@.nodes;
            let up = crate::tree::links(nodes);
            assert(crate::tree::ends(up, id));
            crate::tree::lemma_height(up, id);
            assert(listed@ =~= ancestors_of(nodes, id));
            assert forall|i: int| 0 <= i < listed.len() implies present(
                nodes,
                (#[trigger] listed@[i]).id,
            ) by {
                let k = (listed.len() - i) as nat;
                assert(crate::tree::climb(up, id, k) is Some);
                crate::tree::lemma_climb_exists(nodes, id, k);
                let a = crate::tree::climb(up, id, k)->0;
                assert(nodes[position(nodes, a)].id == a);
            }
        }
        listed
    }
}

/// The ancestors of a node, root first.
pub open spec fn ancestors_of(nodes: Seq<Node>, id: NodeId) -> Seq<Node> {
    Seq::new((level(nodes, id) - 1) as nat, |i: int| above(nodes, id, level(nodes, id) - 1 - i))
}

/// Prioritized read context of one node.
#[derive(Debug)]
pub struct ReadContext {
    pub node: ContextSummary,
    pub ancestors: Vec<ContextSummary>,
    pub content: Option<String>,
    pub children: Vec<ContextSummary>,
    pub references: Vec<Reference>,
    /// What was left out, each named once.
    pub omitted: Vec<String>,
    pub truncated: bool,
    pub estimated_tokens: u64,
}

/// Optimistic-write state and local conventions of one node.
#[derive(Debug)]
pub struct WriteContext {
    pub target: ContextSummary,
    pub version: u64,
    pub content_hash: NodeHash,
    pub owns: Vec<String>,
    pub excludes: Vec<String>,
    pub accepts_children: Vec<String>,
    pub sibling_examples: Vec<ContextSummary>,
    pub ancestor_conventions: Vec<ConventionSummary>,
    pub references: Vec<Reference>,
    /// What was left out, each named once.
    pub omitted: Vec<String>,
    pub truncated: bool,
    pub estimated_tokens: u64,
}

/// The labels with one more, unless it is there.
pub open spec fn with_label(labels: Seq<Seq<char>>, label: Seq<char>) -> Seq<Seq<char>> {
    if labels.contains(label) {
        labels
    } else {
        labels.push(label)
    }
}

/// Names something left out, once.
pub fn push_omitted(omitted: &mut Vec<String>, value: &str)
    ensures
        texts(final(omitted)@) == with_label(texts(old(omitted)@), value@),
{
    let ghost before = texts(omitted@);
    let label = value.to_owned();
    let mut i: usize = 0;
    while i < omitted.len()
        invariant
            i <= omitted.len(),
            before == texts(omitted@),
            *omitted == *old(omitted),
            label@ == value@,
            forall|k: int| 0 <= k < i ==> #[trigger] before[k] != value@,
        decreases omitted.len() - i,
    {
        if omitted[i] == label {
            assert(before[i as int] == value@);
            return;
        }
        i = i + 1;
    }
    assert(!before.contains(value@));
    omitted.push(label);
    assert(texts(omitted@) =~= before.push(value@));
}

/// Replaces all labels by one.
pub fn compact_omissions(omitted: &mut Vec<String>)
    ensures
        texts(final(omitted)@) == seq!["additional context omitted"@],
{
    omitted.clear();
    omitted.push("additional context omitted".to_owned());
    assert(texts(omitted@) =~= seq!["additional context omitted"@]);
}

/// What a measurement of a context's serialized length asks for.
#[derive(Clone, Copy, Debug, PartialEq, Eq, Structural)]
pub enum BudgetStep {
    /// Measure the changed context again.
    Measure,
    /// The context fits.
    Fits,
    /// Nothing more can be left out.
    Exceeded { minimum: usize, requested: usize },
}

/// Progress of fitting one context into its budget.
#[derive(Clone, Copy, Debug, PartialEq, Eq, Structural)]
pub struct Budget {
    /// Hard limit in bytes.
    pub byte_limit: usize,
    /// Corrections of the token estimate since the context last changed.
    pub round: u8,
    /// Whether only mandatory fields are left.
    pub compacted: bool,
}

/// Corrections of the token estimate before a length is taken as it is.
pub const ESTIMATE_ROUNDS: u8 = 3;

/// The token estimate of a length: a quarter of it, rounded up.
pub open spec fn estimate_of(length: usize) -> u64 {
    ((length + 3) / 4) as u64
}

fn estimate(length: usize) -> (tokens: u64)
    ensures
        tokens == estimate_of(length),
{
    let quarter: usize = length / 4;
    if length % 4 == 0 {
        quarter as u64
    } else {
        quarter as u64 + 1
    }
}

/// The parts of a read context that can be left out.
pub struct ReadParts {
    pub ancestors: Seq<ContextSummary>,
    pub content: Option<String>,
    pub children: Seq<ContextSummary>,
    pub references: Seq<Reference>,
    pub omitted: Seq<Seq<char>>,
}

impl ReadParts {
    /// Whether nothing more can be left out.
    pub open spec fn bare(self) -> bool {
        self.references.len() == 0 && self.children.len() == 0 && self.content is None
            && self.ancestors.len() == 0
    }

    /// What is left after the next omission: references, then children, then
    /// content, then ancestors one by one from the nearest.
    pub open spec fn shrunk(self) -> ReadParts {
        if self.references.len() > 0 {
            ReadParts {
                references: Seq::empty(),
                omitted: with_label(self.omitted, "references"@),
                ..self
            }
        } else if self.children.len() > 0 {
            ReadParts {
                children: Seq::empty(),
                omitted: with_label(self.omitted, "children"@),
                ..self
            }
        } else if self.content is Some {
            ReadParts {
                content: None,
                omitted: with_label(self.omitted, "content"@),
                ..self
            }
        } else if self.ancestors.len() > 0 {
            ReadParts {
                ancestors: self.ancestors.drop_last(),
                omitted: with_label(self.omitted, "ancestor summaries"@),
                ..self
            }
        } else {
            ReadParts { omitted: seq!["additional context omitted"@], ..self }
        }
    }

    /// How much can still be left out.
    pub open spec fn weight(self) -> nat {
        self.ancestors.len() + (if self.content is Some {
            1nat
        } else {
            0nat
        }) + (if self.children.len() > 0 {
            1nat
        } else {
            0nat
        }) + (if self.references.len() > 0 {
            1nat
        } else {
            0nat
        })
    }
}

impl ReadContext {
    pub open spec fn parts(self) -> ReadParts {
        ReadParts {
            ancestors: self.ancestors@,
            content: self.content,
            children: self.children@,
            references: self.references@,
            omitted: texts(self.omitted@),
        }
    }

    /// Leaves out the next part; false if only the labels could be shortened.
    fn shrink(&mut self) -> (more: bool)
        ensures
            final(self).parts() == old(self).parts().shrunk(),
            more == !old(self).parts().bare(),
            final(self).node == old(self).node,
            final(self).truncated == old(self).truncated,
            final(self).estimated_tokens == old(self).estimated_tokens,
    {
        if self.references.len() > 0 {
            self.references = Vec::new();
            push_omitted(&mut self.omitted, "references");
            assert(self.references@ =~= Seq::empty());
            return true;
        }
        if self.children.len() > 0 {
            self.children = Vec::new();
            push_omitted(&mut self.omitted, "children");
            assert(self.children@ =~= Seq::empty());
            return true;
        }
        if self.content.is_some() {
            self.content = None;
            push_omitted(&mut self.omitted, "content");
            return true;
        }
        if self.ancestors.len() > 0 {
            let _ = self.ancestors.pop();
            push_omitted(&mut self.omitted, "ancestor summaries");
            assert(self.ancestors@ =~= old(self).ancestors@.drop_last());
            return true;
        }
        compact_omissions(&mut self.omitted);
        false
    }
}

/// The parts of a write context that can be left out.
pub struct WriteParts {
    pub sibling_examples: Seq<ContextSummary>,
    pub ancestor_conventions: Seq<ConventionSummary>,
    pub references: Seq<Reference>,
    pub omitted: Seq<Seq<char>>,
}

impl WriteParts {
    pub open spec fn bare(self) -> bool {
        self.references.len() == 0 && self.sibling_examples.len() == 0
            && self.ancestor_conventions.len() == 0
    }

    /// What is left after the next omission: references, then sibling examples
    /// from the last, then ancestor conventions from the nearest.
    pub open spec fn shrunk(self) -> WriteParts {
        if self.references.len() > 0 {
            WriteParts {
                references: Seq::empty(),
                omitted: with_label(self.omitted, "references"@),
                ..self
            }
        } else if self.sibling_examples.len() > 0 {
            WriteParts {
                sibling_examples: self.sibling_examples.drop_last(),
                omitted: with_label(self.omitted, "sibling examples"@),
                ..self
            }
        } else if self.ancestor_conventions.len() > 0 {
            WriteParts {
                ancestor_conventions: self.ancestor_conventions.drop_last(),
                omitted: with_label(self.omitted, "ancestor conventions"@),
                ..self
            }
        } else {
            WriteParts { omitted: seq!["additional context omitted"@], ..self }
        }
    }

    /// How much can still be left out.
    pub open spec fn weight(self) -> nat {
        self.sibling_examples.len() + self.ancestor_conventions.len() + (if self.references.len()
            > 0 {
            1nat
        } else {
            0nat
        })
    }
}

impl WriteContext {
    pub open spec fn parts(self) -> WriteParts {
        WriteParts {
            sibling_examples: self.sibling_examples@,
            ancestor_conventions: self.ancestor_conventions@,
            references: self.references@,
            omitted: texts(self.omitted@),
        }
    }

    /// Whether the fields that are never left out are the same.
    pub open spec fn same_core(self, other: WriteContext) -> bool {
        &&& self.target == other.target
        &&& self.version == other.version
        &&& self.content_hash == other.content_hash
        &&& self.owns == other.owns
        &&& self.excludes == other.excludes
        &&& self.accepts_children == other.accepts_children
    }

    /// Leaves out the next part; false if only the labels could be shortened.
    fn shrink(&mut self) -> (more: bool)
        ensures
            final(self).parts() == old(self).parts().shrunk(),
            more == !old(self).parts().bare(),
            final(self).same_core(*old(self)),
            final(self).truncated == old(self).truncated,
            final(self).estimated_tokens == old(self).estimated_tokens,
    {
        if self.references.len() > 0 {
            self.references = Vec::new();
            push_omitted(&mut self.omitted, "references");
            assert(self.references@ =~= Seq::empty());
            return true;
        }
        if self.sibling_examples.len() > 0 {
            let _ = self.sibling_examples.pop();
            push_omitted(&mut self.omitted, "sibling examples");
            assert(self.sibling_examples@ =~= old(self).sibling_examples@.drop_last());
            return true;
        }
        if self.ancestor_conventions.len() > 0 {
            let _ = self.ancestor_conventions.pop();
            push_omitted(&mut self.omitted, "ancestor conventions");
            assert(self.ancestor_conventions@ =~= old(self).ancestor_conventions@.drop_last());
            return true;
        }
        compact_omissions(&mut self.omitted);
        false
    }
}

/// What a measured length leads to, before any part is left out.
#[derive(Clone, Copy, Debug, PartialEq, Eq, Structural)]
pub enum Reading {
    /// The token estimate was corrected: measure again.
    Corrected,
    /// The length stands and fits.
    Fits,
    /// The length stands, is too long, and parts may be left out.
    TooLong,
    /// The length stands, is too long, and nothing is left to leave out.
    Exceeded,
}

impl Budget {
    pub fn new(byte_limit: usize) -> (budget: Budget)
        ensures
            budget == (Budget { byte_limit, round: 0, compacted: false }),
    {
        Budget { byte_limit, round: 0, compacted: false }
    }

    /// How a measured length is read.
    pub open spec fn reading(self, tokens: u64, length: usize) -> Reading {
        if self.round < ESTIMATE_ROUNDS && tokens != estimate_of(length) {
            Reading::Corrected
        } else if length <= self.byte_limit {
            Reading::Fits
        } else if self.compacted {
            Reading::Exceeded
        } else {
            Reading::TooLong
        }
    }

    fn read(&self, tokens: u64, length: usize) -> (reading: Reading)
        ensures
            reading == self.reading(tokens, length),
    {
        if self.round < ESTIMATE_ROUNDS && tokens != estimate(length) {
            Reading::Corrected
        } else if length <= self.byte_limit {
            Reading::Fits
        } else if self.compacted {
            Reading::Exceeded
        } else {
            Reading::TooLong
        }
    }

    /// Takes a measured length of a read context and decides what comes next.
    pub fn measured_read(&mut self, context: &mut ReadContext, length: usize) -> (step: BudgetStep)
        ensures
            final(context).node == old(context).node,
            final(self).byte_limit == old(self).byte_limit,
            match old(self).reading(old(context).estimated_tokens, length) {
                Reading::Corrected => {
                    &&& step == BudgetStep::Measure
                    &&& final(self).round == old(self).round + 1
                    &&& final(self).compacted == old(self).compacted
                    &&& final(context).parts() == old(context).parts()
                    &&& final(context).truncated == old(context).truncated
                    &&& final(context).estimated_tokens == estimate_of(length)
                },
                Reading::Fits => {
                    &&& step == BudgetStep::Fits
                    &&& *final(self) == *old(self)
                    &&& *final(context) == *old(context)
                },
                Reading::TooLong => {
                    &&& step == BudgetStep::Measure
                    &&& final(self).round == 0
                    &&& final(self).compacted == old(context).parts().bare()
                    &&& final(context).parts() == old(context).parts().shrunk()
                    &&& final(context).truncated
                    &&& final(context).estimated_tokens == old(context).estimated_tokens
                },
                Reading::Exceeded => {
                    &&& step == (BudgetStep::Exceeded {
                        minimum: length,
                        requested: old(self).byte_limit,
                    })
                    &&& *final(self) == *old(self)
                    &&& *final(context) == *old(context)
                },
            },
            step is Fits ==> length <= old(self).byte_limit,
            step matches BudgetStep::Exceeded { minimum, requested } ==> minimum > requested,
    {
        match self.read(context.estimated_tokens, length) {
            Reading::Corrected => {
                context.estimated_tokens = estimate(length);
                self.round = self.round + 1;
                BudgetStep::Measure
            },
            Reading::Fits => BudgetStep::Fits,
            Reading::TooLong => {
                context.truncated = true;
                let more = context.shrink();
                self.round = 0;
                self.compacted = !more;
                BudgetStep::Measure
            },
            Reading::Exceeded => BudgetStep::Exceeded {
                minimum: length,
                requested: self.byte_limit,
            },
        }
    }

    /// Takes a measured length of a write context and decides what comes next.
    pub fn measured_write(&mut self, context: &mut WriteContext, length: usize) -> (step:
        BudgetStep)
        ensures
            final(context).same_core(*old(context)),
            final(self).byte_limit == old(self).byte_limit,
            match old(self).reading(old(context).estimated_tokens, length) {
                Reading::Corrected => {
                    &&& step == BudgetStep::Measure
                    &&& final(self).round == old(self).round + 1
                    &&& final(self).compacted == old(self).compacted
                    &&& final(context).parts() == old(context).parts()
                    &&& final(context).truncated == old(context).truncated
                    &&& final(context).estimated_tokens == estimate_of(length)
                },
                Reading::Fits => {
                    &&& step == BudgetStep::Fits
                    &&& *final(self) == *old(self)
                    &&& *final(context) == *old(context)
                },
                Reading::TooLong => {
                    &&& step == BudgetStep::Measure
                    &&& final(self).round == 0
                    &&& final(self).compacted == old(context).parts().bare()
                    &&& final(context).parts() == old(context).parts().shrunk()
                    &&& final(context).truncated
                    &&& final(context).estimated_tokens == old(context).estimated_tokens
                },
                Reading::Exceeded => {
                    &&& step == (BudgetStep::Exceeded {
                        minimum: length,
                        requested: old(self).byte_limit,
                    })
                    &&& *final(self) == *old(self)
                    &&& *final(context) == *old(context)
                },
            },
            step is Fits ==> length <= old(self).byte_limit,
            step matches BudgetStep::Exceeded { minimum, requested } ==> minimum > requested,
    {
        match self.read(context.estimated_tokens, length) {
            Reading::Corrected => {
                context.estimated_tokens = estimate(length);
                self.round = self.round + 1;
                BudgetStep::Measure
            },
            Reading::Fits => BudgetStep::Fits,
            Reading::TooLong => {
                context.truncated = true;
                let more = context.shrink();
                self.round = 0;
                self.compacted = !more;
                BudgetStep::Measure
            },
            Reading::Exceeded => BudgetStep::Exceeded {
                minimum: length,
                requested: self.byte_limit,
            },
        }
    }
}

/// Every omission takes something away, so fitting a context comes to an end;
/// the node itself always stays.
pub proof fn law_shrinking_ends(parts: ReadParts)
    ensures
        !parts.bare() ==> parts.shrunk().weight() < parts.weight(),
        parts.bare() <==> parts.weight() == 0,
{
}

/// Every omission of a write context takes something away.
pub proof fn law_write_shrinking_ends(parts: WriteParts)
    ensures
        !parts.bare() ==> parts.shrunk().weight() < parts.weight(),
        parts.bare() <==> parts.weight() == 0,
{
}

/// Content goes only after references and children, ancestors only after
/// content.
pub proof fn law_omission_order(parts: ReadParts)
    ensures
        parts.shrunk().content != parts.content ==> parts.references.len() == 0
            && parts.children.len() == 0,
        parts.shrunk().ancestors != parts.ancestors ==> parts.references.len() == 0
            && parts.children.len() == 0 && parts.content is None,
        parts.shrunk().children != parts.children ==> parts.references.len() == 0,
{
}

impl SqliteStore {
    /// Assembles the complete read context of a node, before any budget.
    pub fn read_context(&self, id: NodeId) -> (result: Result<ReadContext, StoreError>)
        requires
            is_forest(self@.nodes),
        ensures
            reads_context(self@, id, result),
    {
        let node = self.require(id)?;
        let summary = self.project_summary(&node)?;
        let listed = self.ancestor_nodes(id);
        let ancestors = self.summaries(&listed);
        let below = self.children(id);
        proof {
            lemma_children_present(self@.nodes, id, below@);
        }
        let children = self.summaries(&below);
        assert(lists_children(self@.nodes, id, below@));
        Ok(
            ReadContext {
                node: summary,
                ancestors,
                content: Some(node.markdown_content.clone()),
                children,
                references: self.outgoing_references(id),
                omitted: Vec::new(),
                truncated: false,
                estimated_tokens: 0,
            },
        )
    }
}

proof fn lemma_children_present(nodes: Seq<Node>, id: NodeId, listed: Seq<Node>)
    requires
        lists_children(nodes, id, listed),
    ensures
        forall|i: int| 0 <= i < listed.len() ==> present(nodes, (#[trigger] listed[i]).id),
{
    assert forall|i: int| 0 <= i < listed.len() implies present(nodes, (#[trigger] listed[i]).id) by {
        assert(listed.contains(listed[i]));
        let m = choose|m: int| 0 <= m < nodes.len() && nodes[m] == listed[i];
        assert(nodes[m].id == listed[i].id);
    }
}

/// Whether the convention is that of the node.
pub open spec fn describes_convention(
    nodes: Seq<Node>,
    node: Node,
    convention: ConventionSummary,
) -> bool {
    &&& describes(nodes, node, convention.node)
    &&& texts(convention.owns@) == texts(node.metadata.owns@)
    &&& texts(convention.excludes@) == texts(node.metadata.excludes@)
}

/// Copies texts.
pub fn copy_texts(list: &Vec<String>) -> (copy: Vec<String>)
    ensures
        texts(copy@) == texts(list@),
{
    let mut copy: Vec<String> = Vec::new();
    let mut i: usize = 0;
    while i < list.len()
        invariant
            i <= list.len(),
            copy.len() == i,
            forall|k: int| 0 <= k < i ==> (#[trigger] copy@[k])@ == list@[k]@,
        decreases list.len() - i,
    {
        copy.push(list[i].clone());
        i = i + 1;
    }
    assert(texts(copy@) =~= texts(list@));
    copy
}

impl SqliteStore {
    /// Siblings other than the node itself.
    fn other_siblings(&self, id: NodeId) -> (result: Result<Vec<Node>, StoreError>)
        requires
            unique_ids(self@.nodes),
        ensures
            match lookup(self@.nodes, id) {
                None => result is Err && result->Err_0@ == Refusal::NotFound(id.text()),
                Some(node) => result is Ok && exists|all: Seq<Node>| #[trigger]
                    crate::pages::lists_siblings(self@.nodes, node, all) && result->Ok_0@
                        == all.filter(|n: Node| n.id != id),
            },
            result matches Ok(listed) ==> forall|i: int|
                0 <= i < listed.len() ==> present(self@.nodes, (#[trigger] listed@[i]).id),
    {
        let all = self.siblings(id)?;
        let ghost node = lookup(self@.nodes, id)->0;
        assert(crate::pages::lists_siblings(self@.nodes, node, all@));
        let ghost keep = |n: Node| n.id != id;
        let mut others: Vec<Node> = Vec::new();
        let mut i: usize = 0;
        assert(all@.take(0).filter(keep) =~= Seq::<Node>::empty()) by {
            reveal(Seq::filter);
        }
        while i < all.len()
            invariant
                i <= all.len(),
                keep == (|n: Node| n.id != id),
                others@ == all@.take(i as int).filter(keep),
            decreases all.len() - i,
        {
            proof {
                crate::edits::lemma_filter_step(all@, keep, i as int);
            }
            if all[i].id != id {
                others.push(all[i].copy());
            }
            i = i + 1;
        }
        assert(all@.take(all@.len() as int) =~= all@);
        proof {
            crate::shape::lemma_filter_facts(all@, keep);
            assert forall|i: int| 0 <= i < others.len() implies present(
                self@.nodes,
                (#[trigger] others@[i]).id,
            ) by {
                assert(others@.contains(others@[i]));
                assert(all@.contains(others@[i]));
                match node.parent_id {
                    Some(parent) => {
                        let k = choose|k: int| 0 <= k < all@.len() && all@[k] == others@[i];
                        lemma_children_present(self@.nodes, parent, all@);
                        assert(present(self@.nodes, all@[k].id));
                    },
                    None => {
                        let k = choose|k: int| 0 <= k < all@.len() && all@[k] == others@[i];
                        assert(all@[k] == node);
                        assert(self@.nodes[position(self@.nodes, id)].id == id);
                    },
                }
            }
        }
        Ok(others)
    }

    /// Assembles the complete write context of a node, before any budget.
    pub fn write_context(&self, id: NodeId) -> (result: Result<WriteContext, StoreError>)
        requires
            is_forest(self@.nodes),
        ensures
            writes_context(self@, id, result),
    {
        let node = self.require(id)?;
        let target = self.project_summary(&node)?;
        let others = self.other_siblings(id)?;
        let sibling_examples = self.summaries(&others);
        let listed = self.ancestor_nodes(id);
        let mut conventions: Vec<ConventionSummary> = Vec::new();
        let mut i: usize = 0;
        while i < listed.len()
            invariant
                i <= listed.len(),
                is_forest(self@.nodes),
                listed@ == ancestors_of(self@.nodes, id),
                forall|i: int|
                    0 <= i < listed.len() ==> present(self@.nodes, (#[trigger] listed@[i]).id),
                conventions.len() == i,
                forall|k: int|
                    0 <= k < i ==> describes_convention(
                        self@.nodes,
                        listed@[k],
                        #[trigger] conventions@[k],
                    ),
            decreases listed.len() - i,
        {
            assert(present(self@.nodes, listed@[i as int].id));
            match self.project_summary(&listed[i]) {
                Ok(summary) => {
                    conventions.push(
                        ConventionSummary {
                            node: summary,
                            owns: copy_texts(&listed[i].metadata.owns),
                            excludes: copy_texts(&listed[i].metadata.excludes),
                        },
                    );
                },
                Err(_) => {
                    assert(false);
                },
            }
            i = i + 1;
        }
        Ok(
            WriteContext {
                target,
                version: node.version,
                content_hash: node.content_hash,
                owns: copy_texts(&node.metadata.owns),
                excludes: copy_texts(&node.metadata.excludes),
                accepts_children: copy_texts(&node.metadata.accepts_children),
                sibling_examples,
                ancestor_conventions: conventions,
                references: self.outgoing_references(id),
                omitted: Vec::new(),
                truncated: false,
                estimated_tokens: 0,
            },
        )
    }
}

/// Whether the result is what is to be read with a node: the node, its ancestors from the root
/// on, its content, its children and its references.
pub open spec fn reads_context(
    t: Tables,
    id: NodeId,
    result: Result<ReadContext, StoreError>,
) -> bool {
    match lookup(t.nodes, id) {
        None => result is Err && result->Err_0@ == Refusal::NotFound(id.text()),
        Some(node) => {
            &&& result is Ok
            &&& describes(t.nodes, node, result->Ok_0.node)
            &&& describe_all(
                t.nodes,
                ancestors_of(t.nodes, id),
                result->Ok_0.ancestors@,
            )
            &&& text_of(result->Ok_0.content) == Some(node.markdown_content@)
            &&& exists|children: Seq<Node>| #[trigger]
                lists_children(t.nodes, id, children) && describe_all(
                    t.nodes,
                    children,
                    result->Ok_0.children@,
                )
            &&& reference_views(result->Ok_0.references@) == references_of(
                touching(t, ReferenceSide::Source, id),
            )
            &&& result->Ok_0.omitted@.len() == 0
            &&& !result->Ok_0.truncated
            &&& result->Ok_0.estimated_tokens == 0
        },
    }
}

/// Whether the result is what is to be known before writing to a node: the node's own rules, its
/// siblings, the rules of its ancestors and its references.
pub open spec fn writes_context(
    t: Tables,
    id: NodeId,
    result: Result<WriteContext, StoreError>,
) -> bool {
    match lookup(t.nodes, id) {
        None => result is Err && result->Err_0@ == Refusal::NotFound(id.text()),
        Some(node) => {
            &&& result is Ok
            &&& describes(t.nodes, node, result->Ok_0.target)
            &&& result->Ok_0.version == node.version
            &&& result->Ok_0.content_hash == node.content_hash
            &&& texts(result->Ok_0.owns@) == texts(node.metadata.owns@)
            &&& texts(result->Ok_0.excludes@) == texts(node.metadata.excludes@)
            &&& texts(result->Ok_0.accepts_children@) == texts(
                node.metadata.accepts_children@,
            )
            &&& exists|all: Seq<Node>| #[trigger]
                crate::pages::lists_siblings(t.nodes, node, all) && describe_all(
                    t.nodes,
                    all.filter(|n: Node| n.id != id),
                    result->Ok_0.sibling_examples@,
                )
            &&& result->Ok_0.ancestor_conventions@.len() == ancestors_of(
                t.nodes,
                id,
            ).len()
            &&& forall|i: int|
                0 <= i < result->Ok_0.ancestor_conventions@.len() ==> describes_convention(
                    t.nodes,
                    ancestors_of(t.nodes, id)[i],
                    #[trigger] result->Ok_0.ancestor_conventions@[i],
                )
            &&& reference_views(result->Ok_0.references@) == references_of(
                touching(t, ReferenceSide::Source, id),
            )
            &&& result->Ok_0.omitted@.len() == 0
            &&& !result->Ok_0.truncated
            &&& result->Ok_0.estimated_tokens == 0
        },
    }
}

} // verus!
