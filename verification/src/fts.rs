//! The context in which the search index holds a document.
//!
//! A document keeps the context that its node had when the node was last written, or
//! when its children last changed through creation, a batch or a clone.

use crate::destinations::{breadcrumb_text, titles_of};
use crate::diagnostics::texts;
use crate::listing::lemma_lists_unique;
use crate::model::{FtsDocument, Node, NodeId};
use crate::reads::{above, level, lists_children};
use crate::tables::{SqliteStore, Tables};
use crate::text::share;
use crate::tree::{
    climb, ends, find, height, is_forest, lemma_climb_exists, lemma_climb_shift, lemma_height,
    lemma_height_parent, lemma_position, links, node_at, position, present, sibling_key,
    unique_ids,
};
use crate::tree_batch::lemma_distinct_bounded;
use crate::words::{join, joined_by};
use std::sync::Arc;
use vstd::prelude::*;

verus! {

/// The context columns of a node's search documents.
#[derive(Debug)]
pub struct FtsContext {
    /// Titles from the root down to the node.
    pub breadcrumb: String,
    /// Titles and summaries of the ancestors, the nearest first.
    pub ancestor_context: String,
    /// Titles of the children.
    pub child_context: String,
}

/// The contents of an [`FtsContext`].
pub struct ContextView {
    pub breadcrumb: Seq<char>,
    pub ancestor_context: Seq<char>,
    pub child_context: Seq<char>,
}

impl View for FtsContext {
    type V = ContextView;

    open spec fn view(&self) -> ContextView {
        ContextView {
            breadcrumb: self.breadcrumb@,
            ancestor_context: self.ancestor_context@,
            child_context: self.child_context@,
        }
    }
}

/// A search document as the index holds it.
#[derive(Debug)]
pub struct FtsRow {
    pub document: Arc<FtsDocument>,
    pub context: Arc<FtsContext>,
}

/// The contents of an [`FtsRow`].
pub struct FtsRowView {
    pub document: Arc<FtsDocument>,
    pub context: ContextView,
}

impl View for FtsRow {
    type V = FtsRowView;

    open spec fn view(&self) -> FtsRowView {
        FtsRowView { document: self.document, context: self.context@ }
    }
}

pub open spec fn fts_views(rows: Seq<FtsRow>) -> Seq<FtsRowView> {
    Seq::new(rows.len(), |i: int| rows[i]@)
}

/// A context that says nothing.
pub open spec fn blank_context() -> ContextView {
    ContextView {
        breadcrumb: Seq::empty(),
        ancestor_context: Seq::empty(),
        child_context: Seq::empty(),
    }
}

/// Documents as they are first stored: without a context.
pub open spec fn fresh_rows(documents: Seq<Arc<FtsDocument>>) -> Seq<FtsRowView> {
    Seq::new(
        documents.len(),
        |i: int| FtsRowView { document: documents[i], context: blank_context() },
    )
}

/// The title of a node, then its summary.
pub open spec fn title_and_summary(node: Node) -> Seq<char> {
    let summary = match node.metadata.summary {
        Some(text) => text@,
        None => Seq::empty(),
    };
    node.metadata.title@ + " "@ + summary
}

/// The node and those above it, the nearest first, no more than `fuel`.
pub open spec fn way_from(nodes: Seq<Node>, id: NodeId, fuel: nat) -> Seq<Node>
    decreases fuel,
{
    if fuel == 0 || !present(nodes, id) {
        Seq::empty()
    } else {
        seq![node_at(nodes, id)] + match node_at(nodes, id).parent_id {
            Some(parent) => way_from(nodes, parent, (fuel - 1) as nat),
            None => Seq::empty(),
        }
    }
}

/// Titles of the listed nodes, the last one first.
pub open spec fn titles_down(way: Seq<Node>) -> Seq<Seq<char>> {
    Seq::new(way.len(), |i: int| way[way.len() - 1 - i].metadata.title@)
}

/// What the nodes behind the first one say.
pub open spec fn lines_above(way: Seq<Node>) -> Seq<Seq<char>> {
    Seq::new(
        if way.len() > 0 {
            (way.len() - 1) as nat
        } else {
            0
        },
        |i: int| title_and_summary(way[i + 1]),
    )
}

/// The children of a node, in sibling order.
pub open spec fn children_of(nodes: Seq<Node>, id: NodeId) -> Seq<Node> {
    choose|children: Seq<Node>| lists_children(nodes, id, children)
}

/// The context that a node has among the nodes.
pub open spec fn context_of(nodes: Seq<Node>, id: NodeId) -> ContextView {
    let way = way_from(nodes, id, nodes.len());
    let children = children_of(nodes, id);
    ContextView {
        breadcrumb: joined_by(titles_down(way), " > "@, way.len() as int),
        ancestor_context: joined_by(lines_above(way), " "@, way.len() - 1),
        child_context: joined_by(titles_of(children), " "@, children.len() as int),
    }
}

/// The rows after the contexts of the affected nodes' documents were renewed.
pub open spec fn refreshed(
    rows: Seq<FtsRowView>,
    nodes: Seq<Node>,
    affected: spec_fn(NodeId) -> bool,
) -> Seq<FtsRowView> {
    Seq::new(
        rows.len(),
        |i: int|
            if affected(rows[i].document.node_id) {
                FtsRowView {
                    document: rows[i].document,
                    context: context_of(nodes, rows[i].document.node_id),
                }
            } else {
                rows[i]
            },
    )
}

/// The one node alone.
pub open spec fn only(id: NodeId) -> spec_fn(NodeId) -> bool {
    |x: NodeId| x == id
}

impl Tables {
    /// Renews the contexts of the affected nodes' documents; other documents keep
    /// theirs.
    pub open spec fn refresh(self, affected: spec_fn(NodeId) -> bool) -> Tables {
        Tables { fts: refreshed(self.fts, self.nodes, affected), ..self }
    }
}

impl FtsRow {
    pub fn copy(&self) -> (row: FtsRow)
        ensures
            row@ == self@,
    {
        FtsRow { document: share(&self.document), context: share(&self.context) }
    }
}

/// Copies document rows.
pub fn copy_documents(rows: &Vec<FtsRow>) -> (copy: Vec<FtsRow>)
    ensures
        fts_views(copy@) == fts_views(rows@),
{
    let mut copy: Vec<FtsRow> = Vec::new();
    let mut i: usize = 0;
    while i < rows.len()
        invariant
            i <= rows.len(),
            copy.len() == i,
            forall|k: int| 0 <= k < i ==> (#[trigger] copy@[k])@ == rows@[k]@,
        decreases rows.len() - i,
    {
        copy.push(rows[i].copy());
        i = i + 1;
    }
    assert(fts_views(copy@) =~= fts_views(rows@));
    copy
}

/// The rows whose node is not among `gone`.
pub fn without_documents(rows: &Vec<FtsRow>, gone: &Vec<NodeId>) -> (kept: Vec<FtsRow>)
    ensures
        fts_views(kept@) == fts_views(rows@).filter(
            |f: FtsRowView| !gone@.contains(f.document.node_id),
        ),
{
    let ghost keep = |f: FtsRowView| !gone@.contains(f.document.node_id);
    let ghost all = fts_views(rows@);
    let mut kept: Vec<FtsRow> = Vec::new();
    let mut i: usize = 0;
    assert(fts_views(kept@) =~= all.take(0).filter(keep)) by {
        reveal(Seq::filter);
    }
    while i < rows.len()
        invariant
            i <= rows.len(),
            all == fts_views(rows@),
            keep == (|f: FtsRowView| !gone@.contains(f.document.node_id)),
            fts_views(kept@) == all.take(i as int).filter(keep),
        decreases rows.len() - i,
    {
        proof {
            crate::edits::lemma_filter_step(all, keep, i as int);
        }
        let ghost before = fts_views(kept@);
        if !crate::edits::contains_id(gone, rows[i].document.node_id) {
            kept.push(rows[i].copy());
            assert(fts_views(kept@) =~= before.push(all[i as int]));
        }
        i = i + 1;
    }
    assert(all.take(rows@.len() as int) =~= all);
    kept
}

/// Stores documents without a context.
pub fn make_rows(documents: &Vec<Arc<FtsDocument>>) -> (rows: Vec<FtsRow>)
    ensures
        fts_views(rows@) == fresh_rows(documents@),
{
    let mut rows: Vec<FtsRow> = Vec::new();
    let mut i: usize = 0;
    while i < documents.len()
        invariant
            i <= documents.len(),
            rows.len() == i,
            forall|k: int|
                0 <= k < i ==> (#[trigger] rows@[k])@ == (FtsRowView {
                    document: documents@[k],
                    context: blank_context(),
                }),
        decreases documents.len() - i,
    {
        let context = FtsContext {
            breadcrumb: String::new(),
            ancestor_context: String::new(),
            child_context: String::new(),
        };
        assert(context.breadcrumb@ =~= Seq::<char>::empty());
        assert(context.ancestor_context@ =~= Seq::<char>::empty());
        assert(context.child_context@ =~= Seq::<char>::empty());
        rows.push(FtsRow { document: share(&documents[i]), context: Arc::new(context) });
        i = i + 1;
    }
    assert(fts_views(rows@) =~= fresh_rows(documents@));
    rows
}

/// The rows of the listed positions.
spec fn nodes_at(nodes: Seq<Node>, way: Seq<usize>) -> Seq<Node> {
    Seq::new(way.len(), |i: int| nodes[way[i] as int])
}

/// Positions of the node and those above it, the nearest first, no more than there are
/// rows.
fn find_way(nodes: &Vec<Node>, id: NodeId) -> (way: Vec<usize>)
    requires
        unique_ids(nodes@),
    ensures
        nodes_at(nodes@, way@) == way_from(nodes@, id, nodes@.len()),
        forall|k: int| 0 <= k < way.len() ==> #[trigger] way@[k] < nodes.len(),
{
    let ghost whole = way_from(nodes@, id, nodes@.len());
    let mut way: Vec<usize> = Vec::new();
    let mut fuel: usize = nodes.len();
    let mut next: Option<NodeId> = Some(id);
    assert(nodes_at(nodes@, way@) + whole =~= whole);
    while fuel > 0 && next.is_some()
        invariant
            unique_ids(nodes@),
            whole == way_from(nodes@, id, nodes@.len()),
            forall|k: int| 0 <= k < way.len() ==> #[trigger] way@[k] < nodes.len(),
            whole == nodes_at(nodes@, way@) + match next {
                Some(x) => way_from(nodes@, x, fuel as nat),
                None => Seq::empty(),
            },
        decreases fuel,
    {
        let ghost before = nodes_at(nodes@, way@);
        let here: NodeId = next.unwrap();
        match find(nodes, here) {
            Some(at) => {
                proof {
                    lemma_position(nodes@, at as int);
                }
                way.push(at);
                next = nodes[at].parent_id;
                fuel = fuel - 1;
                proof {
                    let node = nodes@[at as int];
                    assert(nodes_at(nodes@, way@) =~= before.push(node));
                    let rest = match next {
                        Some(x) => way_from(nodes@, x, fuel as nat),
                        None => Seq::empty(),
                    };
                    assert(before + (seq![node] + rest) =~= before.push(node) + rest);
                }
            },
            None => {
                next = None;
                fuel = 0;
                assert(before + Seq::<Node>::empty() =~= before);
            },
        }
    }
    assert(whole =~= nodes_at(nodes@, way@));
    way
}

impl SqliteStore {
    /// Assembles the context of a node for the search index.
    pub fn fts_context(&self, id: NodeId) -> (context: FtsContext)
        requires
            unique_ids(self@.nodes),
        ensures
            context@ == context_of(self@.nodes, id),
    {
        let ghost nodes = self@.nodes;
        let way = find_way(&self.nodes, id);
        let ghost listed = way_from(nodes, id, nodes.len());
        assert(listed.len() == way.len());
        let mut titles: Vec<String> = Vec::new();
        let mut i: usize = way.len();
        while i > 0
            invariant
                i <= way.len(),
                nodes == self@.nodes,
                listed == nodes_at(nodes, way@),
                listed.len() == way.len(),
                forall|k: int| 0 <= k < way.len() ==> #[trigger] way@[k] < nodes.len(),
                titles.len() == way.len() - i,
                forall|k: int|
                    0 <= k < titles.len() ==> (#[trigger] titles@[k])@ == titles_down(listed)[k],
            decreases i,
        {
            i = i - 1;
            titles.push(self.nodes[way[i]].metadata.title.clone());
        }
        assert(texts(titles@) =~= titles_down(listed));
        let mut lines: Vec<String> = Vec::new();
        let mut j: usize = 1;
        while j < way.len()
            invariant
                1 <= j,
                way.len() == 0 ==> j == 1,
                way.len() > 0 ==> j <= way.len(),
                nodes == self@.nodes,
                listed == nodes_at(nodes, way@),
                listed.len() == way.len(),
                forall|k: int| 0 <= k < way.len() ==> #[trigger] way@[k] < nodes.len(),
                lines.len() == j - 1,
                forall|k: int|
                    0 <= k < lines.len() ==> (#[trigger] lines@[k])@ == title_and_summary(
                        listed[k + 1],
                    ),
            decreases way.len() - j,
        {
            let node = &self.nodes[way[j]];
            let mut line = node.metadata.title.clone();
            line.push_str(" ");
            match &node.metadata.summary {
                Some(text) => {
                    line.push_str(text.as_str());
                },
                None => {},
            }
            assert(line@ =~= title_and_summary(*node));
            lines.push(line);
            j = j + 1;
        }
        assert(texts(lines@) =~= lines_above(listed));
        let children = self.children(id);
        proof {
            lemma_children_of(nodes, id, children@);
        }
        let mut names: Vec<String> = Vec::new();
        let mut c: usize = 0;
        while c < children.len()
            invariant
                c <= children.len(),
                names.len() == c,
                forall|k: int|
                    0 <= k < c ==> (#[trigger] names@[k])@ == children@[k].metadata.title@,
            decreases children.len() - c,
        {
            names.push(children[c].metadata.title.clone());
            c = c + 1;
        }
        assert(texts(names@) =~= titles_of(children@));
        assert(listed.len() == 0 ==> joined_by(lines_above(listed), " "@, -1) == joined_by(
            lines_above(listed),
            " "@,
            0,
        ));
        FtsContext {
            breadcrumb: join(&titles, " > "),
            ancestor_context: join(&lines, " "),
            child_context: join(&names, " "),
        }
    }

    /// Renews the contexts of the documents of some nodes.
    pub fn refresh_contexts(&mut self, ids: &Vec<NodeId>)
        requires
            unique_ids(old(self)@.nodes),
        ensures
            final(self)@ == old(self)@.refresh(|x: NodeId| ids@.contains(x)),
    {
        let ghost start = self@;
        let ghost affected = |x: NodeId| ids@.contains(x);
        let ghost goal = refreshed(start.fts, start.nodes, affected);
        let mut rows: Vec<FtsRow> = Vec::new();
        let mut i: usize = 0;
        while i < self.fts.len()
            invariant
                i <= self.fts.len(),
                start == self@,
                *self == *old(self),
                unique_ids(start.nodes),
                affected == (|x: NodeId| ids@.contains(x)),
                goal == refreshed(start.fts, start.nodes, affected),
                rows.len() == i,
                forall|k: int| 0 <= k < i ==> (#[trigger] rows@[k])@ == goal[k],
            decreases self.fts.len() - i,
        {
            let id: NodeId = self.fts[i].document.node_id;
            assert(start.fts[i as int] == self.fts@[i as int]@);
            let row: FtsRow = if crate::edits::contains_id(ids, id) {
                FtsRow {
                    document: share(&self.fts[i].document),
                    context: Arc::new(self.fts_context(id)),
                }
            } else {
                self.fts[i].copy()
            };
            rows.push(row);
            i = i + 1;
        }
        assert(fts_views(rows@) =~= goal);
        self.fts = rows;
    }
}

/// The listed children of a node are its children.
pub proof fn lemma_children_of(nodes: Seq<Node>, id: NodeId, children: Seq<Node>)
    requires
        lists_children(nodes, id, children),
    ensures
        children_of(nodes, id) == children,
{
    lemma_lists_unique(
        nodes,
        |n: Node| n.parent_id == Some(id),
        |n: Node| sibling_key(n),
        children_of(nodes, id),
        children,
    );
}

/// No way up is longer than there are nodes.
proof fn lemma_level_bound(nodes: Seq<Node>, id: NodeId)
    requires
        is_forest(nodes),
        present(nodes, id),
    ensures
        level(nodes, id) <= nodes.len(),
{
    let up = links(nodes);
    assert(ends(up, id));
    lemma_height(up, id);
    let h = height(up, id);
    let ids = Seq::new(h, |k: int| climb(up, id, k as nat)->0);
    assert(ids.no_duplicates()) by {
        assert forall|i: int, j: int| 0 <= i < ids.len() && 0 <= j < ids.len() && i != j implies ids[i]
            != ids[j] by {
            assert(climb(up, id, i as nat) is Some);
            assert(climb(up, id, j as nat) is Some);
            if ids[i] == ids[j] {
                crate::tree::lemma_depth_unique(up, ids[i], id, i as nat, j as nat);
            }
        }
    }
    assert forall|k: int| 0 <= k < ids.len() implies present(nodes, #[trigger] ids[k]) by {
        assert(climb(up, id, k as nat) is Some);
        lemma_climb_exists(nodes, id, k as nat);
    }
    lemma_distinct_bounded(nodes, ids);
}

proof fn lemma_way(nodes: Seq<Node>, id: NodeId, fuel: nat)
    requires
        is_forest(nodes),
        present(nodes, id),
        level(nodes, id) <= fuel,
    ensures
        way_from(nodes, id, fuel) == Seq::new(level(nodes, id), |k: int| above(nodes, id, k)),
    decreases fuel,
{
    let up = links(nodes);
    assert(ends(up, id));
    lemma_height(up, id);
    let p = position(nodes, id);
    assert(nodes[p].id == id);
    lemma_position(nodes, p);
    let goal = Seq::new(level(nodes, id), |k: int| above(nodes, id, k));
    assert(climb(up, id, 0) == Some(id));
    assert(goal[0] == node_at(nodes, id));
    match node_at(nodes, id).parent_id {
        Some(parent) => {
            assert(present(nodes, parent));
            lemma_height_parent(up, id);
            lemma_way(nodes, parent, (fuel - 1) as nat);
            let rest = way_from(nodes, parent, (fuel - 1) as nat);
            assert forall|k: int| 0 <= k < rest.len() implies goal[k + 1] == #[trigger] rest[k] by {
                lemma_climb_shift(up, id, k as nat);
            }
            assert(way_from(nodes, id, fuel) =~= goal);
        },
        None => {
            assert(!up.contains_key(id));
            assert(climb(up, id, 1) is None) by {
                lemma_climb_shift(up, id, 0);
            }
            if level(nodes, id) > 1 {
                assert(climb(up, id, 1) is Some);
            }
            assert(way_from(nodes, id, fuel) =~= goal);
        },
    }
}

/// Among the nodes of a workspace the context of a node holds its breadcrumb, and what
/// each of its ancestors says, the nearest first.
pub proof fn law_context_follows_the_tree(nodes: Seq<Node>, id: NodeId)
    requires
        is_forest(nodes),
        present(nodes, id),
    ensures
        context_of(nodes, id).breadcrumb == breadcrumb_text(nodes, id),
        context_of(nodes, id).ancestor_context == joined_by(
            Seq::new(
                (level(nodes, id) - 1) as nat,
                |i: int| title_and_summary(above(nodes, id, i + 1)),
            ),
            " "@,
            level(nodes, id) - 1,
        ),
{
    lemma_level_bound(nodes, id);
    lemma_way(nodes, id, nodes.len());
    let up = links(nodes);
    assert(ends(up, id));
    lemma_height(up, id);
    let n = level(nodes, id);
    let way = way_from(nodes, id, nodes.len());
    assert(titles_down(way) =~= Seq::new(n, |i: int| above(nodes, id, n - 1 - i).metadata.title@));
    assert(lines_above(way) =~= Seq::new(
        (n - 1) as nat,
        |i: int| title_and_summary(above(nodes, id, i + 1)),
    ));
}

/// Renewing the contexts of some nodes leaves every other document as it was.
pub proof fn law_other_contexts_stay(t: Tables, affected: spec_fn(NodeId) -> bool, i: int)
    requires
        0 <= i < t.fts.len(),
    ensures
        t.refresh(affected).fts.len() == t.fts.len(),
        t.refresh(affected).fts[i].document == t.fts[i].document,
        !affected(t.fts[i].document.node_id) ==> t.refresh(affected).fts[i] == t.fts[i],
        affected(t.fts[i].document.node_id) ==> t.refresh(affected).fts[i].context == context_of(
            t.nodes,
            t.fts[i].document.node_id,
        ),
{
}

} // verus!
