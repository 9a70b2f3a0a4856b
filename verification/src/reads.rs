//! Canonical reads: lookup, selectors, tree neighbourhood, paths and history.

use crate::listing::{arranges, lemma_arranged_lists, lists, picks};
use crate::model::{
    invalid_data, not_found, Node, NodeId, NodeRevision, Refusal, RevisionView, StoreError,
};
use crate::order::sorted_positions;
use crate::tables::{revision_views, same_id, SqliteStore, Tables};
use crate::traverse::{walk, Extent, Placed, TraversalOrder};
use crate::tree::{
    climb, find, height, is_forest, lemma_position, links, lookup, node_at, present, sibling_key,
    unique_ids, way_up,
};
use vstd::prelude::*;

verus! {

/// Traversal node and relative depth.
#[derive(Debug)]
pub struct NodeDepth {
    pub node: Node,
    pub depth: usize,
}

/// How a caller names a node.
#[derive(Debug)]
pub enum NodeSelector {
    /// By identity.
    Id(NodeId),
    /// By a slug that must be unambiguous in the workspace.
    Slug(String),
    /// By slugs from the root down; the root's own slug may be left out.
    Path(Vec<String>),
}

/// First position from `i` on whose item satisfies `pred`.
pub open spec fn first_from<T>(items: Seq<T>, pred: spec_fn(T) -> bool, i: int) -> Option<int>
    decreases items.len() - i,
{
    if i >= items.len() {
        None
    } else if pred(items[i]) {
        Some(i)
    } else {
        first_from(items, pred, i + 1)
    }
}

/// The first row without a parent.
pub open spec fn root_of(nodes: Seq<Node>) -> Option<Node> {
    match first_from(nodes, |n: Node| n.parent_id is None, 0) {
        Some(i) => Some(nodes[i]),
        None => None,
    }
}

/// The children of a node with the slug.
pub open spec fn is_child_named(parent: NodeId, slug: Seq<char>) -> spec_fn(Node) -> bool {
    |n: Node| n.parent_id == Some(parent) && n.slug@ == slug
}

/// The first child of `parent` with the slug.
pub open spec fn child_named(nodes: Seq<Node>, parent: NodeId, slug: Seq<char>) -> Option<Node> {
    match first_from(nodes, is_child_named(parent, slug), 0) {
        Some(i) => Some(nodes[i]),
        None => None,
    }
}

/// The node reached from `from` by following the slugs from the `k`-th on.
pub open spec fn descend(nodes: Seq<Node>, from: Node, path: Seq<String>, k: int) -> Option<Node>
    decreases path.len() - k,
{
    if k >= path.len() {
        Some(from)
    } else {
        match child_named(nodes, from.id, path[k]@) {
            Some(next) => descend(nodes, next, path, k + 1),
            None => None,
        }
    }
}

/// The meaning of a path.
pub open spec fn resolved_path(nodes: Seq<Node>, path: Seq<String>) -> Result<
    Option<Node>,
    Refusal,
> {
    match root_of(nodes) {
        Some(root) => Ok(
            descend(
                nodes,
                root,
                path,
                if path.len() > 0 && path[0]@ == root.slug@ {
                    1
                } else {
                    0
                },
            ),
        ),
        None => Err(Refusal::NotFound("root"@)),
    }
}

/// The meaning of a slug: the only node that has it.
pub open spec fn resolved_slug(nodes: Seq<Node>, slug: Seq<char>) -> Result<Option<Node>, Refusal> {
    let named = |n: Node| n.slug@ == slug;
    match first_from(nodes, named, 0) {
        None => Ok(None),
        Some(i) => if first_from(nodes, named, i + 1) is Some {
            Err(Refusal::Ambiguous(slug))
        } else {
            Ok(Some(nodes[i]))
        },
    }
}

/// The meaning of a selector.
pub open spec fn resolved(nodes: Seq<Node>, selector: NodeSelector) -> Result<
    Option<Node>,
    Refusal,
> {
    match selector {
        NodeSelector::Id(id) => Ok(lookup(nodes, id)),
        NodeSelector::Slug(slug) => resolved_slug(nodes, slug@),
        NodeSelector::Path(path) => resolved_path(nodes, path@),
    }
}

/// Whether `listed` holds the children of a node in sibling order.
pub open spec fn lists_children(nodes: Seq<Node>, parent: NodeId, listed: Seq<Node>) -> bool {
    lists(nodes, |n: Node| n.parent_id == Some(parent), |n: Node| sibling_key(n), listed)
}

/// The highest sibling position among the first `n` rows below a parent.
pub open spec fn max_order(nodes: Seq<Node>, parent: NodeId, n: int) -> Option<u32>
    decreases n,
{
    if n <= 0 {
        None
    } else {
        let before = max_order(nodes, parent, n - 1);
        let row = nodes[n - 1];
        if row.parent_id != Some(parent) {
            before
        } else {
            match before {
                Some(m) => Some(
                    if row.sibling_order > m {
                        row.sibling_order
                    } else {
                        m
                    },
                ),
                None => Some(row.sibling_order),
            }
        }
    }
}

/// The position after the last child.
pub open spec fn next_order(nodes: Seq<Node>, parent: NodeId) -> u32 {
    match max_order(nodes, parent, nodes.len() as int) {
        Some(m) => if m == u32::MAX {
            m
        } else {
            (m + 1) as u32
        },
        None => 0,
    }
}

/// The node `k` links above the given one.
pub open spec fn above(nodes: Seq<Node>, id: NodeId, k: int) -> Node {
    node_at(nodes, climb(links(nodes), id, k as nat)->0)
}

/// Whether the titles are those from the root down to the node.
pub open spec fn is_breadcrumb(nodes: Seq<Node>, id: NodeId, titles: Seq<String>) -> bool {
    &&& titles.len() == level(nodes, id)
    &&& forall|i: int|
        0 <= i < titles.len() ==> (#[trigger] titles[i])@ == above(
            nodes,
            id,
            titles.len() - 1 - i,
        ).metadata.title@
}

/// Whether the slugs are those from the root down to the node.
pub open spec fn is_slug_path(nodes: Seq<Node>, id: NodeId, slugs: Seq<String>) -> bool {
    &&& slugs.len() == level(nodes, id)
    &&& forall|i: int|
        0 <= i < slugs.len() ==> (#[trigger] slugs[i])@ == above(
            nodes,
            id,
            slugs.len() - 1 - i,
        ).slug@
}

/// Number of nodes from the root down to the given one.
pub open spec fn level(nodes: Seq<Node>, id: NodeId) -> nat {
    height(links(nodes), id)
}

/// First row that satisfies: has no parent.
fn first_root(nodes: &Vec<Node>) -> (found: Option<usize>)
    ensures
        first_from(nodes@, |n: Node| n.parent_id is None, 0) == match found {
            Some(i) => Some(i as int),
            None => None,
        },
        found matches Some(i) ==> i < nodes.len(),
{
    let ghost pred = |n: Node| n.parent_id is None;
    let mut i: usize = 0;
    while i < nodes.len()
        invariant
            i <= nodes.len(),
            pred == (|n: Node| n.parent_id is None),
            first_from(nodes@, pred, 0) == first_from(nodes@, pred, i as int),
        decreases nodes.len() - i,
    {
        if nodes[i].parent_id.is_none() {
            return Some(i);
        }
        i = i + 1;
    }
    None
}

/// First row from `from` on with the slug.
fn first_slug(nodes: &Vec<Node>, slug: &String, from: usize) -> (found: Option<usize>)
    requires
        from <= nodes.len(),
    ensures
        first_from(nodes@, |n: Node| n.slug@ == slug@, from as int) == match found {
            Some(i) => Some(i as int),
            None => None,
        },
        found matches Some(i) ==> i < nodes.len(),
{
    let ghost pred = |n: Node| n.slug@ == slug@;
    let mut i: usize = from;
    while i < nodes.len()
        invariant
            from <= i <= nodes.len(),
            pred == (|n: Node| n.slug@ == slug@),
            first_from(nodes@, pred, from as int) == first_from(nodes@, pred, i as int),
        decreases nodes.len() - i,
    {
        if nodes[i].slug == *slug {
            return Some(i);
        }
        i = i + 1;
    }
    None
}

/// First child of `parent` with the slug.
fn first_child(nodes: &Vec<Node>, parent: NodeId, slug: &String) -> (found: Option<usize>)
    ensures
        child_named(nodes@, parent, slug@) == match found {
            Some(i) => Some(nodes@[i as int]),
            None => None,
        },
        found matches Some(i) ==> i < nodes.len(),
{
    let ghost pred = is_child_named(parent, slug@);
    let mut i: usize = 0;
    while i < nodes.len()
        invariant
            i <= nodes.len(),
            pred == is_child_named(parent, slug@),
            first_from(nodes@, pred, 0) == first_from(nodes@, pred, i as int),
        decreases nodes.len() - i,
    {
        if same_id(nodes[i].parent_id, Some(parent)) && nodes[i].slug == *slug {
            return Some(i);
        }
        i = i + 1;
    }
    None
}

/// The children of a node in sibling order.
pub fn children_of(nodes: &Vec<Node>, parent: NodeId) -> (children: Vec<Node>)
    requires
        unique_ids(nodes@),
    ensures
        lists_children(nodes@, parent, children@),
{
    let ghost pred = |n: Node| n.parent_id == Some(parent);
    let ghost key = |n: Node| sibling_key(n);
    let mut picked: Vec<usize> = Vec::new();
    let mut keys: Vec<Vec<u128>> = Vec::new();
    let mut i: usize = 0;
    while i < nodes.len()
        invariant
            i <= nodes.len(),
            pred == (|n: Node| n.parent_id == Some(parent)),
            key == (|n: Node| sibling_key(n)),
            keys.len() == picked.len(),
            picked@.no_duplicates(),
            forall|k: int|
                0 <= k < picked.len() ==> #[trigger] picked@[k] < i && pred(
                    nodes@[picked@[k] as int],
                ),
            forall|j: int| 0 <= j < i && pred(#[trigger] nodes@[j]) ==> picked@.contains(j as usize),
            forall|k: int|
                0 <= k < picked.len() ==> #[trigger] keys@[k]@ == key(nodes@[picked@[k] as int]),
        decreases nodes.len() - i,
    {
        let ghost before = picked@;
        if same_id(nodes[i].parent_id, Some(parent)) {
            let mut k: Vec<u128> = Vec::new();
            k.push(nodes[i].sibling_order as u128);
            k.push(nodes[i].id.value);
            assert(k@ =~= sibling_key(nodes@[i as int]));
            keys.push(k);
            picked.push(i);
            proof {
                assert(picked@[before.len() as int] == i);
                assert forall|j: int| 0 <= j < i + 1 && pred(#[trigger] nodes@[j]) implies picked@.contains(
                j as usize) by {
                    if j < i {
                        let k = choose|k: int| 0 <= k < before.len() && before[k] == j as usize;
                        assert(picked@[k] == j as usize);
                    }
                }
            }
        }
        i = i + 1;
    }
    let order = sorted_positions(&keys);
    let mut children: Vec<Node> = Vec::new();
    let mut n: usize = 0;
    while n < order.len()
        invariant
            n <= order.len(),
            order.len() == picked.len(),
            forall|i: int| 0 <= i < order.len() ==> #[trigger] order@[i] < picked.len(),
            forall|k: int| 0 <= k < picked.len() ==> #[trigger] picked@[k] < nodes.len(),
            children.len() == n,
            forall|m: int|
                0 <= m < n ==> #[trigger] children@[m] == nodes@[picked@[order@[m] as int] as int],
        decreases order.len() - n,
    {
        children.push(nodes[picked[order[n]]].copy());
        n = n + 1;
    }
    proof {
        assert forall|k: int, l: int|
            0 <= k < picked.len() && 0 <= l < picked.len() && k != l implies key(
            nodes@[#[trigger] picked@[k] as int],
        ) != key(nodes@[#[trigger] picked@[l] as int]) by {
            let a = nodes@[picked@[k] as int];
            let b = nodes@[picked@[l] as int];
            assert(sibling_key(a)[1] == a.id.value);
            assert(sibling_key(b)[1] == b.id.value);
            if key(a) == key(b) {
                assert(nodes@[picked@[k] as int].id == nodes@[picked@[l] as int].id);
            }
        }
        assert(picks(nodes@, pred, picked@));
        assert(arranges(nodes@, picked@, keys@, order@, children@));
        lemma_arranged_lists(nodes@, pred, key, picked@, keys@, order@, children@);
    }
    children
}

impl SqliteStore {
    /// Loads by stable identity.
    pub fn get(&self, id: NodeId) -> (node: Option<Node>)
        requires
            unique_ids(self@.nodes),
        ensures
            node == lookup(self@.nodes, id),
    {
        match find(&self.nodes, id) {
            Some(i) => Some(self.nodes[i].copy()),
            None => None,
        }
    }

    /// Loads by stable identity, refusing an unknown one.
    pub fn require(&self, id: NodeId) -> (result: Result<Node, StoreError>)
        requires
            unique_ids(self@.nodes),
        ensures
            match lookup(self@.nodes, id) {
                Some(node) => result == Ok::<Node, StoreError>(node),
                None => result is Err && result->Err_0@ == Refusal::NotFound(id.text()),
            },
    {
        match self.get(id) {
            Some(node) => Ok(node),
            None => Err(not_found(id)),
        }
    }

    /// Resolves an ID, unambiguous slug, or root-relative path.
    pub fn resolve(&self, selector: &NodeSelector) -> (result: Result<Option<Node>, StoreError>)
        requires
            unique_ids(self@.nodes),
        ensures
            match resolved(self@.nodes, *selector) {
                Ok(node) => result == Ok::<Option<Node>, StoreError>(node),
                Err(e) => result is Err && result->Err_0@ == e,
            },
    {
        match selector {
            NodeSelector::Id(id) => Ok(self.get(*id)),
            NodeSelector::Slug(slug) => {
                match first_slug(&self.nodes, slug, 0) {
                    None => Ok(None),
                    Some(i) => {
                        if first_slug(&self.nodes, slug, i + 1).is_some() {
                            Err(StoreError::Ambiguous(slug.clone()))
                        } else {
                            Ok(Some(self.nodes[i].copy()))
                        }
                    },
                }
            },
            NodeSelector::Path(path) => self.resolve_path(path),
        }
    }

    fn resolve_path(&self, path: &Vec<String>) -> (result: Result<Option<Node>, StoreError>)
        ensures
            match resolved_path(self@.nodes, path@) {
                Ok(node) => result == Ok::<Option<Node>, StoreError>(node),
                Err(e) => result is Err && result->Err_0@ == e,
            },
    {
        let mut current: usize = match first_root(&self.nodes) {
            Some(i) => i,
            None => {
                return Err(StoreError::NotFound("root".to_owned()));
            },
        };
        let ghost root = self.nodes@[current as int];
        let mut k: usize = if path.len() > 0 && path[0] == self.nodes[current].slug {
            1
        } else {
            0
        };
        let ghost start = k as int;
        while k < path.len()
            invariant
                k <= path.len() || path.len() == 0,
                resolved_path(self@.nodes, path@) == Ok::<Option<Node>, Refusal>(
                    descend(self@.nodes, root, path@, start),
                ),
                current < self.nodes.len(),
                descend(self@.nodes, root, path@, start) == descend(
                    self@.nodes,
                    self.nodes@[current as int],
                    path@,
                    k as int,
                ),
            decreases path.len() - k,
        {
            match first_child(&self.nodes, self.nodes[current].id, &path[k]) {
                Some(next) => {
                    current = next;
                },
                None => {
                    return Ok(None);
                },
            }
            k = k + 1;
        }
        Ok(Some(self.nodes[current].copy()))
    }

    /// Returns the root.
    pub fn root(&self) -> (result: Result<Node, StoreError>)
        ensures
            match root_of(self@.nodes) {
                Some(node) => result == Ok::<Node, StoreError>(node),
                None => result is Err && result->Err_0@ == Refusal::NotFound("root"@),
            },
    {
        match first_root(&self.nodes) {
            Some(i) => Ok(self.nodes[i].copy()),
            None => Err(StoreError::NotFound("root".to_owned())),
        }
    }

    /// Returns the workspace-level revision counter.
    pub fn workspace_revision(&self) -> (revision: u64)
        ensures
            revision == self@.revision,
    {
        self.revision
    }

    /// Returns the parent.
    pub fn parent(&self, id: NodeId) -> (node: Option<Node>)
        requires
            unique_ids(self@.nodes),
        ensures
            node == match lookup(self@.nodes, id) {
                Some(n) => match n.parent_id {
                    Some(p) => lookup(self@.nodes, p),
                    None => None,
                },
                None => None,
            },
    {
        match find(&self.nodes, id) {
            Some(i) => match self.nodes[i].parent_id {
                Some(p) => self.get(p),
                None => None,
            },
            None => None,
        }
    }

    /// Returns children in stable sibling order.
    pub fn children(&self, id: NodeId) -> (children: Vec<Node>)
        requires
            unique_ids(self@.nodes),
        ensures
            lists_children(self@.nodes, id, children@),
    {
        children_of(&self.nodes, id)
    }

    /// Returns ancestors root-first with distance from the selected node.
    pub fn ancestors(&self, id: NodeId) -> (ancestors: Vec<NodeDepth>)
        requires
            is_forest(self@.nodes),
        ensures
            !present(self@.nodes, id) ==> ancestors.len() == 0,
            present(self@.nodes, id) ==> ancestors.len() + 1 == level(self@.nodes, id)
                && forall|i: int|
                0 <= i < ancestors.len() ==> (#[trigger] ancestors@[i]).depth == ancestors.len() - i
                    && ancestors@[i].node == above(self@.nodes, id, ancestors.len() - i),
    {
        let mut ancestors: Vec<NodeDepth> = Vec::new();
        match find(&self.nodes, id) {
            Some(start) => {
                let way = way_up(&self.nodes, start);
                let mut k: usize = way.len() - 1;
                while k > 0
                    invariant
                        is_forest(self@.nodes),
                        k < way.len(),
                        forall|m: int|
                            0 <= m < way.len() ==> #[trigger] way@[m] < self.nodes.len() && climb(
                                links(self@.nodes),
                                id,
                                m as nat,
                            ) == Some(self@.nodes[way@[m] as int].id),
                        ancestors.len() == way.len() - 1 - k,
                        forall|i: int|
                            0 <= i < ancestors.len() ==> (#[trigger] ancestors@[i]).depth
                                == way.len() - 1 - i && ancestors@[i].node == above(
                                self@.nodes,
                                id,
                                way.len() - 1 - i,
                            ),
                    decreases k,
                {
                    proof {
                        lemma_position(self@.nodes, way@[k as int] as int);
                    }
                    ancestors.push(NodeDepth { node: self.nodes[way[k]].copy(), depth: k });
                    k = k - 1;
                }
            },
            None => {},
        }
        ancestors
    }

    /// Returns descendants in stable depth-first order.
    pub fn descendants(&self, id: NodeId) -> (walked: Vec<Placed>)
        requires
            is_forest(self@.nodes),
        ensures
            descendants_extent(id).walks(self@.nodes, walked@),
    {
        walk(
            &self.nodes,
            Extent { root: id, include_root: false, max_depth: None, order: TraversalOrder::Dfs },
        )
    }

    /// Returns the node plus all descendants.
    pub fn subtree(&self, id: NodeId) -> (walked: Vec<Placed>)
        requires
            is_forest(self@.nodes),
        ensures
            subtree_extent(id).walks(self@.nodes, walked@),
    {
        walk(
            &self.nodes,
            Extent { root: id, include_root: true, max_depth: None, order: TraversalOrder::Dfs },
        )
    }

    /// Returns siblings including the selected node.
    pub fn siblings(&self, id: NodeId) -> (result: Result<Vec<Node>, StoreError>)
        requires
            unique_ids(self@.nodes),
        ensures
            match lookup(self@.nodes, id) {
                Some(node) => result is Ok && match node.parent_id {
                    Some(p) => lists_children(self@.nodes, p, result->Ok_0@),
                    None => result->Ok_0@ == seq![node],
                },
                None => result is Err && result->Err_0@ == Refusal::NotFound(id.text()),
            },
    {
        let node = self.require(id)?;
        match node.parent_id {
            Some(parent) => Ok(self.children(parent)),
            None => {
                let mut only: Vec<Node> = Vec::new();
                only.push(node);
                assert(only@ =~= seq![node]);
                Ok(only)
            },
        }
    }

    /// Builds the titles from the root down to the node.
    pub fn breadcrumb(&self, id: NodeId) -> (result: Result<Vec<String>, StoreError>)
        requires
            is_forest(self@.nodes),
        ensures
            match lookup(self@.nodes, id) {
                Some(node) => result is Ok && is_breadcrumb(self@.nodes, id, result->Ok_0@),
                None => result is Err && result->Err_0@ == Refusal::NotFound(id.text()),
            },
    {
        let node = self.require(id)?;
        let ancestors = self.ancestors(id);
        let mut titles: Vec<String> = Vec::new();
        let mut i: usize = 0;
        while i < ancestors.len()
            invariant
                i <= ancestors.len(),
                titles.len() == i,
                forall|j: int|
                    0 <= j < i ==> (#[trigger] titles@[j])@ == ancestors@[j].node.metadata.title@,
            decreases ancestors.len() - i,
        {
            titles.push(ancestors[i].node.metadata.title.clone());
            i = i + 1;
        }
        titles.push(node.metadata.title.clone());
        Ok(titles)
    }

    /// Builds the slugs from the root down to the node.
    pub fn canonical_path(&self, id: NodeId) -> (result: Result<Vec<String>, StoreError>)
        requires
            is_forest(self@.nodes),
        ensures
            match lookup(self@.nodes, id) {
                Some(node) => result is Ok && is_slug_path(self@.nodes, id, result->Ok_0@),
                None => result is Err && result->Err_0@ == Refusal::NotFound(id.text()),
            },
    {
        let node = self.require(id)?;
        let ancestors = self.ancestors(id);
        let mut slugs: Vec<String> = Vec::new();
        let mut i: usize = 0;
        while i < ancestors.len()
            invariant
                i <= ancestors.len(),
                slugs.len() == i,
                forall|j: int| 0 <= j < i ==> (#[trigger] slugs@[j])@ == ancestors@[j].node.slug@,
            decreases ancestors.len() - i,
        {
            slugs.push(ancestors[i].node.slug.clone());
            i = i + 1;
        }
        slugs.push(node.slug.clone());
        Ok(slugs)
    }

    /// The next deterministic order below a parent.
    pub fn next_child_order(&self, parent: NodeId) -> (order: u32)
        ensures
            order == next_order(self@.nodes, parent),
    {
        let mut highest: Option<u32> = None;
        let mut i: usize = 0;
        while i < self.nodes.len()
            invariant
                i <= self.nodes.len(),
                highest == max_order(self@.nodes, parent, i as int),
            decreases self.nodes.len() - i,
        {
            let row = &self.nodes[i];
            if same_id(row.parent_id, Some(parent)) {
                highest = match highest {
                    Some(m) => Some(if row.sibling_order > m { row.sibling_order } else { m }),
                    None => Some(row.sibling_order),
                };
            }
            i = i + 1;
        }
        match highest {
            Some(m) => m.saturating_add(1),
            None => 0,
        }
    }

    /// Places a new child with the slug made for it after the last child.
    pub fn next_child_placement(&self, parent: NodeId, slug: String) -> (result: Result<
        (String, u32),
        StoreError,
    >)
        ensures
            present(self@.nodes, parent) ==> result == Ok::<(String, u32), StoreError>(
                (slug, next_order(self@.nodes, parent)),
            ),
            !present(self@.nodes, parent) ==> result is Err && result->Err_0@ == Refusal::NotFound(
                parent.text(),
            ),
    {
        if find(&self.nodes, parent).is_none() {
            return Err(not_found(parent));
        }
        Ok((slug, self.next_child_order(parent)))
    }

    /// Loads one exact immutable revision.
    pub fn revision(&self, id: NodeId, version: u64) -> (result: Result<
        Option<NodeRevision>,
        StoreError,
    >)
        ensures
            version > i64::MAX ==> result is Err && result->Err_0@ == Refusal::InvalidData(
                "integer range"@,
            ),
            version <= i64::MAX ==> result is Ok && (result->Ok_0 is Some <==> self@.has_version(
                id,
                version,
            )),
            result matches Ok(Some(revision)) ==> self@.revisions.contains(revision@)
                && revision.node_id == id && revision.version == version,
    {
        if version > 0x7fff_ffff_ffff_ffff {
            return Err(invalid_data("integer range"));
        }
        let mut i: usize = 0;
        while i < self.revisions.len()
            invariant
                i <= self.revisions.len(),
                version <= i64::MAX,
                forall|j: int|
                    0 <= j < i ==> !((#[trigger] self@.revisions[j]).node_id == id
                        && self@.revisions[j].version == version),
            decreases self.revisions.len() - i,
        {
            let row = &self.revisions[i];
            if row.node_id == id && row.version == version {
                assert(self@.revisions[i as int] == row@);
                return Ok(Some(row.copy()));
            }
            i = i + 1;
        }
        Ok(None)
    }

    /// Lists immutable revisions in ascending version order.
    pub fn revisions(&self, id: NodeId) -> (listed: Vec<NodeRevision>)
        requires
            self@.unique_versions(),
        ensures
            lists_revisions(self@, id, revision_views(listed@)),
    {
        let ghost rows = self@.revisions;
        let ghost pred = |r: RevisionView| r.node_id == id;
        let ghost key = |r: RevisionView| seq![r.version as u128];
        let mut picked: Vec<usize> = Vec::new();
        let mut keys: Vec<Vec<u128>> = Vec::new();
        let mut i: usize = 0;
        while i < self.revisions.len()
            invariant
                i <= self.revisions.len(),
                rows == self@.revisions,
                pred == (|r: RevisionView| r.node_id == id),
                key == (|r: RevisionView| seq![r.version as u128]),
                keys.len() == picked.len(),
                picked@.no_duplicates(),
                forall|k: int|
                    0 <= k < picked.len() ==> #[trigger] picked@[k] < i && pred(
                        rows[picked@[k] as int],
                    ),
                forall|j: int| 0 <= j < i && pred(#[trigger] rows[j]) ==> picked@.contains(j as usize),
                forall|k: int|
                    0 <= k < picked.len() ==> #[trigger] keys@[k]@ == key(rows[picked@[k] as int]),
            decreases self.revisions.len() - i,
        {
            let ghost before = picked@;
            if self.revisions[i].node_id == id {
                let mut k: Vec<u128> = Vec::new();
                k.push(self.revisions[i].version as u128);
                assert(k@ =~= key(rows[i as int]));
                keys.push(k);
                picked.push(i);
                proof {
                    assert(picked@[before.len() as int] == i);
                    assert forall|j: int| 0 <= j < i + 1 && pred(#[trigger] rows[j]) implies picked@.contains(
                    j as usize) by {
                        if j < i {
                            let k = choose|k: int| 0 <= k < before.len() && before[k] == j as usize;
                            assert(picked@[k] == j as usize);
                        }
                    }
                }
            }
            i = i + 1;
        }
        let order = sorted_positions(&keys);
        let mut listed: Vec<NodeRevision> = Vec::new();
        let mut n: usize = 0;
        while n < order.len()
            invariant
                n <= order.len(),
                order.len() == picked.len(),
                rows == self@.revisions,
                forall|i: int| 0 <= i < order.len() ==> #[trigger] order@[i] < picked.len(),
                forall|k: int| 0 <= k < picked.len() ==> #[trigger] picked@[k] < rows.len(),
                listed.len() == n,
                forall|m: int|
                    0 <= m < n ==> (#[trigger] listed@[m])@ == rows[picked@[order@[m] as int] as int],
            decreases order.len() - n,
        {
            listed.push(self.revisions[picked[order[n]]].copy());
            n = n + 1;
        }
        proof {
            assert forall|k: int, l: int|
                0 <= k < picked.len() && 0 <= l < picked.len() && k != l implies key(
                rows[#[trigger] picked@[k] as int],
            ) != key(rows[#[trigger] picked@[l] as int]) by {
                let a = rows[picked@[k] as int];
                let b = rows[picked@[l] as int];
                assert(key(a)[0] == a.version as u128);
                assert(key(b)[0] == b.version as u128);
                assert(a.node_id == b.node_id);
            }
            assert(picks(rows, pred, picked@));
            assert(arranges(rows, picked@, keys@, order@, revision_views(listed@)));
            lemma_arranged_lists(
                rows,
                pred,
                key,
                picked@,
                keys@,
                order@,
                revision_views(listed@),
            );
        }
        listed
    }
}

/// Whether `listed` holds the revisions of a node, oldest first.
pub open spec fn lists_revisions(t: Tables, id: NodeId, listed: Seq<RevisionView>) -> bool {
    lists(
        t.revisions,
        |r: RevisionView| r.node_id == id,
        |r: RevisionView| seq![r.version as u128],
        listed,
    )
}

/// A node with all its descendants, depth first.
pub open spec fn subtree_extent(id: NodeId) -> Extent {
    Extent { root: id, include_root: true, max_depth: None, order: TraversalOrder::Dfs }
}

/// All descendants of a node, depth first.
pub open spec fn descendants_extent(id: NodeId) -> Extent {
    Extent { root: id, include_root: false, max_depth: None, order: TraversalOrder::Dfs }
}

} // verus!
