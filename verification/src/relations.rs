//! How nodes of one tree stand to each other, and subtree statistics.

use crate::model::{invalid_data, not_found, Node, NodeId, Refusal, StoreError};
use crate::reads::{above, lists_children};
use crate::removal::count_where;
use crate::reorder::{child_count, count_children};
use crate::tables::{SqliteStore, Tables};
use crate::traverse::place;
use crate::tree::{
    below, climb, depth_below, ends, find, height, is_forest, is_sole_root, is_tree,
    lemma_below_self, lemma_climb_add, lemma_depth_is, lemma_height, lemma_position, links, lookup,
    position, present, unique_ids, way_up,
};
use vstd::prelude::*;

verus! {

/// One child by its zero-based index.
#[derive(Debug)]
pub struct IndexedChild {
    pub parent_id: NodeId,
    pub index: u32,
    pub node: Option<Node>,
}

/// The siblings right before and after a node.
#[derive(Debug)]
pub struct AdjacentSiblings {
    pub node_id: NodeId,
    pub previous: Option<Node>,
    pub next: Option<Node>,
}

/// Edge distance between two nodes.
#[derive(Clone, Copy, Debug, PartialEq, Eq, Structural)]
pub struct TreeDistance {
    pub from_id: NodeId,
    pub to_id: NodeId,
    pub lowest_common_ancestor_id: NodeId,
    pub distance: usize,
}

/// The route between two nodes, both ends included.
#[derive(Debug)]
pub struct PathBetween {
    pub from_id: NodeId,
    pub to_id: NodeId,
    pub lowest_common_ancestor_id: NodeId,
    pub distance: usize,
    pub nodes: Vec<Node>,
}

/// Whether one node contains another.
#[derive(Clone, Copy, Debug, PartialEq, Eq, Structural)]
pub struct AncestorContainment {
    pub ancestor_id: NodeId,
    pub descendant_id: NodeId,
    pub contains: bool,
}

/// Compact subtree aggregates.
#[derive(Clone, Copy, Debug, PartialEq, Eq, Structural)]
pub struct TreeStatistics {
    pub node_id: NodeId,
    pub direct_child_count: u64,
    pub subtree_size: u64,
    pub leaf_count: u64,
    pub max_relative_depth: usize,
    pub max_width: u64,
}

/// Number of children of one requested node.
#[derive(Clone, Copy, Debug, PartialEq, Eq, Structural)]
pub struct NodeChildCount {
    pub node_id: NodeId,
    pub child_count: u32,
}

/// Whether `l` is the lowest common ancestor of two nodes: it contains both,
/// and every node that contains both contains it.
pub open spec fn is_lca(up: Map<NodeId, NodeId>, a: NodeId, b: NodeId, l: NodeId) -> bool {
    &&& below(up, l, a)
    &&& below(up, l, b)
    &&& forall|x: NodeId| #![trigger below(up, x, l)] below(up, x, a) && below(up, x, b) ==> below(up, x, l)
}

/// Two nodes have at most one lowest common ancestor.
pub proof fn law_lowest_common_ancestor_is_unique(up: Map<NodeId, NodeId>, a: NodeId, b: NodeId, l: NodeId, m: NodeId)
    requires
        crate::tree::acyclic(up),
        is_lca(up, a, b, l),
        is_lca(up, a, b, m),
    ensures
        l == m,
{
    assert(below(up, l, m));
    assert(below(up, m, l));
    let i = choose|i: nat| #[trigger] climb(up, m, i) == Some(l);
    let j = choose|j: nat| #[trigger] climb(up, l, j) == Some(m);
    lemma_climb_add(up, m, i, j);
    assert(climb(up, m, i + j) == Some(m));
    if i + j > 0 {
        assert(ends(up, m));
        crate::tree::lemma_no_return(up, m, i + j);
    }
    assert(climb(up, m, 0) == Some(m));
}

/// Every node of a tree is below its root.
pub proof fn lemma_below_root(nodes: Seq<Node>, r: int, id: NodeId)
    requires
        is_forest(nodes),
        is_sole_root(nodes, r),
        present(nodes, id),
    ensures
        below(links(nodes), nodes[r].id, id),
{
    let up = links(nodes);
    assert(ends(up, id));
    lemma_height(up, id);
    let h = height(up, id);
    let top = climb(up, id, (h - 1) as nat)->0;
    crate::tree::lemma_climb_exists(nodes, id, (h - 1) as nat);
    let p = position(nodes, top);
    assert(nodes[p].id == top);
    lemma_position(nodes, p);
    assert(climb(up, id, h) is None);
    assert(!up.contains_key(top));
    assert(nodes[p].parent_id is None);
    assert(p == r);
}

/// Where the ways up from two rows first meet: steps from each.
fn meeting(nodes: &Vec<Node>, a: usize, b: usize) -> (found: Option<(usize, usize, usize)>)
    requires
        is_forest(nodes@),
        a < nodes.len(),
        b < nodes.len(),
    ensures
        match found {
            Some((l, i, j)) => {
                &&& l < nodes.len()
                &&& climb(links(nodes@), nodes@[a as int].id, i as nat) == Some(nodes@[l as int].id)
                &&& climb(links(nodes@), nodes@[b as int].id, j as nat) == Some(nodes@[l as int].id)
                &&& is_lca(
                    links(nodes@),
                    nodes@[a as int].id,
                    nodes@[b as int].id,
                    nodes@[l as int].id,
                )
            },
            None => forall|x: NodeId|
                !(#[trigger] below(links(nodes@), x, nodes@[a as int].id) && below(
                    links(nodes@),
                    x,
                    nodes@[b as int].id,
                )),
        },
{
    let ghost up = links(nodes@);
    let ghost ida = nodes@[a as int].id;
    let ghost idb = nodes@[b as int].id;
    let way = way_up(nodes, a);
    let other = way_up(nodes, b);
    let mut i: usize = 0;
    while i < way.len()
        invariant
            i <= way.len(),
            is_forest(nodes@),
            a < nodes.len(),
            b < nodes.len(),
            up == links(nodes@),
            ida == nodes@[a as int].id,
            idb == nodes@[b as int].id,
            way.len() == height(up, ida),
            other.len() == height(up, idb),
            forall|k: int|
                0 <= k < way.len() ==> #[trigger] way@[k] < nodes.len() && climb(up, ida, k as nat)
                    == Some(nodes@[way@[k] as int].id),
            forall|k: int|
                0 <= k < other.len() ==> #[trigger] other@[k] < nodes.len() && climb(
                    up,
                    idb,
                    k as nat,
                ) == Some(nodes@[other@[k] as int].id),
            forall|k: int| 0 <= k < i ==> !below(up, nodes@[(#[trigger] way@[k]) as int].id, idb),
        decreases way.len() - i,
    {
        let id: NodeId = nodes[way[i]].id;
        let mut j: usize = 0;
        while j < other.len()
            invariant
                i < way.len(),
                j <= other.len(),
                is_forest(nodes@),
                a < nodes.len(),
                b < nodes.len(),
                up == links(nodes@),
                ida == nodes@[a as int].id,
                idb == nodes@[b as int].id,
                id == nodes@[way@[i as int] as int].id,
                way.len() == height(up, ida),
                other.len() == height(up, idb),
                forall|k: int|
                    0 <= k < way.len() ==> #[trigger] way@[k] < nodes.len() && climb(
                        up,
                        ida,
                        k as nat,
                    ) == Some(nodes@[way@[k] as int].id),
                forall|k: int|
                    0 <= k < other.len() ==> #[trigger] other@[k] < nodes.len() && climb(
                        up,
                        idb,
                        k as nat,
                    ) == Some(nodes@[other@[k] as int].id),
                forall|k: int| 0 <= k < i ==> !below(up, nodes@[(#[trigger] way@[k]) as int].id, idb),
                forall|m: nat| m < j ==> #[trigger] climb(up, idb, m) != Some(id),
            decreases other.len() - j,
        {
            if nodes[other[j]].id == id {
                proof {
                    assert(climb(up, ida, i as nat) == Some(id));
                    assert(climb(up, idb, j as nat) == Some(id));
                    assert forall|x: NodeId| below(up, x, ida) && below(up, x, idb) implies #[trigger] below(
                    up, x, id) by {
                        let m = choose|m: nat| #[trigger] climb(up, ida, m) == Some(x);
                        assert(ends(up, ida));
                        lemma_height(up, ida);
                        if m >= way.len() {
                            lemma_climb_add(up, ida, way.len() as nat, (m - way.len()) as nat);
                        }
                        if m < i {
                            assert(nodes@[way@[m as int] as int].id == x);
                        }
                        lemma_climb_add(up, ida, i as nat, (m - i) as nat);
                        assert(climb(up, id, (m - i) as nat) == Some(x));
                    }
                }
                return Some((way[i], i, j));
            }
            proof {
                assert(climb(up, idb, j as nat) != Some(id));
            }
            j = j + 1;
        }
        proof {
            assert(ends(up, idb));
            lemma_height(up, idb);
            assert forall|m: nat| #[trigger] climb(up, idb, m) != Some(id) by {
                if m >= other.len() {
                    lemma_climb_add(up, idb, other.len() as nat, (m - other.len()) as nat);
                }
            }
            assert(!below(up, id, idb));
        }
        i = i + 1;
    }
    proof {
        assert forall|x: NodeId| !(#[trigger] below(up, x, ida) && below(up, x, idb)) by {
            if below(up, x, ida) {
                let m = choose|m: nat| #[trigger] climb(up, ida, m) == Some(x);
                assert(ends(up, ida));
                lemma_height(up, ida);
                if m >= way.len() {
                    lemma_climb_add(up, ida, way.len() as nat, (m - way.len()) as nat);
                }
                assert(nodes@[way@[m as int] as int].id == x);
            }
        }
    }
    None
}

/// The text that names two missing ends.
fn either(a: NodeId, b: NodeId) -> (error: StoreError)
    ensures
        error@ == Refusal::NotFound(a.text() + " or "@ + b.text()),
{
    let mut text = a.to_text();
    text.push_str(" or ");
    let other = b.to_text();
    text.push_str(other.as_str());
    StoreError::NotFound(text)
}

/// Whether both nodes exist and hang on one root.
pub open spec fn related(nodes: Seq<Node>, a: NodeId, b: NodeId) -> bool {
    present(nodes, a) && present(nodes, b) && exists|x: NodeId| #[trigger]
        below(links(nodes), x, a) && below(links(nodes), x, b)
}

/// Whether a route climbs from `from` to the meeting point and then descends
/// to `to`.
pub open spec fn is_route(
    nodes: Seq<Node>,
    from: NodeId,
    to: NodeId,
    i: nat,
    j: nat,
    route: Seq<Node>,
) -> bool {
    &&& route.len() == i + j + 1
    &&& forall|k: int| 0 <= k <= i ==> #[trigger] route[k] == above(nodes, from, k)
    &&& forall|k: int| i < k <= i + j ==> #[trigger] route[k] == above(nodes, to, i + j - k)
}

impl SqliteStore {
    /// Returns one zero-based child in canonical sibling order.
    pub fn child_at(&self, parent_id: NodeId, index: u32) -> (result: Result<
        IndexedChild,
        StoreError,
    >)
        requires
            unique_ids(self@.nodes),
        ensures
            is_child_at(self@, parent_id, index, result),
    {
        if find(&self.nodes, parent_id).is_none() {
            return Err(not_found(parent_id));
        }
        let all = self.children(parent_id);
        assert(lists_children(self@.nodes, parent_id, all@));
        let node: Option<Node> = if (index as u64) < all.len() as u64 {
            Some(all[index as usize].copy())
        } else {
            None
        };
        Ok(IndexedChild { parent_id, index, node })
    }

    /// Returns direct previous and next canonical siblings.
    pub fn adjacent_siblings(&self, id: NodeId) -> (result: Result<AdjacentSiblings, StoreError>)
        requires
            unique_ids(self@.nodes),
        ensures
            are_adjacent(self@, id, result),
    {
        let node = self.require(id)?;
        let parent: NodeId = match node.parent_id {
            None => {
                return Ok(AdjacentSiblings { node_id: id, previous: None, next: None });
            },
            Some(parent) => parent,
        };
        let all = self.children(parent);
        proof {
            assert(lists_children(self@.nodes, parent, all@));
            let p = position(self@.nodes, id);
            assert(self@.nodes[p].id == id);
            assert(self@.nodes.contains(node));
            assert(all@.contains(node));
        }
        let mut i: usize = 0;
        while i < all.len() && all[i].id != id
            invariant
                i <= all.len(),
                node.id == id,
                forall|k: int| 0 <= k < i ==> #[trigger] all@[k].id != id,
            decreases all.len() - i,
        {
            i = i + 1;
        }
        proof {
            let m = choose|m: int| 0 <= m < all@.len() && all@[m] == node;
            assert(all@[m].id == id);
            assert(i < all.len());
            assert(all@.contains(all@[i as int]));
            let x = choose|x: int| 0 <= x < self@.nodes.len() && self@.nodes[x] == all@[i as int];
            lemma_position(self@.nodes, x);
            assert(all@[i as int] == node);
        }
        let previous: Option<Node> = if i > 0 {
            Some(all[i - 1].copy())
        } else {
            None
        };
        let next: Option<Node> = if i + 1 < all.len() {
            Some(all[i + 1].copy())
        } else {
            None
        };
        Ok(AdjacentSiblings { node_id: id, previous, next })
    }

    /// Tests reflexive ancestor containment.
    pub fn contains_ancestor(&self, ancestor_id: NodeId, descendant_id: NodeId) -> (result: Result<
        AncestorContainment,
        StoreError,
    >)
        requires
            is_forest(self@.nodes),
        ensures
            if !present(self@.nodes, ancestor_id) {
                result is Err && result->Err_0@ == Refusal::NotFound(ancestor_id.text())
            } else if !present(self@.nodes, descendant_id) {
                result is Err && result->Err_0@ == Refusal::NotFound(descendant_id.text())
            } else {
                result == Ok::<AncestorContainment, StoreError>(
                    AncestorContainment {
                        ancestor_id,
                        descendant_id,
                        contains: below(links(self@.nodes), ancestor_id, descendant_id),
                    },
                )
            },
    {
        if find(&self.nodes, ancestor_id).is_none() {
            return Err(not_found(ancestor_id));
        }
        match find(&self.nodes, descendant_id) {
            None => Err(not_found(descendant_id)),
            Some(i) => Ok(
                AncestorContainment {
                    ancestor_id,
                    descendant_id,
                    contains: crate::edits::is_below(&self.nodes, ancestor_id, i),
                },
            ),
        }
    }

    /// Returns the reflexive lowest common ancestor of two canonical nodes.
    pub fn lowest_common_ancestor(&self, left_id: NodeId, right_id: NodeId) -> (result: Result<
        Node,
        StoreError,
    >)
        requires
            is_tree(self@.nodes),
        ensures
            if !present(self@.nodes, left_id) {
                result is Err && result->Err_0@ == Refusal::NotFound(left_id.text())
            } else if !present(self@.nodes, right_id) {
                result is Err && result->Err_0@ == Refusal::NotFound(right_id.text())
            } else {
                result is Ok && self@.nodes.contains(result->Ok_0) && is_lca(
                    links(self@.nodes),
                    left_id,
                    right_id,
                    result->Ok_0.id,
                )
            },
    {
        let a: usize = match find(&self.nodes, left_id) {
            Some(a) => a,
            None => {
                return Err(not_found(left_id));
            },
        };
        let b: usize = match find(&self.nodes, right_id) {
            Some(b) => b,
            None => {
                return Err(not_found(right_id));
            },
        };
        match meeting(&self.nodes, a, b) {
            Some((l, _, _)) => {
                assert(self@.nodes[l as int] == self.nodes@[l as int]);
                Ok(self.nodes[l].copy())
            },
            None => {
                proof {
                    let r = choose|r: int| is_sole_root(self@.nodes, r);
                    lemma_below_root(self@.nodes, r, left_id);
                    lemma_below_root(self@.nodes, r, right_id);
                }
                Err(either(left_id, right_id))
            },
        }
    }

    /// Returns compact edge distance and lowest common ancestor of two nodes.
    pub fn tree_distance(&self, from_id: NodeId, to_id: NodeId) -> (result: Result<
        TreeDistance,
        StoreError,
    >)
        requires
            is_forest(self@.nodes),
        ensures
            measures(self@, from_id, to_id, result),
    {
        let ghost up = links(self@.nodes);
        let a: usize = match find(&self.nodes, from_id) {
            Some(a) => a,
            None => {
                return Err(either(from_id, to_id));
            },
        };
        let b: usize = match find(&self.nodes, to_id) {
            Some(b) => b,
            None => {
                return Err(either(from_id, to_id));
            },
        };
        match meeting(&self.nodes, a, b) {
            None => Err(either(from_id, to_id)),
            Some((l, i, j)) => {
                let lca: NodeId = self.nodes[l].id;
                proof {
                    assert(is_lca(up, from_id, to_id, lca));
                    assert(below(up, lca, from_id) && below(up, lca, to_id));
                    lemma_depth_is(up, lca, from_id, i as nat);
                    lemma_depth_is(up, lca, to_id, j as nat);
                }
                match i.checked_add(j) {
                    Some(distance) => Ok(
                        TreeDistance {
                            from_id,
                            to_id,
                            lowest_common_ancestor_id: lca,
                            distance,
                        },
                    ),
                    None => Err(invalid_data("tree distance overflow")),
                }
            },
        }
    }

    /// Returns the endpoint-inclusive canonical route from `from_id` to `to_id`.
    pub fn path_between(&self, from_id: NodeId, to_id: NodeId) -> (result: Result<
        PathBetween,
        StoreError,
    >)
        requires
            is_forest(self@.nodes),
        ensures
            !related(self@.nodes, from_id, to_id) ==> result is Err && result->Err_0@
                == Refusal::NotFound(from_id.text() + " or "@ + to_id.text()),
            related(self@.nodes, from_id, to_id) ==> exists|l: NodeId|
                {
                    let up = links(self@.nodes);
                    let i = depth_below(up, l, from_id);
                    let j = depth_below(up, l, to_id);
                    &&& #[trigger] is_lca(links(self@.nodes), from_id, to_id, l)
                    &&& if i + j > usize::MAX {
                        result is Err && result->Err_0@ == Refusal::InvalidData(
                            "tree distance overflow"@,
                        )
                    } else {
                        &&& result is Ok
                        &&& result->Ok_0.from_id == from_id
                        &&& result->Ok_0.to_id == to_id
                        &&& result->Ok_0.lowest_common_ancestor_id == l
                        &&& result->Ok_0.distance == i + j
                        &&& is_route(self@.nodes, from_id, to_id, i, j, result->Ok_0.nodes@)
                    }
                },
    {
        let ghost up = links(self@.nodes);
        let ghost nodes = self@.nodes;
        let a: usize = match find(&self.nodes, from_id) {
            Some(a) => a,
            None => {
                return Err(either(from_id, to_id));
            },
        };
        let b: usize = match find(&self.nodes, to_id) {
            Some(b) => b,
            None => {
                return Err(either(from_id, to_id));
            },
        };
        let (l, i, j) = match meeting(&self.nodes, a, b) {
            None => {
                return Err(either(from_id, to_id));
            },
            Some(found) => found,
        };
        let lca: NodeId = self.nodes[l].id;
        proof {
            assert(is_lca(up, from_id, to_id, lca));
            assert(below(up, lca, from_id) && below(up, lca, to_id));
            lemma_depth_is(up, lca, from_id, i as nat);
            lemma_depth_is(up, lca, to_id, j as nat);
        }
        let distance: usize = match i.checked_add(j) {
            Some(distance) => distance,
            None => {
                return Err(invalid_data("tree distance overflow"));
            },
        };
        let way = way_up(&self.nodes, a);
        let other = way_up(&self.nodes, b);
        proof {
            assert(ends(up, from_id));
            assert(ends(up, to_id));
            lemma_height(up, from_id);
            lemma_height(up, to_id);
            if i >= way.len() {
                lemma_climb_add(up, from_id, way.len() as nat, (i - way.len()) as nat);
            }
            if j >= other.len() {
                lemma_climb_add(up, to_id, other.len() as nat, (j - other.len()) as nat);
            }
        }
        let mut route: Vec<Node> = Vec::new();
        let mut k: usize = 0;
        while k <= i
            invariant
                k <= i + 1,
                i < way.len(),
                is_forest(nodes),
                nodes == self@.nodes,
                up == links(nodes),
                forall|m: int|
                    0 <= m < way.len() ==> #[trigger] way@[m] < nodes.len() && climb(
                        up,
                        from_id,
                        m as nat,
                    ) == Some(nodes[way@[m] as int].id),
                route.len() == k,
                forall|m: int| 0 <= m < k ==> #[trigger] route@[m] == above(nodes, from_id, m),
            decreases i + 1 - k,
        {
            proof {
                lemma_position(nodes, way@[k as int] as int);
            }
            route.push(self.nodes[way[k]].copy());
            k = k + 1;
        }
        let mut d: usize = j;
        while d > 0
            invariant
                d <= j,
                j < other.len(),
                i + j <= usize::MAX,
                is_forest(nodes),
                nodes == self@.nodes,
                up == links(nodes),
                forall|m: int|
                    0 <= m < other.len() ==> #[trigger] other@[m] < nodes.len() && climb(
                        up,
                        to_id,
                        m as nat,
                    ) == Some(nodes[other@[m] as int].id),
                route.len() == i + 1 + j - d,
                forall|m: int| 0 <= m <= i ==> #[trigger] route@[m] == above(nodes, from_id, m),
                forall|m: int|
                    i < m < route.len() ==> #[trigger] route@[m] == above(nodes, to_id, i + j - m),
            decreases d,
        {
            d = d - 1;
            proof {
                lemma_position(nodes, other@[d as int] as int);
            }
            route.push(self.nodes[other[d]].copy());
        }
        Ok(
            PathBetween {
                from_id,
                to_id,
                lowest_common_ancestor_id: lca,
                distance,
                nodes: route,
            },
        )
    }

    /// Returns direct-child counts in caller-provided order.
    pub fn child_counts(&self, ids: &Vec<NodeId>) -> (result: Result<
        Vec<NodeChildCount>,
        StoreError,
    >)
        ensures
            counts_children(self@, ids@, result),
    {
        let mut counts: Vec<NodeChildCount> = Vec::new();
        let mut i: usize = 0;
        while i < ids.len()
            invariant
                i <= ids.len(),
                counts.len() == i,
                forall|k: int|
                    0 <= k < i ==> (#[trigger] counts@[k]).node_id == ids@[k]
                        && counts@[k].child_count == child_count(
                        self@.nodes,
                        ids@[k],
                        self@.nodes.len() as int,
                    ),
            decreases ids.len() - i,
        {
            let count = count_children(&self.nodes, ids[i]);
            if count > u32::MAX as usize {
                return Err(invalid_data("child count"));
            }
            counts.push(NodeChildCount { node_id: ids[i], child_count: count as u32 });
            i = i + 1;
        }
        proof {
            assert forall|k: int| 0 <= k < ids@.len() implies child_count(
                self@.nodes,
                #[trigger] ids@[k],
                self@.nodes.len() as int,
            ) <= u32::MAX by {
                assert(counts@[k].node_id == ids@[k]);
            }
        }
        Ok(counts)
    }

    /// Loads only the requested canonical heads in caller-provided order. Missing
    /// identities are left out; repeated ones stay repeated.
    pub fn project_nodes(&self, ids: &Vec<NodeId>) -> (nodes: Vec<Node>)
        requires
            unique_ids(self@.nodes),
        ensures
            nodes@ == projected(self@.nodes, ids@, ids@.len() as int),
    {
        let mut nodes: Vec<Node> = Vec::new();
        let mut i: usize = 0;
        while i < ids.len()
            invariant
                i <= ids.len(),
                unique_ids(self@.nodes),
                nodes@ == projected(self@.nodes, ids@, i as int),
            decreases ids.len() - i,
        {
            match self.get(ids[i]) {
                Some(node) => {
                    nodes.push(node);
                },
                None => {},
            }
            i = i + 1;
        }
        nodes
    }
}

/// The existing ones of the first `n` requested nodes.
pub open spec fn projected(nodes: Seq<Node>, ids: Seq<NodeId>, n: int) -> Seq<Node>
    decreases n,
{
    if n <= 0 {
        Seq::empty()
    } else {
        match lookup(nodes, ids[n - 1]) {
            Some(node) => projected(nodes, ids, n - 1).push(node),
            None => projected(nodes, ids, n - 1),
        }
    }
}

/// Number of nodes of a subtree at one depth.
pub open spec fn count_at(nodes: Seq<Node>, root: NodeId, depth: nat) -> nat {
    count_where(
        nodes,
        |n: Node|
            below(links(nodes), root, n.id) && depth_below(links(nodes), root, n.id) == depth,
        nodes.len() as int,
    )
}

/// Whether the statistics are those of the subtree.
pub open spec fn describes_tree(nodes: Seq<Node>, id: NodeId, stats: TreeStatistics) -> bool {
    let up = links(nodes);
    let n = nodes.len() as int;
    &&& stats.node_id == id
    &&& stats.direct_child_count == child_count(nodes, id, n)
    &&& stats.subtree_size == count_where(nodes, |x: Node| below(up, id, x.id), n)
    &&& stats.leaf_count == count_where(
        nodes,
        |x: Node| below(up, id, x.id) && child_count(nodes, x.id, n) == 0,
        n,
    )
    &&& forall|i: int|
        0 <= i < nodes.len() && below(up, id, (#[trigger] nodes[i]).id) ==> depth_below(
            up,
            id,
            nodes[i].id,
        ) <= stats.max_relative_depth
    &&& exists|i: int|
        0 <= i < nodes.len() && below(up, id, (#[trigger] nodes[i]).id) && depth_below(
            up,
            id,
            nodes[i].id,
        ) == stats.max_relative_depth
    &&& forall|d: nat| #[trigger] count_at(nodes, id, d) <= stats.max_width
    &&& exists|d: nat| #[trigger] count_at(nodes, id, d) == stats.max_width
}

/// Counts the rows at one depth.
fn count_depth(depths: &Vec<Option<usize>>, depth: usize, Ghost(nodes): Ghost<Seq<Node>>, Ghost(
    root,
): Ghost<NodeId>) -> (count: u64)
    requires
        depths@.len() == nodes.len(),
        forall|i: int|
            #![trigger depths@[i]]
            0 <= i < depths.len() ==> match depths@[i] {
                Some(d) => below(links(nodes), root, nodes[i].id) && d == depth_below(
                    links(nodes),
                    root,
                    nodes[i].id,
                ),
                None => !below(links(nodes), root, nodes[i].id),
            },
    ensures
        count == count_at(nodes, root, depth as nat),
{
    let ghost pred = |n: Node|
        below(links(nodes), root, n.id) && depth_below(links(nodes), root, n.id) == depth as nat;
    let mut count: u64 = 0;
    let mut i: usize = 0;
    while i < depths.len()
        invariant
            i <= depths.len(),
            count <= i,
            depths@.len() == nodes.len(),
            forall|i: int|
                #![trigger depths@[i]]
                0 <= i < depths.len() ==> match depths@[i] {
                    Some(d) => below(links(nodes), root, nodes[i].id) && d == depth_below(
                        links(nodes),
                        root,
                        nodes[i].id,
                    ),
                    None => !below(links(nodes), root, nodes[i].id),
                },
            pred == (|n: Node|
                below(links(nodes), root, n.id) && depth_below(links(nodes), root, n.id)
                    == depth as nat),
            count == count_where(nodes, pred, i as int),
        decreases depths.len() - i,
    {
        let here: bool = match depths[i] {
            Some(d) => d == depth,
            None => false,
        };
        assert(here == pred(nodes[i as int]));
        if here {
            count = count + 1;
        }
        i = i + 1;
    }
    count
}

impl SqliteStore {
    /// Computes compact subtree aggregates.
    pub fn tree_statistics(&self, id: NodeId) -> (result: Result<TreeStatistics, StoreError>)
        requires
            is_forest(self@.nodes),
        ensures
            present(self@.nodes, id) ==> result is Ok && describes_tree(
                self@.nodes,
                id,
                result->Ok_0,
            ),
            !present(self@.nodes, id) ==> result is Err && result->Err_0@ == Refusal::NotFound(
                id.text(),
            ),
    {
        let ghost nodes = self@.nodes;
        let ghost up = links(nodes);
        let ghost n = nodes.len() as int;
        let at: usize = match find(&self.nodes, id) {
            Some(at) => at,
            None => {
                return Err(not_found(id));
            },
        };
        let ghost inside = |x: Node| below(up, id, x.id);
        let ghost leafy = |x: Node| below(up, id, x.id) && child_count(nodes, x.id, n) == 0;
        let mut depths: Vec<Option<usize>> = Vec::new();
        let mut size: u64 = 0;
        let mut leaves: u64 = 0;
        let mut deepest: usize = 0;
        let ghost mut witness: int = at as int;
        proof {
            lemma_below_self(up, id);
            lemma_depth_is(up, id, id, 0);
        }
        let mut i: usize = 0;
        while i < self.nodes.len()
            invariant
                i <= self.nodes.len(),
                nodes == self@.nodes,
                up == links(nodes),
                n == nodes.len(),
                is_forest(nodes),
                inside == (|x: Node| below(up, id, x.id)),
                leafy == (|x: Node| below(up, id, x.id) && child_count(nodes, x.id, n) == 0),
                depths.len() == i,
                forall|k: int|
                    #![trigger depths@[k]]
                    0 <= k < i ==> match depths@[k] {
                        Some(d) => below(up, id, nodes[k].id) && d == depth_below(
                            up,
                            id,
                            nodes[k].id,
                        ),
                        None => !below(up, id, nodes[k].id),
                    },
                size <= i,
                leaves <= i,
                size == count_where(nodes, inside, i as int),
                leaves == count_where(nodes, leafy, i as int),
                forall|k: int|
                    0 <= k < i && below(up, id, (#[trigger] nodes[k]).id) ==> depth_below(
                        up,
                        id,
                        nodes[k].id,
                    ) <= deepest,
                0 <= witness < nodes.len(),
                below(up, id, nodes[witness].id),
                depth_below(up, id, nodes[witness].id) == deepest,
            decreases self.nodes.len() - i,
        {
            match place(&self.nodes, id, i) {
                Some((depth, _)) => {
                    size = size + 1;
                    if count_children(&self.nodes, self.nodes[i].id) == 0 {
                        leaves = leaves + 1;
                    }
                    if depth > deepest {
                        deepest = depth;
                        proof {
                            witness = i as int;
                        }
                    }
                    depths.push(Some(depth));
                },
                None => {
                    depths.push(None);
                },
            }
            i = i + 1;
        }
        let mut width: u64 = count_depth(&depths, 0, Ghost(nodes), Ghost(id));
        let mut d: usize = 0;
        while d < deepest
            invariant
                d <= deepest,
                nodes == self@.nodes,
                depths@.len() == nodes.len(),
                up == links(nodes),
                forall|k: int|
                    #![trigger depths@[k]]
                    0 <= k < nodes.len() ==> match depths@[k] {
                        Some(x) => below(links(nodes), id, nodes[k].id) && x == depth_below(
                            links(nodes),
                            id,
                            nodes[k].id,
                        ),
                        None => !below(links(nodes), id, nodes[k].id),
                    },
                forall|x: nat| x <= d ==> #[trigger] count_at(nodes, id, x) <= width,
                exists|x: nat| #[trigger] count_at(nodes, id, x) == width,
            decreases deepest - d,
        {
            d = d + 1;
            let count = count_depth(&depths, d, Ghost(nodes), Ghost(id));
            assert(count == count_at(nodes, id, d as nat));
            if count > width {
                width = count;
            }
        }
        proof {
            assert forall|x: nat| #[trigger] count_at(nodes, id, x) <= width by {
                if x > deepest {
                    lemma_empty_level(nodes, id, x, nodes.len() as int);
                }
            }
        }
        Ok(
            TreeStatistics {
                node_id: id,
                direct_child_count: count_children(&self.nodes, id) as u64,
                subtree_size: size,
                leaf_count: leaves,
                max_relative_depth: deepest,
                max_width: width,
            },
        )
    }
}

proof fn lemma_empty_level(nodes: Seq<Node>, id: NodeId, depth: nat, n: int)
    requires
        0 <= n <= nodes.len(),
        forall|i: int|
            0 <= i < nodes.len() && below(links(nodes), id, (#[trigger] nodes[i]).id)
                ==> depth_below(links(nodes), id, nodes[i].id) < depth,
    ensures
        count_where(
            nodes,
            |x: Node|
                below(links(nodes), id, x.id) && depth_below(links(nodes), id, x.id) == depth,
            n,
        ) == 0,
    decreases n,
{
    if n > 0 {
        lemma_empty_level(nodes, id, depth, n - 1);
    }
}

/// Whether the result holds the siblings right before and right behind a node.
pub open spec fn are_adjacent(
    t: Tables,
    id: NodeId,
    result: Result<AdjacentSiblings, StoreError>,
) -> bool {
    match lookup(t.nodes, id) {
        None => result is Err && result->Err_0@ == Refusal::NotFound(id.text()),
        Some(node) => match node.parent_id {
            None => result == Ok::<AdjacentSiblings, StoreError>(
                AdjacentSiblings { node_id: id, previous: None, next: None },
            ),
            Some(parent) => result is Ok && exists|all: Seq<Node>, i: int|
                {
                    &&& #[trigger] lists_children(t.nodes, parent, all)
                    &&& 0 <= i < all.len()
                    &&& #[trigger] all[i] == node
                    &&& result->Ok_0 == (AdjacentSiblings {
                        node_id: id,
                        previous: if i > 0 {
                            Some(all[i - 1])
                        } else {
                            None
                        },
                        next: if i + 1 < all.len() {
                            Some(all[i + 1])
                        } else {
                            None
                        },
                    })
                },
        },
    }
}

/// Whether the result is the distance between two nodes: the links from each of them up to
/// their lowest common ancestor.
pub open spec fn measures(
    t: Tables,
    from_id: NodeId,
    to_id: NodeId,
    result: Result<TreeDistance, StoreError>,
) -> bool {
    if !related(t.nodes, from_id, to_id) {
        result is Err && result->Err_0@ == Refusal::NotFound(from_id.text() + " or "@ + to_id.text())
    } else {
        exists|l: NodeId|
            {
                let up = links(t.nodes);
                let sum = depth_below(up, l, from_id) + depth_below(up, l, to_id);
                &&& #[trigger] is_lca(links(t.nodes), from_id, to_id, l)
                &&& if sum > usize::MAX {
                    result is Err && result->Err_0@ == Refusal::InvalidData(
                        "tree distance overflow"@,
                    )
                } else {
                    result == Ok::<TreeDistance, StoreError>(
                        TreeDistance {
                            from_id,
                            to_id,
                            lowest_common_ancestor_id: l,
                            distance: sum as usize,
                        },
                    )
                }
            }
    }
}

/// Whether the result holds the child of a node at an index, if there is one.
pub open spec fn is_child_at(
    t: Tables,
    parent_id: NodeId,
    index: u32,
    result: Result<IndexedChild, StoreError>,
) -> bool {
    &&& !present(t.nodes, parent_id) ==> result is Err && result->Err_0@
        == Refusal::NotFound(parent_id.text())
    &&& present(t.nodes, parent_id) ==> result is Ok && exists|all: Seq<Node>|
        {
            &&& #[trigger] lists_children(t.nodes, parent_id, all)
            &&& result->Ok_0 == (IndexedChild {
                parent_id,
                index,
                node: if index < all.len() {
                    Some(all[index as int])
                } else {
                    None
                },
            })
        }
}

/// Whether the result counts the children of each of the nodes.
pub open spec fn counts_children(
    t: Tables,
    ids: Seq<NodeId>,
    result: Result<Vec<NodeChildCount>, StoreError>,
) -> bool {
    let count = |id: NodeId| child_count(t.nodes, id, t.nodes.len() as int);
    if exists|i: int| 0 <= i < ids.len() && count(#[trigger] ids[i]) > u32::MAX {
        result is Err && result->Err_0@ == Refusal::InvalidData("child count"@)
    } else {
        result is Ok && result->Ok_0@.len() == ids.len() && forall|i: int|
            0 <= i < ids.len() ==> (#[trigger] result->Ok_0@[i]).node_id == ids[i]
                && result->Ok_0@[i].child_count == count(ids[i])
    }
}

} // verus!
