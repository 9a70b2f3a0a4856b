//! Subtrees in canonical order.

use crate::listing::{arranges, lemma_arranged_lists, lists, picks};
use crate::model::{Node, NodeId};
use crate::order::sorted_positions;
use crate::tree::{
    below, climb, depth_below, ends, is_forest, lemma_climb_add, lemma_depth_is, lemma_height,
    lemma_path_key_last, lemma_position, links, node_at, ordering_path, path_key, present,
    sibling_key, way_up,
};
use vstd::prelude::*;

verus! {

/// The order in which a subtree is walked.
#[derive(Clone, Copy, Debug, PartialEq, Eq, Structural)]
pub enum TraversalOrder {
    /// Depth first: a node, then each child's subtree in sibling order.
    Dfs,
    /// Breadth first: level by level, each in depth-first order.
    Bfs,
}

/// One node of a traversal.
#[derive(Debug)]
pub struct Placed {
    pub node: Node,
    /// Links between the node and the root of the traversal.
    pub depth: usize,
    /// The node's canonical ordering path below that root.
    pub path: Vec<u128>,
}

impl Placed {
    pub fn copy(&self) -> (placed: Placed)
        ensures
            placed.node == self.node,
            placed.depth == self.depth,
            placed.path@ == self.path@,
    {
        Placed { node: self.node.copy(), depth: self.depth, path: copy_key(&self.path) }
    }
}

/// Which part of a subtree a traversal covers.
#[derive(Clone, Copy, Debug)]
pub struct Extent {
    pub root: NodeId,
    pub include_root: bool,
    pub max_depth: Option<u32>,
    pub order: TraversalOrder,
}

impl Extent {
    /// Whether the traversal covers the node.
    pub open spec fn covers(self, nodes: Seq<Node>, node: Node) -> bool {
        let up = links(nodes);
        &&& below(up, self.root, node.id)
        &&& self.include_root || depth_below(up, self.root, node.id) > 0
        &&& self.max_depth matches Some(d) ==> depth_below(up, self.root, node.id) <= d
    }

    /// The key by which the traversal orders the node.
    pub open spec fn key(self, nodes: Seq<Node>, node: Node) -> Seq<u128> {
        position_key(
            self.order,
            depth_below(links(nodes), self.root, node.id),
            ordering_path(nodes, self.root, node.id),
        )
    }

    /// Whether `walked` is the traversal.
    pub open spec fn walks(self, nodes: Seq<Node>, walked: Seq<Placed>) -> bool {
        &&& lists(
            nodes,
            |n: Node| self.covers(nodes, n),
            |n: Node| self.key(nodes, n),
            nodes_of(walked),
        )
        &&& forall|i: int|
            0 <= i < walked.len() ==> (#[trigger] walked[i]).depth == depth_below(
                links(nodes),
                self.root,
                walked[i].node.id,
            ) && walked[i].path@ == ordering_path(nodes, self.root, walked[i].node.id)
    }
}

/// Depth-first order goes by the path alone, breadth-first by depth and path.
pub open spec fn position_key(order: TraversalOrder, depth: nat, path: Seq<u128>) -> Seq<u128> {
    match order {
        TraversalOrder::Dfs => path,
        TraversalOrder::Bfs => seq![depth as u128] + path,
    }
}

pub open spec fn nodes_of(walked: Seq<Placed>) -> Seq<Node> {
    Seq::new(walked.len(), |i: int| walked[i].node)
}

/// Copies a key.
pub fn copy_key(key: &Vec<u128>) -> (copy: Vec<u128>)
    ensures
        copy@ == key@,
{
    let mut copy: Vec<u128> = Vec::new();
    let mut i: usize = 0;
    while i < key.len()
        invariant
            i <= key.len(),
            copy@ =~= key@.take(i as int),
        decreases key.len() - i,
    {
        copy.push(key[i]);
        i = i + 1;
    }
    assert(copy@ =~= key@);
    copy
}

/// Builds the key of a traversal position.
pub fn make_position_key(order: TraversalOrder, depth: usize, path: &Vec<u128>) -> (key: Vec<u128>)
    ensures
        key@ == position_key(order, depth as nat, path@),
{
    match order {
        TraversalOrder::Dfs => copy_key(path),
        TraversalOrder::Bfs => {
            let mut key: Vec<u128> = Vec::new();
            key.push(depth as u128);
            let mut rest = copy_key(path);
            key.append(&mut rest);
            assert(key@ =~= seq![depth as u128] + path@);
            key
        },
    }
}

/// Places row `i` below `root`: its depth and ordering path, if it is there.
pub fn place(nodes: &Vec<Node>, root: NodeId, i: usize) -> (placed: Option<(usize, Vec<u128>)>)
    requires
        is_forest(nodes@),
        i < nodes.len(),
    ensures
        placed is Some <==> below(links(nodes@), root, nodes@[i as int].id),
        placed matches Some((depth, path)) ==> depth == depth_below(
            links(nodes@),
            root,
            nodes@[i as int].id,
        ) && path@ == ordering_path(nodes@, root, nodes@[i as int].id),
{
    let ghost up = links(nodes@);
    let ghost id = nodes@[i as int].id;
    let way = way_up(nodes, i);
    let mut k: usize = 0;
    while k < way.len() && nodes[way[k]].id != root
        invariant
            k <= way.len(),
            forall|m: int|
                0 <= m < way.len() ==> #[trigger] way@[m] < nodes.len() && climb(up, id, m as nat)
                    == Some(nodes@[way@[m] as int].id),
            forall|m: nat| m < k ==> #[trigger] climb(up, id, m) != Some(root),
        decreases way.len() - k,
    {
        assert(climb(up, id, k as nat) != Some(root));
        k = k + 1;
    }
    if k == way.len() {
        proof {
            assert(ends(up, id));
            lemma_height(up, id);
            assert forall|m: nat| #[trigger] climb(up, id, m) != Some(root) by {
                if m >= way.len() {
                    lemma_climb_add(up, id, way.len() as nat, (m - way.len()) as nat);
                }
            }
        }
        return None;
    }
    proof {
        assert(climb(up, id, k as nat) == Some(root));
        lemma_depth_is(up, root, id, k as nat);
    }
    let mut path: Vec<u128> = Vec::new();
    let mut m: usize = k;
    proof {
        lemma_position(nodes@, way@[k as int] as int);
    }
    path.push(nodes[way[k]].sibling_order as u128);
    path.push(nodes[way[k]].id.value);
    assert(path@ =~= path_key(nodes@, nodes@[way@[k as int] as int].id, 0));
    while m > 0
        invariant
            m <= k < way.len(),
            is_forest(nodes@),
            up == links(nodes@),
            forall|m: int|
                0 <= m < way.len() ==> #[trigger] way@[m] < nodes.len() && climb(up, id, m as nat)
                    == Some(nodes@[way@[m] as int].id),
            path@ == path_key(nodes@, nodes@[way@[m as int] as int].id, (k - m) as nat),
        decreases m,
    {
        let ghost above = nodes@[way@[m as int] as int].id;
        m = m - 1;
        let ghost before = path@;
        let ghost here = nodes@[way@[m as int] as int].id;
        proof {
            lemma_position(nodes@, way@[m as int] as int);
            assert(climb(up, id, m as nat) == Some(here));
            assert(climb(up, id, (m + 1) as nat) == Some(above));
            assert(up[here] == above);
        }
        path.push(nodes[way[m]].sibling_order as u128);
        path.push(nodes[way[m]].id.value);
        assert(path@ =~= before + sibling_key(nodes@[way@[m as int] as int]));
    }
    assert(nodes@[way@[0] as int].id == id);
    Some((k, path))
}

/// Walks part of a subtree in canonical order.
pub fn walk(nodes: &Vec<Node>, extent: Extent) -> (walked: Vec<Placed>)
    requires
        is_forest(nodes@),
    ensures
        extent.walks(nodes@, walked@),
{
    let ghost covered = |n: Node| extent.covers(nodes@, n);
    let ghost key = |n: Node| extent.key(nodes@, n);
    let mut picked: Vec<usize> = Vec::new();
    let mut depths: Vec<usize> = Vec::new();
    let mut paths: Vec<Vec<u128>> = Vec::new();
    let mut keys: Vec<Vec<u128>> = Vec::new();
    let mut i: usize = 0;
    while i < nodes.len()
        invariant
            i <= nodes.len(),
            is_forest(nodes@),
            covered == (|n: Node| extent.covers(nodes@, n)),
            key == (|n: Node| extent.key(nodes@, n)),
            depths.len() == picked.len(),
            paths.len() == picked.len(),
            keys.len() == picked.len(),
            picked@.no_duplicates(),
            forall|k: int|
                0 <= k < picked.len() ==> #[trigger] picked@[k] < i && covered(
                    nodes@[picked@[k] as int],
                ),
            forall|j: int| 0 <= j < i && covered(#[trigger] nodes@[j]) ==> picked@.contains(j as usize),
            forall|k: int|
                0 <= k < picked.len() ==> #[trigger] keys@[k]@ == key(nodes@[picked@[k] as int]),
            forall|k: int|
                0 <= k < picked.len() ==> #[trigger] depths@[k] == depth_below(
                    links(nodes@),
                    extent.root,
                    nodes@[picked@[k] as int].id,
                ),
            forall|k: int|
                0 <= k < picked.len() ==> #[trigger] paths@[k]@ == ordering_path(
                    nodes@,
                    extent.root,
                    nodes@[picked@[k] as int].id,
                ),
        decreases nodes.len() - i,
    {
        let ghost before = picked@;
        match place(nodes, extent.root, i) {
            Some((depth, path)) => {
                let shallow: bool = match extent.max_depth {
                    Some(limit) => depth as u64 <= limit as u64,
                    None => true,
                };
                if (extent.include_root || depth > 0) && shallow {
                    assert(covered(nodes@[i as int]));
                    keys.push(make_position_key(extent.order, depth, &path));
                    picked.push(i);
                    depths.push(depth);
                    paths.push(path);
                    proof {
                        assert(picked@[before.len() as int] == i);
                        assert forall|j: int|
                            0 <= j < i + 1 && covered(
                                #[trigger] nodes@[j],
                            ) implies picked@.contains(j as usize) by {
                            if j < i {
                                let k = choose|k: int|
                                    0 <= k < before.len() && before[k] == j as usize;
                                assert(picked@[k] == j as usize);
                            }
                        }
                    }
                } else {
                    assert(!covered(nodes@[i as int]));
                }
            },
            None => {
                assert(!covered(nodes@[i as int]));
            },
        }
        i = i + 1;
    }
    let order = sorted_positions(&keys);
    let mut walked: Vec<Placed> = Vec::new();
    let mut n: usize = 0;
    while n < order.len()
        invariant
            n <= order.len(),
            order.len() == picked.len(),
            depths.len() == picked.len(),
            paths.len() == picked.len(),
            forall|i: int| 0 <= i < order.len() ==> #[trigger] order@[i] < picked.len(),
            forall|k: int| 0 <= k < picked.len() ==> #[trigger] picked@[k] < nodes.len(),
            walked.len() == n,
            forall|m: int|
                #![trigger walked@[m]]
                0 <= m < n ==> walked@[m].node == nodes@[picked@[order@[m] as int] as int]
                    && walked@[m].depth == depths@[order@[m] as int] && walked@[m].path@
                    == paths@[order@[m] as int]@,
        decreases order.len() - n,
    {
        let p = order[n];
        walked.push(
            Placed {
                node: nodes[picked[p]].copy(),
                depth: depths[p],
                path: copy_key(&paths[p]),
            },
        );
        n = n + 1;
    }
    proof {
        let listed = nodes_of(walked@);
        assert(picks(nodes@, covered, picked@));
        assert(arranges(nodes@, picked@, keys@, order@, listed));
        assert forall|k: int, l: int|
            0 <= k < picked.len() && 0 <= l < picked.len() && k != l implies key(
            nodes@[#[trigger] picked@[k] as int],
        ) != key(nodes@[#[trigger] picked@[l] as int]) by {
            let a = nodes@[picked@[k] as int];
            let b = nodes@[picked@[l] as int];
            lemma_position(nodes@, picked@[k] as int);
            lemma_position(nodes@, picked@[l] as int);
            lemma_key_last(nodes@, extent, a.id);
            lemma_key_last(nodes@, extent, b.id);
        }
        lemma_arranged_lists(nodes@, covered, key, picked@, keys@, order@, listed);
        assert forall|i: int| 0 <= i < walked.len() implies (#[trigger] walked@[i]).depth
            == depth_below(links(nodes@), extent.root, walked@[i].node.id) && walked@[i].path@
            == ordering_path(nodes@, extent.root, walked@[i].node.id) by {
            let k = order@[i] as int;
            assert(depths@[k] == depth_below(
                links(nodes@),
                extent.root,
                nodes@[picked@[k] as int].id,
            ));
        }
    }
    walked
}

/// The key of a traversal position ends with the node's identity.
pub proof fn lemma_key_last(nodes: Seq<Node>, extent: Extent, id: NodeId)
    requires
        present(nodes, id),
    ensures
        extent.key(nodes, node_at(nodes, id)).len() > 0,
        extent.key(nodes, node_at(nodes, id)).last() == id.value,
{
    let d = depth_below(links(nodes), extent.root, id);
    assert(nodes[crate::tree::position(nodes, id)].id == id);
    lemma_path_key_last(nodes, id, d);
}

} // verus!
