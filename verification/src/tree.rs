//! Parent links: climbing, containment, depth and the canonical path order.

use crate::model::{Node, NodeId};
use vstd::prelude::*;

verus! {

/// Whether some row has the identity.
pub open spec fn present(nodes: Seq<Node>, id: NodeId) -> bool {
    exists|i: int| 0 <= i < nodes.len() && #[trigger] nodes[i].id == id
}

/// Position of the row with the identity.
pub open spec fn position(nodes: Seq<Node>, id: NodeId) -> int {
    choose|i: int| 0 <= i < nodes.len() && #[trigger] nodes[i].id == id
}

/// The row with the identity.
pub open spec fn node_at(nodes: Seq<Node>, id: NodeId) -> Node {
    nodes[position(nodes, id)]
}

/// The row with the identity, if there is one.
pub open spec fn lookup(nodes: Seq<Node>, id: NodeId) -> Option<Node> {
    if present(nodes, id) {
        Some(node_at(nodes, id))
    } else {
        None
    }
}

/// Whether no two rows share an identity.
pub open spec fn unique_ids(nodes: Seq<Node>) -> bool {
    forall|i: int, j: int|
        0 <= i < nodes.len() && 0 <= j < nodes.len() && #[trigger] nodes[i].id
            == #[trigger] nodes[j].id ==> i == j
}

/// The parent of every node that has one.
pub open spec fn links(nodes: Seq<Node>) -> Map<NodeId, NodeId> {
    Map::new(
        |id: NodeId| present(nodes, id) && node_at(nodes, id).parent_id is Some,
        |id: NodeId| node_at(nodes, id).parent_id->0,
    )
}

/// The node reached from `id` by going up `steps` parent links.
pub open spec fn climb(parents: Map<NodeId, NodeId>, id: NodeId, steps: nat) -> Option<NodeId>
    decreases steps,
{
    if steps == 0 {
        Some(id)
    } else {
        match climb(parents, id, (steps - 1) as nat) {
            Some(p) => if parents.contains_key(p) {
                Some(parents[p])
            } else {
                None
            },
            None => None,
        }
    }
}

/// Whether going up from `id` comes to an end.
pub open spec fn ends(parents: Map<NodeId, NodeId>, id: NodeId) -> bool {
    exists|k: nat| #[trigger] climb(parents, id, k) is None
}

/// Whether going up comes to an end from everywhere.
pub open spec fn acyclic(parents: Map<NodeId, NodeId>) -> bool {
    forall|id: NodeId| #[trigger] ends(parents, id)
}

/// Whether `id` is `root` or one of its descendants.
pub open spec fn below(parents: Map<NodeId, NodeId>, root: NodeId, id: NodeId) -> bool {
    exists|k: nat| #[trigger] climb(parents, id, k) == Some(root)
}

/// Number of links from `id` up to `root`.
pub open spec fn depth_below(parents: Map<NodeId, NodeId>, root: NodeId, id: NodeId) -> nat {
    choose|k: nat| #[trigger] climb(parents, id, k) == Some(root)
}

/// Number of nodes on the way up from `id`, itself included.
pub open spec fn height(parents: Map<NodeId, NodeId>, id: NodeId) -> nat {
    choose|k: nat| #[trigger] climb(parents, id, k) is None && forall|j: nat| j < k ==> #[trigger] climb(parents, id, j) is Some
}

/// Whether the rows form one tree: identities are unique, one node is the
/// root, every parent exists, and going up from any node comes to an end.
pub open spec fn is_tree(nodes: Seq<Node>) -> bool {
    &&& is_forest(nodes)
    &&& exists|r: int| is_sole_root(nodes, r)
}

pub open spec fn is_sole_root(nodes: Seq<Node>, r: int) -> bool {
    &&& 0 <= r < nodes.len()
    &&& forall|i: int| 0 <= i < nodes.len() ==> (#[trigger] nodes[i].parent_id is None <==> i == r)
}

/// Whether identities are unique, every parent exists, and going up from any
/// node comes to an end.
pub open spec fn is_forest(nodes: Seq<Node>) -> bool {
    &&& unique_ids(nodes)
    &&& forall|i: int|
        0 <= i < nodes.len() && (#[trigger] nodes[i]).parent_id is Some ==> present(
            nodes,
            nodes[i].parent_id->0,
        )
    &&& acyclic(links(nodes))
}

pub proof fn lemma_position(nodes: Seq<Node>, i: int)
    requires
        unique_ids(nodes),
        0 <= i < nodes.len(),
    ensures
        present(nodes, nodes[i].id),
        position(nodes, nodes[i].id) == i,
        node_at(nodes, nodes[i].id) == nodes[i],
        lookup(nodes, nodes[i].id) == Some(nodes[i]),
        links(nodes).contains_key(nodes[i].id) <==> nodes[i].parent_id is Some,
        nodes[i].parent_id is Some ==> links(nodes)[nodes[i].id] == nodes[i].parent_id->0,
{
    let p = position(nodes, nodes[i].id);
    assert(nodes[i].id == nodes[i].id);
    assert(0 <= p < nodes.len() && nodes[p].id == nodes[i].id);
}

/// Going up one link first, or last, makes no difference.
pub proof fn lemma_climb_shift(parents: Map<NodeId, NodeId>, id: NodeId, k: nat)
    ensures
        parents.contains_key(id) ==> climb(parents, id, k + 1) == climb(parents, parents[id], k),
        !parents.contains_key(id) ==> climb(parents, id, k + 1) is None,
    decreases k,
{
    if k > 0 {
        lemma_climb_shift(parents, id, (k - 1) as nat);
    } else {
        reveal_with_fuel(climb, 3);
    }
}

/// Going up in two stages is going up by the sum.
pub proof fn lemma_climb_add(parents: Map<NodeId, NodeId>, id: NodeId, j: nat, k: nat)
    ensures
        climb(parents, id, j) is Some ==> climb(parents, id, j + k) == climb(
            parents,
            climb(parents, id, j)->0,
            k,
        ),
        climb(parents, id, j) is None ==> climb(parents, id, j + k) is None,
    decreases k,
{
    if k > 0 {
        lemma_climb_add(parents, id, j, (k - 1) as nat);
    }
}

pub proof fn lemma_height(parents: Map<NodeId, NodeId>, id: NodeId)
    requires
        ends(parents, id),
    ensures
        climb(parents, id, height(parents, id)) is None,
        forall|j: nat| j < height(parents, id) ==> #[trigger] climb(parents, id, j) is Some,
        height(parents, id) > 0,
{
    let k = choose|k: nat| #[trigger] climb(parents, id, k) is None;
    lemma_least(parents, id, k);
    let h = height(parents, id);
    assert(climb(parents, id, 0) is Some);
}

proof fn lemma_least(parents: Map<NodeId, NodeId>, id: NodeId, k: nat)
    requires
        climb(parents, id, k) is None,
    ensures
        exists|h: nat| #[trigger] climb(parents, id, h) is None && forall|j: nat| j < h ==> #[trigger] climb(parents, id, j) is Some,
    decreases k,
{
    if exists|j: nat| j < k && #[trigger] climb(parents, id, j) is None {
        let j = choose|j: nat| j < k && #[trigger] climb(parents, id, j) is None;
        lemma_least(parents, id, j);
    }
}

/// The height of a node is one more than that of its parent.
pub proof fn lemma_height_parent(parents: Map<NodeId, NodeId>, id: NodeId)
    requires
        ends(parents, id),
        parents.contains_key(id),
    ensures
        ends(parents, parents[id]),
        height(parents, id) == height(parents, parents[id]) + 1,
{
    lemma_height(parents, id);
    let h = height(parents, id);
    assert(climb(parents, id, 1) is Some) by {
        reveal_with_fuel(climb, 2);
    }
    assert(h != 1);
    lemma_climb_shift(parents, id, (h - 1) as nat);
    assert(climb(parents, parents[id], (h - 1) as nat) is None);
    lemma_height(parents, parents[id]);
    let g = height(parents, parents[id]);
    if g < h - 1 {
        lemma_climb_shift(parents, id, g);
        assert(climb(parents, id, g + 1) is Some);
    }
    if g > h - 1 {
        assert(climb(parents, parents[id], (h - 1) as nat) is Some);
    }
}

/// Where every climb ends, no node is reached again after a step or more.
pub proof fn lemma_no_return(parents: Map<NodeId, NodeId>, id: NodeId, k: nat)
    requires
        ends(parents, id),
        k > 0,
    ensures
        climb(parents, id, k) != Some(id),
{
    if climb(parents, id, k) == Some(id) {
        lemma_height(parents, id);
        let h = height(parents, id);
        lemma_periodic(parents, id, k, h);
    }
}

proof fn lemma_periodic(parents: Map<NodeId, NodeId>, id: NodeId, k: nat, n: nat)
    requires
        k > 0,
        climb(parents, id, k) == Some(id),
    ensures
        climb(parents, id, n) is Some,
    decreases n,
{
    if n >= k {
        lemma_periodic(parents, id, k, (n - k) as nat);
        lemma_climb_add(parents, id, k, (n - k) as nat);
    } else {
        if climb(parents, id, n) is None {
            lemma_climb_add(parents, id, n, (k - n) as nat);
        }
    }
}

/// A node is reached after one number of steps only.
pub proof fn lemma_depth_unique(
    parents: Map<NodeId, NodeId>,
    root: NodeId,
    id: NodeId,
    j: nat,
    k: nat,
)
    requires
        acyclic(parents),
        climb(parents, id, j) == Some(root),
        climb(parents, id, k) == Some(root),
    ensures
        j == k,
{
    if j < k {
        lemma_climb_add(parents, id, j, (k - j) as nat);
        assert(ends(parents, root));
        lemma_no_return(parents, root, (k - j) as nat);
    }
    if k < j {
        lemma_climb_add(parents, id, k, (j - k) as nat);
        assert(ends(parents, root));
        lemma_no_return(parents, root, (j - k) as nat);
    }
}

pub proof fn lemma_depth_is(parents: Map<NodeId, NodeId>, root: NodeId, id: NodeId, k: nat)
    requires
        acyclic(parents),
        climb(parents, id, k) == Some(root),
    ensures
        below(parents, root, id),
        depth_below(parents, root, id) == k,
{
    let d = depth_below(parents, root, id);
    assert(climb(parents, id, d) == Some(root));
    lemma_depth_unique(parents, root, id, d, k);
}

/// A node is below itself.
pub proof fn lemma_below_self(parents: Map<NodeId, NodeId>, id: NodeId)
    ensures
        below(parents, id, id),
{
    assert(climb(parents, id, 0) == Some(id));
}

/// Below a node means being it, or having a parent below it.
pub proof fn lemma_below_parent(parents: Map<NodeId, NodeId>, root: NodeId, id: NodeId)
    ensures
        below(parents, root, id) <==> id == root || (parents.contains_key(id) && below(
            parents,
            root,
            parents[id],
        )),
{
    if below(parents, root, id) {
        let k = choose|k: nat| #[trigger] climb(parents, id, k) == Some(root);
        if k > 0 {
            lemma_climb_shift(parents, id, (k - 1) as nat);
            assert(climb(parents, parents[id], (k - 1) as nat) == Some(root));
        }
    }
    if id == root {
        lemma_below_self(parents, id);
    }
    if parents.contains_key(id) && below(parents, root, parents[id]) {
        let k = choose|k: nat| #[trigger] climb(parents, parents[id], k) == Some(root);
        lemma_climb_shift(parents, id, k);
        assert(climb(parents, id, k + 1) == Some(root));
    }
}

/// Every node on the way up from an existing node exists.
pub proof fn lemma_climb_exists(nodes: Seq<Node>, id: NodeId, k: nat)
    requires
        is_forest(nodes),
        present(nodes, id),
        climb(links(nodes), id, k) is Some,
    ensures
        present(nodes, climb(links(nodes), id, k)->0),
    decreases k,
{
    if k > 0 {
        lemma_climb_exists(nodes, id, (k - 1) as nat);
        let p = climb(links(nodes), id, (k - 1) as nat)->0;
        lemma_position(nodes, position(nodes, p));
    }
}

/// Changing the parent of `moved` to a node outside its subtree keeps every
/// climb finite.
pub proof fn lemma_move_acyclic(parents: Map<NodeId, NodeId>, moved: NodeId, target: NodeId)
    requires
        acyclic(parents),
        !below(parents, moved, target),
    ensures
        acyclic(parents.insert(moved, target)),
{
    let after = parents.insert(moved, target);
    lemma_avoiding(parents, moved, target, target);
    let k = choose|k: nat| #[trigger] climb(after, target, k) is None;
    lemma_climb_shift(after, moved, k);
    assert(ends(after, moved));
    assert forall|id: NodeId| #[trigger] ends(after, id) by {
        assert(ends(parents, id));
        lemma_ends_by_height(parents, after, id);
    }
}

proof fn lemma_avoiding(parents: Map<NodeId, NodeId>, moved: NodeId, target: NodeId, id: NodeId)
    requires
        acyclic(parents),
        !below(parents, moved, id),
    ensures
        ends(parents.insert(moved, target), id),
    decreases height(parents, id),
{
    let after = parents.insert(moved, target);
    assert(ends(parents, id));
    lemma_below_parent(parents, moved, id);
    lemma_climb_shift(after, id, 0);
    if parents.contains_key(id) {
        lemma_height_parent(parents, id);
        lemma_avoiding(parents, moved, target, parents[id]);
        let k = choose|k: nat| #[trigger] climb(after, parents[id], k) is None;
        lemma_climb_shift(after, id, k);
        assert(climb(after, id, k + 1) is None);
    } else {
        assert(climb(after, id, 1) is None);
    }
}

/// If `after` differs from `parents` only on nodes from which climbing ends,
/// climbing ends wherever it ended before.
pub proof fn lemma_ends_by_height(
    parents: Map<NodeId, NodeId>,
    after: Map<NodeId, NodeId>,
    id: NodeId,
)
    requires
        ends(parents, id),
        forall|x: NodeId|
            #![trigger after.contains_key(x)]
            #![trigger ends(after, x)]
            ends(after, x) || (after.contains_key(x) <==> parents.contains_key(x)) && (
            after.contains_key(x) ==> after[x] == parents[x]),
    ensures
        ends(after, id),
    decreases height(parents, id),
{
    if !ends(after, id) {
        assert(after.contains_key(id) <==> parents.contains_key(id));
        lemma_climb_shift(after, id, 0);
        if parents.contains_key(id) {
            lemma_height_parent(parents, id);
            lemma_ends_by_height(parents, after, parents[id]);
            let k = choose|k: nat| #[trigger] climb(after, parents[id], k) is None;
            lemma_climb_shift(after, id, k);
            assert(climb(after, id, k + 1) is None);
        } else {
            assert(climb(after, id, 1) is None);
        }
    }
}

/// A climb that comes back to a place it has been never ends.
pub proof fn lemma_revisit_never_ends(
    parents: Map<NodeId, NodeId>,
    id: NodeId,
    i: nat,
    j: nat,
)
    requires
        i < j,
        climb(parents, id, i) is Some,
        climb(parents, id, i) == climb(parents, id, j),
    ensures
        !ends(parents, id),
{
    let p = climb(parents, id, i)->0;
    lemma_climb_add(parents, id, i, (j - i) as nat);
    assert forall|k: nat| #[trigger] climb(parents, id, k) is Some by {
        if k >= i {
            lemma_periodic(parents, p, (j - i) as nat, (k - i) as nat);
            lemma_climb_add(parents, id, i, (k - i) as nat);
        } else if climb(parents, id, k) is None {
            lemma_climb_add(parents, id, k, (i - k) as nat);
        }
    }
}

/// A node's own component of the canonical order.
pub open spec fn sibling_key(node: Node) -> Seq<u128> {
    seq![node.sibling_order as u128, node.id.value]
}

/// The canonical ordering path of a node: the sibling keys met on the way down
/// from the node `steps` links above it.
pub open spec fn path_key(nodes: Seq<Node>, id: NodeId, steps: nat) -> Seq<u128>
    decreases steps,
{
    if steps == 0 {
        sibling_key(node_at(nodes, id))
    } else {
        path_key(nodes, links(nodes)[id], (steps - 1) as nat) + sibling_key(node_at(nodes, id))
    }
}

/// The ordering path of a node relative to the root of the traversal.
pub open spec fn ordering_path(nodes: Seq<Node>, root: NodeId, id: NodeId) -> Seq<u128> {
    path_key(nodes, id, depth_below(links(nodes), root, id))
}

pub proof fn lemma_path_key_last(nodes: Seq<Node>, id: NodeId, steps: nat)
    ensures
        path_key(nodes, id, steps).len() == 2 * (steps + 1),
        path_key(nodes, id, steps).last() == node_at(nodes, id).id.value,
    decreases steps,
{
    if steps > 0 {
        lemma_path_key_last(nodes, links(nodes)[id], (steps - 1) as nat);
    }
}

/// Finds the row with the identity.
pub fn find(nodes: &Vec<Node>, id: NodeId) -> (found: Option<usize>)
    ensures
        found is Some <==> present(nodes@, id),
        found matches Some(i) ==> i < nodes.len() && nodes@[i as int].id == id && (unique_ids(nodes@)
            ==> position(nodes@, id) == i && node_at(nodes@, id) == nodes@[i as int]),
{
    let mut i: usize = 0;
    while i < nodes.len()
        invariant
            i <= nodes.len(),
            forall|j: int| 0 <= j < i ==> #[trigger] nodes@[j].id != id,
        decreases nodes.len() - i,
    {
        if nodes[i].id == id {
            proof {
                assert(nodes@[i as int].id == id);
                if unique_ids(nodes@) {
                    lemma_position(nodes@, i as int);
                }
            }
            return Some(i);
        }
        i = i + 1;
    }
    None
}

/// Positions of the rows on the way up from row `start`, itself first, to the
/// node with no parent.
pub fn way_up(nodes: &Vec<Node>, start: usize) -> (way: Vec<usize>)
    requires
        is_forest(nodes@),
        start < nodes.len(),
    ensures
        way.len() == height(links(nodes@), nodes@[start as int].id),
        way.len() > 0,
        way[0] == start,
        forall|k: int|
            0 <= k < way.len() ==> #[trigger] way@[k] < nodes.len() && climb(
                links(nodes@),
                nodes@[start as int].id,
                k as nat,
            ) == Some(nodes@[way@[k] as int].id),
{
    let ghost up = links(nodes@);
    let ghost id = nodes@[start as int].id;
    let mut way: Vec<usize> = Vec::new();
    way.push(start);
    let mut cursor: usize = start;
    proof {
        assert(ends(up, id));
        lemma_height(up, id);
    }
    while nodes[cursor].parent_id.is_some()
        invariant
            is_forest(nodes@),
            up == links(nodes@),
            start < nodes.len(),
            id == nodes@[start as int].id,
            cursor < nodes.len(),
            way.len() > 0,
            way[0] == start,
            cursor == way@.last(),
            forall|k: int|
                0 <= k < way.len() ==> #[trigger] way@[k] < nodes.len() && climb(up, id, k as nat)
                    == Some(nodes@[way@[k] as int].id),
            ends(up, id),
            way.len() <= height(up, id),
        decreases height(up, id) - way.len(),
    {
        let parent: NodeId = nodes[cursor].parent_id.unwrap();
        proof {
            lemma_position(nodes@, cursor as int);
            lemma_height(up, id);
            assert(climb(up, id, (way.len() - 1) as nat) == Some(nodes@[cursor as int].id));
            assert(climb(up, id, way.len() as nat) == Some(parent));
            assert(present(nodes@, parent));
            if way.len() >= height(up, id) {
                assert(climb(up, id, height(up, id)) is None);
                assert(way.len() == height(up, id));
            }
        }
        match find(nodes, parent) {
            Some(next) => {
                way.push(next);
                cursor = next;
            },
            None => {
                assert(false);
            },
        }
    }
    proof {
        lemma_position(nodes@, cursor as int);
        lemma_height(up, id);
        assert(climb(up, id, (way.len() - 1) as nat) == Some(nodes@[cursor as int].id));
        assert(climb(up, id, way.len() as nat) is None);
        if way.len() < height(up, id) {
            assert(climb(up, id, way.len() as nat) is Some);
        }
    }
    way
}

} // verus!
