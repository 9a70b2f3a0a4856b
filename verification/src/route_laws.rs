//! What holds of the route between two nodes.

use crate::model::{Node, NodeId};
use crate::reads::above;
use crate::relations::{is_lca, is_route};
use crate::tree::{
    acyclic, below, climb, depth_below, is_forest, lemma_climb_add, lemma_climb_exists,
    lemma_climb_shift, lemma_depth_unique, lemma_position, links, position, present,
};
use vstd::prelude::*;

verus! {

/// Whether one of two nodes is the parent of the other.
pub open spec fn adjacent(a: Node, b: Node) -> bool {
    a.parent_id == Some(b.id) || b.parent_id == Some(a.id)
}

/// Whether a node of the route has the identity.
pub open spec fn on_route(route: Seq<Node>, id: NodeId) -> bool {
    exists|k: int| 0 <= k < route.len() && (#[trigger] route[k]).id == id
}

/// The node some links above another one has the identity that is reached there, and
/// its parent is the one above it.
proof fn lemma_above(nodes: Seq<Node>, id: NodeId, k: nat)
    requires
        is_forest(nodes),
        present(nodes, id),
        climb(links(nodes), id, k) is Some,
    ensures
        above(nodes, id, k as int).id == climb(links(nodes), id, k)->0,
        above(nodes, id, k as int).parent_id == climb(links(nodes), id, k + 1),
{
    lemma_climb_exists(nodes, id, k);
    let x = climb(links(nodes), id, k)->0;
    let p = position(nodes, x);
    assert(nodes[p].id == x);
    lemma_position(nodes, p);
}

/// A climb that reaches somewhere passes through every step below it.
proof fn lemma_passes(up: Map<NodeId, NodeId>, id: NodeId, k: nat, n: nat)
    requires
        k <= n,
        climb(up, id, n) is Some,
    ensures
        climb(up, id, k) is Some,
{
    lemma_climb_add(up, id, k, (n - k) as nat);
}

/// The ways up from two nodes meet at their lowest common ancestor and above it only.
proof fn lemma_meet(
    up: Map<NodeId, NodeId>,
    a: NodeId,
    b: NodeId,
    l: NodeId,
    p: nat,
    q: nat,
)
    requires
        acyclic(up),
        is_lca(up, a, b, l),
        climb(up, a, p) is Some,
        climb(up, a, p) == climb(up, b, q),
    ensures
        depth_below(up, l, a) <= p,
        depth_below(up, l, b) <= q,
        p - depth_below(up, l, a) == q - depth_below(up, l, b),
{
    let y = climb(up, a, p)->0;
    let i = depth_below(up, l, a);
    let j = depth_below(up, l, b);
    assert(climb(up, a, i) == Some(l));
    assert(climb(up, b, j) == Some(l));
    assert(below(up, y, a) && below(up, y, b));
    assert(below(up, y, l));
    let s = choose|s: nat| #[trigger] climb(up, l, s) == Some(y);
    lemma_climb_add(up, a, i, s);
    lemma_climb_add(up, b, j, s);
    lemma_depth_unique(up, y, a, p, i + s);
    lemma_depth_unique(up, y, b, q, j + s);
}

/// The route between two nodes starts at the one and ends at the other, visits no node
/// twice, and goes from parent to child or back at every step. The lowest common
/// ancestor is on it, and is the only node of the route whose parent is not.
pub proof fn law_route_is_simple(
    nodes: Seq<Node>,
    from: NodeId,
    to: NodeId,
    l: NodeId,
    route: Seq<Node>,
)
    requires
        is_forest(nodes),
        present(nodes, from),
        present(nodes, to),
        is_lca(links(nodes), from, to, l),
        is_route(
            nodes,
            from,
            to,
            depth_below(links(nodes), l, from),
            depth_below(links(nodes), l, to),
            route,
        ),
    ensures
        route[0].id == from,
        route.last().id == to,
        forall|a: int, b: int|
            0 <= a < b < route.len() ==> (#[trigger] route[a]).id != (#[trigger] route[b]).id,
        forall|k: int| 0 <= k < route.len() - 1 ==> adjacent(#[trigger] route[k], route[k + 1]),
        on_route(route, l),
        forall|k: int|
            0 <= k < route.len() ==> ((#[trigger] route[k]).id == l <==> !(
            route[k].parent_id is Some && on_route(route, route[k].parent_id->0))),
{
    let up = links(nodes);
    let i = depth_below(up, l, from);
    let j = depth_below(up, l, to);
    assert(climb(up, from, i) == Some(l));
    assert(climb(up, to, j) == Some(l));
    assert forall|k: int| 0 <= k < route.len() implies {
        let node = #[trigger] route[k];
        if k <= i {
            climb(up, from, k as nat) == Some(node.id) && node.parent_id == climb(
                up,
                from,
                (k + 1) as nat,
            )
        } else {
            climb(up, to, (i + j - k) as nat) == Some(node.id) && node.parent_id == climb(
                up,
                to,
                (i + j - k + 1) as nat,
            )
        }
    } by {
        if k <= i {
            lemma_passes(up, from, k as nat, i);
            lemma_above(nodes, from, k as nat);
            assert(route[k] == above(nodes, from, k));
        } else {
            lemma_passes(up, to, (i + j - k) as nat, j);
            lemma_above(nodes, to, (i + j - k) as nat);
            assert(route[k] == above(nodes, to, i + j - k));
        }
    }
    assert(climb(up, from, 0) == Some(from));
    assert(climb(up, to, 0) == Some(to));
    assert(route[0].id == from);
    assert(route[i as int].id == l);
    assert(route[(i + j) as int].id == to);
    assert forall|a: int, b: int| 0 <= a < b < route.len() implies (#[trigger] route[a]).id != (
    #[trigger] route[b]).id by {
        if route[a].id == route[b].id {
            let x = route[a].id;
            if b <= i {
                lemma_depth_unique(up, x, from, a as nat, b as nat);
            } else if a > i {
                lemma_depth_unique(up, x, to, (i + j - a) as nat, (i + j - b) as nat);
            } else {
                lemma_meet(up, from, to, l, a as nat, (i + j - b) as nat);
            }
        }
    }
    assert forall|k: int| 0 <= k < route.len() - 1 implies adjacent(
        #[trigger] route[k],
        route[k + 1],
    ) by {
        let next = route[k + 1];
        if k < i {
            assert(route[k].parent_id == Some(next.id));
        } else if k == i {
            assert(next.parent_id == climb(up, to, j));
        } else {
            assert(next.parent_id == Some(route[k].id));
        }
    }
    assert forall|k: int| 0 <= k < route.len() implies ((#[trigger] route[k]).id == l <==> !(
    route[k].parent_id is Some && on_route(route, route[k].parent_id->0))) by {
        if k < i {
            assert(route[k].parent_id == Some(route[k + 1].id));
            assert(route[k].id != route[i as int].id);
        } else if k > i {
            assert(route[k].parent_id == Some(route[k - 1].id));
            assert(route[i as int].id != route[k].id);
        } else if route[k].parent_id is Some && on_route(route, route[k].parent_id->0) {
            let p = route[k].parent_id->0;
            let m = choose|m: int| 0 <= m < route.len() && (#[trigger] route[m]).id == p;
            assert(climb(up, from, (i + 1) as nat) == Some(p));
            if m <= i {
                lemma_depth_unique(up, p, from, (i + 1) as nat, m as nat);
            } else {
                lemma_meet(up, from, to, l, (i + 1) as nat, (i + j - m) as nat);
            }
        }
    }
}

/// Whether a sequence of nodes goes from parent to child or back at every step.
pub open spec fn is_walk(nodes: Seq<Node>, walk: Seq<Node>) -> bool {
    &&& walk.len() > 0
    &&& forall|k: int| 0 <= k < walk.len() ==> nodes.contains(#[trigger] walk[k])
    &&& forall|k: int| 0 <= k < walk.len() - 1 ==> adjacent(#[trigger] walk[k], walk[k + 1])
}

/// The ways up from the ends of a walk meet after no more steps than it takes.
proof fn lemma_walk_meets(nodes: Seq<Node>, walk: Seq<Node>, n: int) -> (met: (nat, nat))
    requires
        is_forest(nodes),
        is_walk(nodes, walk),
        0 <= n < walk.len(),
    ensures
        met.0 + met.1 <= n,
        climb(links(nodes), walk[0].id, met.0) is Some,
        climb(links(nodes), walk[0].id, met.0) == climb(links(nodes), walk[n].id, met.1),
    decreases n,
{
    let up = links(nodes);
    let start = walk[0].id;
    if n == 0 {
        assert(climb(up, start, 0) == Some(start));
        (0, 0)
    } else {
        let (p, q) = lemma_walk_meets(nodes, walk, n - 1);
        let c = walk[n - 1];
        let b = walk[n];
        assert(adjacent(walk[n - 1], walk[n - 1 + 1]));
        assert(nodes.contains(c) && nodes.contains(b));
        let x = choose|x: int| 0 <= x < nodes.len() && nodes[x] == c;
        let y = choose|y: int| 0 <= y < nodes.len() && nodes[y] == b;
        lemma_position(nodes, x);
        lemma_position(nodes, y);
        if c.parent_id == Some(b.id) {
            if q == 0 {
                assert(climb(up, c.id, 0) == Some(c.id));
                assert(climb(up, start, p + 1) == Some(b.id));
                assert(climb(up, b.id, 0) == Some(b.id));
                (p + 1, 0)
            } else {
                lemma_climb_shift(up, c.id, (q - 1) as nat);
                (p, (q - 1) as nat)
            }
        } else {
            lemma_climb_shift(up, b.id, q);
            (p, q + 1)
        }
    }
}

/// No walk between two nodes is shorter than the route between them.
pub proof fn law_route_is_shortest(
    nodes: Seq<Node>,
    from: NodeId,
    to: NodeId,
    l: NodeId,
    route: Seq<Node>,
    walk: Seq<Node>,
)
    requires
        is_forest(nodes),
        is_lca(links(nodes), from, to, l),
        is_route(
            nodes,
            from,
            to,
            depth_below(links(nodes), l, from),
            depth_below(links(nodes), l, to),
            route,
        ),
        is_walk(nodes, walk),
        walk[0].id == from,
        walk.last().id == to,
    ensures
        route.len() <= walk.len(),
{
    let (p, q) = lemma_walk_meets(nodes, walk, walk.len() - 1);
    lemma_meet(links(nodes), from, to, l, p, q);
}

} // verus!
