//! What a reference text resolves to.

use crate::listing::lists;
use crate::model::{Node, NodeId, Refusal, StoreError};
use crate::order::{lemma_lex_irreflexive, lex_lt};
use crate::reads::NodeSelector;
use crate::references::{
    anchor_part, answers_to, direct_target, ids_of, lists_candidates, resolves, target_part,
    ReferenceResolution,
};
use crate::tables::Tables;
use crate::text::{index_of_char, lower_char, lowered, text_of};
use crate::tree::{lookup, present, unique_ids};
use vstd::prelude::*;

verus! {

/// Whether two characters are the same, or the same ASCII letter in two cases.
pub open spec fn same_letter(a: char, b: char) -> bool {
    ||| a == b
    ||| 'A' <= a <= 'Z' && b as u32 == a as u32 + 32
    ||| 'A' <= b <= 'Z' && a as u32 == b as u32 + 32
}

/// Whether two texts are the same, ASCII case aside.
pub open spec fn same_letters(a: Seq<char>, b: Seq<char>) -> bool {
    &&& a.len() == b.len()
    &&& forall|i: int| 0 <= i < a.len() ==> same_letter(#[trigger] a[i], b[i])
}

/// Whether a node has the title or the alias, ASCII case aside.
pub open spec fn is_called(node: Node, text: Seq<char>) -> bool {
    ||| same_letters(node.metadata.title@, text)
    ||| exists|a: int|
        0 <= a < node.metadata.aliases@.len() && same_letters(
            (#[trigger] node.metadata.aliases@[a])@,
            text,
        )
}

proof fn lemma_same_letter(a: char, b: char)
    ensures
        same_letter(a, b) <==> lower_char(a) == lower_char(b),
{
}

pub proof fn lemma_same_letters(a: Seq<char>, b: Seq<char>)
    ensures
        same_letters(a, b) <==> lowered(a) == lowered(b),
{
    if same_letters(a, b) {
        assert forall|i: int| 0 <= i < a.len() implies lowered(a)[i] == lowered(b)[i] by {
            lemma_same_letter(a[i], b[i]);
            assert(same_letter(a[i], b[i]));
        }
        assert(lowered(a) =~= lowered(b));
    }
    if lowered(a) == lowered(b) {
        assert(lowered(a).len() == a.len() && lowered(b).len() == b.len());
        assert forall|i: int| 0 <= i < a.len() implies same_letter(#[trigger] a[i], b[i]) by {
            lemma_same_letter(a[i], b[i]);
            assert(lowered(a)[i] == lowered(b)[i]);
        }
    }
}

proof fn lemma_is_called(node: Node, text: Seq<char>)
    ensures
        is_called(node, text) <==> answers_to(node, text),
{
    lemma_same_letters(node.metadata.title@, text);
    assert forall|a: int| 0 <= a < node.metadata.aliases@.len() implies (same_letters(
        (#[trigger] node.metadata.aliases@[a])@,
        text,
    ) <==> lowered(node.metadata.aliases@[a]@) == lowered(text)) by {
        lemma_same_letters(node.metadata.aliases@[a]@, text);
    }
}

pub proof fn lemma_index_of_char(text: Seq<char>, c: char, i: int)
    requires
        0 <= i,
    ensures
        match index_of_char(text, c, i) {
            Some(k) => i <= k < text.len() && text[k] == c && forall|j: int|
                i <= j < k ==> #[trigger] text[j] != c,
            None => forall|j: int| i <= j < text.len() ==> #[trigger] text[j] != c,
        },
    decreases text.len() - i,
{
    if i < text.len() && text[i] != c {
        lemma_index_of_char(text, c, i + 1);
    }
}

/// The text of a reference to a target, and an anchor in it.
pub open spec fn written(target: Seq<char>, anchor: Option<Seq<char>>) -> Seq<char> {
    match anchor {
        None => target,
        Some(a) => target + seq!['#'] + a,
    }
}

/// Splitting a written reference gives back its target and its anchor.
pub proof fn law_references_split_at_the_hash(target: Seq<char>, anchor: Option<Seq<char>>)
    requires
        !target.contains('#'),
    ensures
        target_part(written(target, anchor)) == target,
        anchor_part(written(target, anchor)) == anchor,
{
    let text = written(target, anchor);
    lemma_index_of_char(text, '#', 0);
    match anchor {
        None => {
            match index_of_char(text, '#', 0) {
                Some(k) => {
                    assert(target.contains(target[k]));
                },
                None => {},
            }
        },
        Some(a) => {
            let n = target.len() as int;
            assert(text[n] == '#');
            let k = index_of_char(text, '#', 0)->0;
            if k < n {
                assert(target[k] == text[k]);
                assert(target.contains(target[k]));
            }
            assert(k == n);
            assert(text.take(n) =~= target);
            assert(text.skip(n + 1) =~= a);
        },
    }
}

/// Whether a resolution names the node and repeats the anchor.
pub open spec fn names(
    result: Result<ReferenceResolution, StoreError>,
    id: NodeId,
    anchor: Option<Seq<char>>,
) -> bool {
    result matches Ok(ReferenceResolution::Resolved { node_id, anchor: verified }) && node_id == id
        && text_of(verified) == anchor
}

/// Whether a resolution found nothing.
pub open spec fn is_unresolved(result: Result<ReferenceResolution, StoreError>) -> bool {
    result matches Ok(ReferenceResolution::Unresolved)
}

/// Whether a resolution offers the nodes as candidates.
pub open spec fn offers(
    result: Result<ReferenceResolution, StoreError>,
    ids: Seq<NodeId>,
) -> bool {
    result matches Ok(ReferenceResolution::Ambiguous { candidates }) && candidates@ == ids
}

/// Whether the anchor, if there is one, is that of a section of the node.
pub open spec fn anchor_holds(t: Tables, id: NodeId, anchor: Option<Seq<char>>) -> bool {
    anchor matches Some(a) ==> exists|s: int|
        0 <= s < t.sections.len() && (#[trigger] t.sections[s]).node_id == id && text_of(
            t.sections[s].anchor,
        ) == Some(a)
}

proof fn lemma_candidates_have(
    nodes: Seq<Node>,
    text: Seq<char>,
    listed: Seq<Node>,
    x: Node,
)
    requires
        lists_candidates(nodes, text, listed),
    ensures
        listed.contains(x) <==> nodes.contains(x) && is_called(x, text),
{
    lemma_is_called(x, text);
    let pred = |n: Node| answers_to(n, text);
    let key = |n: Node| seq![n.id.value];
    assert(lists(nodes, pred, key, listed));
    assert(listed.contains(x) <==> nodes.contains(x) && pred(x));
}

proof fn lemma_not_direct(nodes: Seq<Node>, target: Seq<char>, identity: Option<NodeId>, path: Option<NodeSelector>)
    requires
        !target.contains('/'),
        identity matches Some(id) ==> !present(nodes, id),
    ensures
        direct_target(nodes, target, identity, path) == Ok::<Option<Node>, Refusal>(None),
{
    lemma_index_of_char(target, '/', 0);
    match index_of_char(target, '/', 0) {
        Some(k) => {
            assert(target.contains(target[k]));
        },
        None => {},
    }
}

/// A reference text that is the title or an alias of one node and of no other, ASCII case
/// aside, resolves to that node; with an anchor, only where a section of the node has it.
pub proof fn law_a_name_of_one_node_resolves_to_it(
    t: Tables,
    target: Seq<char>,
    anchor: Option<Seq<char>>,
    identity: Option<NodeId>,
    path: Option<NodeSelector>,
    result: Result<ReferenceResolution, StoreError>,
    k: int,
)
    requires
        unique_ids(t.nodes),
        !target.contains('#'),
        !target.contains('/'),
        identity matches Some(id) ==> !present(t.nodes, id),
        0 <= k < t.nodes.len(),
        is_called(t.nodes[k], target),
        forall|m: int|
            0 <= m < t.nodes.len() && m != k ==> !is_called(#[trigger] t.nodes[m], target),
        resolves(t, written(target, anchor), identity, path, result),
    ensures
        anchor_holds(t, t.nodes[k].id, anchor) ==> names(result, t.nodes[k].id, anchor),
        !anchor_holds(t, t.nodes[k].id, anchor) ==> is_unresolved(result),
{
    law_references_split_at_the_hash(target, anchor);
    lemma_not_direct(t.nodes, target, identity, path);
    let node = t.nodes[k];
    let listed = choose|listed: Seq<Node>|
        {
            &&& #[trigger] lists_candidates(t.nodes, target, listed)
            &&& result is Ok
            &&& if listed.len() > 1 {
                result->Ok_0 matches ReferenceResolution::Ambiguous { candidates } && candidates@
                    == ids_of(listed)
            } else {
                crate::references::settles(
                    t,
                    if listed.len() == 1 {
                        Some(listed[0])
                    } else {
                        None
                    },
                    anchor,
                    result->Ok_0,
                )
            }
        };
    assert(t.nodes.contains(node));
    lemma_candidates_have(t.nodes, target, listed, node);
    assert(listed.contains(node));
    assert forall|i: int| 0 <= i < listed.len() implies #[trigger] listed[i] == node by {
        assert(listed.contains(listed[i]));
        lemma_candidates_have(t.nodes, target, listed, listed[i]);
        let m = choose|m: int| 0 <= m < t.nodes.len() && t.nodes[m] == listed[i];
        assert(is_called(t.nodes[m], target));
    }
    if listed.len() > 1 {
        let key = |n: Node| seq![n.id.value];
        lemma_lex_irreflexive(key(node));
        assert(lex_lt(key(listed[0]), key(listed[1])));
    }
    assert(listed.len() == 1 && listed[0] == node);
    if let Some(a) = anchor {
        if anchor_holds(t, node.id, anchor) {
            let s = choose|s: int|
                0 <= s < t.sections.len() && (#[trigger] t.sections[s]).node_id == node.id
                    && text_of(t.sections[s].anchor) == Some(a);
            assert(t.sections[s].node_id == node.id);
        }
        if crate::references::has_anchor(t.sections, node.id, a) {
            let s = choose|s: int|
                0 <= s < t.sections.len() && (#[trigger] t.sections[s]).node_id == node.id && (
                t.sections[s].anchor matches Some(x) && x@ == a);
            assert(text_of(t.sections[s].anchor) == Some(a));
        }
    }
}

/// A reference text that is the name of no node resolves to nothing.
pub proof fn law_a_name_of_no_node_is_unresolved(
    t: Tables,
    target: Seq<char>,
    anchor: Option<Seq<char>>,
    identity: Option<NodeId>,
    path: Option<NodeSelector>,
    result: Result<ReferenceResolution, StoreError>,
)
    requires
        !target.contains('#'),
        !target.contains('/'),
        identity matches Some(id) ==> !present(t.nodes, id),
        forall|m: int| 0 <= m < t.nodes.len() ==> !is_called(#[trigger] t.nodes[m], target),
        resolves(t, written(target, anchor), identity, path, result),
    ensures
        is_unresolved(result),
{
    law_references_split_at_the_hash(target, anchor);
    lemma_not_direct(t.nodes, target, identity, path);
    assert forall|listed: Seq<Node>| #[trigger]
        lists_candidates(t.nodes, target, listed) implies listed.len() == 0 by {
        if listed.len() > 0 {
            assert(listed.contains(listed[0]));
            lemma_candidates_have(t.nodes, target, listed, listed[0]);
            let m = choose|m: int| 0 <= m < t.nodes.len() && t.nodes[m] == listed[0];
            assert(is_called(t.nodes[m], target));
        }
    }
}

/// A name that two nodes share is ambiguous. The candidates are exactly the nodes that have
/// it, each once, by ascending identity.
pub proof fn law_a_shared_name_is_ambiguous(
    t: Tables,
    target: Seq<char>,
    anchor: Option<Seq<char>>,
    identity: Option<NodeId>,
    path: Option<NodeSelector>,
    result: Result<ReferenceResolution, StoreError>,
    k: int,
    l: int,
)
    requires
        unique_ids(t.nodes),
        !target.contains('#'),
        !target.contains('/'),
        identity matches Some(id) ==> !present(t.nodes, id),
        0 <= k < t.nodes.len(),
        0 <= l < t.nodes.len(),
        k != l,
        is_called(t.nodes[k], target),
        is_called(t.nodes[l], target),
        resolves(t, written(target, anchor), identity, path, result),
    ensures
        exists|ids: Seq<NodeId>|
            {
                &&& #[trigger] offers(result, ids)
                &&& forall|i: int, j: int|
                    0 <= i < j < ids.len() ==> (#[trigger] ids[i]).value < (#[trigger] ids[j]).value
                &&& forall|m: int|
                    0 <= m < t.nodes.len() ==> (ids.contains((#[trigger] t.nodes[m]).id)
                        <==> is_called(t.nodes[m], target))
                &&& forall|i: int| 0 <= i < ids.len() ==> present(t.nodes, #[trigger] ids[i])
            },
{
    law_references_split_at_the_hash(target, anchor);
    lemma_not_direct(t.nodes, target, identity, path);
    let listed = choose|listed: Seq<Node>|
        {
            &&& #[trigger] lists_candidates(t.nodes, target, listed)
            &&& result is Ok
            &&& if listed.len() > 1 {
                result->Ok_0 matches ReferenceResolution::Ambiguous { candidates } && candidates@
                    == ids_of(listed)
            } else {
                crate::references::settles(
                    t,
                    if listed.len() == 1 {
                        Some(listed[0])
                    } else {
                        None
                    },
                    anchor,
                    result->Ok_0,
                )
            }
        };
    let key = |n: Node| seq![n.id.value];
    assert(crate::listing::increasing(listed, key));
    let ids = ids_of(listed);
    assert(t.nodes.contains(t.nodes[k]) && t.nodes.contains(t.nodes[l]));
    lemma_candidates_have(t.nodes, target, listed, t.nodes[k]);
    lemma_candidates_have(t.nodes, target, listed, t.nodes[l]);
    let a = choose|a: int| 0 <= a < listed.len() && listed[a] == t.nodes[k];
    let b = choose|b: int| 0 <= b < listed.len() && listed[b] == t.nodes[l];
    assert(t.nodes[k].id != t.nodes[l].id);
    assert(listed.len() > 1);
    assert(offers(result, ids));
    assert forall|i: int, j: int| 0 <= i < j < ids.len() implies (#[trigger] ids[i]).value < (
    #[trigger] ids[j]).value by {
        assert(lex_lt(key(listed[i]), key(listed[j])));
        let x = seq![listed[i].id.value];
        let y = seq![listed[j].id.value];
        assert(lex_lt(x, y));
        assert(x[0] == ids[i].value && y[0] == ids[j].value);
        reveal_with_fuel(lex_lt, 2);
        assert(x.skip(1) =~= Seq::<u128>::empty());
        assert(y.skip(1) =~= Seq::<u128>::empty());
    }
    assert forall|m: int| 0 <= m < t.nodes.len() implies (ids.contains(
        (#[trigger] t.nodes[m]).id,
    ) <==> is_called(t.nodes[m], target)) by {
        assert(t.nodes.contains(t.nodes[m]));
        lemma_candidates_have(t.nodes, target, listed, t.nodes[m]);
        if is_called(t.nodes[m], target) {
            let i = choose|i: int| 0 <= i < listed.len() && listed[i] == t.nodes[m];
            assert(ids[i] == t.nodes[m].id);
        }
        if ids.contains(t.nodes[m].id) {
            let i = choose|i: int| 0 <= i < ids.len() && ids[i] == t.nodes[m].id;
            assert(listed.contains(listed[i]));
            lemma_candidates_have(t.nodes, target, listed, listed[i]);
            let n = choose|n: int| 0 <= n < t.nodes.len() && t.nodes[n] == listed[i];
            assert(n == m);
        }
    }
    assert forall|i: int| 0 <= i < ids.len() implies present(t.nodes, #[trigger] ids[i]) by {
        assert(listed.contains(listed[i]));
        lemma_candidates_have(t.nodes, target, listed, listed[i]);
        let n = choose|n: int| 0 <= n < t.nodes.len() && t.nodes[n] == listed[i];
        assert(t.nodes[n].id == ids[i]);
    }
}

/// A text that reads as the identity of a stored node resolves to that node, whatever other
/// nodes are called.
pub proof fn law_an_identity_resolves_to_its_node(
    t: Tables,
    target: Seq<char>,
    anchor: Option<Seq<char>>,
    id: NodeId,
    path: Option<NodeSelector>,
    result: Result<ReferenceResolution, StoreError>,
)
    requires
        !target.contains('#'),
        present(t.nodes, id),
        resolves(t, written(target, anchor), Some(id), path, result),
    ensures
        anchor is None ==> names(result, id, None),
        anchor_holds(t, id, anchor) ==> names(result, id, anchor),
        !anchor_holds(t, id, anchor) ==> is_unresolved(result),
{
    law_references_split_at_the_hash(target, anchor);
    let node = lookup(t.nodes, id)->0;
    assert(node.id == id);
    if let Some(a) = anchor {
        if anchor_holds(t, id, anchor) {
            let s = choose|s: int|
                0 <= s < t.sections.len() && (#[trigger] t.sections[s]).node_id == id && text_of(
                    t.sections[s].anchor,
                ) == Some(a);
            assert(t.sections[s].node_id == id);
        }
        if crate::references::has_anchor(t.sections, id, a) {
            let s = choose|s: int|
                0 <= s < t.sections.len() && (#[trigger] t.sections[s]).node_id == id && (
                t.sections[s].anchor matches Some(x) && x@ == a);
            assert(text_of(t.sections[s].anchor) == Some(a));
        }
    }
}

} // verus!
