//! Reports on references and titles, and rebuilding of derived rows.

use crate::edits::lemma_filter_step;
use crate::listing::increasing;
use crate::model::{
    DerivedNodeRecords, Node, NodeHash, NodeId, Reference, ReferenceOrigin, ReferenceTarget,
    ReferenceView, Refusal, StoreError,
};
use crate::mutate::{first_refusal, lemma_first_refusal, lemma_run_refused, run};
use crate::order::{lex_le, lex_lt, sorted_positions};
use crate::reads::is_breadcrumb;
use crate::tables::{reference_views, RowView, SqliteStore, Tables};
use crate::text::{
    ascii_lower, chars_of, code_points, joined, lemma_code_points_injective, lowered, text_range,
    to_code_points,
};
use crate::tree::{find, is_forest, node_at, position, present, unique_ids};
use vstd::prelude::*;

verus! {

/// The characters of each text.
pub open spec fn texts(list: Seq<String>) -> Seq<Seq<char>> {
    Seq::new(list.len(), |i: int| list[i]@)
}

/// Unresolved reference with structural source context.
#[derive(Debug)]
pub struct UnresolvedDiagnostic {
    /// Retained unresolved relationship.
    pub reference: Reference,
    /// Current titles from the root down to the source node.
    pub source_breadcrumb: Vec<String>,
}

/// Likely duplicate-node diagnostic group.
#[derive(Debug)]
pub struct DuplicateCandidate {
    /// Stable candidate IDs.
    pub node_ids: Vec<NodeId>,
    /// Signal that produced the diagnostic.
    pub reason: String,
    /// Current breadcrumbs corresponding to the candidate IDs.
    pub breadcrumbs: Vec<Vec<String>>,
}

/// Sorts distinct texts by code point.
pub fn sort_texts(names: &Vec<String>) -> (sorted: Vec<String>)
    requires
        texts(names@).no_duplicates(),
    ensures
        increasing(texts(sorted@), |t: Seq<char>| code_points(t)),
        forall|x: Seq<char>| #[trigger] texts(sorted@).contains(x) <==> texts(names@).contains(x),
{
    let ghost all = texts(names@);
    let mut keys: Vec<Vec<u128>> = Vec::new();
    let mut i: usize = 0;
    while i < names.len()
        invariant
            i <= names.len(),
            keys.len() == i,
            forall|k: int| 0 <= k < i ==> (#[trigger] keys@[k])@ == code_points(names@[k]@),
        decreases names.len() - i,
    {
        keys.push(to_code_points(names[i].as_str()));
        i = i + 1;
    }
    let order = sorted_positions(&keys);
    let mut sorted: Vec<String> = Vec::new();
    let mut n: usize = 0;
    while n < order.len()
        invariant
            n <= order.len(),
            order.len() == names.len(),
            forall|i: int| 0 <= i < order.len() ==> #[trigger] order@[i] < names.len(),
            sorted.len() == n,
            forall|m: int| 0 <= m < n ==> (#[trigger] sorted@[m])@ == names@[order@[m] as int]@,
        decreases order.len() - n,
    {
        sorted.push(names[order[n]].clone());
        n = n + 1;
    }
    proof {
        let out = texts(sorted@);
        let key = |t: Seq<char>| code_points(t);
        assert forall|i: int, j: int| 0 <= i < j < out.len() implies lex_lt(
            key(#[trigger] out[i]),
            key(#[trigger] out[j]),
        ) by {
            let a = order@[i] as int;
            let b = order@[j] as int;
            assert(lex_le(keys@[a]@, keys@[b]@));
            if code_points(all[a]) == code_points(all[b]) {
                lemma_code_points_injective(all[a], all[b]);
            }
        }
        assert forall|x: Seq<char>| #[trigger] out.contains(x) <==> all.contains(x) by {
            if out.contains(x) {
                let i = choose|i: int| 0 <= i < out.len() && out[i] == x;
                assert(all[order@[i] as int] == x);
            }
            if all.contains(x) {
                let k = choose|k: int| 0 <= k < all.len() && all[k] == x;
                assert(order@.contains(k as usize));
                let i = choose|i: int| 0 <= i < order@.len() && order@[i] == k as usize;
                assert(out[i] == x);
            }
        }
    }
    sorted
}

/// Whether the list holds the text.
pub fn contains_text(list: &Vec<String>, text: &String) -> (found: bool)
    ensures
        found == texts(list@).contains(text@),
{
    let mut i: usize = 0;
    while i < list.len()
        invariant
            i <= list.len(),
            forall|k: int| 0 <= k < i ==> (#[trigger] list@[k])@ != text@,
        decreases list.len() - i,
    {
        if list[i] == *text {
            assert(texts(list@)[i as int] == text@);
            return true;
        }
        i = i + 1;
    }
    proof {
        if texts(list@).contains(text@) {
            let k = choose|k: int| 0 <= k < texts(list@).len() && texts(list@)[k] == text@;
            assert(list@[k]@ == text@);
        }
    }
    false
}

/// A title without surrounding spaces, in ASCII small letters.
pub open spec fn normal_title(title: Seq<char>) -> Seq<char> {
    lowered(trim_spaces(title))
}

/// The text without leading and trailing spaces.
pub open spec fn trim_spaces(text: Seq<char>) -> Seq<char>
    decreases text.len(),
{
    if text.len() > 0 && text[0] == ' ' {
        trim_spaces(text.skip(1))
    } else if text.len() > 0 && text.last() == ' ' {
        trim_spaces(text.drop_last())
    } else {
        text
    }
}

fn make_normal_title(title: &str) -> (normal: String)
    ensures
        normal@ == normal_title(title@),
{
    let chars = chars_of(title);
    let mut from: usize = 0;
    let mut to: usize = chars.len();
    assert(chars@.subrange(0, chars@.len() as int) =~= title@);
    while from < to && chars[from] == ' '
        invariant
            from <= to <= chars.len(),
            chars@ == title@,
            trim_spaces(title@) == trim_spaces(chars@.subrange(from as int, to as int)),
        decreases to - from,
    {
        assert(chars@.subrange(from as int, to as int).skip(1) =~= chars@.subrange(
            from + 1,
            to as int,
        ));
        from = from + 1;
    }
    while from < to && chars[to - 1] == ' '
        invariant
            from <= to <= chars.len(),
            from < to ==> chars@[from as int] != ' ',
            chars@ == title@,
            trim_spaces(title@) == trim_spaces(chars@.subrange(from as int, to as int)),
        decreases to - from,
    {
        assert(chars@.subrange(from as int, to as int).drop_last() =~= chars@.subrange(
            from as int,
            to - 1,
        ));
        to = to - 1;
    }
    let trimmed = text_range(&chars, from, to);
    ascii_lower(trimmed.as_str())
}

/// The identities of the first `n` nodes with that normalized title, in row
/// order.
pub open spec fn titled(nodes: Seq<Node>, title: Seq<char>, n: int) -> Seq<NodeId>
    decreases n,
{
    if n <= 0 {
        Seq::empty()
    } else if normal_title(nodes[n - 1].metadata.title@) == title {
        titled(nodes, title, n - 1).push(nodes[n - 1].id)
    } else {
        titled(nodes, title, n - 1)
    }
}

/// Whether more than one node has that normalized title.
pub open spec fn is_repeated(nodes: Seq<Node>, title: Seq<char>) -> bool {
    titled(nodes, title, nodes.len() as int).len() > 1
}

/// Whether the candidate describes the nodes with that normalized title.
pub open spec fn describes_title(
    nodes: Seq<Node>,
    title: Seq<char>,
    candidate: DuplicateCandidate,
) -> bool {
    &&& candidate.node_ids@ == titled(nodes, title, nodes.len() as int)
    &&& candidate.reason@ == "same normalized title: "@ + title
    &&& candidate.breadcrumbs.len() == candidate.node_ids.len()
    &&& forall|i: int|
        0 <= i < candidate.breadcrumbs.len() ==> is_breadcrumb(
            nodes,
            candidate.node_ids@[i],
            #[trigger] candidate.breadcrumbs@[i]@,
        )
}

impl SqliteStore {
    /// Distinct reference-type names across the entire workspace, by code point.
    pub fn all_relation_types(&self) -> (types: Vec<String>)
        ensures
            increasing(texts(types@), |t: Seq<char>| code_points(t)),
            forall|x: Seq<char>| #[trigger]
                texts(types@).contains(x) <==> exists|i: int|
                    0 <= i < self@.references.len() && (
                    #[trigger] self@.references[i]).reference.reference_type == x,
    {
        let mut names: Vec<String> = Vec::new();
        let mut i: usize = 0;
        while i < self.references.len()
            invariant
                i <= self.references.len(),
                texts(names@).no_duplicates(),
                forall|x: Seq<char>| #[trigger]
                    texts(names@).contains(x) <==> exists|k: int|
                        0 <= k < i && (
                        #[trigger] self@.references[k]).reference.reference_type == x,
            decreases self.references.len() - i,
        {
            let name = &self.references[i].reference.reference_type;
            assert(self@.references[i as int].reference.reference_type == name@);
            let ghost before = texts(names@);
            if !contains_text(&names, name) {
                names.push(name.clone());
                proof {
                    let after = texts(names@);
                    assert(after =~= before.push(name@));
                    assert forall|x: Seq<char>| #[trigger] after.contains(x) <==> before.contains(x)
                        || x == name@ by {
                        if after.contains(x) {
                            let k = choose|k: int| 0 <= k < after.len() && after[k] == x;
                            if k < before.len() {
                                assert(before[k] == x);
                            }
                        }
                        if before.contains(x) {
                            let k = choose|k: int| 0 <= k < before.len() && before[k] == x;
                            assert(after[k] == x);
                        }
                        assert(after[before.len() as int] == name@);
                    }
                    assert(after.no_duplicates());
                }
            }
            i = i + 1;
        }
        sort_texts(&names)
    }

    /// Lists unresolved references without changing canonical facts.
    pub fn unresolved_references(&self) -> (result: Result<Vec<UnresolvedDiagnostic>, StoreError>)
        requires
            is_forest(self@.nodes),
        ensures
            ({
                let rows = unresolved_rows(self@);
                match first_refusal(
                    rows.len() as int,
                    |i: int| source_refusal(self@.nodes, rows[i]),
                ) {
                    Some(e) => result is Err && result->Err_0@ == e,
                    None => result is Ok && result->Ok_0@.len() == rows.len() && forall|i: int|
                        0 <= i < rows.len() ==> (#[trigger] result->Ok_0@[i]).reference@
                            == rows[i].reference && is_breadcrumb(
                            self@.nodes,
                            rows[i].reference.source_node_id,
                            result->Ok_0@[i].source_breadcrumb@,
                        ),
                }
            }),
    {
        let ghost table = self@.references;
        let ghost keep = |r: RowView| r.reference.target is Unresolved;
        let ghost rows = unresolved_rows(self@);
        let ghost check = |i: int| source_refusal(self@.nodes, rows[i]);
        let ghost mut kept: Seq<RowView> = Seq::empty();
        let mut found: Vec<UnresolvedDiagnostic> = Vec::new();
        let mut i: usize = 0;
        assert(table.take(0).filter(keep) =~= Seq::<RowView>::empty()) by {
            reveal(Seq::filter);
        }
        while i < self.references.len()
            invariant
                i <= self.references.len(),
                is_forest(self@.nodes),
                table == self@.references,
                rows == unresolved_rows(self@),
                keep == (|r: RowView| r.reference.target is Unresolved),
                check == (|i: int| source_refusal(self@.nodes, rows[i])),
                kept == table.take(i as int).filter(keep),
                first_refusal(found.len() as int, check) is None,
                found.len() == kept.len(),
                forall|k: int|
                    0 <= k < found.len() ==> (#[trigger] found@[k]).reference@ == kept[k].reference
                        && is_breadcrumb(
                        self@.nodes,
                        kept[k].reference.source_node_id,
                        found@[k].source_breadcrumb@,
                    ),
            decreases self.references.len() - i,
        {
            proof {
                lemma_filter_step(table, keep, i as int);
            }
            let reference = &self.references[i].reference;
            assert(table[i as int].reference == reference@);
            let unresolved: bool = match &reference.target {
                ReferenceTarget::Unresolved { .. } => true,
                ReferenceTarget::Resolved { .. } => false,
            };
            if unresolved {
                proof {
                    lemma_filter_prefix(table, keep, i + 1);
                    assert(table.take(i + 1).filter(keep).last() == table[i as int]);
                    assert(rows[kept.len() as int] == table[i as int]);
                }
                match self.breadcrumb(reference.source_node_id) {
                    Ok(source_breadcrumb) => {
                        found.push(
                            UnresolvedDiagnostic {
                                reference: reference.copy(),
                                source_breadcrumb,
                            },
                        );
                        proof {
                            kept = kept.push(table[i as int]);
                        }
                    },
                    Err(e) => {
                        proof {
                            assert(check(found.len() as int) == Some(e@));
                            assert(first_refusal(found.len() + 1, check) == Some(e@));
                            lemma_first_refusal(found.len() + 1, rows.len() as int, check);
                        }
                        return Err(e);
                    },
                }
            }
            i = i + 1;
        }
        assert(table.take(table.len() as int) =~= table);
        Ok(found)
    }

    /// The nodes with one normalized title, and where they stand.
    fn title_group(&self, title: &String) -> (candidate: DuplicateCandidate)
        requires
            is_forest(self@.nodes),
        ensures
            describes_title(self@.nodes, title@, candidate),
    {
        let ghost nodes = self@.nodes;
        let mut node_ids: Vec<NodeId> = Vec::new();
        let mut breadcrumbs: Vec<Vec<String>> = Vec::new();
        let mut i: usize = 0;
        while i < self.nodes.len()
            invariant
                i <= self.nodes.len(),
                nodes == self@.nodes,
                is_forest(nodes),
                node_ids@ == titled(nodes, title@, i as int),
                breadcrumbs.len() == node_ids.len(),
                forall|k: int|
                    0 <= k < breadcrumbs.len() ==> is_breadcrumb(
                        nodes,
                        node_ids@[k],
                        #[trigger] breadcrumbs@[k]@,
                    ),
            decreases self.nodes.len() - i,
        {
            let normal = make_normal_title(self.nodes[i].metadata.title.as_str());
            if normal == *title {
                assert(nodes[i as int].id == self.nodes@[i as int].id);
                assert(present(nodes, nodes[i as int].id));
                match self.breadcrumb(self.nodes[i].id) {
                    Ok(crumbs) => {
                        node_ids.push(self.nodes[i].id);
                        breadcrumbs.push(crumbs);
                    },
                    Err(_) => {
                        assert(false);
                    },
                }
            }
            i = i + 1;
        }
        DuplicateCandidate {
            node_ids,
            reason: joined("same normalized title: ", title.as_str()),
            breadcrumbs,
        }
    }

    fn count_titled(&self, title: &String) -> (count: usize)
        ensures
            count == titled(self@.nodes, title@, self@.nodes.len() as int).len(),
    {
        let mut count: usize = 0;
        let mut i: usize = 0;
        while i < self.nodes.len()
            invariant
                i <= self.nodes.len(),
                count <= i,
                count == titled(self@.nodes, title@, i as int).len(),
            decreases self.nodes.len() - i,
        {
            let normal = make_normal_title(self.nodes[i].metadata.title.as_str());
            if normal == *title {
                count = count + 1;
            }
            i = i + 1;
        }
        count
    }

    /// Finds deterministic likely-duplicate groups by normalized title.
    pub fn duplicate_candidates(&self) -> (groups: Vec<DuplicateCandidate>)
        requires
            is_forest(self@.nodes),
        ensures
            exists|titles: Seq<Seq<char>>|
                {
                    &&& #[trigger] lists_repeated(self@.nodes, titles)
                    &&& groups.len() == titles.len()
                    &&& forall|i: int|
                        0 <= i < groups.len() ==> describes_title(
                            self@.nodes,
                            titles[i],
                            #[trigger] groups@[i],
                        )
                },
    {
        let ghost nodes = self@.nodes;
        let mut names: Vec<String> = Vec::new();
        let mut i: usize = 0;
        while i < self.nodes.len()
            invariant
                i <= self.nodes.len(),
                nodes == self@.nodes,
                texts(names@).no_duplicates(),
                forall|x: Seq<char>| #[trigger]
                    texts(names@).contains(x) <==> is_repeated(nodes, x) && exists|k: int|
                        0 <= k < i && normal_title((#[trigger] nodes[k]).metadata.title@) == x,
            decreases self.nodes.len() - i,
        {
            let name = make_normal_title(self.nodes[i].metadata.title.as_str());
            assert(normal_title(nodes[i as int].metadata.title@) == name@);
            let ghost before = texts(names@);
            if self.count_titled(&name) > 1 && !contains_text(&names, &name) {
                let ghost added = name@;
                names.push(name);
                proof {
                    let after = texts(names@);
                    assert(after =~= before.push(added));
                    assert forall|x: Seq<char>| #[trigger] after.contains(x) <==> before.contains(x)
                        || x == added by {
                        if after.contains(x) {
                            let k = choose|k: int| 0 <= k < after.len() && after[k] == x;
                            if k < before.len() {
                                assert(before[k] == x);
                            }
                        }
                        if before.contains(x) {
                            let k = choose|k: int| 0 <= k < before.len() && before[k] == x;
                            assert(after[k] == x);
                        }
                        assert(after[before.len() as int] == added);
                    }
                    assert(after.no_duplicates());
                }
            }
            i = i + 1;
        }
        let sorted = sort_texts(&names);
        let ghost titles = texts(sorted@);
        proof {
            assert forall|x: Seq<char>| #[trigger] titles.contains(x) <==> is_repeated(nodes, x) by {
                assert(titles.contains(x) <==> texts(names@).contains(x));
                if is_repeated(nodes, x) {
                    lemma_titled_witness(nodes, x, nodes.len() as int);
                }
            }
            assert(lists_repeated(nodes, titles));
        }
        let mut groups: Vec<DuplicateCandidate> = Vec::new();
        let mut j: usize = 0;
        while j < sorted.len()
            invariant
                j <= sorted.len(),
                nodes == self@.nodes,
                is_forest(nodes),
                titles == texts(sorted@),
                groups.len() == j,
                forall|k: int|
                    0 <= k < j ==> describes_title(nodes, titles[k], #[trigger] groups@[k]),
            decreases sorted.len() - j,
        {
            groups.push(self.title_group(&sorted[j]));
            j = j + 1;
        }
        groups
    }
}

proof fn lemma_titled_witness(nodes: Seq<Node>, title: Seq<char>, n: int)
    requires
        0 <= n <= nodes.len(),
        titled(nodes, title, n).len() > 0,
    ensures
        exists|k: int|
            0 <= k < n && normal_title((#[trigger] nodes[k]).metadata.title@) == title,
    decreases n,
{
    if n > 0 && normal_title(nodes[n - 1].metadata.title@) != title {
        lemma_titled_witness(nodes, title, n - 1);
    }
}

/// A filtered prefix is a prefix of the filtered whole.
proof fn lemma_filter_prefix<T>(rows: Seq<T>, keep: spec_fn(T) -> bool, n: int)
    requires
        0 <= n <= rows.len(),
    ensures
        rows.take(n).filter(keep).len() <= rows.filter(keep).len(),
        forall|i: int|
            0 <= i < rows.take(n).filter(keep).len() ==> #[trigger] rows.filter(keep)[i]
                == rows.take(n).filter(keep)[i],
    decreases rows.len() - n,
{
    if n < rows.len() {
        lemma_filter_prefix(rows, keep, n + 1);
        lemma_filter_step(rows, keep, n);
        let a = rows.take(n).filter(keep);
        let b = rows.take(n + 1).filter(keep);
        assert forall|i: int| 0 <= i < a.len() implies #[trigger] rows.filter(keep)[i] == a[i] by {
            assert(b[i] == a[i]);
            assert(rows.filter(keep)[i] == b[i]);
        }
    } else {
        assert(rows.take(n) =~= rows);
    }
}

/// Whether the titles are exactly the repeated ones, by code point.
pub open spec fn lists_repeated(nodes: Seq<Node>, titles: Seq<Seq<char>>) -> bool {
    &&& increasing(titles, |t: Seq<char>| code_points(t))
    &&& forall|x: Seq<char>| #[trigger] titles.contains(x) <==> is_repeated(nodes, x)
}

/// The rows whose target is unresolved, in row order.
pub open spec fn unresolved_rows(t: Tables) -> Seq<RowView> {
    t.references.filter(|r: RowView| r.reference.target is Unresolved)
}

/// Why the source of a reference cannot be described.
pub open spec fn source_refusal(nodes: Seq<Node>, row: RowView) -> Option<Refusal> {
    if present(nodes, row.reference.source_node_id) {
        None
    } else {
        Some(Refusal::NotFound(row.reference.source_node_id.text()))
    }
}

/// What was derived anew from one node.
#[derive(Debug)]
pub struct RebuiltNode {
    pub node_id: NodeId,
    pub derived: DerivedNodeRecords,
}

/// A reference without its section.
pub open spec fn unsectioned(reference: ReferenceView) -> ReferenceView {
    ReferenceView { source_section_id: None, ..reference }
}

/// Whether a rebuild keeps the reference rather than deriving it anew.
pub open spec fn is_preserved(row: RowView) -> bool {
    !(row.reference.origin == ReferenceOrigin::Markdown || row.reference.origin
        == ReferenceOrigin::Wikilink)
}

/// The references that a rebuild keeps, without their sections.
pub open spec fn preserved(t: Tables) -> Seq<ReferenceView> {
    let rows = t.references.filter(|r: RowView| is_preserved(r));
    Seq::new(rows.len(), |i: int| unsectioned(rows[i].reference))
}

/// The rows with the content hash of one node replaced.
pub open spec fn rehashed(nodes: Seq<Node>, id: NodeId, hash: NodeHash) -> Seq<Node> {
    if present(nodes, id) {
        nodes.update(
            position(nodes, id),
            Node { content_hash: hash, ..node_at(nodes, id) },
        )
    } else {
        nodes
    }
}

impl Tables {
    /// Takes over what was derived anew from one node.
    pub open spec fn take_rebuilt(self, rebuilt: RebuiltNode) -> Result<Tables, Refusal> {
        Tables {
            nodes: rehashed(self.nodes, rebuilt.node_id, rebuilt.derived.content_hash),
            ..self
        }.replace_derived(rebuilt.node_id, rebuilt.derived)
    }

    /// Rebuilds sections, extracted references, hashes and documents.
    pub open spec fn rebuild(self, rebuilt: Seq<RebuiltNode>) -> Result<Tables, Refusal> {
        let bare = Tables {
            references: Seq::empty(),
            sections: Seq::empty(),
            fts: Seq::empty(),
            ..self
        };
        match run(
            bare,
            rebuilt.len() as int,
            |t: Tables, i: int| t.take_rebuilt(rebuilt[i]),
        ) {
            Err(e) => Err(e),
            Ok(t) => t.insert_references(preserved(self), preserved(self).len() as int),
        }
    }
}

impl SqliteStore {
    /// Takes over what was derived anew from one node; on failure the tables are
    /// left part-way.
    fn take_rebuilt(&mut self, rebuilt: &RebuiltNode) -> (result: Result<(), StoreError>)
        requires
            unique_ids(old(self)@.nodes),
        ensures
            match old(self)@.take_rebuilt(*rebuilt) {
                Ok(t) => result is Ok && final(self)@ == t && unique_ids(t.nodes),
                Err(e) => result is Err && result->Err_0@ == e,
            },
    {
        let ghost before = self@;
        match find(&self.nodes, rebuilt.node_id) {
            Some(i) => {
                let mut node = self.nodes[i].copy();
                node.content_hash = rebuilt.derived.content_hash;
                proof {
                    crate::shape::lemma_rewrite(self@.nodes, i as int, node);
                }
                self.nodes.set(i, node);
            },
            None => {},
        }
        proof {
            let mid = Tables {
                nodes: rehashed(before.nodes, rebuilt.node_id, rebuilt.derived.content_hash),
                ..before
            };
            assert(self@ == mid);
            if mid.replace_derived(rebuilt.node_id, rebuilt.derived) is Ok {
                crate::reorder::lemma_derived_nodes(mid, rebuilt.node_id, rebuilt.derived);
            }
        }
        self.replace_derived(rebuilt.node_id, &rebuilt.derived)
    }

    /// Rebuilds sections, extracted references, hashes, and FTS from what was
    /// derived anew from canonical nodes.
    pub fn rebuild_derived(&mut self, rebuilt: &Vec<RebuiltNode>) -> (result: Result<
        (),
        StoreError,
    >)
        requires
            unique_ids(old(self)@.nodes),
        ensures
            match old(self)@.rebuild(rebuilt@) {
                Ok(t) => result is Ok && final(self)@ == t.advanced(),
                Err(e) => result is Err && result->Err_0@ == e && final(self)@ == old(self)@,
            },
    {
        let ghost table = self@.references;
        let ghost keep = |r: RowView| is_preserved(r);
        let ghost mut rows: Seq<RowView> = Seq::empty();
        let mut kept: Vec<Reference> = Vec::new();
        let mut i: usize = 0;
        assert(table.take(0).filter(keep) =~= Seq::<RowView>::empty()) by {
            reveal(Seq::filter);
        }
        while i < self.references.len()
            invariant
                i <= self.references.len(),
                table == self@.references,
                *self == *old(self),
                keep == (|r: RowView| is_preserved(r)),
                rows == table.take(i as int).filter(keep),
                kept.len() == rows.len(),
                forall|k: int|
                    0 <= k < kept.len() ==> (#[trigger] kept@[k])@ == unsectioned(rows[k].reference),
            decreases self.references.len() - i,
        {
            proof {
                lemma_filter_step(table, keep, i as int);
            }
            let reference = &self.references[i].reference;
            assert(table[i as int].reference == reference@);
            if !(reference.origin == ReferenceOrigin::Markdown || reference.origin
                == ReferenceOrigin::Wikilink) {
                let mut copy = reference.copy();
                copy.source_section_id = None;
                kept.push(copy);
                proof {
                    rows = rows.push(table[i as int]);
                }
            }
            i = i + 1;
        }
        assert(table.take(table.len() as int) =~= table);
        assert(reference_views(kept@) =~= preserved(self@));
        let mut next = self.copy();
        next.references = Vec::new();
        next.sections = Vec::new();
        next.fts = Vec::new();
        let ghost bare = Tables {
            references: Seq::empty(),
            sections: Seq::empty(),
            fts: Seq::empty(),
            ..self@
        };
        assert(next@.references =~= bare.references);
        assert(next@.sections =~= bare.sections);
        assert(next@.fts =~= bare.fts);
        let ghost step = |t: Tables, i: int| t.take_rebuilt(rebuilt@[i]);
        let mut j: usize = 0;
        while j < rebuilt.len()
            invariant
                j <= rebuilt.len(),
                *self == *old(self),
                bare == (Tables {
                    references: Seq::empty(),
                    sections: Seq::empty(),
                    fts: Seq::empty(),
                    ..self@
                }),
                step == (|t: Tables, i: int| t.take_rebuilt(rebuilt@[i])),
                unique_ids(next@.nodes),
                run(bare, j as int, step) == Ok::<Tables, Refusal>(next@),
            decreases rebuilt.len() - j,
        {
            proof {
                assert(run(bare, j + 1, step) == next@.take_rebuilt(rebuilt@[j as int]));
                if next@.take_rebuilt(rebuilt@[j as int]) is Err {
                    lemma_run_refused(bare, j + 1, rebuilt@.len() as int, step);
                }
            }
            match next.take_rebuilt(&rebuilt[j]) {
                Ok(_) => {},
                Err(e) => {
                    return Err(e);
                },
            }
            j = j + 1;
        }
        match next.insert_references(&kept) {
            Ok(_) => {},
            Err(e) => {
                return Err(e);
            },
        }
        next.advance();
        *self = next;
        Ok(())
    }
}

} // verus!
