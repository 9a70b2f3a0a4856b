//! What is settled before a workspace is served: its name, its address, its root, its schema.

use crate::lookup::SelectorText;
use crate::migrations::{newer, Migration};
use crate::model::Node;
use crate::order::lex_lt;
use crate::reads::{resolved, root_of};
use crate::resolution_laws::{lemma_same_letters, same_letters};
use crate::serving::{
    before_slash, derived_name, field_end, fields_from, first_address, is_advertisable,
    orders_names, read_ipv4, root_selector, served_root, Ipv4Address,
};
use crate::text::{code_points, index_of_char, lowered};
use crate::words::{lowercase, whitespace};
use vstd::prelude::*;

verus! {

/// A file name that tells something names the workspace: one that is not empty, not hidden and
/// not the name of the program. Else the directory names it; else the file name, or the path.
pub proof fn law_workspaces_are_named_after_their_file(
    stem: Seq<char>,
    parent: Option<Seq<char>>,
    path: Seq<char>,
)
    ensures
        stem.len() > 0 && stem[0] != '.' && !same_letters(stem, "mdtree"@) ==> derived_name(
            stem,
            parent,
            path,
        ) == stem,
        parent is Some && parent->0.len() > 0 && (stem.len() == 0 || stem[0] == '.'
            || same_letters(stem, "mdtree"@)) ==> derived_name(stem, parent, path) == parent->0,
        (parent is None || parent->0.len() == 0) ==> derived_name(stem, parent, path)
            == if stem.len() == 0 {
            path
        } else {
            stem
        },
{
    reveal_strlit("mdtree");
    lemma_same_letters(stem, "mdtree"@);
    assert(lowered("mdtree"@) =~= "mdtree"@);
}

proof fn lemma_field_end(text: Seq<char>, i: int)
    requires
        0 <= i <= text.len(),
    ensures
        i <= field_end(text, i) <= text.len(),
        forall|k: int| i <= k < field_end(text, i) ==> !whitespace(#[trigger] text[k]),
        field_end(text, i) < text.len() ==> whitespace(text[field_end(text, i)]),
    decreases text.len() - i,
{
    if i < text.len() && !whitespace(text[i]) {
        lemma_field_end(text, i + 1);
    }
}

/// Whether the range holds no white space and ends at white space or the end on both sides.
pub open spec fn is_field(text: Seq<char>, from: int, to: int) -> bool {
    &&& 0 <= from < to <= text.len()
    &&& forall|k: int| from <= k < to ==> !whitespace(#[trigger] text[k])
    &&& from > 0 ==> whitespace(text[from - 1])
    &&& to < text.len() ==> whitespace(text[to])
}

proof fn lemma_fields_from(text: Seq<char>, i: int, w: int)
    requires
        0 <= i <= text.len(),
        i > 0 ==> whitespace(text[i - 1]) || i == text.len() || whitespace(text[i]),
        0 <= w < fields_from(text, i).len(),
    ensures
        exists|from: int, to: int|
            i <= from && #[trigger] is_field(text, from, to) && fields_from(text, i)[w]
                == text.subrange(from, to),
    decreases text.len() - i,
{
    if i < text.len() {
        if whitespace(text[i]) {
            lemma_fields_from(text, i + 1, w);
            let (from, to) = choose|from: int, to: int|
                i + 1 <= from && #[trigger] is_field(text, from, to) && fields_from(text, i + 1)[w]
                    == text.subrange(from, to);
            assert(is_field(text, from, to));
        } else {
            lemma_field_end(text, i);
            lemma_field_end(text, i + 1);
            let e = field_end(text, i);
            let rest = fields_from(text, e);
            assert(fields_from(text, i) == seq![text.subrange(i, e)] + rest);
            if w == 0 {
                assert(is_field(text, i, e));
            } else {
                assert(fields_from(text, i)[w] == rest[w - 1]);
                lemma_fields_from(text, e, w - 1);
                let (from, to) = choose|from: int, to: int|
                    e <= from && #[trigger] is_field(text, from, to) && rest[w - 1]
                        == text.subrange(from, to);
                assert(is_field(text, from, to));
            }
        }
    }
}

proof fn lemma_fields_cover(text: Seq<char>, i: int, from: int, to: int)
    requires
        0 <= i <= from,
        i > 0 ==> whitespace(text[i - 1]) || i == text.len() || whitespace(text[i]),
        is_field(text, from, to),
    ensures
        fields_from(text, i).contains(text.subrange(from, to)),
    decreases text.len() - i,
{
    if whitespace(text[i]) {
        assert(i < from);
        lemma_fields_cover(text, i + 1, from, to);
    } else {
        lemma_field_end(text, i);
        lemma_field_end(text, i + 1);
        let e = field_end(text, i);
        let rest = fields_from(text, e);
        let all = fields_from(text, i);
        assert(all == seq![text.subrange(i, e)] + rest);
        if from == i {
            if to < e {
                assert(!whitespace(text[to]));
            }
            if e < to {
                assert(!whitespace(text[e]));
            }
            assert(all[0] == text.subrange(from, to));
        } else {
            if from < e {
                assert(!whitespace(text[from - 1]));
            }
            lemma_fields_cover(text, e, from, to);
            let k = choose|k: int| 0 <= k < rest.len() && rest[k] == text.subrange(from, to);
            assert(all[k + 1] == text.subrange(from, to));
        }
    }
}

/// The fields of a text are what white space parts: each field is such a range, and each such
/// range is a field.
pub proof fn law_fields_are_parted_by_white_space(text: Seq<char>, w: int, from: int, to: int)
    ensures
        0 <= w < fields_from(text, 0).len() ==> exists|a: int, b: int| #[trigger]
            is_field(text, a, b) && fields_from(text, 0)[w] == text.subrange(a, b),
        is_field(text, from, to) ==> fields_from(text, 0).contains(text.subrange(from, to)),
{
    if 0 <= w < fields_from(text, 0).len() {
        lemma_fields_from(text, 0, w);
        let (a, b) = choose|a: int, b: int|
            0 <= a && #[trigger] is_field(text, a, b) && fields_from(text, 0)[w]
                == text.subrange(a, b);
        assert(is_field(text, a, b));
    }
    if is_field(text, from, to) {
        lemma_fields_cover(text, 0, from, to);
    }
}

/// A prefix length behind a slash is left out.
pub proof fn law_prefix_lengths_are_left_out(address: Seq<char>, rest: Seq<char>)
    requires
        !address.contains('/'),
    ensures
        before_slash(address) == address,
        before_slash(address + seq!['/'] + rest) == address,
{
    let text = address + seq!['/'] + rest;
    let n = address.len() as int;
    crate::resolution_laws::lemma_index_of_char(address, '/', 0);
    crate::resolution_laws::lemma_index_of_char(text, '/', 0);
    if index_of_char(address, '/', 0) is Some {
        let k = index_of_char(address, '/', 0)->0;
        assert(address.contains(address[k]));
    }
    assert(text[n] == '/');
    let k = index_of_char(text, '/', 0)->0;
    if k < n {
        assert(address[k] == text[k]);
        assert(address.contains(address[k]));
    }
    assert(text.take(n) =~= address);
}

/// The first field that is an address, a prefix length aside, is taken.
pub proof fn law_the_first_address_is_taken(fields: Seq<Seq<char>>, i: int, address: Ipv4Address)
    requires
        0 <= i <= fields.len(),
        i < fields.len() ==> before_slash(fields[i]) == address.text(),
        forall|k: int, a: Ipv4Address|
            0 <= k < i ==> before_slash(#[trigger] fields[k]) != #[trigger] a.text(),
    ensures
        first_address(fields, 0) == if i < fields.len() {
            Some(address)
        } else {
            None
        },
{
    lemma_first_address(fields, 0, i, address);
}

proof fn lemma_first_address(fields: Seq<Seq<char>>, from: int, i: int, address: Ipv4Address)
    requires
        0 <= from <= i <= fields.len(),
        i < fields.len() ==> before_slash(fields[i]) == address.text(),
        forall|k: int, a: Ipv4Address|
            0 <= k < i ==> before_slash(#[trigger] fields[k]) != #[trigger] a.text(),
    ensures
        first_address(fields, from) == if i < fields.len() {
            Some(address)
        } else {
            None
        },
    decreases fields.len() - from,
{
    if from < i {
        let text = before_slash(fields[from]);
        assert(forall|a: Ipv4Address| text != #[trigger] a.text());
        assert(read_ipv4(text) is None);
        lemma_first_address(fields, from + 1, i, address);
    } else if from < fields.len() {
        let text = before_slash(fields[from]);
        let found = choose|a: Ipv4Address| #[trigger] a.text() == text;
        assert(address.text() == text);
        crate::serving::law_address_text_is_injective(found, address);
    }
}

/// An address is advertised unless it is unspecified or a loopback address.
pub proof fn law_loopback_is_not_advertised(address: Ipv4Address)
    ensures
        address.a == 127 ==> !is_advertisable(address),
        address.a == 0 && address.b == 0 && address.c == 0 && address.d == 0 ==> !is_advertisable(
            address,
        ),
        address.a != 127 && address.a != 0 ==> is_advertisable(address),
        address.a == 0 && (address.b != 0 || address.c != 0 || address.d != 0) ==> is_advertisable(
            address,
        ),
{
}

/// The root that is served is the selected node where one workspace is served; with several the
/// selection does not count, and each is served from a node without a parent.
pub proof fn law_the_served_root_is_the_selected_one(
    nodes: Seq<Node>,
    selector: Option<SelectorText>,
    workspaces: nat,
)
    ensures
        workspaces != 1 || selector is None ==> match served_root(
            nodes,
            root_selector(selector, workspaces),
        ) {
            Ok(id) => exists|k: int|
                0 <= k < nodes.len() && (#[trigger] nodes[k]).id == id && nodes[k].parent_id is None,
            Err(_) => forall|k: int|
                0 <= k < nodes.len() ==> (#[trigger] nodes[k]).parent_id is Some,
        },
        workspaces == 1 && selector is Some ==> (served_root(
            nodes,
            root_selector(selector, workspaces),
        ) is Ok <==> match selector->0.parsed {
            Ok(s) => resolved(nodes, s) matches Ok(Some(_)),
            Err(_) => false,
        }),
{
    let pred = |n: Node| n.parent_id is None;
    crate::clone_laws::lemma_found_from(nodes, pred, 0);
    crate::commands::lemma_first_from(nodes, pred, 0);
    if root_of(nodes) is Some {
        let f = crate::reads::first_from(nodes, pred, 0)->0;
        assert(nodes[f].parent_id is None);
    } else {
        assert forall|k: int| 0 <= k < nodes.len() implies (
        #[trigger] nodes[k]).parent_id is Some by {
            assert(!pred(nodes[k]));
        }
    }
}

/// Migrations behind a version.
pub open spec fn is_behind(current: u32) -> spec_fn(Migration) -> bool {
    |m: Migration| m.version > current
}

proof fn lemma_newer(list: Seq<Migration>, current: u32, n: int)
    requires
        0 <= n <= list.len(),
    ensures
        newer(list, current, n) == list.take(n).filter(is_behind(current)),
    decreases n,
{
    reveal(Seq::filter);
    if n > 0 {
        lemma_newer(list, current, n - 1);
        assert(list.take(n).drop_last() =~= list.take(n - 1));
        assert(list.take(n).last() == list[n - 1]);
    }
}

/// The pending migrations are exactly those behind the installed version, in their order.
pub proof fn law_newer_migrations_are_pending(list: Seq<Migration>, current: u32)
    ensures
        newer(list, current, list.len() as int) == list.filter(is_behind(current)),
{
    lemma_newer(list, current, list.len() as int);
    assert(list.take(list.len() as int) =~= list);
}

/// The switcher lists every workspace once, by name with letter case aside, then by the name as
/// it is written, then in the order given.
pub proof fn law_the_switcher_lists_every_workspace(
    names: Seq<Seq<char>>,
    order: Seq<usize>,
    k: int,
    i: int,
    j: int,
)
    requires
        names.len() <= usize::MAX,
        orders_names(names, order),
        0 <= k < names.len(),
    ensures
        order.contains(k as usize),
        0 <= i < j < order.len() ==> {
            let a = names[order[i] as int];
            let b = names[order[j] as int];
            let x = code_points(lowercase(a));
            let y = code_points(lowercase(b));
            &&& order[i] < names.len() && order[j] < names.len()
            &&& lex_lt(x, y) || (x == y && (lex_lt(code_points(a), code_points(b)) || (code_points(a)
                == code_points(b) && order[i] < order[j])))
        },
{
    let rows = Seq::new(names.len(), |i: int| i as usize);
    let pred = |i: usize| true;
    let key = |i: usize| crate::serving::name_key(names, i as int);
    assert(rows[k] == k as usize);
    assert(rows.contains(k as usize));
    assert(pred(k as usize));
    if 0 <= i < j < order.len() {
        assert(order.contains(order[i]) && order.contains(order[j]));
        assert(rows.contains(order[i]) && rows.contains(order[j]));
        let m = choose|m: int| 0 <= m < rows.len() && rows[m] == order[i];
        let p = choose|p: int| 0 <= p < rows.len() && rows[p] == order[j];
        assert(lex_lt(key(order[i]), key(order[j])));
        crate::serving::law_switcher_order(names, order[i] as int, order[j] as int);
    }
}

} // verus!
