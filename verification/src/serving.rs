//! Starting a session: options, workspace names and order, the address that is
//! advertised, and the root that is served.

use crate::listing::{arranges, lemma_arranged_lists, lists, picks};
use crate::lookup::SelectorText;
use crate::model::{Node, NodeId, Refusal};
use crate::order::{lemma_lex_irreflexive, lex_lt, sorted_positions};
use crate::reads::{resolved, root_of};
use crate::tables::SqliteStore;
use crate::text::{
    ascii_lower, chars_of, code_points, decimal, digit, find_char, index_of_char, lowered,
    push_decimal, text_range, to_code_points,
};
use crate::tree::unique_ids;
use crate::words::{is_whitespace, lowercase, to_lowercase, whitespace};
use crate::diagnostics::texts;
use vstd::prelude::*;

verus! {

/// Options controlling one session.
#[derive(Debug)]
pub struct BrowseUiOptions {
    /// Optional subtree root selected by ID, slug, or path. Only meaningful when
    /// exactly one workspace is being served.
    pub selector: Option<String>,
    /// Open the session URL in the operating system's default browser.
    pub open_browser: bool,
    /// TCP port to bind. Port 0 asks the operating system to choose one.
    pub port: u16,
}

impl Default for BrowseUiOptions {
    fn default() -> (options: BrowseUiOptions)
        ensures
            options.selector is None,
            !options.open_browser,
            options.port == 0,
    {
        BrowseUiOptions { selector: None, open_browser: false, port: 0 }
    }
}

/// One workspace database to open, with an optional display name overriding the
/// one derived from its file path.
#[derive(Debug)]
pub struct WorkspaceSource {
    /// Workspace database path.
    pub path: String,
    /// Explicit display name.
    pub name: Option<String>,
}

/// Whether a file stem says nothing about the workspace.
pub open spec fn is_generic(stem: Seq<char>) -> bool {
    stem.len() == 0 || stem[0] == '.' || lowered(stem) == "mdtree"@
}

/// The display name derived from a path: the file's own stem, unless that is
/// generic; then the name of the containing directory, if there is one.
pub open spec fn derived_name(stem: Seq<char>, parent: Option<Seq<char>>, path: Seq<char>) -> Seq<
    char,
> {
    if is_generic(stem) && parent is Some && parent->0.len() > 0 {
        parent->0
    } else if stem.len() == 0 {
        path
    } else {
        stem
    }
}

/// Derives the display name of a workspace from the parts of its path.
pub fn default_workspace_name(stem: &str, parent: &Option<String>, path: &str) -> (name: String)
    ensures
        name@ == derived_name(stem@, crate::text::text_of(*parent), path@),
{
    let chars = chars_of(stem);
    let lower = ascii_lower(stem);
    let generic: bool = chars.len() == 0 || chars[0] == '.' || lower == "mdtree".to_owned();
    if generic {
        match parent {
            Some(directory) => {
                if chars_of(directory.as_str()).len() > 0 {
                    return directory.clone();
                }
            },
            None => {},
        }
    }
    if chars.len() == 0 {
        path.to_owned()
    } else {
        stem.to_owned()
    }
}

/// A key followed by a separator that is below all of its parts.
pub open spec fn closed(key: Seq<u128>) -> Seq<u128> {
    Seq::new(key.len() + 1, |i: int| if i < key.len() {
            (key[i] + 1) as u128
        } else {
            0u128
        })
}

/// The order of workspaces in the switcher: by name, letter case aside, then by
/// name, then as they came.
pub open spec fn name_key(names: Seq<Seq<char>>, i: int) -> Seq<u128> {
    closed(code_points(lowercase(names[i]))) + (closed(code_points(names[i])) + seq![i as u128])
}

/// Whether the positions name all workspaces in switcher order.
pub open spec fn orders_names(names: Seq<Seq<char>>, order: Seq<usize>) -> bool {
    lists(
        Seq::new(names.len(), |i: int| i as usize),
        |i: usize| true,
        |i: usize| name_key(names, i as int),
        order,
    )
}

proof fn lemma_code_bound(c: char)
    ensures
        (c as u32 as u128) < 0x1_0000_0000,
{
}

proof fn lemma_closed_skip(a: Seq<u128>, t: Seq<u128>)
    requires
        a.len() > 0,
    ensures
        (closed(a) + t).skip(1) == closed(a.skip(1)) + t,
        (closed(a) + t)[0] == (a[0] + 1) as u128,
{
    assert((closed(a) + t).skip(1) =~= closed(a.skip(1)) + t);
}

proof fn lemma_closed_end(a: Seq<u128>, t: Seq<u128>)
    requires
        a.len() == 0,
    ensures
        (closed(a) + t)[0] == 0,
        (closed(a) + t).skip(1) == t,
{
    assert((closed(a) + t).skip(1) =~= t);
}

proof fn lemma_same_rest(a: Seq<u128>, b: Seq<u128>)
    requires
        a.len() > 0,
        b.len() > 0,
        a[0] == b[0],
        a.skip(1) == b.skip(1),
    ensures
        a == b,
{
    assert(a.len() == a.skip(1).len() + 1 && b.len() == b.skip(1).len() + 1);
    assert forall|i: int| 0 <= i < a.len() implies a[i] == b[i] by {
        if i > 0 {
            assert(a[i] == a.skip(1)[i - 1] && b[i] == b.skip(1)[i - 1]);
        }
    }
    assert(a =~= b);
}

/// Closed keys compare first by what they close, then by what follows.
pub proof fn lemma_closed_order(a: Seq<u128>, b: Seq<u128>, t: Seq<u128>, u: Seq<u128>)
    requires
        forall|i: int| 0 <= i < a.len() ==> #[trigger] a[i] < 0x1_0000_0000,
        forall|i: int| 0 <= i < b.len() ==> #[trigger] b[i] < 0x1_0000_0000,
    ensures
        lex_lt(closed(a) + t, closed(b) + u) <==> lex_lt(a, b) || (a == b && lex_lt(t, u)),
    decreases a.len(),
{
    if a.len() > 0 {
        lemma_closed_skip(a, t);
    } else {
        lemma_closed_end(a, t);
    }
    if b.len() > 0 {
        lemma_closed_skip(b, u);
    } else {
        lemma_closed_end(b, u);
    }
    if a.len() > 0 && b.len() > 0 {
        lemma_closed_order(a.skip(1), b.skip(1), t, u);
        if a[0] == b[0] {
            if a.skip(1) == b.skip(1) {
                lemma_same_rest(a, b);
            }
        }
    } else if a.len() == 0 && b.len() == 0 {
        assert(a =~= b);
    }
}

/// The switcher lists workspaces alphabetically by name with letter case aside; of
/// names that differ only in letter case, the one with the lower code points comes
/// first; equal names keep their order.
pub proof fn law_switcher_order(names: Seq<Seq<char>>, i: int, j: int)
    requires
        0 <= i < names.len() <= usize::MAX,
        0 <= j < names.len(),
    ensures
        ({
            let a = code_points(lowercase(names[i]));
            let b = code_points(lowercase(names[j]));
            let c = code_points(names[i]);
            let d = code_points(names[j]);
            lex_lt(name_key(names, i), name_key(names, j)) <==> lex_lt(a, b) || (a == b && (lex_lt(
                c,
                d,
            ) || (c == d && i < j)))
        }),
{
    let a = code_points(lowercase(names[i]));
    let b = code_points(lowercase(names[j]));
    let c = code_points(names[i]);
    let d = code_points(names[j]);
    lemma_code_points_bounded(lowercase(names[i]));
    lemma_code_points_bounded(lowercase(names[j]));
    lemma_code_points_bounded(names[i]);
    lemma_code_points_bounded(names[j]);
    let t = seq![i as u128];
    let u = seq![j as u128];
    lemma_closed_order(a, b, closed(c) + t, closed(d) + u);
    lemma_closed_order(c, d, t, u);
    assert(t.skip(1) =~= Seq::empty() && u.skip(1) =~= Seq::empty());
    lemma_lex_irreflexive(Seq::empty());
    assert(lex_lt(t, u) <==> i < j);
}

pub proof fn lemma_code_points_bounded(text: Seq<char>)
    ensures
        forall|i: int| 0 <= i < code_points(text).len() ==> #[trigger] code_points(text)[i]
            < 0x1_0000_0000,
{
    assert forall|i: int| 0 <= i < code_points(text).len() implies #[trigger] code_points(text)[i]
        < 0x1_0000_0000 by {
        lemma_code_bound(text[i]);
    }
}

fn push_closed(key: &mut Vec<u128>, points: &Vec<u128>)
    requires
        forall|i: int| 0 <= i < points@.len() ==> #[trigger] points@[i] < 0x1_0000_0000,
    ensures
        final(key)@ == old(key)@ + closed(points@),
{
    let ghost before = key@;
    let mut i: usize = 0;
    while i < points.len()
        invariant
            i <= points.len(),
            forall|k: int| 0 <= k < points@.len() ==> #[trigger] points@[k] < 0x1_0000_0000,
            key@ =~= before + closed(points@).take(i as int),
        decreases points.len() - i,
    {
        key.push(points[i] + 1);
        i = i + 1;
    }
    key.push(0);
    assert(key@ =~= before + closed(points@));
}

/// Orders workspaces for the switcher: alphabetically by display name.
pub fn workspace_order(names: &Vec<String>) -> (order: Vec<usize>)
    ensures
        orders_names(texts(names@), order@),
{
    let ghost views = texts(names@);
    let ghost rows = Seq::new(views.len(), |i: int| i as usize);
    let ghost pred = |i: usize| true;
    let ghost key = |i: usize| name_key(views, i as int);
    let mut picked: Vec<usize> = Vec::new();
    let mut keys: Vec<Vec<u128>> = Vec::new();
    let mut i: usize = 0;
    while i < names.len()
        invariant
            i <= names.len(),
            views == texts(names@),
            key == (|i: usize| name_key(views, i as int)),
            keys.len() == i,
            picked.len() == i,
            forall|k: int| 0 <= k < i ==> #[trigger] picked@[k] == k,
            forall|k: int| 0 <= k < i ==> (#[trigger] keys@[k])@ == key(k as usize),
        decreases names.len() - i,
    {
        assert(views[i as int] == names@[i as int]@);
        let lower = to_lowercase(names[i].as_str());
        let folded = to_code_points(lower.as_str());
        let points = to_code_points(names[i].as_str());
        proof {
            lemma_code_points_bounded(lower@);
            lemma_code_points_bounded(names@[i as int]@);
        }
        let mut k: Vec<u128> = Vec::new();
        push_closed(&mut k, &folded);
        push_closed(&mut k, &points);
        k.push(i as u128);
        assert(k@ =~= key(i));
        keys.push(k);
        picked.push(i);
        i = i + 1;
    }
    let order = sorted_positions(&keys);
    let ghost listed = order@;
    proof {
        assert forall|k: int, l: int|
            0 <= k < picked.len() && 0 <= l < picked.len() && k != l implies key(
            rows[#[trigger] picked@[k] as int],
        ) != key(rows[#[trigger] picked@[l] as int]) by {
            assert(rows[k] == k as usize && rows[l] == l as usize);
            assert(key(rows[k]).last() == k as u128);
            assert(key(rows[l]).last() == l as u128);
        }
        assert forall|i: int|
            #![trigger rows[i]]
            0 <= i < rows.len() implies picked@.contains(i as usize) by {
            assert(picked@[i] == i);
        }
        assert(picks(rows, pred, picked@));
        assert forall|i: int| 0 <= i < order@.len() implies #[trigger] listed[i]
            == rows[picked@[order@[i] as int] as int] by {
            assert(picked@[order@[i] as int] == order@[i]);
        }
        assert forall|k: int| 0 <= k < keys@.len() implies (#[trigger] keys@[k])@ == key(
            rows[picked@[k] as int],
        ) by {
            assert(rows[k] == k as usize);
            assert(picked@[k] == k);
        }
        assert(arranges(rows, picked@, keys@, order@, listed));
        lemma_arranged_lists(rows, pred, key, picked@, keys@, order@, listed);
    }
    order
}

/// An address of version 4 of the Internet Protocol.
#[derive(Clone, Copy, Debug, PartialEq, Eq, Structural)]
pub struct Ipv4Address {
    pub a: u8,
    pub b: u8,
    pub c: u8,
    pub d: u8,
}

impl Ipv4Address {
    /// Four decimal numerals with dots between them.
    pub open spec fn text(self) -> Seq<char> {
        decimal(self.a as nat).push('.') + decimal(self.b as nat).push('.') + decimal(
            self.c as nat,
        ).push('.') + decimal(self.d as nat)
    }

    pub fn new(a: u8, b: u8, c: u8, d: u8) -> (address: Ipv4Address)
        ensures
            address == (Ipv4Address { a, b, c, d }),
    {
        Ipv4Address { a, b, c, d }
    }

    /// The address of the machine itself.
    pub fn localhost() -> (address: Ipv4Address)
        ensures
            address == (Ipv4Address { a: 127, b: 0, c: 0, d: 1 }),
    {
        Ipv4Address { a: 127, b: 0, c: 0, d: 1 }
    }

    /// Writes the address.
    pub fn to_text(&self) -> (text: String)
        ensures
            text@ == self.text(),
    {
        let mut text = String::new();
        push_decimal(&mut text, self.a as u64);
        text.push('.');
        push_decimal(&mut text, self.b as u64);
        text.push('.');
        push_decimal(&mut text, self.c as u64);
        text.push('.');
        push_decimal(&mut text, self.d as u64);
        assert(text@ =~= self.text());
        text
    }
}

/// Whether an address can be told to others: it is neither unspecified nor a
/// loopback address.
pub open spec fn is_advertisable(address: Ipv4Address) -> bool {
    address != (Ipv4Address { a: 0, b: 0, c: 0, d: 0 }) && address.a != 127
}

/// Decides whether an address can be told to others.
pub fn is_advertisable_ipv4(address: Ipv4Address) -> (yes: bool)
    ensures
        yes == is_advertisable(address),
{
    !(address.a == 0 && address.b == 0 && address.c == 0 && address.d == 0) && address.a != 127
}

/// The URL of a session.
pub fn session_url(address: Ipv4Address, port: u16) -> (url: String)
    ensures
        url@ == "http://"@ + address.text() + ":"@ + decimal(port as nat),
{
    let mut url = "http://".to_owned();
    let host = address.to_text();
    url.push_str(host.as_str());
    url.push_str(":");
    push_decimal(&mut url, port as u64);
    url
}

/// The text that `String::from_utf8_lossy` makes of bytes.
pub uninterp spec fn utf8_lossy(bytes: Seq<u8>) -> Seq<char>;

/// `String::from_utf8_lossy` depends on the bytes alone.
#[verifier::external_body]
fn lossy_text(bytes: &[u8]) -> (text: String)
    ensures
        text@ == utf8_lossy(bytes@),
{
    String::from_utf8_lossy(bytes).into_owned()
}

/// First position from `i` on that holds white space, or the end.
pub open spec fn field_end(text: Seq<char>, i: int) -> int
    decreases text.len() - i,
{
    if i < text.len() && !whitespace(text[i]) {
        field_end(text, i + 1)
    } else {
        i
    }
}

/// The fields of a text from `i` on: the longest runs without white space.
pub open spec fn fields_from(text: Seq<char>, i: int) -> Seq<Seq<char>>
    decreases text.len() - i,
    when 0 <= i
    via fields_decrease
{
    if i >= text.len() {
        Seq::empty()
    } else if whitespace(text[i]) {
        fields_from(text, i + 1)
    } else {
        seq![text.subrange(i, field_end(text, i))] + fields_from(text, field_end(text, i))
    }
}

#[via_fn]
proof fn fields_decrease(text: Seq<char>, i: int) {
    if i < text.len() && !whitespace(text[i]) {
        lemma_field_end(text, i + 1);
    }
}

proof fn lemma_field_end(text: Seq<char>, i: int)
    requires
        0 <= i <= text.len(),
    ensures
        i <= field_end(text, i) <= text.len(),
    decreases text.len() - i,
{
    if i < text.len() && !whitespace(text[i]) {
        lemma_field_end(text, i + 1);
    }
}

/// Splits a text at white space.
pub fn split_fields(text: &str) -> (fields: Vec<String>)
    ensures
        texts(fields@) == fields_from(text@, 0),
{
    let chars = chars_of(text);
    let mut fields: Vec<String> = Vec::new();
    let mut i: usize = 0;
    assert(texts(fields@) + fields_from(chars@, 0) =~= fields_from(text@, 0));
    while i < chars.len()
        invariant
            i <= chars.len(),
            chars@ == text@,
            texts(fields@) + fields_from(chars@, i as int) == fields_from(text@, 0),
        decreases chars.len() - i,
    {
        if is_whitespace(chars[i]) {
            i = i + 1;
        } else {
            let start: usize = i;
            i = i + 1;
            while i < chars.len() && !is_whitespace(chars[i])
                invariant
                    start < i <= chars.len(),
                    !whitespace(chars@[start as int]),
                    field_end(chars@, start as int) == field_end(chars@, i as int),
                decreases chars.len() - i,
            {
                i = i + 1;
            }
            let ghost before = texts(fields@);
            fields.push(text_range(&chars, start, i));
            proof {
                let field = chars@.subrange(start as int, i as int);
                assert(field_end(chars@, start as int) == i);
                assert(texts(fields@) =~= before.push(field));
                assert(before + (seq![field] + fields_from(chars@, i as int)) =~= before.push(field)
                    + fields_from(chars@, i as int));
            }
        }
    }
    assert(texts(fields@) + fields_from(chars@, i as int) =~= texts(fields@));
    fields
}

/// The part of a field before its first slash.
pub open spec fn before_slash(field: Seq<char>) -> Seq<char> {
    match index_of_char(field, '/', 0) {
        Some(i) => field.take(i),
        None => field,
    }
}

/// The address that a text writes, if any.
pub open spec fn read_ipv4(text: Seq<char>) -> Option<Ipv4Address> {
    if exists|address: Ipv4Address| #[trigger] address.text() == text {
        Some(choose|address: Ipv4Address| #[trigger] address.text() == text)
    } else {
        None
    }
}

/// The first address among the fields from `i` on, each taken before its slash.
pub open spec fn first_address(fields: Seq<Seq<char>>, i: int) -> Option<Ipv4Address>
    decreases fields.len() - i,
{
    if i >= fields.len() {
        None
    } else {
        match read_ipv4(before_slash(fields[i])) {
            Some(address) => Some(address),
            None => first_address(fields, i + 1),
        }
    }
}

/// The value of a decimal digit.
fn digit_value(c: char) -> (value: Option<u8>)
    ensures
        match value {
            Some(v) => v < 10 && c == digit(v as nat),
            None => forall|v: nat| v < 10 ==> c != #[trigger] digit(v),
        },
{
    if '0' <= c && c <= '9' {
        let v: u8 = c as u8 - 48;
        Some(v)
    } else {
        None
    }
}

/// Different digits are written differently, and none as a dot.
proof fn lemma_digit(v: nat, w: nat)
    requires
        v < 10,
        w < 10,
    ensures
        digit(v) == digit(w) ==> v == w,
        digit(v) != '.',
{
}

/// The digits of a small numeral.
proof fn lemma_small_decimal(v: nat)
    requires
        v < 256,
    ensures
        v < 10 ==> decimal(v) == seq![digit(v)],
        10 <= v < 100 ==> decimal(v) == seq![digit(v / 10), digit(v % 10)],
        100 <= v ==> decimal(v) == seq![digit(v / 100), digit((v / 10) % 10), digit(v % 10)],
{
    reveal_with_fuel(decimal, 4);
    if 10 <= v < 100 {
        assert(decimal(v) =~= seq![digit(v / 10), digit(v % 10)]);
    }
    if 100 <= v {
        assert((v / 10) / 10 == v / 100);
        assert(decimal(v) =~= seq![digit(v / 100), digit((v / 10) % 10), digit(v % 10)]);
    }
}

/// Small numbers are written differently, and none with a dot.
proof fn lemma_decimal_distinct(v: nat, w: nat)
    requires
        v < 256,
        w < 256,
    ensures
        decimal(v) == decimal(w) ==> v == w,
        forall|i: int| 0 <= i < decimal(v).len() ==> #[trigger] decimal(v)[i] != '.',
        0 < decimal(v).len() <= 3,
{
    lemma_small_decimal(v);
    lemma_small_decimal(w);
    lemma_digit(v % 10, w % 10);
    lemma_digit((v / 10) % 10, (w / 10) % 10);
    lemma_digit((v / 100) % 10, (w / 100) % 10);
    if decimal(v) == decimal(w) {
        assert(decimal(v).len() == decimal(w).len());
        if v < 10 {
            assert(decimal(v)[0] == decimal(w)[0]);
        } else if v < 100 {
            assert(decimal(v)[0] == decimal(w)[0] && decimal(v)[1] == decimal(w)[1]);
        } else {
            assert(decimal(v)[0] == decimal(w)[0] && decimal(v)[1] == decimal(w)[1] && decimal(v)[2]
                == decimal(w)[2]);
        }
    }
}

proof fn lemma_leading_zero(part: Seq<char>, v: nat)
    requires
        v < 256,
        part.len() > 1,
        part[0] == digit(0),
    ensures
        part != decimal(v),
{
    lemma_small_decimal(v);
    if part == decimal(v) {
        if v >= 100 {
            assert(part[0] == digit(v / 100));
            lemma_digit(0, v / 100);
        } else {
            assert(v >= 10);
            assert(part[0] == digit(v / 10));
            lemma_digit(0, v / 10);
        }
    }
}

proof fn lemma_no_digit(part: Seq<char>, i: int, v: nat)
    requires
        v < 256,
        0 <= i < part.len(),
        forall|d: nat| d < 10 ==> part[i] != #[trigger] digit(d),
    ensures
        part != decimal(v),
{
    lemma_small_decimal(v);
    if part == decimal(v) {
        let d = if v < 10 {
            v
        } else if v < 100 {
            if i == 0 {
                v / 10
            } else {
                v % 10
            }
        } else if i == 0 {
            v / 100
        } else if i == 1 {
            (v / 10) % 10
        } else {
            v % 10
        };
        assert(part[i] == digit(d));
    }
}

proof fn lemma_three_digits(part: Seq<char>, digits: Seq<nat>, v: nat)
    requires
        v < 256,
        part.len() == 3,
        digits.len() == 3,
        forall|k: int| 0 <= k < digits.len() ==> #[trigger] digits[k] < 10 && part[k] == digit(
            digits[k],
        ),
        digits[0] * 100 + digits[1] * 10 + digits[2] > 255,
    ensures
        part != decimal(v),
{
    lemma_small_decimal(v);
    if part == decimal(v) {
        assert(v >= 100);
        assert(part[0] == digit(v / 100));
        assert(part[1] == digit((v / 10) % 10));
        assert(part[2] == digit(v % 10));
        lemma_digit(digits[0], v / 100);
        lemma_digit(digits[1], (v / 10) % 10);
        lemma_digit(digits[2], v % 10);
        assert(v == (v / 100) * 100 + ((v / 10) % 10) * 10 + v % 10);
    }
}

/// The value of a decimal numeral without leading zeros, up to 255.
fn read_octet(chars: &Vec<char>, from: usize, to: usize) -> (value: Option<u8>)
    requires
        from <= to <= chars.len(),
    ensures
        match value {
            Some(v) => chars@.subrange(from as int, to as int) == decimal(v as nat),
            None => forall|v: u8|
                #![trigger decimal(v as nat)]
                chars@.subrange(from as int, to as int) != decimal(v as nat),
        },
{
    let ghost part = chars@.subrange(from as int, to as int);
    let n: usize = to - from;
    if n == 0 || n > 3 {
        proof {
            assert forall|v: u8|
                #![trigger decimal(v as nat)]
                part != decimal(v as nat) by {
                lemma_decimal_distinct(v as nat, v as nat);
            }
        }
        return None;
    }
    let mut value: u32 = 0;
    let mut i: usize = 0;
    let ghost mut digits: Seq<nat> = Seq::empty();
    while i < n
        invariant
            i <= n <= 3,
            from + n == to <= chars.len(),
            part == chars@.subrange(from as int, to as int),
            digits.len() == i,
            forall|k: int|
                0 <= k < i ==> #[trigger] digits[k] < 10 && part[k] == digit(digits[k]),
            i == 0 ==> value == 0,
            i == 1 ==> value == digits[0],
            i == 2 ==> value == digits[0] * 10 + digits[1],
            i == 3 ==> value == digits[0] * 100 + digits[1] * 10 + digits[2],
            i > 0 && n > 1 ==> digits[0] != 0,
            value < 1000,
        decreases n - i,
    {
        assert(part[i as int] == chars@[from + i]);
        match digit_value(chars[from + i]) {
            Some(d) => {
                if d == 0 && i == 0 && n > 1 {
                    proof {
                        assert forall|v: u8|
                            #![trigger decimal(v as nat)]
                            part != decimal(v as nat) by {
                            lemma_leading_zero(part, v as nat);
                        }
                    }
                    return None;
                }
                proof {
                    digits = digits.push(d as nat);
                }
                assert(i == 0 ==> value == 0);
                value = value * 10 + d as u32;
            },
            None => {
                proof {
                    assert forall|v: u8|
                        #![trigger decimal(v as nat)]
                        part != decimal(v as nat) by {
                        lemma_no_digit(part, i as int, v as nat);
                    }
                }
                return None;
            },
        }
        i = i + 1;
    }
    if value > 255 {
        proof {
            assert forall|v: u8|
                #![trigger decimal(v as nat)]
                part != decimal(v as nat) by {
                lemma_three_digits(part, digits, v as nat);
            }
        }
        return None;
    }
    proof {
        lemma_small_decimal(value as nat);
        assert(part =~= decimal(value as nat));
    }
    Some(value as u8)
}

/// The first dot of a text stands behind the characters that are none.
proof fn lemma_first_dot(text: Seq<char>, from: int, at: int)
    requires
        0 <= from <= at < text.len(),
        text[at] == '.',
        forall|i: int| from <= i < at ==> text[i] != '.',
    ensures
        index_of_char(text, '.', from) == Some(at),
    decreases at - from,
{
    if from < at {
        lemma_first_dot(text, from + 1, at);
    }
}

/// Where the dots and numerals of a written address stand.
proof fn lemma_address_parts(address: Ipv4Address)
    ensures
        ({
            let text = address.text();
            let p = decimal(address.a as nat).len() as int;
            let q = p + 1 + decimal(address.b as nat).len();
            let r = q + 1 + decimal(address.c as nat).len();
            &&& index_of_char(text, '.', 0) == Some(p)
            &&& index_of_char(text, '.', p + 1) == Some(q)
            &&& index_of_char(text, '.', q + 1) == Some(r)
            &&& r < text.len()
            &&& text.subrange(0, p) == decimal(address.a as nat)
            &&& text.subrange(p + 1, q) == decimal(address.b as nat)
            &&& text.subrange(q + 1, r) == decimal(address.c as nat)
            &&& text.subrange(r + 1, text.len() as int) == decimal(address.d as nat)
        }),
{
    let text = address.text();
    let a = decimal(address.a as nat);
    let b = decimal(address.b as nat);
    let c = decimal(address.c as nat);
    let d = decimal(address.d as nat);
    let p = a.len() as int;
    let q = p + 1 + b.len();
    let r = q + 1 + c.len();
    lemma_decimal_distinct(address.a as nat, 0);
    lemma_decimal_distinct(address.b as nat, 0);
    lemma_decimal_distinct(address.c as nat, 0);
    lemma_decimal_distinct(address.d as nat, 0);
    assert(text.subrange(0, p) =~= a);
    assert(text.subrange(p + 1, q) =~= b);
    assert(text.subrange(q + 1, r) =~= c);
    assert(text.subrange(r + 1, text.len() as int) =~= d);
    assert forall|i: int| 0 <= i < p implies text[i] != '.' by {
        assert(text[i] == a[i]);
    }
    assert forall|i: int| p + 1 <= i < q implies text[i] != '.' by {
        assert(text[i] == b[i - p - 1]);
    }
    assert forall|i: int| q + 1 <= i < r implies text[i] != '.' by {
        assert(text[i] == c[i - q - 1]);
    }
    assert(text[p] == '.' && text[q] == '.' && text[r] == '.');
    lemma_first_dot(text, 0, p);
    lemma_first_dot(text, p + 1, q);
    lemma_first_dot(text, q + 1, r);
}

/// Different addresses are written differently.
pub proof fn law_address_text_is_injective(x: Ipv4Address, y: Ipv4Address)
    requires
        x.text() == y.text(),
    ensures
        x == y,
{
    lemma_address_parts(x);
    lemma_address_parts(y);
    lemma_decimal_distinct(x.a as nat, y.a as nat);
    lemma_decimal_distinct(x.b as nat, y.b as nat);
    lemma_decimal_distinct(x.c as nat, y.c as nat);
    lemma_decimal_distinct(x.d as nat, y.d as nat);
}

/// Reads an address: four decimal numerals up to 255 without leading zeros, with
/// dots between them.
pub fn parse_ipv4(text: &str) -> (address: Option<Ipv4Address>)
    ensures
        address == read_ipv4(text@),
{
    let chars = chars_of(text);
    let parsed = parse_octets(&chars);
    proof {
        match parsed {
            Some(x) => {
                let y = choose|y: Ipv4Address| #[trigger] y.text() == text@;
                assert(x.text() == text@);
                law_address_text_is_injective(x, y);
            },
            None => {},
        }
    }
    parsed
}

fn parse_octets(chars: &Vec<char>) -> (address: Option<Ipv4Address>)
    ensures
        match address {
            Some(x) => x.text() == chars@,
            None => forall|x: Ipv4Address| #[trigger] x.text() != chars@,
        },
{
    proof {
        assert forall|x: Ipv4Address| #[trigger] x.text() == chars@ implies index_of_char(
            chars@,
            '.',
            0,
        ) is Some by {
            lemma_address_parts(x);
        }
    }
    let p: usize = match find_char(chars, '.', 0) {
        Some(p) => p,
        None => {
            return None;
        },
    };
    proof {
        assert forall|x: Ipv4Address| #[trigger] x.text() == chars@ implies index_of_char(
            chars@,
            '.',
            p + 1,
        ) is Some && chars@.subrange(0, p as int) == decimal(x.a as nat) by {
            lemma_address_parts(x);
        }
    }
    let q: usize = match find_char(chars, '.', p + 1) {
        Some(q) => q,
        None => {
            return None;
        },
    };
    proof {
        assert forall|x: Ipv4Address| #[trigger] x.text() == chars@ implies index_of_char(
            chars@,
            '.',
            q + 1,
        ) is Some && chars@.subrange(p + 1, q as int) == decimal(x.b as nat) by {
            lemma_address_parts(x);
        }
    }
    let r: usize = match find_char(chars, '.', q + 1) {
        Some(r) => r,
        None => {
            return None;
        },
    };
    proof {
        assert forall|x: Ipv4Address| #[trigger] x.text() == chars@ implies chars@.subrange(
            q + 1,
            r as int,
        ) == decimal(x.c as nat) && chars@.subrange(r + 1, chars@.len() as int) == decimal(
            x.d as nat,
        ) by {
            lemma_address_parts(x);
        }
    }
    let a = read_octet(chars, 0, p);
    let b = read_octet(chars, p + 1, q);
    let c = read_octet(chars, q + 1, r);
    let d = read_octet(chars, r + 1, chars.len());
    match (a, b, c, d) {
        (Some(a), Some(b), Some(c), Some(d)) => {
            let address = Ipv4Address { a, b, c, d };
            proof {
                lemma_index_of_char(chars@, '.', 0);
                lemma_index_of_char(chars@, '.', p + 1);
                lemma_index_of_char(chars@, '.', q + 1);
                assert(chars@ =~= chars@.subrange(0, p as int).push('.') + chars@.subrange(
                    p + 1,
                    q as int,
                ).push('.') + chars@.subrange(q + 1, r as int).push('.') + chars@.subrange(
                    r + 1,
                    chars@.len() as int,
                ));
            }
            Some(address)
        },
        _ => None,
    }
}

proof fn lemma_index_of_char(text: Seq<char>, c: char, i: int)
    requires
        0 <= i,
    ensures
        index_of_char(text, c, i) matches Some(at) ==> i <= at < text.len() && text[at] == c,
    decreases text.len() - i,
{
    if i < text.len() && text[i] != c {
        lemma_index_of_char(text, c, i + 1);
    }
}

/// Finds the first address in a text of fields.
pub fn find_ipv4(text: &str) -> (address: Option<Ipv4Address>)
    ensures
        address == first_address(fields_from(text@, 0), 0),
{
    let fields = split_fields(text);
    let ghost all = fields_from(text@, 0);
    assert(all.len() == fields@.len());
    let mut i: usize = 0;
    while i < fields.len()
        invariant
            i <= fields.len(),
            all == fields_from(text@, 0),
            texts(fields@) == all,
            all.len() == fields@.len(),
            first_address(all, 0) == first_address(all, i as int),
        decreases fields.len() - i,
    {
        assert(all[i as int] == fields@[i as int]@);
        let chars = chars_of(fields[i].as_str());
        let end: usize = match find_char(&chars, '/', 0) {
            Some(at) => at,
            None => chars.len(),
        };
        let part = text_range(&chars, 0, end);
        assert(part@ =~= before_slash(all[i as int]));
        match parse_ipv4(part.as_str()) {
            Some(address) => {
                return Some(address);
            },
            None => {},
        }
        i = i + 1;
    }
    None
}

/// Finds the first address in the output of a command.
pub fn parse_ipv4_address(output: &[u8]) -> (address: Option<Ipv4Address>)
    ensures
        address == first_address(fields_from(utf8_lossy(output@), 0), 0),
{
    let text = lossy_text(output);
    find_ipv4(text.as_str())
}

/// The names of network interfaces in the output of a command.
fn interface_names(output: &[u8]) -> (names: Vec<String>)
    ensures
        texts(names@) == fields_from(utf8_lossy(output@), 0),
{
    let text = lossy_text(output);
    split_fields(text.as_str())
}

/// Whether an answer is an address that can be told to others.
pub open spec fn is_usable(answer: Option<Ipv4Address>) -> bool {
    answer matches Some(address) && is_advertisable(address)
}

/// Whether the function may answer with this address for the name.
pub open spec fn is_answer<F: Fn(&str) -> Option<Ipv4Address>>(
    address_for: F,
    name: Seq<char>,
    address: Option<Ipv4Address>,
) -> bool {
    exists|n: &str| n@ == name && #[trigger] address_for.ensures((n,), address)
}

/// Whether the interfaces were asked one after the other, as many as there are answers,
/// and none once an answer was usable; that one is the address.
pub open spec fn settles<F: Fn(&str) -> Option<Ipv4Address>>(
    address_for: F,
    names: Seq<Seq<char>>,
    answers: Seq<Option<Ipv4Address>>,
    address: Option<Ipv4Address>,
) -> bool {
    &&& answers.len() <= names.len()
    &&& forall|i: int|
        0 <= i < answers.len() ==> is_answer(address_for, names[i], #[trigger] answers[i])
    &&& match address {
        None => answers.len() == names.len() && forall|i: int|
            0 <= i < answers.len() ==> !is_usable(#[trigger] answers[i]),
        Some(_) => answers.len() > 0 && answers.last() == address && is_usable(answers.last())
            && forall|i: int| 0 <= i < answers.len() - 1 ==> !is_usable(#[trigger] answers[i]),
    }
}

/// The address to advertise: that of the first interface which has one that can be told
/// to others. Interfaces behind it are not asked.
pub fn find_wireguard_ipv4<F: Fn(&str) -> Option<Ipv4Address>>(
    interfaces: &[u8],
    address_for: F,
) -> (address: Option<Ipv4Address>)
    requires
        forall|name: &str| #[trigger] address_for.requires((name,)),
    ensures
        exists|answers: Seq<Option<Ipv4Address>>| #[trigger]
            settles(address_for, fields_from(utf8_lossy(interfaces@), 0), answers, address),
{
    let names = interface_names(interfaces);
    let ghost all = fields_from(utf8_lossy(interfaces@), 0);
    assert(all.len() == names@.len());
    let ghost mut answers: Seq<Option<Ipv4Address>> = Seq::empty();
    let mut i: usize = 0;
    while i < names.len()
        invariant
            i <= names.len(),
            texts(names@) == all,
            all.len() == names@.len(),
            answers.len() == i,
            forall|name: &str| #[trigger] address_for.requires((name,)),
            all == fields_from(utf8_lossy(interfaces@), 0),
            forall|k: int| 0 <= k < i ==> is_answer(address_for, all[k], #[trigger] answers[k]),
            forall|k: int| 0 <= k < i ==> !is_usable(#[trigger] answers[k]),
        decreases names.len() - i,
    {
        let name = names[i].as_str();
        assert(all[i as int] == names@[i as int]@);
        let found = address_for(name);
        assert(is_answer(address_for, all[i as int], found));
        proof {
            answers = answers.push(found);
        }
        match found {
            Some(address) => {
                if is_advertisable_ipv4(address) {
                    assert(settles(address_for, all, answers, found));
                    return found;
                }
            },
            None => {},
        }
        i = i + 1;
    }
    assert(settles(address_for, all, answers, None));
    None
}

/// The selector of a session: it only makes sense for a single workspace.
pub open spec fn root_selector(selector: Option<SelectorText>, workspaces: nat) -> Option<
    SelectorText,
> {
    if workspaces == 1 {
        selector
    } else {
        None
    }
}

/// The root that is served, or why there is none.
pub open spec fn served_root(nodes: Seq<Node>, selector: Option<SelectorText>) -> Result<
    NodeId,
    Seq<char>,
> {
    match selector {
        Some(s) => match s.parsed {
            Err(message) => Err(message@),
            Ok(parsed) => match resolved(nodes, parsed) {
                Ok(Some(node)) => Ok(node.id),
                Ok(None) => Err("node not found: "@ + s.raw@),
                Err(e) => Err(e.message()),
            },
        },
        None => match root_of(nodes) {
            Some(root) => Ok(root.id),
            None => Err(Refusal::NotFound("root"@).message()),
        },
    }
}

impl SqliteStore {
    /// Resolves the root that is served.
    pub fn resolve_root(&self, selector: &Option<SelectorText>, workspaces: usize) -> (result:
        Result<NodeId, String>)
        requires
            unique_ids(self@.nodes),
        ensures
            match served_root(self@.nodes, root_selector(*selector, workspaces as nat)) {
                Ok(id) => result == Ok::<NodeId, String>(id),
                Err(message) => result is Err && result->Err_0@ == message,
            },
    {
        if workspaces == 1 {
            match selector {
                Some(s) => {
                    return match &s.parsed {
                        Err(message) => Err(message.clone()),
                        Ok(parsed) => match self.resolve(parsed) {
                            Ok(Some(node)) => Ok(node.id),
                            Ok(None) => Err(crate::text::joined("node not found: ", s.raw.as_str())),
                            Err(e) => Err(e.message()),
                        },
                    };
                },
                None => {},
            }
        }
        match self.root() {
            Ok(root) => Ok(root.id),
            Err(e) => Err(e.message()),
        }
    }
}

} // verus!
