//! The search box: qualifiers and free text.
//!
//! Free text matches titles and slugs. Three qualifiers narrow that down:
//! `workspace:` picks the workspaces to search, `slug:` matches only the slug,
//! and `text:` searches the content of sections.

use crate::text::{ascii_lower, chars_of, lowered, text_of, text_range};
use crate::words::{is_whitespace, occurs_at, stands_at, whitespace};
use vstd::prelude::*;

verus! {

/// A keyword of the search box.
#[derive(Clone, Copy, Debug, PartialEq, Eq, Structural)]
pub enum Qualifier {
    Workspace,
    Slug,
    Text,
}

impl Qualifier {
    /// The keyword as it is typed.
    pub open spec fn keyword(self) -> Seq<char> {
        match self {
            Qualifier::Workspace => "workspace:"@,
            Qualifier::Slug => "slug:"@,
            Qualifier::Text => "text:"@,
        }
    }

    /// Spells the keyword.
    pub fn spell(&self) -> (keyword: String)
        ensures
            keyword@ == self.keyword(),
    {
        match *self {
            Qualifier::Workspace => "workspace:".to_owned(),
            Qualifier::Slug => "slug:".to_owned(),
            Qualifier::Text => "text:".to_owned(),
        }
    }
}

proof fn lemma_keyword(q: Qualifier)
    ensures
        q.keyword().len() >= 5,
{
    reveal_strlit("workspace:");
    reveal_strlit("slug:");
    reveal_strlit("text:");
}

/// Whether a character is ASCII white space.
pub open spec fn is_space(c: char) -> bool {
    c == ' ' || c == '\t' || c == '\n' || c == '\r' || c == '\x0c'
}

/// Whether a word can begin at the position.
pub open spec fn begins_word(text: Seq<char>, at: int) -> bool {
    at == 0 || is_space(text[at - 1])
}

/// First position from `i` on at which a word begins with `part`.
pub open spec fn first_word_at(text: Seq<char>, part: Seq<char>, i: int) -> Option<int>
    decreases text.len() - i,
{
    if occurs_at(text, part, i) && begins_word(text, i) {
        Some(i)
    } else if i >= text.len() {
        None
    } else {
        first_word_at(text, part, i + 1)
    }
}

proof fn lemma_first_word_at(text: Seq<char>, part: Seq<char>, i: int)
    requires
        0 <= i,
    ensures
        match first_word_at(text, part, i) {
            Some(at) => {
                &&& i <= at
                &&& occurs_at(text, part, at)
                &&& begins_word(text, at)
                &&& forall|k: int|
                    i <= k < at ==> !(#[trigger] occurs_at(text, part, k) && begins_word(text, k))
            },
            None => forall|k: int|
                i <= k && part.len() > 0 ==> !(#[trigger] occurs_at(text, part, k) && begins_word(
                    text,
                    k,
                )),
        },
    decreases text.len() - i,
{
    if !(occurs_at(text, part, i) && begins_word(text, i)) && i < text.len() {
        lemma_first_word_at(text, part, i + 1);
    }
}

/// The first place from `cursor` on where a word begins with the keyword.
pub open spec fn keyword_at(lower: Seq<char>, q: Qualifier, cursor: int) -> Option<(int, Qualifier)> {
    match first_word_at(lower, q.keyword(), cursor) {
        Some(at) => Some((at, q)),
        None => None,
    }
}

/// The earlier one of two places.
pub open spec fn earlier(
    a: Option<(int, Qualifier)>,
    b: Option<(int, Qualifier)>,
) -> Option<(int, Qualifier)> {
    match (a, b) {
        (Some(x), Some(y)) => if y.0 < x.0 {
            b
        } else {
            a
        },
        (None, _) => b,
        (_, None) => a,
    }
}

/// The next qualifier from `cursor` on.
pub open spec fn next_hit(lower: Seq<char>, cursor: int) -> Option<(int, Qualifier)> {
    earlier(
        earlier(
            keyword_at(lower, Qualifier::Workspace, cursor),
            keyword_at(lower, Qualifier::Slug, cursor),
        ),
        keyword_at(lower, Qualifier::Text, cursor),
    )
}

proof fn lemma_next_hit(lower: Seq<char>, cursor: int)
    requires
        0 <= cursor,
    ensures
        next_hit(lower, cursor) matches Some(h) ==> cursor <= h.0 && occurs_at(
            lower,
            h.1.keyword(),
            h.0,
        ) && begins_word(lower, h.0) && h.1.keyword().len() >= 5,
{
    lemma_first_word_at(lower, Qualifier::Workspace.keyword(), cursor);
    lemma_first_word_at(lower, Qualifier::Slug.keyword(), cursor);
    lemma_first_word_at(lower, Qualifier::Text.keyword(), cursor);
    lemma_keyword(Qualifier::Workspace);
    lemma_keyword(Qualifier::Slug);
    lemma_keyword(Qualifier::Text);
}

/// The qualifiers from `cursor` on, each with its position.
pub open spec fn hits_from(lower: Seq<char>, cursor: int) -> Seq<(int, Qualifier)>
    decreases lower.len() - cursor,
    when 0 <= cursor
    via hits_decrease
{
    match next_hit(lower, cursor) {
        Some(h) => seq![h] + hits_from(lower, h.0 + h.1.keyword().len()),
        None => Seq::empty(),
    }
}

#[via_fn]
proof fn hits_decrease(lower: Seq<char>, cursor: int) {
    lemma_next_hit(lower, cursor);
}

/// The qualifiers of a query, each with its position; letter case aside.
pub open spec fn hits(raw: Seq<char>) -> Seq<(int, Qualifier)> {
    hits_from(lowered(raw), 0)
}

/// First position from `i` on that holds no white space.
pub open spec fn text_start(text: Seq<char>, i: int) -> int
    decreases text.len() - i,
{
    if i < text.len() && whitespace(text[i]) {
        text_start(text, i + 1)
    } else {
        i
    }
}

/// End of the text that stops before `n`, without white space at its end.
pub open spec fn text_end(text: Seq<char>, from: int, n: int) -> int
    decreases n - from,
{
    if n > from && whitespace(text[n - 1]) {
        text_end(text, from, n - 1)
    } else {
        n
    }
}

/// The text without white space at its ends.
pub open spec fn trimmed(text: Seq<char>) -> Seq<char> {
    text.subrange(text_start(text, 0), text_end(text, text_start(text, 0), text.len() as int))
}

/// The text without a pair of quotes around it.
pub open spec fn unquoted(text: Seq<char>) -> Seq<char> {
    if text.len() >= 2 && text[0] == '"' && text.last() == '"' {
        text.subrange(1, text.len() - 1)
    } else {
        text
    }
}

/// Where the value of the `i`-th qualifier ends: at the next one, or at the end.
pub open spec fn value_end(raw: Seq<char>, hits: Seq<(int, Qualifier)>, i: int) -> int {
    if i + 1 < hits.len() {
        hits[i + 1].0
    } else {
        raw.len() as int
    }
}

/// The value of the `i`-th qualifier.
pub open spec fn value_at(raw: Seq<char>, hits: Seq<(int, Qualifier)>, i: int) -> Seq<char> {
    unquoted(
        trimmed(
            raw.subrange(hits[i].0 + hits[i].1.keyword().len(), value_end(raw, hits, i)),
        ),
    )
}

/// The last value given to a qualifier by the first `n` hits; empty ones do not
/// count.
pub open spec fn last_value(
    raw: Seq<char>,
    hits: Seq<(int, Qualifier)>,
    q: Qualifier,
    n: int,
) -> Option<Seq<char>>
    decreases n,
{
    if n <= 0 {
        None
    } else if hits[n - 1].1 == q && value_at(raw, hits, n - 1).len() > 0 {
        Some(value_at(raw, hits, n - 1))
    } else {
        last_value(raw, hits, q, n - 1)
    }
}

/// The value that a query gives to a qualifier.
pub open spec fn qualified(raw: Seq<char>, q: Qualifier) -> Option<Seq<char>> {
    last_value(raw, hits(raw), q, hits(raw).len() as int)
}

/// The text before the first qualifier, if there is any.
pub open spec fn free_text(raw: Seq<char>) -> Option<Seq<char>> {
    let text = trimmed(
        raw.subrange(
            0,
            if hits(raw).len() > 0 {
                hits(raw)[0].0
            } else {
                raw.len() as int
            },
        ),
    );
    if text.len() > 0 {
        Some(text)
    } else {
        None
    }
}

/// What a query asks for.
#[derive(Debug)]
pub struct ParsedQuery {
    pub workspace: Option<String>,
    pub slug: Option<String>,
    pub text: Option<String>,
    /// Free text outside any qualifier; matched against title and slug.
    pub default: Option<String>,
}

/// The contents of a [`ParsedQuery`].
pub struct QueryView {
    pub workspace: Option<Seq<char>>,
    pub slug: Option<Seq<char>>,
    pub text: Option<Seq<char>>,
    pub default: Option<Seq<char>>,
}

impl View for ParsedQuery {
    type V = QueryView;

    open spec fn view(&self) -> QueryView {
        QueryView {
            workspace: text_of(self.workspace),
            slug: text_of(self.slug),
            text: text_of(self.text),
            default: text_of(self.default),
        }
    }
}

/// What a query asks for.
pub open spec fn parsed(raw: Seq<char>) -> QueryView {
    QueryView {
        workspace: qualified(raw, Qualifier::Workspace),
        slug: qualified(raw, Qualifier::Slug),
        text: qualified(raw, Qualifier::Text),
        default: free_text(raw),
    }
}

/// Every recognized qualifier stands at the beginning of a word, spelled in any
/// letter case, and behind the keyword of the one before it.
pub proof fn law_qualifiers_begin_words(raw: Seq<char>, i: int)
    requires
        0 <= i < hits(raw).len(),
    ensures
        begins_word(lowered(raw), hits(raw)[i].0),
        occurs_at(lowered(raw), hits(raw)[i].1.keyword(), hits(raw)[i].0),
        i + 1 < hits(raw).len() ==> hits(raw)[i].0 + hits(raw)[i].1.keyword().len() <= hits(
            raw,
        )[i + 1].0,
{
    lemma_hits(lowered(raw), 0);
    lemma_hit(lowered(raw), 0, i);
}

proof fn lemma_hits(lower: Seq<char>, cursor: int)
    requires
        0 <= cursor,
    ensures
        hits_from(lower, cursor).len() > 0 ==> cursor <= hits_from(lower, cursor)[0].0,
{
    lemma_next_hit(lower, cursor);
}

proof fn lemma_hit(lower: Seq<char>, cursor: int, i: int)
    requires
        0 <= cursor,
        0 <= i < hits_from(lower, cursor).len(),
    ensures
        ({
            let h = hits_from(lower, cursor)[i];
            &&& cursor <= h.0
            &&& begins_word(lower, h.0)
            &&& occurs_at(lower, h.1.keyword(), h.0)
            &&& i + 1 < hits_from(lower, cursor).len() ==> h.0 + h.1.keyword().len() <= hits_from(
                lower,
                cursor,
            )[i + 1].0
        }),
    decreases i,
{
    lemma_next_hit(lower, cursor);
    let h = next_hit(lower, cursor)->0;
    let rest = h.0 + h.1.keyword().len();
    if i > 0 {
        lemma_hit(lower, rest, i - 1);
    } else {
        lemma_hits(lower, rest);
    }
}

/// No keyword at the beginning of a word is passed over: it is a recognized
/// qualifier, or it begins within one.
pub proof fn law_keywords_are_recognized(raw: Seq<char>, q: Qualifier, at: int)
    requires
        occurs_at(lowered(raw), q.keyword(), at),
        begins_word(lowered(raw), at),
    ensures
        exists|i: int|
            0 <= i < hits(raw).len() && (#[trigger] hits(raw)[i]).0 <= at < hits(raw)[i].0
                + hits(raw)[i].1.keyword().len(),
{
    lemma_recognized(lowered(raw), 0, q, at);
    let i = choose|i: int|
        0 <= i < hits_from(lowered(raw), 0).len() && (#[trigger] hits_from(lowered(raw), 0)[i]).0
            <= at < hits_from(lowered(raw), 0)[i].0 + hits_from(
            lowered(raw),
            0,
        )[i].1.keyword().len();
    assert(hits(raw)[i] == hits_from(lowered(raw), 0)[i]);
}

proof fn lemma_recognized(lower: Seq<char>, cursor: int, q: Qualifier, at: int)
    requires
        0 <= cursor <= at,
        occurs_at(lower, q.keyword(), at),
        begins_word(lower, at),
    ensures
        exists|i: int|
            0 <= i < hits_from(lower, cursor).len() && (#[trigger] hits_from(lower, cursor)[i]).0
                <= at < hits_from(lower, cursor)[i].0 + hits_from(
                lower,
                cursor,
            )[i].1.keyword().len(),
    decreases lower.len() - cursor,
{
    lemma_next_hit(lower, cursor);
    lemma_keyword(q);
    lemma_first_word_at(lower, q.keyword(), cursor);
    let all = hits_from(lower, cursor);
    let h = next_hit(lower, cursor)->0;
    assert(next_hit(lower, cursor) is Some && h.0 <= at) by {
        lemma_keyword(Qualifier::Workspace);
        lemma_first_word_at(lower, Qualifier::Workspace.keyword(), cursor);
        lemma_first_word_at(lower, Qualifier::Slug.keyword(), cursor);
        lemma_first_word_at(lower, Qualifier::Text.keyword(), cursor);
    }
    let rest = h.0 + h.1.keyword().len();
    assert(all[0] == h);
    if at >= rest {
        lemma_recognized(lower, rest, q, at);
        let i = choose|i: int|
            0 <= i < hits_from(lower, rest).len() && (#[trigger] hits_from(lower, rest)[i]).0
                <= at < hits_from(lower, rest)[i].0 + hits_from(
                lower,
                rest,
            )[i].1.keyword().len();
        assert(all[i + 1] == hits_from(lower, rest)[i]);
    }
}

/// A query in which no keyword stands is free text alone.
pub proof fn law_plain_text_is_free(raw: Seq<char>)
    requires
        forall|q: Qualifier, i: int| !#[trigger] occurs_at(lowered(raw), q.keyword(), i),
    ensures
        parsed(raw).workspace is None,
        parsed(raw).slug is None,
        parsed(raw).text is None,
        parsed(raw).default == if trimmed(raw).len() > 0 {
            Some(trimmed(raw))
        } else {
            None
        },
{
    lemma_next_hit(lowered(raw), 0);
    assert(hits(raw) =~= Seq::empty());
    assert(raw.subrange(0, raw.len() as int) =~= raw);
}

proof fn lemma_text_start(text: Seq<char>, i: int)
    requires
        0 <= i <= text.len(),
    ensures
        i <= text_start(text, i) <= text.len(),
    decreases text.len() - i,
{
    if i < text.len() && whitespace(text[i]) {
        lemma_text_start(text, i + 1);
    }
}

/// The text of a range without white space at its ends.
fn trim_range(chars: &Vec<char>, from: usize, to: usize) -> (text: String)
    requires
        from <= to <= chars.len(),
    ensures
        text@ == trimmed(chars@.subrange(from as int, to as int)),
{
    let ghost part = chars@.subrange(from as int, to as int);
    let mut start: usize = from;
    while start < to && is_whitespace(chars[start])
        invariant
            from <= start <= to <= chars.len(),
            part == chars@.subrange(from as int, to as int),
            text_start(part, 0) == text_start(part, start - from),
        decreases to - start,
    {
        start = start + 1;
    }
    let mut end: usize = to;
    let ghost low = start - from;
    while end > start && is_whitespace(chars[end - 1])
        invariant
            from <= start <= end <= to <= chars.len(),
            part == chars@.subrange(from as int, to as int),
            low == start - from,
            text_end(part, low, part.len() as int) == text_end(part, low, end - from),
        decreases end,
    {
        end = end - 1;
    }
    assert(text_start(part, 0) == low);
    assert(chars@.subrange(start as int, end as int) =~= part.subrange(low, end - from));
    text_range(chars, start, end)
}

/// Removes white space at the ends of a text.
pub fn trim(text: &str) -> (rest: String)
    ensures
        rest@ == trimmed(text@),
{
    let chars = chars_of(text);
    assert(chars@.subrange(0, chars@.len() as int) =~= text@);
    trim_range(&chars, 0, chars.len())
}

/// Removes a pair of quotes around a text.
pub fn unquote(value: &str) -> (text: String)
    ensures
        text@ == unquoted(value@),
{
    let chars = chars_of(value);
    if chars.len() >= 2 && chars[0] == '"' && chars[chars.len() - 1] == '"' {
        text_range(&chars, 1, chars.len() - 1)
    } else {
        value.to_owned()
    }
}

fn ascii_space(c: char) -> (yes: bool)
    ensures
        yes == is_space(c),
{
    c == ' ' || c == '\t' || c == '\n' || c == '\r' || c == '\x0c'
}

/// The meaning of a found place.
pub open spec fn place_of(found: Option<(usize, Qualifier)>) -> Option<(int, Qualifier)> {
    match found {
        Some((at, q)) => Some((at as int, q)),
        None => None,
    }
}

fn find_keyword(lower: &Vec<char>, q: Qualifier, cursor: usize) -> (found: Option<
    (usize, Qualifier),
>)
    requires
        cursor <= lower.len(),
    ensures
        place_of(found) == keyword_at(lower@, q, cursor as int),
        found matches Some(h) ==> h.1 == q && h.0 < lower.len(),
{
    let word = q.spell();
    let keyword = chars_of(word.as_str());
    let mut i: usize = cursor;
    proof {
        lemma_keyword(q);
    }
    while i < lower.len()
        invariant
            cursor <= i <= lower.len(),
            keyword@ == q.keyword(),
            first_word_at(lower@, q.keyword(), cursor as int) == first_word_at(
                lower@,
                q.keyword(),
                i as int,
            ),
        decreases lower.len() - i,
    {
        if (i == 0 || ascii_space(lower[i - 1])) && stands_at(lower, &keyword, i) {
            return Some((i, q));
        }
        i = i + 1;
    }
    None
}

fn pick_earlier(a: Option<(usize, Qualifier)>, b: Option<(usize, Qualifier)>) -> (first: Option<
    (usize, Qualifier),
>)
    ensures
        place_of(first) == earlier(place_of(a), place_of(b)),
        first == a || first == b,
{
    match (a, b) {
        (Some(x), Some(y)) => {
            if y.0 < x.0 {
                b
            } else {
                a
            }
        },
        (None, _) => b,
        (_, None) => a,
    }
}

/// The meaning of some found places.
pub open spec fn places_of(found: Seq<(usize, Qualifier)>) -> Seq<(int, Qualifier)> {
    Seq::new(found.len(), |i: int| (found[i].0 as int, found[i].1))
}

fn find_hits(lower: &Vec<char>) -> (found: Vec<(usize, Qualifier)>)
    ensures
        places_of(found@) == hits_from(lower@, 0),
{
    let mut found: Vec<(usize, Qualifier)> = Vec::new();
    let mut cursor: usize = 0;
    assert(places_of(found@) + hits_from(lower@, 0) =~= hits_from(lower@, 0));
    loop
        invariant
            cursor <= lower.len(),
            places_of(found@) + hits_from(lower@, cursor as int) == hits_from(lower@, 0),
        decreases lower.len() - cursor,
    {
        let workspace = find_keyword(lower, Qualifier::Workspace, cursor);
        let slug = find_keyword(lower, Qualifier::Slug, cursor);
        let text = find_keyword(lower, Qualifier::Text, cursor);
        let next = pick_earlier(pick_earlier(workspace, slug), text);
        proof {
            lemma_next_hit(lower@, cursor as int);
        }
        match next {
            Some((at, q)) => {
                let word = q.spell();
                let keyword = chars_of(word.as_str());
                let ghost before = places_of(found@);
                let ghost rest = hits_from(lower@, at + keyword@.len());
                found.push((at, q));
                proof {
                    assert(places_of(found@) =~= before.push((at as int, q)));
                    assert(before + (seq![(at as int, q)] + rest) =~= before.push((at as int, q))
                        + rest);
                }
                cursor = at + keyword.len();
            },
            None => {
                assert(places_of(found@) + hits_from(lower@, cursor as int) =~= places_of(found@));
                return found;
            },
        }
    }
}

/// The length of a keyword.
fn keyword_len(q: Qualifier) -> (n: usize)
    ensures
        n == q.keyword().len(),
{
    let word = q.spell();
    chars_of(word.as_str()).len()
}

/// Parses a query into its qualifiers and default free text. A qualifier only
/// matches at a word boundary (text start or preceding white space) so it cannot
/// trigger in the middle of an unrelated word.
pub fn parse_query(raw: &str) -> (query: ParsedQuery)
    ensures
        query@ == parsed(raw@),
{
    let chars = chars_of(raw);
    let lower = ascii_lower(raw);
    let lower_chars = chars_of(lower.as_str());
    let found = find_hits(&lower_chars);
    let ghost all = hits(raw@);
    assert(places_of(found@) == all);
    assert(all.len() == found@.len());
    let mut query = ParsedQuery { workspace: None, slug: None, text: None, default: None };
    let default_end: usize = if found.len() > 0 {
        proof {
            law_qualifiers_begin_words(raw@, 0);
            assert(all[0] == (found@[0].0 as int, found@[0].1));
        }
        found[0].0
    } else {
        chars.len()
    };
    let default_text = trim_range(&chars, 0, default_end);
    if chars_of(default_text.as_str()).len() > 0 {
        query.default = Some(default_text);
    }
    assert(text_of(query.default) == free_text(raw@));
    let mut i: usize = 0;
    while i < found.len()
        invariant
            i <= found.len(),
            chars@ == raw@,
            all == hits(raw@),
            places_of(found@) == all,
            all.len() == found@.len(),
            text_of(query.default) == free_text(raw@),
            text_of(query.workspace) == last_value(raw@, all, Qualifier::Workspace, i as int),
            text_of(query.slug) == last_value(raw@, all, Qualifier::Slug, i as int),
            text_of(query.text) == last_value(raw@, all, Qualifier::Text, i as int),
        decreases found.len() - i,
    {
        proof {
            law_qualifiers_begin_words(raw@, i as int);
            assert(all[i as int] == (found@[i as int].0 as int, found@[i as int].1));
            if i + 1 < found.len() {
                law_qualifiers_begin_words(raw@, i + 1);
                assert(all[i + 1] == (found@[i + 1].0 as int, found@[i + 1].1));
            }
        }
        let q: Qualifier = found[i].1;
        let start: usize = found[i].0 + keyword_len(q);
        let end: usize = if i + 1 < found.len() {
            found[i + 1].0
        } else {
            chars.len()
        };
        let inner = trim_range(&chars, start, end);
        let value = unquote(inner.as_str());
        assert(value@ == value_at(raw@, all, i as int));
        if chars_of(value.as_str()).len() > 0 {
            match q {
                Qualifier::Workspace => query.workspace = Some(value),
                Qualifier::Slug => query.slug = Some(value),
                Qualifier::Text => query.text = Some(value),
            }
        }
        i = i + 1;
    }
    query
}

impl ParsedQuery {
    /// Whether the query asks for nothing.
    pub fn is_empty(&self) -> (empty: bool)
        ensures
            empty == (self@.workspace is None && self@.slug is None && self@.text is None
                && self@.default is None),
    {
        self.workspace.is_none() && self.slug.is_none() && self.text.is_none()
            && self.default.is_none()
    }
}

} // verus!
