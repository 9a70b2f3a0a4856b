//! Markdown-to-HTML rendering for the read-only viewer.
//!
//! Rendered Markdown is untrusted workspace content and is sanitized before it
//! reaches the page.

use crate::diagnostics::texts;
use crate::text::{chars_of, text_range};
use crate::words::{is_whitespace, whitespace};
use vstd::prelude::*;
use vstd::utf8::*;

verus! {

/// One event of a Markdown document, as far as highlighting looks at it.
#[derive(Debug)]
pub enum Piece {
    CodeBlockStart,
    CodeBlockEnd,
    ImageStart,
    ImageEnd,
    Text(String),
    Other,
}

/// The contents of a [`Piece`].
pub enum PieceView {
    CodeBlockStart,
    CodeBlockEnd,
    ImageStart,
    ImageEnd,
    Text(Seq<char>),
    Other,
}

impl View for Piece {
    type V = PieceView;

    open spec fn view(&self) -> PieceView {
        match *self {
            Piece::CodeBlockStart => PieceView::CodeBlockStart,
            Piece::CodeBlockEnd => PieceView::CodeBlockEnd,
            Piece::ImageStart => PieceView::ImageStart,
            Piece::ImageEnd => PieceView::ImageEnd,
            Piece::Text(text) => PieceView::Text(text@),
            Piece::Other => PieceView::Other,
        }
    }
}

pub open spec fn piece_views(pieces: Seq<Piece>) -> Seq<PieceView> {
    Seq::new(pieces.len(), |i: int| pieces[i]@)
}

/// What takes the place of a run of text: text or markup.
#[derive(Debug)]
pub enum Part {
    Text(String),
    Markup(String),
}

/// The contents of a [`Part`].
pub enum PartView {
    Text(Seq<char>),
    Markup(Seq<char>),
}

impl View for Part {
    type V = PartView;

    open spec fn view(&self) -> PartView {
        match *self {
            Part::Text(text) => PartView::Text(text@),
            Part::Markup(text) => PartView::Markup(text@),
        }
    }
}

pub open spec fn part_views(parts: Seq<Part>) -> Seq<PartView> {
    Seq::new(parts.len(), |i: int| parts[i]@)
}

/// The meaning of the replacement of one event; `None` keeps the event.
pub open spec fn replacement_view(parts: Option<Vec<Part>>) -> Option<Seq<PartView>> {
    match parts {
        Some(list) => Some(part_views(list@)),
        None => None,
    }
}

pub open spec fn plan_views(plan: Seq<Option<Vec<Part>>>) -> Seq<Option<Seq<PartView>>> {
    Seq::new(plan.len(), |i: int| replacement_view(plan[i]))
}

/// One event to write: one of the document, by its number, or text or markup in the
/// place of one.
#[derive(Debug)]
pub enum Written {
    Kept(usize),
    Text(String),
    Markup(String),
}

/// The contents of a [`Written`].
pub enum WrittenView {
    Kept(int),
    Text(Seq<char>),
    Markup(Seq<char>),
}

impl View for Written {
    type V = WrittenView;

    open spec fn view(&self) -> WrittenView {
        match *self {
            Written::Kept(i) => WrittenView::Kept(i as int),
            Written::Text(text) => WrittenView::Text(text@),
            Written::Markup(text) => WrittenView::Markup(text@),
        }
    }
}

pub open spec fn written_views(items: Seq<Written>) -> Seq<WrittenView> {
    Seq::new(items.len(), |i: int| items[i]@)
}

/// A part as it is written.
pub open spec fn written_part(part: PartView) -> WrittenView {
    match part {
        PartView::Text(text) => WrittenView::Text(text),
        PartView::Markup(text) => WrittenView::Markup(text),
    }
}

/// What is written for the first `n` events: each one itself, or the parts that take
/// its place, in order.
pub open spec fn spliced(plan: Seq<Option<Seq<PartView>>>, n: int) -> Seq<WrittenView>
    decreases n,
{
    if n <= 0 {
        Seq::empty()
    } else {
        spliced(plan, n - 1) + match plan[n - 1] {
            None => seq![WrittenView::Kept(n - 1)],
            Some(parts) => Seq::new(parts.len(), |i: int| written_part(parts[i])),
        }
    }
}

/// Every event that is kept is one of the document.
proof fn lemma_kept_in_range(plan: Seq<Option<Seq<PartView>>>, n: int, i: int)
    requires
        0 <= i < spliced(plan, n).len(),
        n <= plan.len(),
    ensures
        spliced(plan, n)[i] matches WrittenView::Kept(k) ==> 0 <= k < n,
    decreases n,
{
    if n > 0 {
        let before = spliced(plan, n - 1);
        if i < before.len() {
            lemma_kept_in_range(plan, n - 1, i);
        }
    }
}

/// Puts the planned parts in the place of their events.
pub fn splice(plan: Vec<Option<Vec<Part>>>) -> (items: Vec<Written>)
    ensures
        written_views(items@) == spliced(plan_views(plan@), plan@.len() as int),
{
    let ghost views = plan_views(plan@);
    let total: usize = plan.len();
    let mut items: Vec<Written> = Vec::new();
    let mut i: usize = 0;
    assert(written_views(items@) =~= spliced(views, 0));
    while i < total
        invariant
            i <= total,
            total == plan.len(),
            views == plan_views(plan@),
            written_views(items@) == spliced(views, i as int),
        decreases total - i,
    {
        let ghost before = written_views(items@);
        assert(views[i as int] == replacement_view(plan@[i as int]));
        match &plan[i] {
            None => {
                items.push(Written::Kept(i));
                assert(written_views(items@) =~= before + seq![WrittenView::Kept(i as int)]);
            },
            Some(parts) => {
                let ghost all = part_views(parts@);
                let mut k: usize = 0;
                let ghost whole = Seq::new(all.len(), |m: int| written_part(all[m]));
                assert(written_views(items@) =~= before + whole.take(0));
                while k < parts.len()
                    invariant
                        k <= parts.len(),
                        all == part_views(parts@),
                        whole == Seq::new(all.len(), |m: int| written_part(all[m])),
                        written_views(items@) == before + whole.take(k as int),
                    decreases parts.len() - k,
                {
                    assert(all[k as int] == parts@[k as int]@);
                    let ghost so_far = written_views(items@);
                    let item: Written = match &parts[k] {
                        Part::Text(text) => Written::Text(text.clone()),
                        Part::Markup(text) => Written::Markup(text.clone()),
                    };
                    let ghost view = item@;
                    items.push(item);
                    assert(written_views(items@) =~= so_far.push(view));
                    assert(whole.take(k + 1) =~= whole.take(k as int).push(view));
                    assert(written_views(items@) =~= before + whole.take(k + 1));
                    k = k + 1;
                }
                assert(whole.take(all.len() as int) =~= whole);
            },
        }
        i = i + 1;
    }
    items
}

/// The parser's switches: tables, footnotes, strikethrough and task lists.
pub const RENDER_OPTIONS: u32 = 0b11110;

/// The relation that links of a rendered page carry: external links never
/// navigate the embedded browsing context or leak it to the target page.
pub const LINK_RELATION: &'static str = "noopener noreferrer nofollow";

/// The events of a document, as `pulldown_cmark::Parser` gives them with the
/// switches, consecutive texts merged.
pub uninterp spec fn parsed_markdown(markdown: Seq<char>, options: u32) -> Seq<PieceView>;

/// The HTML that `pulldown_cmark::html::push_html` makes of the items, where a number
/// stands for that event of the document and the rest for text and inline HTML.
pub uninterp spec fn written_html(
    markdown: Seq<char>,
    options: u32,
    items: Seq<WrittenView>,
) -> Seq<char>;

/// The HTML that `ammonia::Builder::clean` leaves of a fragment when a tag with
/// its attributes and some generic attributes are allowed in addition to the
/// defaults and links carry the relation.
pub uninterp spec fn cleaned_html(
    html: Seq<char>,
    tag: Seq<char>,
    attributes: Seq<Seq<char>>,
    generic: Seq<Seq<char>>,
    relation: Seq<char>,
) -> Seq<char>;

/// `pulldown_cmark::Parser` with `pulldown_cmark::TextMergeStream` depends on
/// the text and the switches alone.
#[verifier::external_body]
fn parse_markdown(markdown: &str, options: u32) -> (pieces: Vec<Piece>)
    ensures
        piece_views(pieces@) == parsed_markdown(markdown@, options),
{
    let switches = pulldown_cmark::Options::from_bits_truncate(options);
    let parser = pulldown_cmark::Parser::new_ext(markdown, switches);
    let events = pulldown_cmark::TextMergeStream::new(parser);
    events.map(|event| match event {
        pulldown_cmark::Event::Start(pulldown_cmark::Tag::CodeBlock(_)) => Piece::CodeBlockStart,
        pulldown_cmark::Event::End(pulldown_cmark::TagEnd::CodeBlock) => Piece::CodeBlockEnd,
        pulldown_cmark::Event::Start(pulldown_cmark::Tag::Image { .. }) => Piece::ImageStart,
        pulldown_cmark::Event::End(pulldown_cmark::TagEnd::Image) => Piece::ImageEnd,
        pulldown_cmark::Event::Text(text) => Piece::Text(text.into_string()),
        _ => Piece::Other,
    }).collect()
}

/// `pulldown_cmark::html::push_html`, over one event for each item, depends on its
/// arguments alone.
#[verifier::external_body]
fn write_html(markdown: &str, options: u32, items: &Vec<Written>) -> (html: String)
    requires
        forall|i: int|
            0 <= i < items@.len() ==> (#[trigger] items@[i] matches Written::Kept(k) ==> k
                < parsed_markdown(markdown@, options).len()),
    ensures
        html@ == written_html(markdown@, options, written_views(items@)),
{
    let switches = pulldown_cmark::Options::from_bits_truncate(options);
    let parser = pulldown_cmark::Parser::new_ext(markdown, switches);
    let events: Vec<_> = pulldown_cmark::TextMergeStream::new(parser).collect();
    let mut html = String::new();
    pulldown_cmark::html::push_html(&mut html, items.iter().map(|item| match item {
        Written::Kept(i) => events[*i].clone(),
        Written::Text(text) => pulldown_cmark::Event::Text(text.as_str().into()),
        Written::Markup(text) => pulldown_cmark::Event::InlineHtml(text.as_str().into()),
    }));
    html
}

/// `ammonia::Builder::clean` depends on the fragment and its settings alone. It
/// panics where the link relation is also an allowed attribute, or where a tag
/// whose content it removes is allowed.
#[verifier::external_body]
fn clean_html(
    html: &str,
    tag: &str,
    attributes: &Vec<String>,
    generic: &Vec<String>,
    relation: &str,
) -> (clean: String)
    requires
        tag@ != "a"@ && tag@ != "script"@ && tag@ != "style"@,
        !texts(generic@).contains("rel"@),
    ensures
        clean@ == cleaned_html(html@, tag@, texts(attributes@), texts(generic@), relation@),
{
    ammonia::Builder::default()
        .add_tags([tag])
        .add_tag_attributes(tag, attributes)
        .add_generic_attributes(generic)
        .link_rel(Some(relation))
        .clean(html)
        .to_string()
}

/// End of the run of `=` that goes through position `i`.
pub open spec fn equals_end(text: Seq<char>, i: int) -> int
    decreases text.len() - i,
{
    if i < text.len() && text[i] == '=' {
        equals_end(text, i + 1)
    } else {
        i
    }
}

proof fn lemma_equals_end(text: Seq<char>, i: int)
    requires
        0 <= i <= text.len(),
    ensures
        i <= equals_end(text, i) <= text.len(),
        forall|k: int| i <= k < equals_end(text, i) ==> text[k] == '=',
        equals_end(text, i) < text.len() ==> text[equals_end(text, i)] != '=',
    decreases text.len() - i,
{
    if i < text.len() && text[i] == '=' {
        lemma_equals_end(text, i + 1);
    }
}

/// Whether the character at the position exists and is not white space.
pub open spec fn is_text(text: Seq<char>, i: int) -> bool {
    0 <= i < text.len() && !whitespace(text[i])
}

/// The highlighted spans from position `i` on, given the opener still waiting for
/// its closer: the positions of each opener and closer.
///
/// A delimiter is exactly two `=`; an opener must be followed by text and a closer
/// preceded by it, and a span is not empty.
pub open spec fn spans_from(text: Seq<char>, i: int, open: Option<int>) -> Seq<(int, int)>
    decreases text.len() - i,
    when 0 <= i
    via spans_decrease
{
    if i >= text.len() {
        Seq::empty()
    } else if text[i] != '=' {
        spans_from(text, i + 1, open)
    } else {
        let end = equals_end(text, i);
        if end - i != 2 {
            spans_from(text, end, open)
        } else {
            match open {
                Some(start) => if is_text(text, i - 1) && i > start + 2 {
                    seq![(start, i)] + spans_from(text, end, None)
                } else {
                    spans_from(text, end, open)
                },
                None => if is_text(text, end) {
                    spans_from(text, end, Some(i))
                } else {
                    spans_from(text, end, None)
                },
            }
        }
    }
}

#[via_fn]
proof fn spans_decrease(text: Seq<char>, i: int, open: Option<int>) {
    if i < text.len() && text[i] == '=' {
        lemma_equals_end(text, i + 1);
    }
}

/// The highlighted spans of a text.
pub open spec fn spans_of(text: Seq<char>) -> Seq<(int, int)> {
    spans_from(text, 0, None)
}

/// Whether exactly two `=` stand at the position.
pub open spec fn is_delimiter(text: Seq<char>, i: int) -> bool {
    &&& 0 <= i && i + 2 <= text.len()
    &&& text[i] == '=' && text[i + 1] == '='
    &&& i > 0 ==> text[i - 1] != '='
    &&& i + 2 < text.len() ==> text[i + 2] != '='
}

/// Each span is delimited by exactly two `=` on either side, begins and ends with
/// text, and ends before the next one begins.
pub proof fn law_highlight_delimiters(text: Seq<char>, k: int)
    requires
        0 <= k < spans_of(text).len(),
    ensures
        ({
            let (open, close) = spans_of(text)[k];
            &&& is_delimiter(text, open)
            &&& is_delimiter(text, close)
            &&& open + 2 < close
            &&& is_text(text, open + 2)
            &&& is_text(text, close - 1)
            &&& k + 1 < spans_of(text).len() ==> close + 2 <= spans_of(text)[k + 1].0
        }),
{
    lemma_spans(text, 0, None, k);
}

/// Whether a run of `=` may begin at the position, seen from what stands before.
spec fn run_starts(text: Seq<char>, i: int) -> bool {
    0 < i <= text.len() ==> text[i - 1] != '=' || i == text.len() || text[i] != '='
}

/// Whether an opener is waiting properly at position `i`.
spec fn waits(text: Seq<char>, i: int, open: Option<int>) -> bool {
    open matches Some(start) ==> is_delimiter(text, start) && is_text(text, start + 2) && start + 2
        <= i
}

proof fn lemma_spans(text: Seq<char>, i: int, open: Option<int>, k: int)
    requires
        0 <= i <= text.len(),
        run_starts(text, i),
        waits(text, i, open),
        0 <= k < spans_from(text, i, open).len(),
    ensures
        ({
            let spans = spans_from(text, i, open);
            let (o, c) = spans[k];
            &&& is_delimiter(text, o)
            &&& is_delimiter(text, c)
            &&& o + 2 < c
            &&& is_text(text, o + 2)
            &&& is_text(text, c - 1)
            &&& k + 1 < spans.len() ==> c + 2 <= spans[k + 1].0
            &&& k == 0 ==> match open {
                Some(start) => o == start,
                None => i <= o,
            }
        }),
    decreases text.len() - i,
{
    if i < text.len() {
        if text[i] != '=' {
            lemma_spans(text, i + 1, open, k);
        } else {
            lemma_equals_end(text, i);
            let end = equals_end(text, i);
            if end - i != 2 {
                assert(end > i);
                assert(run_starts(text, end));
                lemma_spans(text, end, open, k);
            } else {
                assert(text[i + 1] == '=');
                assert(is_delimiter(text, i));
                assert(run_starts(text, end));
                match open {
                    Some(start) => if is_text(text, i - 1) && i > start + 2 {
                        if k > 0 {
                            lemma_spans(text, end, None, k - 1);
                        } else if spans_from(text, end, None).len() > 0 {
                            lemma_spans(text, end, None, 0);
                        }
                    } else {
                        lemma_spans(text, end, open, k);
                    },
                    None => if is_text(text, end) {
                        lemma_spans(text, end, Some(i), k);
                    } else {
                        lemma_spans(text, end, None, k);
                    },
                }
            }
        }
    }
}

/// The text between the marks.
pub open spec fn text_part(text: Seq<char>, from: int, to: int) -> Seq<PartView> {
    if to > from {
        seq![PartView::Text(text.subrange(from, to))]
    } else {
        Seq::empty()
    }
}

/// A highlighted span as marked-up text.
pub open spec fn marked(text: Seq<char>, open: int, close: int) -> Seq<PartView> {
    seq![
        PartView::Markup("<mark>"@),
        PartView::Text(text.subrange(open + 2, close)),
        PartView::Markup("</mark>"@),
    ]
}

/// The text from `cursor` on with the spans from the `k`-th on marked up.
pub open spec fn parts_from(
    text: Seq<char>,
    spans: Seq<(int, int)>,
    k: int,
    cursor: int,
) -> Seq<PartView>
    decreases spans.len() - k,
{
    if k >= spans.len() {
        text_part(text, cursor, text.len() as int)
    } else {
        text_part(text, cursor, spans[k].0) + marked(text, spans[k].0, spans[k].1) + parts_from(
            text,
            spans,
            k + 1,
            spans[k].1 + 2,
        )
    }
}

/// The parts of a text with highlights; `None` where it has none.
pub open spec fn highlighted(text: Seq<char>) -> Option<Seq<PartView>> {
    if spans_of(text).len() == 0 {
        None
    } else {
        Some(parts_from(text, spans_of(text), 0, 0))
    }
}

/// The parts with every mark written as a delimiter again.
pub open spec fn unmarked(parts: Seq<PartView>) -> Seq<char>
    decreases parts.len(),
{
    if parts.len() == 0 {
        Seq::empty()
    } else {
        let first = match parts[0] {
            PartView::Text(text) => text,
            PartView::Markup(_) => seq!['=', '='],
        };
        first + unmarked(parts.skip(1))
    }
}

/// Highlighting changes delimiters and nothing else: with the marks written as
/// delimiters again, the text is as it was.
pub proof fn law_highlight_keeps_text(text: Seq<char>)
    requires
        highlighted(text) is Some,
    ensures
        unmarked(highlighted(text)->0) == text,
{
    law_highlight_delimiters(text, 0);
    lemma_parts_text(text, 0, 0);
    assert(text.skip(0) =~= text);
}

proof fn lemma_unmarked_add(a: Seq<PartView>, b: Seq<PartView>)
    ensures
        unmarked(a + b) == unmarked(a) + unmarked(b),
    decreases a.len(),
{
    if a.len() == 0 {
        assert(a + b =~= b);
        assert(unmarked(a) + unmarked(b) =~= unmarked(b));
    } else {
        lemma_unmarked_add(a.skip(1), b);
        assert((a + b).skip(1) =~= a.skip(1) + b);
        assert((a + b)[0] == a[0]);
        assert(unmarked(a + b) =~= unmarked(a) + unmarked(b));
    }
}

proof fn lemma_text_part(text: Seq<char>, from: int, to: int)
    requires
        0 <= from <= to <= text.len(),
    ensures
        unmarked(text_part(text, from, to)) == text.subrange(from, to),
{
    let part = text_part(text, from, to);
    if to > from {
        assert(part.skip(1) =~= Seq::empty());
        assert(unmarked(part.skip(1)) =~= Seq::empty());
        assert(unmarked(part) =~= text.subrange(from, to));
    } else {
        assert(unmarked(part) =~= text.subrange(from, to));
    }
}

proof fn lemma_marked(text: Seq<char>, open: int, close: int)
    requires
        is_delimiter(text, open),
        is_delimiter(text, close),
        open + 2 <= close,
    ensures
        unmarked(marked(text, open, close)) == text.subrange(open, close + 2),
{
    let parts = marked(text, open, close);
    let one = parts.skip(1);
    let two = one.skip(1);
    assert(two.skip(1) =~= Seq::empty());
    assert(one[0] == parts[1] && two[0] == parts[2]);
    assert(unmarked(two.skip(1)) =~= Seq::empty());
    assert(unmarked(two) =~= seq!['=', '=']);
    assert(unmarked(one) =~= text.subrange(open + 2, close) + seq!['=', '=']);
    assert(unmarked(parts) =~= text.subrange(open, close + 2));
}

proof fn lemma_parts_text(text: Seq<char>, k: int, cursor: int)
    requires
        0 <= k <= spans_of(text).len(),
        0 <= cursor <= text.len(),
        k < spans_of(text).len() ==> cursor <= spans_of(text)[k].0,
    ensures
        unmarked(parts_from(text, spans_of(text), k, cursor)) == text.skip(cursor),
    decreases spans_of(text).len() - k,
{
    let spans = spans_of(text);
    if k >= spans.len() {
        lemma_text_part(text, cursor, text.len() as int);
        assert(text.subrange(cursor, text.len() as int) =~= text.skip(cursor));
    } else {
        let (open, close) = spans[k];
        law_highlight_delimiters(text, k);
        lemma_parts_text(text, k + 1, close + 2);
        let head = text_part(text, cursor, open);
        let mark = marked(text, open, close);
        let rest = parts_from(text, spans, k + 1, close + 2);
        lemma_unmarked_add(head + mark, rest);
        lemma_unmarked_add(head, mark);
        lemma_text_part(text, cursor, open);
        lemma_marked(text, open, close);
        assert(text.subrange(cursor, open) + text.subrange(open, close + 2) + text.skip(close + 2)
            =~= text.skip(cursor));
    }
}

/// The meaning of some spans.
pub open spec fn span_views(spans: Seq<(usize, usize)>) -> Seq<(int, int)> {
    Seq::new(spans.len(), |i: int| (spans[i].0 as int, spans[i].1 as int))
}

/// The number of bytes before the `i`-th character of a text.
pub open spec fn bytes_before(text: Seq<char>, i: int) -> nat {
    encode_utf8(text.take(i)).len()
}

/// The spans by byte offsets.
pub open spec fn byte_spans(text: Seq<char>) -> Seq<(int, int)> {
    Seq::new(
        spans_of(text).len(),
        |k: int|
            (
                bytes_before(text, spans_of(text)[k].0) as int,
                bytes_before(text, spans_of(text)[k].1) as int,
            ),
    )
}

/// One more character is encoded behind the others.
proof fn lemma_encode_push(text: Seq<char>, c: char)
    ensures
        encode_utf8(text.push(c)) == encode_utf8(text) + encode_scalar(c as u32),
    decreases text.len(),
{
    let all = text.push(c);
    if text.len() == 0 {
        assert(all.drop_first() =~= text);
        assert(encode_utf8(text) =~= Seq::<u8>::empty());
        assert(encode_utf8(all) == encode_scalar(all[0] as u32) + encode_utf8(all.drop_first()));
        assert(encode_utf8(all) =~= encode_utf8(text) + encode_scalar(c as u32));
    } else {
        lemma_encode_push(text.drop_first(), c);
        assert(all.drop_first() =~= text.drop_first().push(c));
        assert(encode_utf8(all) =~= encode_utf8(text) + encode_scalar(c as u32));
    }
}

/// What stands before a character is no longer than the text.
proof fn lemma_bytes_before(text: Seq<char>, i: int)
    requires
        0 <= i <= text.len(),
    ensures
        bytes_before(text, i) <= encode_utf8(text).len(),
        i < text.len() ==> bytes_before(text, i + 1) == bytes_before(text, i) + encode_scalar(
            text[i] as u32,
        ).len(),
    decreases text.len() - i,
{
    if i < text.len() {
        lemma_bytes_before(text, i + 1);
        assert(text.take(i + 1) =~= text.take(i).push(text[i]));
        lemma_encode_push(text.take(i), text[i]);
    } else {
        assert(text.take(i) =~= text);
    }
}

/// The number of bytes that a character takes.
fn utf8_width(c: char) -> (width: usize)
    ensures
        width == encode_scalar(c as u32).len(),
{
    proof {
        char_is_scalar(c);
    }
    let n: u32 = c as u32;
    if n < 0x80 {
        1
    } else if n < 0x800 {
        2
    } else if n < 0x1_0000 {
        3
    } else {
        4
    }
}

/// Byte offsets of each paired `==` opener and closer. A delimiter is exactly two `=`
/// (a longer run is never one); an opener must be followed by text and a closer
/// preceded by it, so ordinary prose such as `a == b` is left alone.
pub fn highlight_spans(text: &str) -> (spans: Vec<(usize, usize)>)
    ensures
        span_views(spans@) == byte_spans(text@),
{
    let chars = chars_of(text);
    let found = char_spans(&chars);
    let ghost all = spans_of(text@);
    assert(all.len() == found@.len());
    let bytes = text.as_bytes();
    let total: usize = bytes.len();
    let mut offsets: Vec<usize> = Vec::new();
    let mut offset: usize = 0;
    let mut i: usize = 0;
    assert(text@.take(0) =~= Seq::<char>::empty());
    while i < chars.len()
        invariant
            i <= chars.len(),
            chars@ == text@,
            total == encode_utf8(text@).len(),
            offset == bytes_before(text@, i as int),
            offsets.len() == i,
            forall|k: int| 0 <= k < i ==> #[trigger] offsets@[k] == bytes_before(text@, k),
        decreases chars.len() - i,
    {
        proof {
            lemma_bytes_before(text@, i as int);
            lemma_bytes_before(text@, i + 1);
        }
        offsets.push(offset);
        offset = offset + utf8_width(chars[i]);
        i = i + 1;
    }
    let mut spans: Vec<(usize, usize)> = Vec::new();
    let mut k: usize = 0;
    while k < found.len()
        invariant
            k <= found.len(),
            all == spans_of(text@),
            span_views(found@) == all,
            all.len() == found@.len(),
            offsets.len() == text@.len(),
            forall|m: int|
                0 <= m < offsets.len() ==> #[trigger] offsets@[m] == bytes_before(text@, m),
            spans.len() == k,
            forall|m: int|
                0 <= m < k ==> span_views(spans@)[m] == #[trigger] byte_spans(text@)[m],
        decreases found.len() - k,
    {
        proof {
            law_highlight_delimiters(text@, k as int);
            assert(all[k as int] == (found@[k as int].0 as int, found@[k as int].1 as int));
        }
        let ghost before = span_views(spans@);
        spans.push((offsets[found[k].0], offsets[found[k].1]));
        proof {
            let after = span_views(spans@);
            assert forall|m: int| 0 <= m < k + 1 implies after[m] == #[trigger] byte_spans(
                text@,
            )[m] by {
                if m < k {
                    assert(after[m] == before[m]);
                }
            }
        }
        k = k + 1;
    }
    assert(span_views(spans@) =~= byte_spans(text@));
    spans
}

/// Positions of each paired `==` opener and closer among the characters.
fn char_spans(text: &Vec<char>) -> (spans: Vec<(usize, usize)>)
    ensures
        span_views(spans@) == spans_of(text@),
{
    let mut spans: Vec<(usize, usize)> = Vec::new();
    let mut open: Option<usize> = None;
    let mut i: usize = 0;
    let ghost waiting: Option<int> = None;
    assert(span_views(spans@) + spans_from(text@, 0, None) =~= spans_of(text@));
    while i < text.len()
        invariant
            i <= text.len(),
            waiting == match open {
                Some(start) => Some(start as int),
                None => None::<int>,
            },
            open matches Some(start) ==> start + 2 <= i,
            span_views(spans@) + spans_from(text@, i as int, waiting) == spans_of(text@),
        decreases text.len() - i,
    {
        if text[i] != '=' {
            i = i + 1;
        } else {
            let start_run: usize = i;
            i = i + 1;
            while i < text.len() && text[i] == '='
                invariant
                    start_run < i <= text.len(),
                    text@[start_run as int] == '=',
                    equals_end(text@, start_run as int) == equals_end(text@, i as int),
                decreases text.len() - i,
            {
                i = i + 1;
            }
            assert(equals_end(text@, start_run as int) == i);
            if i - start_run == 2 {
                let next_is_text: bool = i < text.len() && !is_whitespace(text[i]);
                let prev_is_text: bool = start_run > 0 && !is_whitespace(text[start_run - 1]);
                match open {
                    Some(start) => {
                        if prev_is_text && start_run > start + 2 {
                            let ghost before = span_views(spans@);
                            let ghost span = (start as int, start_run as int);
                            let ghost rest = spans_from(text@, i as int, None);
                            spans.push((start, start_run));
                            open = None;
                            proof {
                                waiting = None;
                                assert(span_views(spans@) =~= before.push(span));
                                assert(before + (seq![span] + rest) =~= before.push(span) + rest);
                            }
                        }
                    },
                    None => {
                        if next_is_text {
                            open = Some(start_run);
                            proof {
                                waiting = Some(start_run as int);
                            }
                        }
                    },
                }
            }
        }
    }
    assert(span_views(spans@) + spans_from(text@, i as int, waiting) =~= span_views(spans@));
    spans
}

fn push_text(parts: &mut Vec<Part>, text: &Vec<char>, from: usize, to: usize)
    requires
        from <= to <= text.len(),
    ensures
        part_views(final(parts)@) == part_views(old(parts)@) + text_part(
            text@,
            from as int,
            to as int,
        ),
{
    if to > from {
        parts.push(Part::Text(text_range(text, from, to)));
    }
    assert(part_views(parts@) =~= part_views(old(parts)@) + text_part(
        text@,
        from as int,
        to as int,
    ));
}

fn push_marked(parts: &mut Vec<Part>, text: &Vec<char>, open: usize, close: usize)
    requires
        open + 2 <= close <= text.len(),
    ensures
        part_views(final(parts)@) == part_views(old(parts)@) + marked(
            text@,
            open as int,
            close as int,
        ),
{
    parts.push(Part::Markup("<mark>".to_owned()));
    parts.push(Part::Text(text_range(text, open + 2, close)));
    parts.push(Part::Markup("</mark>".to_owned()));
    assert(part_views(parts@) =~= part_views(old(parts)@) + marked(
        text@,
        open as int,
        close as int,
    ));
}

/// Rewrites `==highlighted==` spans of a run of text into marked-up parts; `None`
/// where it has none.
pub fn split_highlights(text: &str) -> (parts: Option<Vec<Part>>)
    ensures
        replacement_view(parts) == highlighted(text@),
{
    let chars = chars_of(text);
    let spans = char_spans(&chars);
    let ghost all = spans_of(text@);
    assert(all.len() == spans@.len());
    if spans.len() == 0 {
        return None;
    }
    let mut parts: Vec<Part> = Vec::new();
    let mut cursor: usize = 0;
    let mut k: usize = 0;
    assert(part_views(parts@) + parts_from(text@, all, 0, 0) =~= parts_from(text@, all, 0, 0));
    proof {
        law_highlight_delimiters(text@, 0);
    }
    while k < spans.len()
        invariant
            k <= spans.len(),
            chars@ == text@,
            all == spans_of(text@),
            span_views(spans@) == all,
            all.len() == spans@.len(),
            cursor <= chars.len(),
            k < all.len() ==> cursor <= all[k as int].0,
            part_views(parts@) + parts_from(text@, all, k as int, cursor as int) == parts_from(
                text@,
                all,
                0,
                0,
            ),
        decreases spans.len() - k,
    {
        let open: usize = spans[k].0;
        let close: usize = spans[k].1;
        proof {
            law_highlight_delimiters(text@, k as int);
            assert(all[k as int] == (open as int, close as int));
        }
        let ghost before = part_views(parts@);
        let ghost rest = parts_from(text@, all, k + 1, close + 2);
        push_text(&mut parts, &chars, cursor, open);
        push_marked(&mut parts, &chars, open, close);
        proof {
            let head = text_part(text@, cursor as int, open as int);
            let mark = marked(text@, open as int, close as int);
            assert(before + (head + mark + rest) =~= before + head + mark + rest);
        }
        cursor = close + 2;
        k = k + 1;
    }
    push_text(&mut parts, &chars, cursor, chars.len());
    assert(part_views(parts@) == parts_from(text@, all, 0, 0));
    Some(parts)
}

/// Whether the event after the first `n` stands in a code block.
pub open spec fn in_code_block(pieces: Seq<PieceView>, n: int) -> bool
    decreases n,
{
    if n <= 0 {
        false
    } else {
        match pieces[n - 1] {
            PieceView::CodeBlockStart => true,
            PieceView::CodeBlockEnd => false,
            _ => in_code_block(pieces, n - 1),
        }
    }
}

/// How many images are open after the first `n` events.
pub open spec fn image_depth(pieces: Seq<PieceView>, n: int) -> nat
    decreases n,
{
    if n <= 0 {
        0
    } else {
        let before = image_depth(pieces, n - 1);
        match pieces[n - 1] {
            PieceView::ImageStart => before + 1,
            PieceView::ImageEnd => if before > 0 {
                (before - 1) as nat
            } else {
                0
            },
            _ => before,
        }
    }
}

/// What takes the place of the `i`-th event: only text outside code blocks and
/// image descriptions is ever replaced.
pub open spec fn replacement(pieces: Seq<PieceView>, i: int) -> Option<Seq<PartView>> {
    match pieces[i] {
        PieceView::Text(text) => if in_code_block(pieces, i) || image_depth(pieces, i) > 0 {
            None
        } else {
            highlighted(text)
        },
        _ => None,
    }
}

/// What takes the place of each event.
pub open spec fn highlight_plan(pieces: Seq<PieceView>) -> Seq<Option<Seq<PartView>>> {
    Seq::new(pieces.len(), |i: int| replacement(pieces, i))
}

/// Plans the `<mark>` elements of a document. A span must open and close within
/// one run of text, so it cannot wrap other inline markup. Code and image
/// descriptions are never touched.
pub fn with_highlights(pieces: &Vec<Piece>) -> (plan: Vec<Option<Vec<Part>>>)
    ensures
        plan_views(plan@) == highlight_plan(piece_views(pieces@)),
{
    let ghost views = piece_views(pieces@);
    let mut plan: Vec<Option<Vec<Part>>> = Vec::new();
    let mut code: bool = false;
    let mut images: usize = 0;
    let mut i: usize = 0;
    while i < pieces.len()
        invariant
            i <= pieces.len(),
            views == piece_views(pieces@),
            code == in_code_block(views, i as int),
            images == image_depth(views, i as int),
            images <= i,
            plan.len() == i,
            forall|k: int|
                0 <= k < i ==> replacement_view(#[trigger] plan@[k]) == replacement(views, k),
        decreases pieces.len() - i,
    {
        assert(views[i as int] == pieces@[i as int]@);
        let parts: Option<Vec<Part>> = match &pieces[i] {
            Piece::Text(text) => {
                if code || images > 0 {
                    None
                } else {
                    split_highlights(text.as_str())
                }
            },
            _ => None,
        };
        match &pieces[i] {
            Piece::CodeBlockStart => {
                code = true;
            },
            Piece::CodeBlockEnd => {
                code = false;
            },
            Piece::ImageStart => {
                images = images + 1;
            },
            Piece::ImageEnd => {
                images = images.saturating_sub(1);
            },
            _ => {},
        }
        plan.push(parts);
        i = i + 1;
    }
    assert(plan_views(plan@) =~= highlight_plan(views));
    plan
}

/// The attributes that a task-list box keeps.
pub open spec fn box_attributes() -> Seq<Seq<char>> {
    seq!["type"@, "checked"@, "disabled"@]
}

/// The sanitized HTML of a document.
pub open spec fn rendered(markdown: Seq<char>) -> Seq<char> {
    let plan = highlight_plan(parsed_markdown(markdown, RENDER_OPTIONS));
    cleaned_html(
        written_html(markdown, RENDER_OPTIONS, spliced(plan, plan.len() as int)),
        "input"@,
        box_attributes(),
        seq!["id"@],
        LINK_RELATION@,
    )
}

/// Renders Markdown to sanitized HTML that can be inserted into the page.
///
/// What the parser, the HTML writer and the sanitizer make of their input is
/// theirs to say; which text is highlighted and what the sanitizer is told to
/// allow is settled here.
pub fn render_sanitized_html(markdown: &str) -> (html: String)
    ensures
        html@ == rendered(markdown@),
{
    let pieces = parse_markdown(markdown, RENDER_OPTIONS);
    let plan = with_highlights(&pieces);
    let ghost views = plan_views(plan@);
    assert(views.len() == plan@.len());
    let items = splice(plan);
    proof {
        assert forall|i: int| 0 <= i < items@.len() implies (#[trigger] items@[i] matches Written::Kept(
            k,
        ) ==> k < views.len()) by {
            lemma_kept_in_range(views, views.len() as int, i);
            assert(written_views(items@)[i] == items@[i]@);
        }
    }
    let unclean = write_html(markdown, RENDER_OPTIONS, &items);
    let mut attributes: Vec<String> = Vec::new();
    attributes.push("type".to_owned());
    attributes.push("checked".to_owned());
    attributes.push("disabled".to_owned());
    assert(texts(attributes@) =~= box_attributes());
    let mut generic: Vec<String> = Vec::new();
    generic.push("id".to_owned());
    assert(texts(generic@) =~= seq!["id"@]);
    proof {
        reveal_strlit("id");
        reveal_strlit("rel");
        reveal_strlit("input");
        reveal_strlit("a");
        reveal_strlit("script");
        reveal_strlit("style");
        assert("id"@.len() != "rel"@.len());
        assert("input"@.len() != "a"@.len() && "input"@.len() != "script"@.len());
        assert("input"@[0] != "style"@[0]);
    }
    clean_html(unclean.as_str(), "input", &attributes, &generic, LINK_RELATION)
}

} // verus!
