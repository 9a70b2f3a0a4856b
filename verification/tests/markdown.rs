//! Markdown rendering: highlights and sanitized HTML.

use mdtree::markdown::{
    highlight_spans, render_sanitized_html, splice, split_highlights, with_highlights, Part, Piece,
    Written,
};

fn spans(text: &str) -> Vec<(usize, usize)> {
    highlight_spans(text)
}

fn written(parts: &[Part]) -> String {
    parts
        .iter()
        .map(|part| match part {
            Part::Text(text) | Part::Markup(text) => text.as_str(),
        })
        .collect()
}

#[test]
fn spans_pair_openers_with_closers() {
    assert_eq!(spans("==a== and ==b=="), vec![(0, 3), (10, 13)]);
    assert_eq!(spans("x ==r\u{12b}ga== y"), vec![(2, 9)]);
    assert_eq!(spans("\u{20ac}\u{1f600} ==a=="), vec![(8, 11)]);
    assert_eq!(spans("==a == b=="), vec![(0, 8)]);
    assert_eq!(spans("===a==="), vec![]);
    assert_eq!(spans("==a"), vec![]);
    assert_eq!(spans("===="), vec![]);
    assert_eq!(spans(""), vec![]);
}

#[test]
fn highlighting_rewrites_only_delimiters() {
    let parts = split_highlights("some ==a < b== here").expect("highlight");
    assert_eq!(written(&parts), "some <mark>a < b</mark> here");
    assert!(split_highlights("nothing to see").is_none());
}

#[test]
fn text_in_code_blocks_and_images_is_kept() {
    let plan = with_highlights(&vec![
        Piece::Text("==a==".into()),
        Piece::CodeBlockStart,
        Piece::Text("==b==".into()),
        Piece::CodeBlockEnd,
        Piece::ImageStart,
        Piece::ImageStart,
        Piece::ImageEnd,
        Piece::Text("==c==".into()),
        Piece::ImageEnd,
        Piece::ImageEnd,
        Piece::Other,
        Piece::Text("==d==".into()),
    ]);
    let replaced: Vec<usize> = (0..plan.len()).filter(|i| plan[*i].is_some()).collect();
    assert_eq!(replaced, vec![0, 11]);
}

#[test]
fn planned_parts_stand_in_the_place_of_their_events() {
    let plan = with_highlights(&vec![
        Piece::Other,
        Piece::Text("x ==a==".into()),
        Piece::Other,
    ]);
    let items = splice(plan);
    assert_eq!(items.len(), 6);
    assert!(matches!(items[0], Written::Kept(0)));
    assert!(matches!(&items[1], Written::Text(text) if text == "x "));
    assert!(matches!(&items[2], Written::Markup(text) if text == "<mark>"));
    assert!(matches!(&items[3], Written::Text(text) if text == "a"));
    assert!(matches!(&items[4], Written::Markup(text) if text == "</mark>"));
    assert!(matches!(items[5], Written::Kept(2)));
}

#[test]
fn ids_survive_sanitizing_and_footnotes_render() {
    let html = render_sanitized_html("note[^1]\n\n[^1]: here\n\n~~gone~~");
    assert!(html.contains("id=\"1\""), "{html}");
    assert!(html.contains("<del>gone</del>"), "{html}");
}

#[test]
fn renders_double_equals_as_highlight() {
    let html = render_sanitized_html("some ==a < b & c== here");
    assert!(html.contains("<mark>a &lt; b &amp; c</mark>"), "{html}");
    assert!(html.contains("some ") && html.contains(" here"));
}

#[test]
fn highlights_multiple_spans_and_inside_other_markup() {
    let html = render_sanitized_html("==a== and ==b==\n\n# ==Title==\n\n**bold ==c== bold**");
    assert!(html.contains("<mark>a</mark> and <mark>b</mark>"), "{html}");
    assert!(html.contains("<mark>Title</mark>"), "{html}");
    assert!(
        html.contains("<strong>bold <mark>c</mark> bold</strong>"),
        "{html}"
    );
}

#[test]
fn leaves_non_highlight_equals_alone() {
    for source in [
        "a == b == c",
        "==open only",
        "a ==== b ====",
        "x = y",
        "== ==",
    ] {
        assert!(
            !render_sanitized_html(source).contains("<mark>"),
            "{source}"
        );
    }
}

#[test]
fn never_highlights_inside_code_or_image_alt() {
    let html = render_sanitized_html(
        "`==a==`\n\n```\n==b==\n```\n\n![==c==](https://example.com/p.png)",
    );
    assert!(!html.contains("<mark>"), "{html}");
    assert!(html.contains("==a==") && html.contains("==b==") && html.contains("==c=="));
}

#[test]
fn strips_script_tags_and_inline_event_handlers() {
    let html = render_sanitized_html(
        "before\n\n<script>alert('x')</script>\n\n<img src=x onerror=\"alert('y')\">",
    );
    assert!(!html.contains("<script"));
    assert!(!html.contains("onerror"));
    assert!(html.contains("before"));
}

#[test]
fn strips_javascript_urls_from_links() {
    let html = render_sanitized_html("[click me](javascript:alert('x'))");
    assert!(!html.to_lowercase().contains("javascript:"));
}

#[test]
fn preserves_task_list_checkboxes_and_tables() {
    let html =
        render_sanitized_html("- [x] done\n- [ ] todo\n\n| a | b |\n|---|---|\n| 1 | 2 |\n");
    assert!(html.contains("type=\"checkbox\""));
    assert!(html.contains("checked"));
    assert!(html.contains("<table"));
}

#[test]
fn renders_full_github_style_fidelity() {
    let html = render_sanitized_html(
        "# Heading 1\n\n## Heading 2\n\n> a blockquote\n\n\
         * a list item\n* another\n\n1. first\n2. second\n\n\
         an inline `code span` here.\n\n\
         ```rust\nfn main() {}\n```\n\n\
         ![alt text](https://example.com/pic.png)\n\n\
         [a link](https://example.com)\n",
    );
    assert!(html.contains("<h1"));
    assert!(html.contains("<h2"));
    assert!(html.contains("<blockquote"));
    assert!(html.contains("<ul"));
    assert!(html.contains("<ol"));
    assert!(html.contains("<code>code span</code>"));
    assert!(html.contains("<pre"));
    assert!(html.contains("fn main"));
    assert!(html.contains("<img") && html.contains("example.com/pic.png"));
    assert!(html.contains("<a") && html.contains("href=\"https://example.com\""));
}

#[test]
fn external_links_get_a_safe_rel_attribute() {
    let html = render_sanitized_html("[a link](https://example.com)");
    assert!(html.contains("rel=\"noopener noreferrer nofollow\""));
}
