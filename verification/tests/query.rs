//! The search box and its qualifiers.

use mdtree::query::{parse_query, trim, unquote};

#[test]
fn plain_text_is_the_default_term() {
    let parsed = parse_query("orders table");
    assert_eq!(parsed.default.as_deref(), Some("orders table"));
    assert!(parsed.workspace.is_none());
    assert!(parsed.slug.is_none());
    assert!(parsed.text.is_none());
}

#[test]
fn qualifiers_split_into_their_own_fields() {
    let parsed = parse_query("workspace: MDTree slug: search text: header");
    assert_eq!(parsed.workspace.as_deref(), Some("MDTree"));
    assert_eq!(parsed.slug.as_deref(), Some("search"));
    assert_eq!(parsed.text.as_deref(), Some("header"));
    assert!(parsed.default.is_none());
}

#[test]
fn a_qualifier_keyword_inside_a_word_is_not_recognized() {
    let parsed = parse_query("subworkspace:notes");
    assert_eq!(parsed.default.as_deref(), Some("subworkspace:notes"));
    assert!(parsed.workspace.is_none());
}

#[test]
fn quoted_qualifier_values_may_contain_spaces() {
    let parsed = parse_query(r#"workspace: "My Workspace" text: foo bar"#);
    assert_eq!(parsed.workspace.as_deref(), Some("My Workspace"));
    assert_eq!(parsed.text.as_deref(), Some("foo bar"));
}

#[test]
fn non_ascii_text_around_a_qualifier_keeps_offsets_valid() {
    let parsed = parse_query("Rīga slug: rīga-pilsēta");
    assert_eq!(parsed.default.as_deref(), Some("Rīga"));
    assert_eq!(parsed.slug.as_deref(), Some("rīga-pilsēta"));
}

#[test]
fn keywords_are_recognized_in_any_letter_case() {
    let parsed = parse_query("find Workspace: A SLUG:b tExT: c d");
    assert_eq!(parsed.default.as_deref(), Some("find"));
    assert_eq!(parsed.workspace.as_deref(), Some("A"));
    assert_eq!(parsed.slug.as_deref(), Some("b"));
    assert_eq!(parsed.text.as_deref(), Some("c d"));
}

#[test]
fn a_later_value_wins_and_an_empty_one_does_not_count() {
    let parsed = parse_query("slug: a slug: b slug: \"\"");
    assert_eq!(parsed.slug.as_deref(), Some("b"));
    assert!(parse_query("slug:").slug.is_none());
}

#[test]
fn a_keyword_inside_a_word_does_not_hide_a_later_one() {
    let parsed = parse_query("subslug:x slug:y");
    assert_eq!(parsed.slug.as_deref(), Some("y"));
    assert_eq!(parsed.default.as_deref(), Some("subslug:x"));
    let parsed = parse_query("subslug:x text: a slug: y");
    assert_eq!(parsed.default.as_deref(), Some("subslug:x"));
    assert_eq!(parsed.text.as_deref(), Some("a"));
    assert_eq!(parsed.slug.as_deref(), Some("y"));
    let parsed = parse_query("text: subtext: more text: last");
    assert_eq!(parsed.text.as_deref(), Some("last"));
}

#[test]
fn an_empty_query_asks_for_nothing() {
    assert!(parse_query("").is_empty());
    assert!(parse_query(" \t ").is_empty());
    assert!(!parse_query("a").is_empty());
}

#[test]
fn trimming_and_unquoting_take_only_the_ends() {
    assert_eq!(trim("\u{2003} a b \n"), "a b");
    assert_eq!(trim("   "), "");
    assert_eq!(unquote("\"a b\""), "a b");
    assert_eq!(unquote("\""), "\"");
    assert_eq!(unquote("a\"b"), "a\"b");
}
