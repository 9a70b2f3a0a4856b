//! The front end keeps its promises to the keyboard and the pointer.

use mdtree::assets::{app_js, index, style_css};

fn page() -> String {
    index().body
}

fn script() -> String {
    app_js().body
}

fn style() -> String {
    style_css().body
}

#[test]
fn assets_are_served_with_their_media_types() {
    assert_eq!(index().content_type, "text/html; charset=utf-8");
    assert_eq!(app_js().content_type, "text/javascript; charset=utf-8");
    assert_eq!(style_css().content_type, "text/css; charset=utf-8");
    assert!(page().contains("/app.js") && page().contains("/style.css"));
}

#[test]
fn keyboard_shortcuts_toggle_markdown_and_copy_the_canonical_path_with_feedback() {
    assert!(script().contains("event.key === \"v\" || event.key === \"V\""));
    assert!(script().contains("if (event.ctrlKey || event.metaKey)"));
    assert!(script().contains("copySelectedPath().catch(reportError)"));
    assert!(script().contains("summaryForNode(selectedId)?.path"));
    assert!(script().contains("flashCopiedNode(selectedId)"));
    assert!(style().contains(".node-card.path-copied:after"));
    assert!(style().contains("node-path-copied"));
    assert!(page().contains("Show/hide the Markdown preview pane"));
    assert!(page().contains("Copy selected node path"));
}

#[test]
fn a_plain_pointer_click_selects_without_opening_markdown() {
    assert!(script().contains("setSelected(finished.id);"));
    assert!(!script().contains("selectAndOpen(finished.id)"));
}

#[test]
fn a_second_plain_click_on_the_same_card_within_the_window_toggles_expand() {
    assert!(script().contains("const DOUBLE_CLICK_MS = 400;"));
    assert!(script().contains(
        "lastCardClick && lastCardClick.id === finished.id && now - lastCardClick.time <= DOUBLE_CLICK_MS"
    ));
    assert!(script().contains("toggleExpand(finished.id).catch(reportError);"));
}

#[test]
fn arrow_key_navigation_pans_a_newly_selected_node_back_into_the_viewport() {
    assert!(script().contains("function selectAndReveal(id) {"));
    assert!(script().contains("function panIntoViewIfNeeded(id) {"));
    assert!(script().contains("selectAndReveal(parentId);"));
    assert!(script().contains("selectAndReveal(node.children[0].id);"));
    assert!(script().contains("selectAndReveal(siblings[nextIndex].id);"));
}

#[test]
fn a_node_cards_reload_control_is_reachable_by_hovering_it_not_only_when_stale() {
    assert!(style().contains(".node-card:hover .node-card-reload"));
}

#[test]
fn enter_toggles_expand_on_the_selected_node_like_space_does() {
    assert_eq!(
        script().matches("toggleExpand(state.selected).catch(reportError);").count(),
        2,
        "expected both the Space and Enter handlers to toggle expand on the selection"
    );
    assert!(script().contains("if (event.key === \"Enter\") {"));
    assert!(page().contains("Space / Enter"));
}

#[test]
fn a_node_with_more_relations_than_fit_one_row_wraps_instead_of_overflowing() {
    assert!(script().contains("relationsRow.className = \"flex flex-wrap items-center gap-1.5\";"));
    assert!(!script().contains("relationsRow.className = \"flex h-2 items-center gap-1.5\";"));
    assert!(script().contains("function relationsRowCount(node) {"));
    assert!(script().contains("const RELATIONS_DOTS_PER_ROW = Math.floor("));
}

#[test]
fn arrow_right_opens_a_closed_node_with_children_instead_of_doing_nothing() {
    assert!(script().contains("else if (summaryForNode(current)?.children_count > 0) {"));
}

#[test]
fn hovering_a_card_does_not_show_the_canvas_pan_grab_cursor() {
    assert!(style().contains("cursor:default"));
    assert!(style().contains("cursor:grabbing"));
}

#[test]
fn the_reload_button_matches_the_more_actions_buttons_look_and_has_a_tooltip() {
    assert!(script().contains("reload.title = \"Reload\";"));
    assert!(script().contains("actions.appendChild(reload);"));
    assert!(script().contains("actions.appendChild(moreButton);"));
}

#[test]
fn sibling_spacing_accounts_for_each_cards_actual_height_not_just_its_own() {
    assert!(script().contains("function topExtent(node) {"));
    assert!(script().contains("function bottomExtent(node) {"));
    assert!(script().contains(
        "previousY + bottomExtent(previousChild) + SLOT_GAP + topExtent(child)"
    ));
    assert!(!script().contains("function subtreeHeight(node) {"));
}

#[test]
fn creating_a_child_flags_only_its_parent_stale_not_the_whole_tree() {
    assert!(script().contains("state.stale.add(pending.parentId);"));
    assert!(script().contains("suppressNextChangeSweeps: 0,"));
    assert!(script().contains("function noteSelfCausedChange() {"));
    assert!(script().contains("workspace.suppressNextChangeSweeps += 1;"));
    assert!(script().contains(
        "if (workspace.suppressNextChangeSweeps > 0) {\n        workspace.suppressNextChangeSweeps -= 1;"
    ));
}

#[test]
fn search_arrow_keys_move_a_highlight_without_stealing_focus_from_the_input() {
    assert!(script().contains("} else if (event.key === \"ArrowDown\") {"));
    assert!(script().contains("moveSearchHighlight(1);"));
    assert!(script().contains("moveSearchHighlight(-1);"));
    assert!(script().contains("getSearchResultItems()[highlightedResultIndex]?.click();"));
    assert!(!script().contains(".search-result-item\")?.click();"));
    assert!(script().contains("function applySearchHighlight(index) {"));
    assert!(style().contains(".search-result-item.highlighted"));
}
