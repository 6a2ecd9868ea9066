//! Navigation, expansion and click-mapping behavior of the interactive state
//! machine.

use recall::app::App;
use recall::engine::SessionIndex;

/// A minimal App for exercising navigation and expansion, over an empty
/// index.
fn test_app() -> App {
    let mut app = App::new(Vec::new(), String::new(), SessionIndex::new(), 0);
    app.indexing = false;
    app.listening = false;
    app.search_scope = recall::app::SearchScope::Everything;
    app
}

#[test]
fn test_focus_prev_at_first_message_stays() {
    let mut app = test_app();
    app.preview_message_count = 5;
    app.focused_message = Some(0);

    app.focus_prev_message();

    assert_eq!(app.focused_message, Some(0));
}

#[test]
fn test_focus_prev_moves_up() {
    let mut app = test_app();
    app.preview_message_count = 5;
    app.focused_message = Some(3);

    app.focus_prev_message();

    assert_eq!(app.focused_message, Some(2));
}

#[test]
fn test_focus_prev_from_none_at_zero_stays_none() {
    let mut app = test_app();
    app.preview_message_count = 5;
    app.focused_message = None;

    app.focus_prev_message();

    assert_eq!(app.focused_message, None);
}

#[test]
fn test_focus_prev_no_messages_noop() {
    let mut app = test_app();
    app.preview_message_count = 0;
    app.focused_message = Some(2);

    app.focus_prev_message();

    assert_eq!(app.focused_message, Some(2));
}

#[test]
fn test_focus_next_at_last_message_stays() {
    let mut app = test_app();
    app.preview_message_count = 5;
    app.focused_message = Some(4);

    app.focus_next_message();

    assert_eq!(app.focused_message, Some(4));
}

#[test]
fn test_focus_next_moves_down() {
    let mut app = test_app();
    app.preview_message_count = 5;
    app.focused_message = Some(2);

    app.focus_next_message();

    assert_eq!(app.focused_message, Some(3));
}

#[test]
fn test_focus_next_from_none_uses_matched_index() {
    let mut app = test_app();
    app.preview_message_count = 5;
    app.focused_message = None;

    app.focus_next_message();

    assert_eq!(app.focused_message, Some(1));
}

#[test]
fn test_focus_next_no_messages_noop() {
    let mut app = test_app();
    app.preview_message_count = 0;
    app.focused_message = Some(2);

    app.focus_next_message();

    assert_eq!(app.focused_message, Some(2));
}

#[test]
fn test_toggle_expands_collapsed_message() {
    let mut app = test_app();
    app.preview_message_count = 5;
    app.focused_message = Some(2);

    app.toggle_focused_expansion();

    assert!(app.expanded_messages.contains(&2));
}

#[test]
fn test_toggle_collapses_expanded_message() {
    let mut app = test_app();
    app.preview_message_count = 5;
    app.focused_message = Some(2);
    app.expanded_messages.insert(2);

    app.toggle_focused_expansion();

    assert!(!app.expanded_messages.contains(&2));
}

#[test]
fn test_toggle_no_messages_noop() {
    let mut app = test_app();
    app.preview_message_count = 0;
    app.focused_message = Some(2);

    app.toggle_focused_expansion();

    assert!(app.expanded_messages.is_empty());
}

#[test]
fn test_multiple_messages_can_be_expanded() {
    let mut app = test_app();
    app.preview_message_count = 5;

    app.focused_message = Some(1);
    app.toggle_focused_expansion();

    app.focused_message = Some(3);
    app.toggle_focused_expansion();

    assert!(app.expanded_messages.contains(&1));
    assert!(app.expanded_messages.contains(&3));
    assert_eq!(app.expanded_messages.len(), 2);
}

#[test]
fn test_click_inside_preview_selects_message() {
    let mut app = test_app();
    app.preview_area = (50, 5, 60, 20);
    app.preview_scroll = 0;
    app.message_line_ranges = vec![(0, 5), (5, 12), (12, 18)];

    let clicked = app.click_preview_message(55, 12);

    assert!(clicked);
    assert_eq!(app.focused_message, Some(1));
}

#[test]
fn test_click_outside_preview_returns_false() {
    let mut app = test_app();
    app.preview_area = (50, 5, 60, 20);
    app.message_line_ranges = vec![(0, 5), (5, 12)];

    let clicked = app.click_preview_message(10, 10);

    assert!(!clicked);
    assert_eq!(app.focused_message, None);
}

#[test]
fn test_click_accounts_for_scroll() {
    let mut app = test_app();
    app.preview_area = (50, 5, 60, 20);
    app.preview_scroll = 10;
    app.message_line_ranges = vec![(0, 5), (5, 12), (12, 25)];

    let clicked = app.click_preview_message(55, 5);

    assert!(clicked);
    assert_eq!(app.focused_message, Some(1));
}

#[test]
fn test_click_on_empty_area_returns_false() {
    let mut app = test_app();
    app.preview_area = (50, 5, 60, 20);
    app.preview_scroll = 0;
    app.message_line_ranges = vec![(0, 3), (4, 8)];

    let clicked = app.click_preview_message(55, 8);

    assert!(!clicked);
}

#[test]
fn test_navigation_sets_pending_auto_scroll() {
    let mut app = test_app();
    app.preview_message_count = 5;
    app.focused_message = Some(2);
    app.pending_auto_scroll = false;

    app.focus_next_message();

    assert!(app.pending_auto_scroll);
}
