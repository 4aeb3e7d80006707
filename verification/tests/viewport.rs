use tree_reveal::app::{App, ClickAction, InputEvent, Key, Response};
use tree_reveal::tree::WalkEntry;

fn entry(segments: &[&str], is_dir: bool) -> WalkEntry {
    WalkEntry {
        path: segments.iter().map(|s| s.to_string()).collect(),
        name: segments.last().map(|s| s.to_string()).unwrap_or_default(),
        depth: segments.len() - 1,
        is_dir,
        size: 0,
    }
}

fn sample_app() -> App {
    App::new(&vec![
        entry(&["root"], true),
        entry(&["root", "A"], true),
        entry(&["root", "A", "x"], true),
        entry(&["root", "B"], true),
    ])
}

/// A root with `count` directories below it.
fn wide_app(count: usize) -> App {
    let mut walk = vec![entry(&["root"], true)];
    for i in 0..count {
        walk.push(entry(&["root", &format!("d{:03}", i)], true));
    }
    App::new(&walk)
}

fn grown(mut app: App) -> App {
    while !app.animation_complete() {
        app.increment_animation();
    }
    app
}

#[test]
fn the_first_node_is_selected_at_the_start() {
    let app = sample_app();
    assert_eq!(app.selected_index(), Some(0));
    assert_eq!(app.scroll_offset(), 0);
    assert!(app.preview_contents().is_empty());
}

#[test]
fn the_selection_moves_over_visible_nodes_only() {
    let mut app = sample_app();
    app.increment_animation();
    // depth 1 is revealed: the nodes 0, 1 and 3 are visible
    assert_eq!(app.select_next(), Some(1));
    assert_eq!(app.select_next(), Some(3));
    assert_eq!(app.selected_index(), Some(3));
    assert_eq!(app.select_next(), None);
    assert_eq!(app.selected_index(), Some(3));
    assert_eq!(app.select_previous(), Some(1));
    assert_eq!(app.select_previous(), Some(0));
    assert_eq!(app.select_previous(), None);
    assert_eq!(app.selected_index(), Some(0));
}

#[test]
fn the_selection_never_lands_on_a_hidden_node() {
    let mut app = sample_app();
    for _ in 0..4 {
        for _ in 0..5 {
            if let Some(index) = app.select_next() {
                assert!(app.nodes()[index].depth <= app.animation_depth());
            }
        }
        for _ in 0..5 {
            if let Some(index) = app.select_previous() {
                assert!(app.nodes()[index].depth <= app.animation_depth());
            }
        }
        app.increment_animation();
    }
}

#[test]
fn the_selection_stays_alone_while_only_the_root_shows() {
    let mut app = sample_app();
    assert_eq!(app.select_next(), None);
    assert_eq!(app.select_previous(), None);
    assert_eq!(app.selected_index(), Some(0));
}

#[test]
fn moving_the_selection_drops_the_old_listing() {
    let mut app = grown(sample_app());
    app.update_preview(
        0,
        &vec![tree_reveal::preview::PreviewItem { name: "A".to_string(), is_dir: true, size: 0 }],
    );
    app.scroll_preview_down(1);
    assert_eq!(app.preview_contents().len(), 1);
    assert_eq!(app.select_next(), Some(1));
    assert!(app.preview_contents().is_empty());
    assert_eq!(app.preview_scroll_offset(), 0);
}

#[test]
fn scrolling_stops_at_both_ends() {
    let mut app = grown(wide_app(7));
    // 8 visible lines in a view of 5: the offset runs from 0 to 3
    app.scroll_up();
    assert_eq!(app.scroll_offset(), 0);
    for expected in [1, 2, 3, 3, 3] {
        app.scroll_down(5);
        assert_eq!(app.scroll_offset(), expected);
    }
    app.scroll_up();
    assert_eq!(app.scroll_offset(), 2);
}

#[test]
fn scrolling_down_in_a_grown_view_comes_back_into_the_bounds() {
    let mut app = grown(wide_app(4));
    // 5 visible lines in a view of 3: the offset may reach 2
    app.scroll_down(3);
    app.scroll_down(3);
    assert_eq!(app.scroll_offset(), 2);
    // the view grows to 10 lines and holds every line: the bound is 0
    app.scroll_down(10);
    assert_eq!(app.scroll_offset(), 0);
    // and to 4 lines after scrolling to 2 again: the bound is 1
    app.scroll_down(3);
    app.scroll_down(3);
    app.scroll_down(4);
    assert_eq!(app.scroll_offset(), 1);
}

#[test]
fn the_down_keys_come_back_into_the_bounds() {
    let mut app = grown(wide_app(30));
    // a terminal of 14 rows scrolls over 10 lines: 31 lines allow 21 steps
    app.handle_key(Key::PageDown, 14);
    app.handle_key(Key::PageDown, 14);
    app.handle_key(Key::PageDown, 14);
    assert_eq!(app.scroll_offset(), 21);
    // a terminal of 30 rows scrolls over 26 lines: the bound is 5
    app.handle_key(Key::Down, 30);
    assert_eq!(app.scroll_offset(), 5);
    app.handle_key(Key::PageDown, 14);
    assert_eq!(app.scroll_offset(), 15);
    app.handle_key(Key::PageDown, 40);
    assert_eq!(app.scroll_offset(), 0);
}

#[test]
fn a_view_that_holds_every_line_does_not_scroll() {
    let mut app = grown(sample_app());
    app.scroll_down(4);
    assert_eq!(app.scroll_offset(), 0);
    app.scroll_down(10);
    assert_eq!(app.scroll_offset(), 0);
}

#[test]
fn scrolling_counts_the_revealed_lines_only() {
    let mut app = wide_app(7);
    app.scroll_down(1);
    // only the root shows yet
    assert_eq!(app.scroll_offset(), 0);
    app.increment_animation();
    app.scroll_down(1);
    assert_eq!(app.scroll_offset(), 1);
}

#[test]
fn the_view_follows_the_selection_down_and_up() {
    let mut app = grown(wide_app(20));
    for _ in 0..12 {
        app.select_next();
    }
    assert_eq!(app.selected_index(), Some(12));
    app.ensure_selected_visible(5);
    // line 12 becomes the last of the five lines shown
    assert_eq!(app.scroll_offset(), 8);
    app.ensure_selected_visible(5);
    assert_eq!(app.scroll_offset(), 8);
    for _ in 0..10 {
        app.select_previous();
    }
    app.ensure_selected_visible(5);
    assert_eq!(app.scroll_offset(), 2);
    let line = 2;
    assert!(app.scroll_offset() <= line && line < app.scroll_offset() + 5);
}

#[test]
fn a_view_without_height_scrolls_to_the_selection() {
    let mut app = grown(wide_app(20));
    for _ in 0..6 {
        app.select_next();
    }
    app.ensure_selected_visible(0);
    assert_eq!(app.scroll_offset(), 6);
}

#[test]
fn clicks_are_ignored_while_the_tree_grows() {
    let mut app = sample_app();
    assert_eq!(app.handle_mouse_click(1, 0, 10, 0), ClickAction::Ignored);
    app.increment_animation();
    assert_eq!(app.handle_mouse_click(2, 0, 10, 0), ClickAction::Ignored);
    assert_eq!(app.selected_index(), Some(0));
}

#[test]
fn a_second_click_in_time_opens_the_node() {
    let mut app = grown(sample_app());
    // row 4 of a frame that starts at row 0 is line 3
    assert_eq!(app.handle_mouse_click(4, 0, 10, 0), ClickAction::Select(3));
    assert_eq!(app.selected_index(), Some(3));
    assert_eq!(app.handle_mouse_click(4, 0, 10, 200_000_000), ClickAction::Open(3));
    // the double click is used up: the next click selects again
    assert_eq!(app.handle_mouse_click(4, 0, 10, 600_000_000), ClickAction::Select(3));
}

#[test]
fn a_late_second_click_selects_again() {
    let mut app = grown(sample_app());
    assert_eq!(app.handle_mouse_click(4, 0, 10, 1_000), ClickAction::Select(3));
    assert_eq!(app.handle_mouse_click(4, 0, 10, 500_001_000), ClickAction::Select(3));
    assert_eq!(app.handle_mouse_click(4, 0, 10, 1_000_000_999), ClickAction::Open(3));
}

#[test]
fn a_click_on_another_node_starts_anew() {
    let mut app = grown(sample_app());
    assert_eq!(app.handle_mouse_click(2, 0, 10, 0), ClickAction::Select(1));
    assert_eq!(app.handle_mouse_click(3, 0, 10, 100), ClickAction::Select(2));
    assert_eq!(app.handle_mouse_click(2, 0, 10, 200), ClickAction::Select(1));
    assert_eq!(app.handle_mouse_click(2, 0, 10, 300), ClickAction::Open(1));
}

#[test]
fn the_double_click_test_reads_the_pending_click() {
    let mut app = grown(sample_app());
    assert!(!app.is_double_click(3, 0));
    app.handle_mouse_click(4, 0, 10, 1_000_000_000);
    assert!(app.is_double_click(3, 1_499_999_999));
    assert!(!app.is_double_click(3, 1_500_000_000));
    assert!(!app.is_double_click(2, 1_100_000_000));
    // a clock that ran backwards counts as no time passed
    assert!(app.is_double_click(3, 900_000_000));
}

#[test]
fn clicks_on_the_frame_and_beyond_the_tree_are_ignored() {
    let mut app = grown(sample_app());
    // the first and the last row of the frame are its border
    assert_eq!(app.handle_mouse_click(5, 5, 8, 0), ClickAction::Ignored);
    assert_eq!(app.handle_mouse_click(12, 5, 8, 0), ClickAction::Ignored);
    assert_eq!(app.handle_mouse_click(4, 5, 8, 0), ClickAction::Ignored);
    assert_eq!(app.handle_mouse_click(13, 5, 8, 0), ClickAction::Ignored);
    // rows 6 to 9 hold the four lines, row 10 is empty
    assert_eq!(app.handle_mouse_click(10, 5, 8, 0), ClickAction::Ignored);
    assert_eq!(app.handle_mouse_click(9, 5, 8, 0), ClickAction::Select(3));
    assert_eq!(app.handle_mouse_click(6, 5, 8, 10), ClickAction::Select(0));
    // a frame without a row inside
    assert_eq!(app.handle_mouse_click(0, 0, 0, 0), ClickAction::Ignored);
    assert_eq!(app.handle_mouse_click(1, 0, 2, 0), ClickAction::Ignored);
}

#[test]
fn a_click_counts_from_the_scroll_offset() {
    let mut app = grown(wide_app(20));
    for _ in 0..4 {
        app.scroll_down(5);
    }
    assert_eq!(app.scroll_offset(), 4);
    assert_eq!(app.handle_mouse_click(1, 0, 7, 0), ClickAction::Select(4));
    assert_eq!(app.handle_mouse_click(5, 0, 7, 0), ClickAction::Select(8));
}

#[test]
fn the_keys_scroll_and_quit() {
    let mut app = grown(wide_app(40));
    assert!(app.handle_key(Key::Char('q'), 24));
    assert!(app.handle_key(Key::Esc, 24));
    assert!(!app.handle_key(Key::Char('x'), 24));
    assert!(!app.handle_key(Key::Other, 24));
    assert_eq!(app.scroll_offset(), 0);
    // a terminal of 24 rows scrolls over 20 lines: 41 lines allow 21 steps
    assert!(!app.handle_key(Key::Down, 24));
    assert_eq!(app.scroll_offset(), 1);
    assert!(!app.handle_key(Key::PageDown, 24));
    assert_eq!(app.scroll_offset(), 11);
    app.handle_key(Key::PageDown, 24);
    assert_eq!(app.scroll_offset(), 21);
    app.handle_key(Key::PageDown, 24);
    assert_eq!(app.scroll_offset(), 21);
    app.handle_key(Key::Up, 24);
    assert_eq!(app.scroll_offset(), 20);
    app.handle_key(Key::PageUp, 24);
    assert_eq!(app.scroll_offset(), 10);
    app.handle_key(Key::PageUp, 24);
    app.handle_key(Key::PageUp, 24);
    assert_eq!(app.scroll_offset(), 0);
}

#[test]
fn a_terminal_too_small_to_show_lines_still_scrolls_by_keys() {
    let mut app = grown(wide_app(3));
    // four rows or fewer leave a view without height: every line can scroll out
    app.handle_key(Key::PageDown, 3);
    assert_eq!(app.scroll_offset(), 4);
}

#[test]
fn each_event_is_handled_once_by_its_own_handler() {
    let mut app = grown(wide_app(40));
    let down = InputEvent::Key { key: Key::Down, terminal_height: 24 };
    assert_eq!(app.handle_event(down), Response::Carry);
    assert_eq!(app.scroll_offset(), 1);
    assert_eq!(app.handle_event(InputEvent::Other), Response::Carry);
    assert_eq!(app.scroll_offset(), 1);
    assert_eq!(app.selected_index(), Some(0));
    let click = InputEvent::LeftClick { row: 3, top: 0, height: 20, now: 0 };
    // one click selects; it takes a second one to open
    assert_eq!(app.handle_event(click), Response::LoadPreview(3));
    assert_eq!(app.selected_index(), Some(3));
    assert_eq!(app.scroll_offset(), 1);
    let again = InputEvent::LeftClick { row: 3, top: 0, height: 20, now: 1_000 };
    assert_eq!(app.handle_event(again), Response::Open(3));
    let border = InputEvent::LeftClick { row: 0, top: 0, height: 20, now: 2_000 };
    assert_eq!(app.handle_event(border), Response::Carry);
}

#[test]
fn the_quit_keys_ask_to_leave_and_change_nothing() {
    let mut app = grown(wide_app(40));
    app.scroll_down(5);
    let q = InputEvent::Key { key: Key::Char('q'), terminal_height: 24 };
    assert_eq!(app.handle_event(q), Response::Quit);
    let esc = InputEvent::Key { key: Key::Esc, terminal_height: 24 };
    assert_eq!(app.handle_event(esc), Response::Quit);
    assert_eq!(app.scroll_offset(), 1);
    assert_eq!(app.selected_index(), Some(0));
}
