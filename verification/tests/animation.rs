use tree_reveal::app::App;
use tree_reveal::tree::{FileNode, WalkEntry};

fn entry(segments: &[&str], is_dir: bool) -> WalkEntry {
    WalkEntry {
        path: segments.iter().map(|s| s.to_string()).collect(),
        name: segments.last().map(|s| s.to_string()).unwrap_or_default(),
        depth: segments.len() - 1,
        is_dir,
        size: 0,
    }
}

fn sample_app() -> App {
    App::new(&vec![
        entry(&["root"], true),
        entry(&["root", "A"], true),
        entry(&["root", "A", "x"], true),
        entry(&["root", "B"], true),
    ])
}

fn node_of_depth(depth: usize) -> FileNode {
    FileNode { path: Vec::new(), name: String::new(), is_dir: true, depth, is_last_child: true }
}

#[test]
fn the_animation_starts_with_the_root_revealed() {
    let app = sample_app();
    assert_eq!(app.animation_depth(), 0);
    assert!(!app.animation_complete());
    assert_eq!(app.animation_frame(), 0);
    assert_eq!(app.get_visible_node_indices(), vec![0]);
    assert_eq!(app.stats().max_depth, 2);
}

#[test]
fn the_animation_completes_one_tick_past_the_deepest_level() {
    let mut app = sample_app();
    let mut seen = Vec::new();
    for _ in 0..5 {
        app.increment_animation();
        seen.push((app.animation_depth(), app.animation_complete(), app.animation_frame()));
    }
    assert_eq!(
        seen,
        vec![(1, false, 1), (2, false, 2), (3, true, 0), (3, true, 0), (3, true, 0)]
    );
}

#[test]
fn a_node_shows_from_the_tick_of_its_depth_on() {
    let mut app = sample_app();
    let probe = node_of_depth(2);
    let mut shown = vec![app.is_node_visible(&probe)];
    for _ in 0..4 {
        app.increment_animation();
        shown.push(app.is_node_visible(&probe));
    }
    assert_eq!(shown, vec![false, false, true, true, true]);
}

#[test]
fn each_tick_reveals_one_more_level() {
    let mut app = sample_app();
    app.increment_animation();
    assert_eq!(app.get_visible_node_indices(), vec![0, 1, 3]);
    app.increment_animation();
    assert_eq!(app.get_visible_node_indices(), vec![0, 1, 2, 3]);
}

#[test]
fn a_tick_is_due_after_ten_milliseconds() {
    let mut app = sample_app();
    assert!(!app.tick(9_999_999));
    assert_eq!(app.animation_depth(), 0);
    assert!(app.tick(10_000_000));
    assert_eq!(app.animation_depth(), 1);
    assert!(app.tick(25_000_000));
    assert_eq!(app.animation_depth(), 2);
}

#[test]
fn a_tree_of_one_level_completes_with_the_first_tick() {
    let mut app = App::new(&vec![entry(&["root"], true)]);
    app.increment_animation();
    assert!(app.animation_complete());
    assert_eq!(app.animation_depth(), 1);
}

#[test]
fn files_below_the_root_do_not_hold_the_animation_up() {
    let mut app = App::new(&vec![
        entry(&["root"], true),
        entry(&["root", "a.txt"], false),
        entry(&["root", "b.txt"], false),
    ]);
    assert_eq!(app.stats().max_depth, 0);
    app.increment_animation();
    assert!(app.animation_complete());
}

#[test]
fn an_empty_tree_has_no_selection() {
    let mut app = App::new(&Vec::new());
    assert_eq!(app.selected_index(), None);
    assert!(app.nodes().is_empty());
    app.increment_animation();
    assert!(app.animation_complete());
    assert_eq!(app.select_next(), None);
    assert_eq!(app.select_previous(), None);
}
