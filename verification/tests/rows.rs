use tree_reveal::app::App;
use tree_reveal::preview::PreviewItem;
use tree_reveal::render::{size_label, Connector, Growth, PreviewRow, TreeRow};
use tree_reveal::tree::WalkEntry;

fn entry(segments: &[&str], is_dir: bool) -> WalkEntry {
    WalkEntry {
        path: segments.iter().map(|s| s.to_string()).collect(),
        name: segments.last().map(|s| s.to_string()).unwrap_or_default(),
        depth: segments.len() - 1,
        is_dir,
        size: 0,
    }
}

fn sample_app() -> App {
    App::new(&vec![
        entry(&["root"], true),
        entry(&["root", "A"], true),
        entry(&["root", "A", "x"], true),
        entry(&["root", "A", "x", "deep"], true),
        entry(&["root", "A", "y"], true),
        entry(&["root", "B"], true),
    ])
}

fn grown(mut app: App) -> App {
    while !app.animation_complete() {
        app.increment_animation();
    }
    app
}

fn full(last: bool) -> Option<Connector> {
    Some(Connector { last, growth: Growth::Full })
}

#[test]
fn sizes_are_shown_in_binary_units() {
    assert_eq!(size_label(0), "0 B");
    assert_eq!(size_label(1023), "1023 B");
    assert_eq!(size_label(1024), "1 KiB");
    assert_eq!(size_label(1536), "1.50 KiB");
    assert_eq!(size_label(5 * 1024 * 1024), "5 MiB");
    assert_eq!(size_label(u64::MAX), "16 EiB");
}

#[test]
fn the_rows_of_a_grown_tree() {
    let app = grown(sample_app());
    let rows = app.tree_rows(10);
    assert_eq!(
        rows,
        vec![
            TreeRow { node_index: 0, guides: vec![], connector: None, selected: true },
            TreeRow { node_index: 1, guides: vec![], connector: full(false), selected: false },
            TreeRow { node_index: 2, guides: vec![true], connector: full(false), selected: false },
            TreeRow {
                node_index: 3,
                guides: vec![true, false],
                connector: full(true),
                selected: false,
            },
            TreeRow { node_index: 4, guides: vec![false], connector: full(true), selected: false },
            TreeRow { node_index: 5, guides: vec![], connector: full(true), selected: false },
        ]
    );
}

#[test]
fn the_rows_start_at_the_scroll_offset_and_fill_the_view() {
    let mut app = grown(sample_app());
    app.scroll_down(2);
    app.scroll_down(2);
    let rows = app.tree_rows(2);
    let shown: Vec<usize> = rows.iter().map(|r| r.node_index).collect();
    assert_eq!(shown, vec![2, 3]);
    assert!(app.tree_rows(0).is_empty());
    let rest: Vec<usize> = app.tree_rows(100).iter().map(|r| r.node_index).collect();
    assert_eq!(rest, vec![2, 3, 4, 5]);
}

#[test]
fn the_frontier_grows_its_connectors_frame_by_frame() {
    let mut app = sample_app();
    let start = app.tree_rows(10);
    assert_eq!(start.len(), 1);
    assert_eq!(start[0].connector, None);
    app.increment_animation();
    // depth 1 has just been revealed, in frame 1
    let rows = app.tree_rows(10);
    let shown: Vec<usize> = rows.iter().map(|r| r.node_index).collect();
    assert_eq!(shown, vec![0, 1, 5]);
    assert_eq!(rows[1].connector, Some(Connector { last: false, growth: Growth::Half }));
    assert_eq!(rows[2].connector, Some(Connector { last: true, growth: Growth::Half }));
    app.increment_animation();
    // depth 2 grows in frame 2, depth 1 is whole
    let rows = app.tree_rows(10);
    assert_eq!(rows[1].connector, full(false));
    assert_eq!(rows[2].connector, full(false));
    assert_eq!(rows[2].guides, vec![true]);
    app.increment_animation();
    // depth 3 grows in frame 0
    let rows = app.tree_rows(10);
    assert_eq!(rows[3].node_index, 3);
    assert_eq!(rows[3].connector, Some(Connector { last: true, growth: Growth::Sprout }));
    app.increment_animation();
    assert!(app.animation_complete());
    assert_eq!(app.tree_rows(10)[3].connector, full(true));
}

#[test]
fn the_selected_row_is_marked() {
    let mut app = grown(sample_app());
    app.select_next();
    app.select_next();
    let marks: Vec<bool> = app.tree_rows(10).iter().map(|r| r.selected).collect();
    assert_eq!(marks, vec![false, false, true, false, false, false]);
}

#[test]
fn the_preview_rows_show_sizes_of_files_only() {
    let mut app = grown(sample_app());
    app.update_preview(
        0,
        &vec![
            PreviewItem { name: "notes.txt".to_string(), is_dir: false, size: 2048 },
            PreviewItem { name: "A".to_string(), is_dir: true, size: 4096 },
            PreviewItem { name: "empty".to_string(), is_dir: false, size: 0 },
        ],
    );
    assert_eq!(
        app.preview_rows(10),
        vec![
            PreviewRow { name: "A".to_string(), is_dir: true, size_text: None },
            PreviewRow {
                name: "empty".to_string(),
                is_dir: false,
                size_text: Some("0 B".to_string()),
            },
            PreviewRow {
                name: "notes.txt".to_string(),
                is_dir: false,
                size_text: Some("2 KiB".to_string()),
            },
        ]
    );
}

#[test]
fn the_preview_rows_start_at_the_scroll_offset() {
    let mut app = grown(sample_app());
    let listing: Vec<PreviewItem> = ["a", "b", "c", "d"]
        .iter()
        .map(|n| PreviewItem { name: n.to_string(), is_dir: true, size: 0 })
        .collect();
    app.update_preview(0, &listing);
    app.scroll_preview_down(1);
    let shown: Vec<String> = app.preview_rows(2).into_iter().map(|r| r.name).collect();
    assert_eq!(shown, vec!["b", "c"]);
    let rest: Vec<String> = app.preview_rows(9).into_iter().map(|r| r.name).collect();
    assert_eq!(rest, vec!["b", "c", "d"]);
    assert!(app.preview_rows(0).is_empty());
}
