use tree_reveal::app::{App, Key};
use tree_reveal::preview::{item_before_or_equal, name_before_or_equal, sort_listing, PreviewItem};
use tree_reveal::tree::WalkEntry;

fn item(name: &str, is_dir: bool, size: u64) -> PreviewItem {
    PreviewItem { name: name.to_string(), is_dir, size }
}

fn names(items: &[PreviewItem]) -> Vec<&str> {
    items.iter().map(|i| i.name.as_str()).collect()
}

fn one_node_app() -> App {
    App::new(&vec![WalkEntry {
        path: vec!["root".to_string()],
        name: "root".to_string(),
        depth: 0,
        is_dir: true,
        size: 0,
    }])
}

#[test]
fn directories_come_before_files() {
    let sorted = sort_listing(&vec![item("b.txt", false, 1), item("a", true, 0), item("c", true, 0)]);
    assert_eq!(names(&sorted), vec!["a", "c", "b.txt"]);
}

#[test]
fn names_are_ordered_byte_by_byte() {
    let sorted = sort_listing(&vec![
        item("b", false, 0),
        item("a", false, 0),
        item("B", false, 0),
        item("ab", false, 0),
        item("", false, 0),
        item("é", false, 0),
        item("z", false, 0),
    ]);
    assert_eq!(names(&sorted), vec!["", "B", "a", "ab", "b", "z", "é"]);
}

#[test]
fn equal_items_keep_their_order() {
    let sorted = sort_listing(&vec![
        item("same", false, 3),
        item("other", false, 9),
        item("same", false, 1),
        item("same", false, 2),
    ]);
    let sizes: Vec<u64> = sorted.iter().map(|i| i.size).collect();
    assert_eq!(names(&sorted), vec!["other", "same", "same", "same"]);
    assert_eq!(sizes, vec![9, 3, 1, 2]);
}

#[test]
fn sorting_matches_the_order_of_strings() {
    let listing: Vec<PreviewItem> = ["pear", "Apple", "fig", "apple", "Fig", "zeta", "10", "9", "a b", "a-b"]
        .iter()
        .enumerate()
        .map(|(i, n)| item(n, i % 3 == 0, i as u64))
        .collect();
    let sorted = sort_listing(&listing);
    let mut expected = listing.clone();
    expected.sort_by(|a, b| b.is_dir.cmp(&a.is_dir).then(a.name.cmp(&b.name)));
    assert_eq!(sorted, expected);
    assert_eq!(sorted.len(), listing.len());
}

#[test]
fn an_empty_listing_sorts_to_itself() {
    assert!(sort_listing(&Vec::new()).is_empty());
}

#[test]
fn names_compare_as_strings_do() {
    assert!(name_before_or_equal("a", "b"));
    assert!(!name_before_or_equal("b", "a"));
    assert!(name_before_or_equal("a", "a"));
    assert!(name_before_or_equal("a", "ab"));
    assert!(!name_before_or_equal("ab", "a"));
    assert!(name_before_or_equal("", "a"));
    assert!(name_before_or_equal("Z", "a"));
    assert!(name_before_or_equal("z", "é"));
}

#[test]
fn a_directory_stands_before_any_file() {
    assert!(item_before_or_equal(&item("z", true, 0), &item("a", false, 0)));
    assert!(!item_before_or_equal(&item("a", false, 0), &item("z", true, 0)));
    assert!(item_before_or_equal(&item("a", true, 0), &item("b", true, 0)));
    assert!(!item_before_or_equal(&item("b", false, 0), &item("a", false, 0)));
}

#[test]
fn loading_a_preview_sorts_it_and_scrolls_to_its_top() {
    let mut app = one_node_app();
    app.update_preview(0, &vec![item("b.txt", false, 5), item("a", true, 0), item("c", true, 0)]);
    assert_eq!(names(app.preview_contents()), vec!["a", "c", "b.txt"]);
    app.scroll_preview_down(2);
    assert_eq!(app.preview_scroll_offset(), 2);
    app.update_preview(0, &vec![item("only", false, 1)]);
    assert_eq!(names(app.preview_contents()), vec!["only"]);
    assert_eq!(app.preview_scroll_offset(), 0);
}

#[test]
fn a_preview_of_no_node_is_empty() {
    let mut app = one_node_app();
    app.update_preview(0, &vec![item("a", true, 0)]);
    app.update_preview(1, &vec![item("b", true, 0)]);
    assert!(app.preview_contents().is_empty());
    assert_eq!(app.preview_scroll_offset(), 0);
}

#[test]
fn the_preview_scrolls_to_its_last_line_and_no_further() {
    let mut app = one_node_app();
    app.update_preview(
        0,
        &vec![item("a", false, 0), item("b", false, 0), item("c", false, 0), item("d", false, 0)],
    );
    app.scroll_preview_up();
    assert_eq!(app.preview_scroll_offset(), 0);
    app.scroll_preview_down(1);
    assert_eq!(app.preview_scroll_offset(), 1);
    app.scroll_preview_down(5);
    assert_eq!(app.preview_scroll_offset(), 3);
    app.scroll_preview_down(usize::MAX);
    assert_eq!(app.preview_scroll_offset(), 3);
    app.scroll_preview_up();
    assert_eq!(app.preview_scroll_offset(), 2);
}

#[test]
fn an_empty_preview_does_not_scroll() {
    let mut app = one_node_app();
    app.scroll_preview_down(3);
    assert_eq!(app.preview_scroll_offset(), 0);
    app.scroll_preview_up();
    assert_eq!(app.preview_scroll_offset(), 0);
}

#[test]
fn the_side_arrows_scroll_the_preview() {
    let mut app = one_node_app();
    app.update_preview(0, &vec![item("a", false, 0), item("b", false, 0)]);
    assert!(!app.handle_key(Key::Right, 24));
    assert_eq!(app.preview_scroll_offset(), 1);
    app.handle_key(Key::Right, 24);
    assert_eq!(app.preview_scroll_offset(), 1);
    app.handle_key(Key::Left, 24);
    assert_eq!(app.preview_scroll_offset(), 0);
    assert_eq!(app.scroll_offset(), 0);
}
