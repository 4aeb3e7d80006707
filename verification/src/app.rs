//! The application state: the tree index, the reveal animation, the viewport
//! and the preview, kept consistent with each other under every event.

use crate::animator::{
    advance, advance_is_monotone, animation_wf, initial_animation, is_revealed, AnimationState,
};
use crate::preorder::{is_preorder, walk_is_preorder};
use crate::preview::{
    lemma_sorted_listing, sort_listing, sorted_listing, PreviewItem, PreviewItemView,
};
use crate::tree::{
    build_tree, deepest_directory, directory_nodes, is_last_sibling, lemma_deepest_directory,
    lemma_directory_nodes,
    lemma_flags_do_not_matter, stats_of, unflagged_node, with_sibling_flags, FileNode, NodeView,
    Stats, WalkEntry, WalkEntryView,
};
use crate::viewport::{
    as_ints, clicked_line, completes_double_click, is_rising, lemma_line_in_rising,
    lemma_visible_below, lemma_visible_below_next, line_of, max_scroll, neighbour,
    neighbour_is_revealed, offset_showing, revealing_more_shows_no_less, scrolled_down,
    scrolled_down_by, scrolled_up, scrolled_up_by, scrolling_by_steps, visible_below,
    visible_indices, visible_indices_are_the_revealed, DOUBLE_CLICK_WINDOW_NS,
};
use vstd::prelude::*;

verus! {

/// The whole state of the view. Nothing outside this module changes it but
/// through the methods below, so a state once well formed stays so.
pub struct App {
    nodes: Vec<FileNode>,
    animation_depth: usize,
    animation_complete: bool,
    stats: Stats,
    scroll_offset: usize,
    selected_index: Option<usize>,
    animation_frame: usize,
    preview_contents: Vec<PreviewItem>,
    preview_scroll_offset: usize,
    last_click: Option<(usize, u64)>,
}

/// What the caller is to do after a click.
#[derive(Clone, Copy, Debug, PartialEq, Eq)]
pub enum ClickAction {
    /// The click met no node, or the tree is still growing: nothing changed.
    Ignored,
    /// The node of this index is now selected: its listing is to be loaded.
    Select(usize),
    /// The node of this index was double-clicked: it is to be opened.
    Open(usize),
}

/// A key of the keyboard, as far as the view tells keys apart.
#[derive(Clone, Copy, Debug, PartialEq, Eq)]
pub enum Key {
    Char(char),
    Esc,
    Up,
    Down,
    Left,
    Right,
    PageUp,
    PageDown,
    Other,
}

/// One event of the terminal, as far as the view tells events apart.
#[derive(Clone, Copy, Debug, PartialEq, Eq)]
pub enum InputEvent {
    /// A key was pressed, in a terminal of `terminal_height` rows.
    Key { key: Key, terminal_height: u16 },
    /// The left mouse button went down on screen row `row` at time `now`,
    /// with the frame of the tree view starting at row `top` and `height`
    /// rows high.
    LeftClick { row: u16, top: u16, height: u16, now: u64 },
    /// Anything else.
    Other,
}

/// What the caller is to do after an event.
#[derive(Clone, Copy, Debug, PartialEq, Eq)]
pub enum Response {
    /// Nothing.
    Carry,
    /// Leave the program.
    Quit,
    /// Load the listing of the node of this index, which is now selected.
    LoadPreview(usize),
    /// Open the node of this index.
    Open(usize),
}

/// The time between two ticks of the reveal animation, in nanoseconds.
pub const TICK_INTERVAL_NS: u64 = 10_000_000;

/// The number of single steps that a page key scrolls.
pub const PAGE_STEPS: usize = 10;

/// The lines that a key scrolls the tree view over, in a terminal of
/// `terminal_height` rows.
pub open spec fn key_view_height(terminal_height: nat) -> nat {
    if terminal_height > 4 {
        (terminal_height - 4) as nat
    } else {
        0
    }
}

/// Whether the key asks to leave.
pub open spec fn is_quit_key(key: Key) -> bool {
    key == Key::Char('q') || key == Key::Esc
}

/// What an [`App`] stands for.
pub struct AppView {
    /// The directories of the tree, in walk order.
    pub nodes: Seq<NodeView>,
    /// The totals of the walk.
    pub stats: Stats,
    /// The state of the reveal animation.
    pub animation: AnimationState,
    /// The number of visible lines scrolled out above the tree view.
    pub scroll_offset: nat,
    /// The index of the selected node.
    pub selected: Option<int>,
    /// The listing of the selected directory.
    pub preview: Seq<PreviewItemView>,
    /// The number of lines scrolled out above the preview.
    pub preview_offset: nat,
    /// The node and the time of the click that may yet become a double click.
    pub last_click: Option<(int, nat)>,
}

impl AppView {
    /// The indices of the nodes that the animation has revealed.
    pub open spec fn visible(self) -> Seq<int> {
        visible_indices(self.nodes, self.animation.revealed_depth)
    }

    /// The tree is as the index builds it: directories only, none deeper than
    /// the statistics say, each flagged as last sibling where it is one.
    pub open spec fn tree_wf(self) -> bool {
        &&& forall|i: int| 0 <= i < self.nodes.len() ==> (#[trigger] self.nodes[i]).is_dir
        &&& forall|i: int|
            0 <= i < self.nodes.len() ==> (#[trigger] self.nodes[i]).depth <= self.stats.max_depth
        &&& forall|i: int|
            0 <= i < self.nodes.len() ==> (#[trigger] self.nodes[i]).is_last_child
                == is_last_sibling(self.nodes, i)
    }

    /// The parts of the state fit together: the tree is well formed, the
    /// animation is in a state it passes through, the selection is a revealed
    /// node, and the preview is scrolled to one of its lines.
    pub open spec fn wf(self) -> bool {
        &&& self.tree_wf()
        &&& self.stats.max_depth < usize::MAX
        &&& animation_wf(self.animation, self.stats.max_depth as nat)
        &&& self.selected matches Some(i) ==> 0 <= i < self.nodes.len() && is_revealed(
            self.nodes[i].depth,
            self.animation,
        )
        &&& self.preview_offset == 0 || self.preview_offset < self.preview.len()
    }

    /// The tree view is scrolled within its bounds for a view of `height`
    /// lines: no further than its last line needs.
    pub open spec fn scroll_clamped(self, height: nat) -> bool {
        self.scroll_offset <= max_scroll(self.visible().len(), height)
    }

    /// The state after one tick of the animation.
    pub open spec fn ticked(self) -> AppView {
        AppView { animation: advance(self.animation, self.stats.max_depth as nat), ..self }
    }

    /// The state with the tree view scrolled to `offset`.
    pub open spec fn scrolled_to(self, offset: nat) -> AppView {
        AppView { scroll_offset: offset, ..self }
    }

    /// The state with node `index` selected. The listing of the node selected
    /// before is gone, and that of the new one is yet to be loaded.
    pub open spec fn selecting(self, index: int) -> AppView {
        AppView { selected: Some(index), preview: Seq::empty(), preview_offset: 0, ..self }
    }

    /// The line of the tree view on which the selected node stands.
    pub open spec fn selected_line(self) -> Option<int> {
        line_of(self.visible(), self.selected)
    }

    /// The node that a click on `row` meets. While the tree is growing a click
    /// meets nothing.
    pub open spec fn clicked_node(self, row: nat, top: nat, height: nat) -> Option<int> {
        if !self.animation.complete {
            None
        } else {
            match clicked_line(row, top, height, self.scroll_offset) {
                Some(line) => if line < self.visible().len() {
                    Some(self.visible()[line as int])
                } else {
                    None
                },
                None => None,
            }
        }
    }

    /// The state after a click on `row` at time `now`. A click that completes
    /// a double click forgets the click before it; any other click on a node
    /// selects the node and is remembered.
    pub open spec fn after_click(self, row: nat, top: nat, height: nat, now: nat) -> AppView {
        match self.clicked_node(row, top, height) {
            Some(index) => if completes_double_click(self.last_click, index, now) {
                AppView { last_click: None, ..self }
            } else {
                AppView { last_click: Some((index, now)), ..self.selecting(index) }
            },
            None => self,
        }
    }

    /// What a click on `row` at time `now` asks of the caller.
    pub open spec fn click_action(self, row: nat, top: nat, height: nat, now: nat) -> ClickAction {
        match self.clicked_node(row, top, height) {
            Some(index) => if completes_double_click(self.last_click, index, now) {
                ClickAction::Open(index as usize)
            } else {
                ClickAction::Select(index as usize)
            },
            None => ClickAction::Ignored,
        }
    }

    /// The state with `listing` loaded as the preview of node `index`. Where
    /// there is no such node the preview is empty.
    pub open spec fn previewing(self, index: nat, listing: Seq<PreviewItemView>) -> AppView {
        AppView {
            preview: if index < self.nodes.len() {
                sorted_listing(listing)
            } else {
                Seq::empty()
            },
            preview_offset: 0,
            ..self
        }
    }

    /// The state after a key press in a terminal of `terminal_height` rows:
    /// the arrows scroll the tree view up and down and the preview left and
    /// right by one line, the page keys scroll the tree view by
    /// `PAGE_STEPS` single steps, and any other key changes nothing.
    pub open spec fn after_key(self, key: Key, terminal_height: nat) -> AppView {
        let height = key_view_height(terminal_height);
        match key {
            Key::Up => self.scrolled_to(scrolled_up(self.scroll_offset)),
            Key::Down => self.scrolled_to(
                scrolled_down(self.scroll_offset, self.visible().len(), height),
            ),
            Key::Left => AppView { preview_offset: scrolled_up(self.preview_offset), ..self },
            Key::Right => AppView { preview_offset: self.preview_scrolled_down(1), ..self },
            Key::PageUp => self.scrolled_to(scrolled_up_by(self.scroll_offset, PAGE_STEPS as nat)),
            Key::PageDown => self.scrolled_to(
                scrolled_down_by(
                    self.scroll_offset,
                    self.visible().len(),
                    height,
                    PAGE_STEPS as nat,
                ),
            ),
            _ => self,
        }
    }

    /// The state after an event: a key press is handled as a key, a click as
    /// a click, each once, and any other event changes nothing.
    pub open spec fn after_event(self, event: InputEvent) -> AppView {
        match event {
            InputEvent::Key { key, terminal_height } => self.after_key(key, terminal_height as nat),
            InputEvent::LeftClick { row, top, height, now } => self.after_click(
                row as nat,
                top as nat,
                height as nat,
                now as nat,
            ),
            InputEvent::Other => self,
        }
    }

    /// What an event asks of the caller.
    pub open spec fn response_to(self, event: InputEvent) -> Response {
        match event {
            InputEvent::Key { key, terminal_height } => if is_quit_key(key) {
                Response::Quit
            } else {
                Response::Carry
            },
            InputEvent::LeftClick { row, top, height, now } => match self.click_action(
                row as nat,
                top as nat,
                height as nat,
                now as nat,
            ) {
                ClickAction::Select(index) => Response::LoadPreview(index),
                ClickAction::Open(index) => Response::Open(index),
                ClickAction::Ignored => Response::Carry,
            },
            InputEvent::Other => Response::Carry,
        }
    }

    /// The preview offset after scrolling `lines` down: it stops at the last
    /// line of the listing.
    pub open spec fn preview_scrolled_down(self, lines: nat) -> nat {
        if self.preview.len() == 0 {
            self.preview_offset
        } else if self.preview_offset + lines < self.preview.len() {
            self.preview_offset + lines
        } else {
            (self.preview.len() - 1) as nat
        }
    }
}

/// The state in which a view over `nodes` starts: nothing scrolled, nothing
/// previewed, no click pending, and the first node selected where it is a root.
pub open spec fn initial_view(nodes: Seq<NodeView>, stats: Stats) -> AppView {
    AppView {
        nodes,
        stats,
        animation: initial_animation(),
        scroll_offset: 0,
        selected: if nodes.len() > 0 && nodes[0].depth == 0 {
            Some(0int)
        } else {
            None
        },
        preview: Seq::empty(),
        preview_offset: 0,
        last_click: None,
    }
}

impl View for App {
    type V = AppView;

    closed spec fn view(&self) -> AppView {
        AppView {
            nodes: self.nodes.deep_view(),
            stats: self.stats,
            animation: AnimationState {
                revealed_depth: self.animation_depth as nat,
                complete: self.animation_complete,
                frame: self.animation_frame as nat,
            },
            scroll_offset: self.scroll_offset as nat,
            selected: match self.selected_index {
                Some(i) => Some(i as int),
                None => None,
            },
            preview: self.preview_contents.deep_view(),
            preview_offset: self.preview_scroll_offset as nat,
            last_click: match self.last_click {
                Some((i, t)) => Some((i as int, t as nat)),
                None => None,
            },
        }
    }
}

impl App {
    /// Builds the tree of a walk and the view over it in its initial state.
    /// No directory may be as deep as `usize::MAX`: the animation steps one
    /// level past the deepest. The nodes of a walk that lists parents first
    /// and each subtree in one piece are in pre-order.
    pub fn new(entries: &Vec<WalkEntry>) -> (app: App)
        requires
            forall|i: int|
                0 <= i < entries.len() && (#[trigger] entries[i]).is_dir ==> entries[i].depth
                    < usize::MAX,
        ensures
            app@ == initial_view(
                with_sibling_flags(directory_nodes(entries.deep_view())),
                stats_of(entries.deep_view()),
            ),
            app@.wf(),
            walk_is_preorder(entries.deep_view()) ==> is_preorder(app@.nodes),
    {
        let (nodes, stats) = build_tree(entries);
        let selected_index = if nodes.len() > 0 && nodes[0].depth == 0 {
            Some(0)
        } else {
            None
        };
        let preview_contents: Vec<PreviewItem> = Vec::new();
        proof {
            let all = entries.deep_view();
            lemma_deepest_directory(all);
            if deepest_directory(all) != 0 {
                let k = choose|k: int|
                    0 <= k < all.len() && (#[trigger] all[k]).is_dir && all[k].depth
                        == deepest_directory(all);
                assert(entries[k].is_dir && entries[k].depth < usize::MAX);
            }
            lemma_built_tree_wf(all);
            assert(preview_contents.deep_view() =~= Seq::<PreviewItemView>::empty());
        }
        App {
            nodes,
            animation_depth: 0,
            animation_complete: false,
            stats,
            scroll_offset: 0,
            selected_index,
            animation_frame: 0,
            preview_contents,
            preview_scroll_offset: 0,
            last_click: None,
        }
    }

    /// The directories of the tree, in walk order.
    pub fn nodes(&self) -> (r: &Vec<FileNode>)
        ensures
            r.deep_view() == self@.nodes,
    {
        &self.nodes
    }

    /// The totals of the walk.
    pub fn stats(&self) -> (r: Stats)
        ensures
            r == self@.stats,
    {
        self.stats
    }

    /// The depth down to which the nodes are revealed.
    pub fn animation_depth(&self) -> (r: usize)
        ensures
            r == self@.animation.revealed_depth,
    {
        self.animation_depth
    }

    /// Whether the reveal animation has come to rest.
    pub fn animation_complete(&self) -> (r: bool)
        ensures
            r == self@.animation.complete,
    {
        self.animation_complete
    }

    /// The phase of the connectors that grow at the frontier.
    pub fn animation_frame(&self) -> (r: usize)
        ensures
            r == self@.animation.frame,
    {
        self.animation_frame
    }

    /// The number of visible lines scrolled out above the tree view.
    pub fn scroll_offset(&self) -> (r: usize)
        ensures
            r == self@.scroll_offset,
    {
        self.scroll_offset
    }

    /// The index of the selected node.
    pub fn selected_index(&self) -> (r: Option<usize>)
        ensures
            match r {
                Some(index) => self@.selected == Some(index as int),
                None => self@.selected is None,
            },
    {
        self.selected_index
    }

    /// The listing of the selected directory, in order.
    pub fn preview_contents(&self) -> (r: &Vec<PreviewItem>)
        ensures
            r.deep_view() == self@.preview,
    {
        &self.preview_contents
    }

    /// The number of lines scrolled out above the preview.
    pub fn preview_scroll_offset(&self) -> (r: usize)
        ensures
            r == self@.preview_offset,
    {
        self.preview_scroll_offset
    }

    /// One tick of the reveal animation.
    pub fn increment_animation(&mut self)
        requires
            old(self)@.wf(),
        ensures
            final(self)@ == old(self)@.ticked(),
            final(self)@.wf(),
    {
        if !self.animation_complete {
            if self.animation_depth <= self.stats.max_depth {
                self.animation_depth += 1;
                self.animation_complete = self.animation_depth > self.stats.max_depth;
                self.animation_frame = (self.animation_frame + 1) % 3;
            } else {
                self.animation_complete = true;
            }
        }
    }

    /// Whether the animation has revealed `node`.
    pub fn is_node_visible(&self, node: &FileNode) -> (r: bool)
        ensures
            r == is_revealed(node@.depth, self@.animation),
    {
        node.depth <= self.animation_depth
    }

    /// The indices of the revealed nodes, in the order of the tree.
    pub fn get_visible_node_indices(&self) -> (r: Vec<usize>)
        ensures
            as_ints(r@) == self@.visible(),
    {
        let mut r: Vec<usize> = Vec::new();
        let n = self.nodes.len();
        let ghost nodes = self@.nodes;
        let ghost revealed = self@.animation.revealed_depth;
        let mut i: usize = 0;
        proof {
            lemma_visible_below(nodes, revealed, 0);
            assert(as_ints(r@) =~= visible_below(nodes, revealed, 0));
        }
        while i < n
            invariant
                i <= n,
                n == self.nodes.len(),
                nodes == self@.nodes,
                revealed == self@.animation.revealed_depth,
                as_ints(r@) == visible_below(nodes, revealed, i as nat),
            decreases n - i,
        {
            proof {
                lemma_visible_below_next(nodes, revealed, i as nat);
            }
            let ghost before = r@;
            if self.is_node_visible(&self.nodes[i]) {
                r.push(i);
                assert(as_ints(r@) =~= as_ints(before).push(i as int));
            }
            i += 1;
        }
        r
    }

    /// The line on which node `index` stands in `visible`.
    fn find_line(visible: &Vec<usize>, index: usize) -> (r: Option<usize>)
        requires
            is_rising(as_ints(visible@)),
        ensures
            match r {
                Some(line) => line_of(as_ints(visible@), Some(index as int)) == Some(line as int),
                None => line_of(as_ints(visible@), Some(index as int)) is None,
            },
    {
        let mut k: usize = 0;
        while k < visible.len()
            invariant
                k <= visible.len(),
                is_rising(as_ints(visible@)),
                forall|j: int| 0 <= j < k ==> visible@[j] != index,
            decreases visible.len() - k,
        {
            if visible[k] == index {
                proof {
                    lemma_line_in_rising(as_ints(visible@), k as int);
                }
                return Some(k);
            }
            k += 1;
        }
        proof {
            if as_ints(visible@).contains(index as int) {
                let j = choose|j: int|
                    0 <= j < as_ints(visible@).len() && as_ints(visible@)[j] == index as int;
                assert(visible@[j] != index);
            }
        }
        None
    }

    /// Selects node `index` and drops the listing of the node selected before.
    fn select(&mut self, index: usize)
        ensures
            final(self)@ == old(self)@.selecting(index as int),
    {
        self.selected_index = Some(index);
        self.preview_contents.clear();
        self.preview_scroll_offset = 0;
        assert(self.preview_contents.deep_view() =~= Seq::<PreviewItemView>::empty());
    }

    /// Scrolls the tree view one line up; at the top it stays.
    pub fn scroll_up(&mut self)
        ensures
            final(self)@ == old(self)@.scrolled_to(scrolled_up(old(self)@.scroll_offset)),
            old(self)@.wf() ==> final(self)@.wf(),
    {
        if self.scroll_offset > 0 {
            self.scroll_offset -= 1;
        }
    }

    /// Scrolls the tree view one line down, no further than until its last
    /// line shows in the `visible_lines` lines of the view. Where the view is
    /// scrolled beyond that already, it comes back to it.
    pub fn scroll_down(&mut self, visible_lines: usize)
        ensures
            final(self)@ == old(self)@.scrolled_to(
                scrolled_down(
                    old(self)@.scroll_offset,
                    old(self)@.visible().len(),
                    visible_lines as nat,
                ),
            ),
            final(self)@.scroll_clamped(visible_lines as nat),
            old(self)@.wf() ==> final(self)@.wf(),
    {
        let visible_count = self.get_visible_node_indices().len();
        let furthest = if visible_count > visible_lines {
            visible_count - visible_lines
        } else {
            0
        };
        if self.scroll_offset < furthest {
            self.scroll_offset += 1;
        } else {
            self.scroll_offset = furthest;
        }
    }

    /// Moves the selection to the visible node before it. Returns the node
    /// newly selected, whose listing is to be loaded; at the first visible
    /// node, and without a selection, nothing changes.
    pub fn select_previous(&mut self) -> (r: Option<usize>)
        ensures
            match neighbour(old(self)@.visible(), old(self)@.selected, -1) {
                Some(index) => r == Some(index as usize) && final(self)@ == old(self)@.selecting(
                    index,
                ),
                None => r is None && final(self)@ == old(self)@,
            },
            r matches Some(index) ==> index < old(self)@.nodes.len() && is_revealed(
                old(self)@.nodes[index as int].depth,
                old(self)@.animation,
            ),
            old(self)@.wf() ==> final(self)@.wf(),
    {
        let visible = self.get_visible_node_indices();
        proof {
            visible_indices_are_the_revealed(self@.nodes, self@.animation.revealed_depth);
        }
        if let Some(current) = self.selected_index {
            if let Some(line) = Self::find_line(&visible, current) {
                if line > 0 {
                    let index = visible[line - 1];
                    assert(as_ints(visible@)[line - 1] == index);
                    self.select(index);
                    return Some(index);
                }
            }
        }
        None
    }

    /// Moves the selection to the visible node after it. Returns the node
    /// newly selected, whose listing is to be loaded; at the last visible
    /// node, and without a selection, nothing changes.
    pub fn select_next(&mut self) -> (r: Option<usize>)
        ensures
            match neighbour(old(self)@.visible(), old(self)@.selected, 1) {
                Some(index) => r == Some(index as usize) && final(self)@ == old(self)@.selecting(
                    index,
                ),
                None => r is None && final(self)@ == old(self)@,
            },
            r matches Some(index) ==> index < old(self)@.nodes.len() && is_revealed(
                old(self)@.nodes[index as int].depth,
                old(self)@.animation,
            ),
            old(self)@.wf() ==> final(self)@.wf(),
    {
        let visible = self.get_visible_node_indices();
        proof {
            visible_indices_are_the_revealed(self@.nodes, self@.animation.revealed_depth);
        }
        if let Some(current) = self.selected_index {
            if let Some(line) = Self::find_line(&visible, current) {
                if line < visible.len() - 1 {
                    let index = visible[line + 1];
                    assert(as_ints(visible@)[line + 1] == index);
                    self.select(index);
                    return Some(index);
                }
            }
        }
        None
    }

    /// Scrolls the tree view by the least amount that brings the selected
    /// node into its `visible_lines` lines.
    pub fn ensure_selected_visible(&mut self, visible_lines: usize)
        ensures
            final(self)@ == old(self)@.scrolled_to(
                match old(self)@.selected_line() {
                    Some(line) => offset_showing(
                        old(self)@.scroll_offset,
                        line as nat,
                        visible_lines as nat,
                    ),
                    None => old(self)@.scroll_offset,
                },
            ),
            old(self)@.wf() ==> final(self)@.wf(),
    {
        if let Some(selected) = self.selected_index {
            let visible = self.get_visible_node_indices();
            proof {
                visible_indices_are_the_revealed(self@.nodes, self@.animation.revealed_depth);
            }
            if let Some(line) = Self::find_line(&visible, selected) {
                if line < self.scroll_offset {
                    self.scroll_offset = line;
                } else if visible_lines == 0 {
                    self.scroll_offset = line;
                } else if line - self.scroll_offset >= visible_lines {
                    self.scroll_offset = line - (visible_lines - 1);
                }
            }
        }
    }

    /// Whether a click on node `idx` at time `now` completes a double click.
    pub fn is_double_click(&self, idx: usize, now: u64) -> (r: bool)
        ensures
            r == completes_double_click(self@.last_click, idx as int, now as nat),
    {
        match self.last_click {
            Some((last_idx, last_time)) => {
                let elapsed = if now >= last_time {
                    now - last_time
                } else {
                    0
                };
                last_idx == idx && elapsed < DOUBLE_CLICK_WINDOW_NS
            },
            None => false,
        }
    }

    /// Handles a click on screen row `row` at time `now`, in a tree view whose
    /// frame starts at row `top` and is `height` rows high.
    pub fn handle_mouse_click(&mut self, row: u16, top: u16, height: u16, now: u64) -> (r:
        ClickAction)
        ensures
            final(self)@ == old(self)@.after_click(
                row as nat,
                top as nat,
                height as nat,
                now as nat,
            ),
            r == old(self)@.click_action(row as nat, top as nat, height as nat, now as nat),
            r matches ClickAction::Select(index) ==> index < old(self)@.nodes.len() && is_revealed(
                old(self)@.nodes[index as int].depth,
                old(self)@.animation,
            ),
            r matches ClickAction::Open(index) ==> index < old(self)@.nodes.len() && (old(
                self,
            )@.wf() ==> old(self)@.nodes[index as int].is_dir),
            old(self)@.wf() ==> final(self)@.wf(),
    {
        if !self.animation_complete {
            return ClickAction::Ignored;
        }
        let below_border: u32 = row as u32 + 1;
        if !(row > top && below_border < top as u32 + height as u32) {
            return ClickAction::Ignored;
        }
        let line_in_view: usize = (row - top - 1) as usize;
        let visible = self.get_visible_node_indices();
        proof {
            visible_indices_are_the_revealed(self@.nodes, self@.animation.revealed_depth);
        }
        if self.scroll_offset >= visible.len() || line_in_view >= visible.len()
            - self.scroll_offset {
            return ClickAction::Ignored;
        }
        let index = visible[line_in_view + self.scroll_offset];
        assert(as_ints(visible@)[line_in_view + self.scroll_offset] == index);
        if self.is_double_click(index, now) {
            self.last_click = None;
            ClickAction::Open(index)
        } else {
            self.select(index);
            self.last_click = Some((index, now));
            ClickAction::Select(index)
        }
    }

    /// Loads `listing` as the preview of node `node_index`, in sorted order
    /// and scrolled to its top. Where there is no such node the preview is
    /// left empty.
    pub fn update_preview(&mut self, node_index: usize, listing: &Vec<PreviewItem>)
        ensures
            final(self)@ == old(self)@.previewing(node_index as nat, listing.deep_view()),
            old(self)@.wf() ==> final(self)@.wf(),
    {
        self.preview_contents.clear();
        self.preview_scroll_offset = 0;
        if node_index >= self.nodes.len() {
            assert(self.preview_contents.deep_view() =~= Seq::<PreviewItemView>::empty());
            return ;
        }
        self.preview_contents = sort_listing(listing);
    }

    /// Scrolls the preview one line up; at the top it stays.
    pub fn scroll_preview_up(&mut self)
        ensures
            final(self)@ == (AppView {
                preview_offset: scrolled_up(old(self)@.preview_offset),
                ..old(self)@
            }),
            old(self)@.wf() ==> final(self)@.wf(),
    {
        if self.preview_scroll_offset > 0 {
            self.preview_scroll_offset -= 1;
        }
    }

    /// Scrolls the preview `lines` lines down, no further than its last line.
    pub fn scroll_preview_down(&mut self, lines: usize)
        ensures
            final(self)@ == (AppView {
                preview_offset: old(self)@.preview_scrolled_down(lines as nat),
                ..old(self)@
            }),
            old(self)@.wf() ==> final(self)@.wf(),
    {
        if self.preview_contents.len() == 0 {
            return ;
        }
        let max_offset = self.preview_contents.len() - 1;
        if self.preview_scroll_offset >= max_offset || lines >= max_offset
            - self.preview_scroll_offset {
            self.preview_scroll_offset = max_offset;
        } else {
            self.preview_scroll_offset = self.preview_scroll_offset + lines;
        }
    }

    /// Handles a key press in a terminal of `terminal_height` rows. Returns
    /// whether the key asks to leave; such a key changes nothing.
    pub fn handle_key(&mut self, key: Key, terminal_height: u16) -> (quit: bool)
        ensures
            quit == is_quit_key(key),
            final(self)@ == old(self)@.after_key(key, terminal_height as nat),
            key == Key::Down || key == Key::PageDown ==> final(self)@.scroll_clamped(
                key_view_height(terminal_height as nat),
            ),
            old(self)@.wf() ==> final(self)@.wf(),
    {
        let ghost before = self@;
        proof {
            scrolling_by_steps(
                before.scroll_offset,
                before.visible().len(),
                key_view_height(terminal_height as nat),
                PAGE_STEPS as nat,
            );
        }
        let area_height: usize = if terminal_height > 4 {
            (terminal_height - 4) as usize
        } else {
            0
        };
        match key {
            Key::Char(c) => c == 'q',
            Key::Esc => true,
            Key::Up => {
                self.scroll_up();
                false
            },
            Key::Down => {
                self.scroll_down(area_height);
                false
            },
            Key::Left => {
                self.scroll_preview_up();
                false
            },
            Key::Right => {
                self.scroll_preview_down(1);
                false
            },
            Key::PageUp => {
                let mut step: usize = 0;
                while step < PAGE_STEPS
                    invariant
                        step <= PAGE_STEPS,
                        self@ == before.scrolled_to(
                            scrolled_up_by(before.scroll_offset, step as nat),
                        ),
                        before.wf() ==> self@.wf(),
                    decreases PAGE_STEPS - step,
                {
                    self.scroll_up();
                    step += 1;
                }
                false
            },
            Key::PageDown => {
                let mut step: usize = 0;
                while step < PAGE_STEPS
                    invariant
                        step <= PAGE_STEPS,
                        area_height == key_view_height(terminal_height as nat),
                        self@ == before.scrolled_to(
                            scrolled_down_by(
                                before.scroll_offset,
                                before.visible().len(),
                                area_height as nat,
                                step as nat,
                            ),
                        ),
                        before.wf() ==> self@.wf(),
                    decreases PAGE_STEPS - step,
                {
                    self.scroll_down(area_height);
                    step += 1;
                }
                false
            },
            Key::Other => false,
        }
    }

    /// Handles one event of the terminal: a key press by `handle_key`, a click
    /// by `handle_mouse_click`, and nothing else. Returns what the caller is
    /// to do.
    pub fn handle_event(&mut self, event: InputEvent) -> (r: Response)
        ensures
            final(self)@ == old(self)@.after_event(event),
            r == old(self)@.response_to(event),
            old(self)@.wf() ==> final(self)@.wf(),
    {
        match event {
            InputEvent::Key { key, terminal_height } => {
                if self.handle_key(key, terminal_height) {
                    Response::Quit
                } else {
                    Response::Carry
                }
            },
            InputEvent::LeftClick { row, top, height, now } => {
                match self.handle_mouse_click(row, top, height, now) {
                    ClickAction::Select(index) => Response::LoadPreview(index),
                    ClickAction::Open(index) => Response::Open(index),
                    ClickAction::Ignored => Response::Carry,
                }
            },
            InputEvent::Other => Response::Carry,
        }
    }

    /// Lets `elapsed_ns` nanoseconds since the last tick pass. Once a tick
    /// interval has passed the animation advances by one tick; the result
    /// says whether it was due, and the caller then counts the time anew.
    pub fn tick(&mut self, elapsed_ns: u64) -> (due: bool)
        requires
            old(self)@.wf(),
        ensures
            due == (elapsed_ns >= TICK_INTERVAL_NS),
            final(self)@ == if due {
                old(self)@.ticked()
            } else {
                old(self)@
            },
            final(self)@.wf(),
    {
        if elapsed_ns >= TICK_INTERVAL_NS {
            self.increment_animation();
            true
        } else {
            false
        }
    }
}

/// A scroll offset within its bounds stays within them: no key, tick, click
/// or move of the selection takes the tree view out of the bounds that hold
/// for a view of the same height, and bringing the selection into view keeps
/// them too.
pub proof fn scroll_offset_stays_clamped(
    app: AppView,
    key: Key,
    terminal_height: nat,
    height: nat,
    row: nat,
    top: nat,
    frame_height: nat,
    now: nat,
    index: int,
)
    requires
        app.scroll_clamped(height),
    ensures
        height == key_view_height(terminal_height) ==> app.after_key(
            key,
            terminal_height,
        ).scroll_clamped(height),
        app.scrolled_to(
            scrolled_down(app.scroll_offset, app.visible().len(), height),
        ).scroll_clamped(height),
        app.ticked().scroll_clamped(height),
        app.after_click(row, top, frame_height, now).scroll_clamped(height),
        app.selecting(index).scroll_clamped(height),
        app.selected_line() matches Some(line) ==> app.scrolled_to(
            offset_showing(app.scroll_offset, line as nat, height),
        ).scroll_clamped(height),
        initial_view(app.nodes, app.stats).scroll_clamped(height),
{
    let count = app.visible().len();
    scrolling_by_steps(app.scroll_offset, count, height, PAGE_STEPS as nat);
    revealing_more_shows_no_less(
        app.nodes,
        app.animation.revealed_depth,
        app.ticked().animation.revealed_depth,
    );
    if app.selected_line() is Some {
        let line = app.selected_line()->0;
        assert(0 <= line < count);
    }
}

/// The selection stays on a revealed node: a state whose parts fit together
/// keeps them fitting under every tick, key, click, move of the selection,
/// scroll and load of a preview, so that the selected node, where there is
/// one, is never deeper than the revealed depth.
pub proof fn selection_stays_revealed(
    app: AppView,
    event: InputEvent,
    key: Key,
    terminal_height: nat,
    row: nat,
    top: nat,
    frame_height: nat,
    now: nat,
    step: int,
    offset: nat,
    node: nat,
    listing: Seq<PreviewItemView>,
)
    requires
        app.wf(),
    ensures
        app.ticked().wf(),
        app.after_event(event).wf(),
        app.after_key(key, terminal_height).wf(),
        app.after_click(row, top, frame_height, now).wf(),
        neighbour(app.visible(), app.selected, step) matches Some(index) ==> app.selecting(
            index,
        ).wf(),
        app.scrolled_to(offset).wf(),
        app.previewing(node, listing).wf(),
{
    advance_is_monotone(app.animation, app.stats.max_depth as nat);
    visible_indices_are_the_revealed(app.nodes, app.animation.revealed_depth);
    neighbour_is_revealed(app.nodes, app.animation.revealed_depth, app.selected, step);
    lemma_sorted_listing(listing);
}

/// The tree that the index builds from a walk holds directories only, none
/// deeper than the deepest directory, with last-sibling flags that are right.
pub proof fn lemma_built_tree_wf(entries: Seq<WalkEntryView>)
    requires
        deepest_directory(entries) <= usize::MAX,
    ensures
        initial_view(with_sibling_flags(directory_nodes(entries)), stats_of(entries)).tree_wf(),
{
    let plain = directory_nodes(entries);
    let nodes = with_sibling_flags(plain);
    lemma_directory_nodes(entries);
    lemma_deepest_directory(entries);
    assert forall|i: int| 0 <= i < nodes.len() implies (#[trigger] nodes[i]).is_last_child
        == is_last_sibling(nodes, i) by {
        lemma_flags_do_not_matter(nodes, plain, i);
    }
    assert forall|i: int| 0 <= i < nodes.len() implies (#[trigger] nodes[i]).depth
        <= deepest_directory(entries) by {
        let k = choose|k: int|
            0 <= k < entries.len() && plain[i] == unflagged_node(#[trigger] entries[k]);
        assert(plain[i].is_dir);
        assert(entries[k].is_dir);
    }
    assert forall|i: int| 0 <= i < nodes.len() implies (#[trigger] nodes[i]).is_dir by {
        assert(plain[i].is_dir);
    }
}

} // verus!
