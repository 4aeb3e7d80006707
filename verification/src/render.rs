//! What the panes are to show: the rows of the tree view with their guides
//! and connectors, and the rows of the preview with their sizes as text. How
//! a row is painted is left to the caller.

use crate::animator::AnimationState;
use crate::app::{App, AppView};
use crate::path::{ancestor_at, same_ancestor};
use crate::preview::PreviewItemView;
use crate::tree::NodeView;
use crate::viewport::{as_ints, visible_indices_are_the_revealed};
use vstd::prelude::*;

verus! {

/// How far the connector of a node has grown.
#[derive(Clone, Copy, Debug, PartialEq, Eq)]
pub enum Growth {
    /// Only the joint at the guide shows.
    Sprout,
    /// The joint and half of the arm show.
    Half,
    /// The whole connector shows.
    Full,
}

/// The piece that joins a node to the guide of its parent.
#[derive(Clone, Copy, Debug, PartialEq, Eq)]
pub struct Connector {
    /// The node is the last of its siblings: the guide ends here.
    pub last: bool,
    /// How much of the connector shows.
    pub growth: Growth,
}

/// One row of the tree view.
#[derive(Clone, Debug, PartialEq, Eq)]
pub struct TreeRow {
    /// The index of the node that the row shows.
    pub node_index: usize,
    /// For each level between the root and the parent of the node, from the
    /// top: whether the guide of that level runs on through this row.
    pub guides: Vec<bool>,
    /// The connector of the node; the root has none.
    pub connector: Option<Connector>,
    /// Whether the node is the selected one.
    pub selected: bool,
}

/// What a [`TreeRow`] stands for.
pub struct TreeRowView {
    pub node_index: int,
    pub guides: Seq<bool>,
    pub connector: Option<Connector>,
    pub selected: bool,
}

impl View for TreeRow {
    type V = TreeRowView;

    open spec fn view(&self) -> TreeRowView {
        TreeRowView {
            node_index: self.node_index as int,
            guides: self.guides@,
            connector: self.connector,
            selected: self.selected,
        }
    }
}

impl DeepView for TreeRow {
    type V = TreeRowView;

    open spec fn deep_view(&self) -> TreeRowView {
        self@
    }
}

/// One row of the preview.
#[derive(Clone, Debug, PartialEq, Eq)]
pub struct PreviewRow {
    pub name: String,
    pub is_dir: bool,
    /// The size of a file as text; a directory shows none.
    pub size_text: Option<String>,
}

/// What a [`PreviewRow`] stands for.
pub struct PreviewRowView {
    pub name: Seq<char>,
    pub is_dir: bool,
    pub size_text: Option<Seq<char>>,
}

impl View for PreviewRow {
    type V = PreviewRowView;

    open spec fn view(&self) -> PreviewRowView {
        PreviewRowView {
            name: self.name@,
            is_dir: self.is_dir,
            size_text: match self.size_text {
                Some(text) => Some(text@),
                None => None,
            },
        }
    }
}

impl DeepView for PreviewRow {
    type V = PreviewRowView;

    open spec fn deep_view(&self) -> PreviewRowView {
        self@
    }
}

/// The text of a number of bytes in binary units, such as `1.50 KiB`.
pub uninterp spec fn binary_size_text(bytes: u64) -> Seq<char>;

/// Calls `humansize::format_size` with the options `humansize::BINARY`. Its
/// contract is taken on trust: the text returned depends on the number alone,
/// and is the text that `binary_size_text` names.
#[verifier::external_body]
fn format_binary_size(bytes: u64) -> (text: String)
    ensures
        text@ == binary_size_text(bytes),
{
    humansize::format_size(bytes, humansize::BINARY)
}

/// The text that shows a number of bytes.
pub fn size_label(bytes: u64) -> (text: String)
    ensures
        text@ == binary_size_text(bytes),
{
    format_binary_size(bytes)
}

/// The phase of a growing connector in frame `frame`.
pub open spec fn growth_in_frame(frame: nat) -> Growth {
    if frame % 3 == 0 {
        Growth::Sprout
    } else if frame % 3 == 1 {
        Growth::Half
    } else {
        Growth::Full
    }
}

/// The connector of a node. The nodes at the depth that a running animation
/// has just revealed grow theirs frame by frame; all others show it whole.
pub open spec fn connector_of(node: NodeView, animation: AnimationState) -> Option<Connector> {
    if node.depth == 0 {
        None
    } else {
        Some(
            Connector {
                last: node.is_last_child,
                growth: if !animation.complete && node.depth == animation.revealed_depth {
                    growth_in_frame(animation.frame)
                } else {
                    Growth::Full
                },
            },
        )
    }
}

/// Node `b` lies at depth `level` or deeper, below the same node of depth
/// `level` as node `a`.
pub open spec fn in_same_branch(a: NodeView, b: NodeView, level: nat) -> bool {
    b.depth >= level && ancestor_at(b.path, (b.depth - level) as nat) == ancestor_at(
        a.path,
        (a.depth - level) as nat,
    )
}

/// The node on line `later` follows the node on line `line` within the branch
/// that holds it at depth `level`.
pub open spec fn follows_in_branch(
    nodes: Seq<NodeView>,
    visible: Seq<int>,
    line: int,
    later: int,
    level: nat,
) -> bool {
    line < later < visible.len() && in_same_branch(
        nodes[visible[line]],
        nodes[visible[later]],
        level,
    )
}

/// The guide of depth `level` runs on below line `line`: a later visible line
/// holds a node of the same branch.
pub open spec fn guide_continues(nodes: Seq<NodeView>, visible: Seq<int>, line: int, level: nat) -> bool {
    exists|later: int| follows_in_branch(nodes, visible, line, later, level)
}

/// The guides of the row on line `line`: one for each level from 1 up to the
/// depth of the parent of its node.
pub open spec fn guides_of(nodes: Seq<NodeView>, visible: Seq<int>, line: int) -> Seq<bool> {
    let depth = nodes[visible[line]].depth;
    Seq::new(
        if depth > 0 {
            (depth - 1) as nat
        } else {
            0
        },
        |k: int| guide_continues(nodes, visible, line, (k + 1) as nat),
    )
}

/// The row that shows the visible line `line`.
pub open spec fn row_at(app: AppView, line: int) -> TreeRowView {
    let index = app.visible()[line];
    TreeRowView {
        node_index: index,
        guides: guides_of(app.nodes, app.visible(), line),
        connector: connector_of(app.nodes[index], app.animation),
        selected: app.selected == Some(index),
    }
}

/// The number of lines that a view of `height` lines shows of `count` lines
/// when scrolled to `offset`.
pub open spec fn lines_shown(count: nat, offset: nat, height: nat) -> nat {
    if offset >= count {
        0
    } else if count - offset < height {
        (count - offset) as nat
    } else {
        height
    }
}

/// The rows of the tree view: the visible lines from the scroll offset on, as
/// many as fit the view.
pub open spec fn tree_rows_of(app: AppView, height: nat) -> Seq<TreeRowView> {
    Seq::new(
        lines_shown(app.visible().len(), app.scroll_offset, height),
        |k: int| row_at(app, app.scroll_offset + k),
    )
}

/// The row that shows an item of the preview.
pub open spec fn preview_row_of(item: PreviewItemView) -> PreviewRowView {
    PreviewRowView {
        name: item.name,
        is_dir: item.is_dir,
        size_text: if item.is_dir {
            None
        } else {
            Some(binary_size_text(item.size as u64))
        },
    }
}

/// The rows of the preview: its items from the scroll offset on, as many as
/// fit the view.
pub open spec fn preview_rows_of(app: AppView, height: nat) -> Seq<PreviewRowView> {
    Seq::new(
        lines_shown(app.preview.len(), app.preview_offset, height),
        |k: int| preview_row_of(app.preview[app.preview_offset + k]),
    )
}

impl App {
    /// Whether the guide of depth `level` runs on below line `line`.
    fn guide_runs_on(&self, visible: &Vec<usize>, line: usize, level: usize) -> (r: bool)
        requires
            as_ints(visible@) == self@.visible(),
            line < visible.len(),
            level <= self@.nodes[visible@[line as int] as int].depth,
        ensures
            r == guide_continues(self@.nodes, self@.visible(), line as int, level as nat),
    {
        let nodes = self.nodes();
        let ghost all = self@.nodes;
        let ghost shown = self@.visible();
        proof {
            visible_indices_are_the_revealed(all, self@.animation.revealed_depth);
            assert(shown[line as int] == visible@[line as int]);
        }
        let node = &nodes[visible[line]];
        assert(node@ == all[shown[line as int]]);
        let mut later: usize = line + 1;
        while later < visible.len()
            invariant
                line < later <= visible.len(),
                all == self@.nodes,
                all == nodes.deep_view(),
                shown == self@.visible(),
                shown == as_ints(visible@),
                node@ == all[shown[line as int]],
                level <= node.depth,
                forall|k: int|
                    0 <= k < shown.len() ==> 0 <= (#[trigger] shown[k]) < all.len(),
                forall|l: int| line < l < later ==> !follows_in_branch(all, shown, line as int, l, level as nat),
            decreases visible.len() - later,
        {
            assert(shown[later as int] == visible@[later as int]);
            let other = &nodes[visible[later]];
            assert(other@ == all[shown[later as int]]);
            if other.depth >= level && same_ancestor(
                &other.path,
                other.depth - level,
                &node.path,
                node.depth - level,
            ) {
                assert(follows_in_branch(all, shown, line as int, later as int, level as nat));
                return true;
            }
            later += 1;
        }
        false
    }

    /// The row that shows the visible line `line`.
    fn tree_row(&self, visible: &Vec<usize>, line: usize) -> (row: TreeRow)
        requires
            as_ints(visible@) == self@.visible(),
            line < visible.len(),
        ensures
            row.deep_view() == row_at(self@, line as int),
    {
        let nodes = self.nodes();
        let ghost all = self@.nodes;
        let ghost shown = self@.visible();
        proof {
            visible_indices_are_the_revealed(all, self@.animation.revealed_depth);
            assert(shown[line as int] == visible@[line as int]);
        }
        let index = visible[line];
        let node = &nodes[index];
        assert(node@ == all[index as int]);
        let mut guides: Vec<bool> = Vec::new();
        let mut level: usize = 1;
        while level < node.depth
            invariant
                1 <= level,
                level <= node.depth || level == 1,
                as_ints(visible@) == self@.visible(),
                line < visible.len(),
                all == self@.nodes,
                shown == self@.visible(),
                shown.len() == visible@.len(),
                node@ == all[shown[line as int]],
                visible@[line as int] as int == shown[line as int],
                guides@.len() == level - 1,
                forall|k: int|
                    0 <= k < guides@.len() ==> guides@[k] == guide_continues(
                        all,
                        shown,
                        line as int,
                        (k + 1) as nat,
                    ),
            decreases node.depth - level,
        {
            let runs_on = self.guide_runs_on(visible, line, level);
            guides.push(runs_on);
            level += 1;
        }
        let connector = if node.depth == 0 {
            None
        } else {
            let frame = self.animation_frame() % 3;
            let growth = if !self.animation_complete() && node.depth == self.animation_depth() {
                if frame == 0 {
                    Growth::Sprout
                } else if frame == 1 {
                    Growth::Half
                } else {
                    Growth::Full
                }
            } else {
                Growth::Full
            };
            Some(Connector { last: node.is_last_child, growth })
        };
        let selected = match self.selected_index() {
            Some(selected) => selected == index,
            None => false,
        };
        proof {
            let wanted = guides_of(all, shown, line as int);
            assert(all[shown[line as int]].depth == node.depth);
            assert(guides@.len() == wanted.len());
            assert forall|k: int| 0 <= k < guides@.len() implies guides@[k] == wanted[k] by {}
            assert(guides@ =~= wanted);
        }
        TreeRow { node_index: index, guides, connector, selected }
    }

    /// The rows of the tree view in a view of `visible_lines` lines.
    pub fn tree_rows(&self, visible_lines: usize) -> (rows: Vec<TreeRow>)
        ensures
            rows.deep_view() == tree_rows_of(self@, visible_lines as nat),
    {
        let visible = self.get_visible_node_indices();
        let offset = self.scroll_offset();
        let mut rows: Vec<TreeRow> = Vec::new();
        let mut shown: usize = 0;
        while shown < visible_lines && offset < visible.len() && shown < visible.len() - offset
            invariant
                as_ints(visible@) == self@.visible(),
                offset == self@.scroll_offset,
                shown <= lines_shown(visible@.len(), offset as nat, visible_lines as nat),
                rows@.len() == shown,
                forall|k: int|
                    0 <= k < shown ==> (#[trigger] rows@[k]).deep_view() == row_at(
                        self@,
                        offset + k,
                    ),
            decreases visible_lines - shown,
        {
            let row = self.tree_row(&visible, offset + shown);
            rows.push(row);
            shown += 1;
        }
        assert(rows.deep_view() =~= tree_rows_of(self@, visible_lines as nat));
        rows
    }

    /// The rows of the preview in a view of `visible_lines` lines.
    pub fn preview_rows(&self, visible_lines: usize) -> (rows: Vec<PreviewRow>)
        ensures
            rows.deep_view() == preview_rows_of(self@, visible_lines as nat),
    {
        let items = self.preview_contents();
        let offset = self.preview_scroll_offset();
        let mut rows: Vec<PreviewRow> = Vec::new();
        let mut shown: usize = 0;
        while shown < visible_lines && offset < items.len() && shown < items.len() - offset
            invariant
                items.deep_view() == self@.preview,
                offset == self@.preview_offset,
                shown <= lines_shown(items@.len(), offset as nat, visible_lines as nat),
                rows@.len() == shown,
                forall|k: int|
                    0 <= k < shown ==> (#[trigger] rows@[k]).deep_view() == preview_row_of(
                        self@.preview[offset + k],
                    ),
            decreases visible_lines - shown,
        {
            let item = &items[offset + shown];
            assert(item@ == self@.preview[offset + shown]);
            let size_text = if item.is_dir {
                None
            } else {
                Some(format_binary_size(item.size))
            };
            rows.push(PreviewRow { name: item.name.clone(), is_dir: item.is_dir, size_text });
            shown += 1;
        }
        assert(rows.deep_view() =~= preview_rows_of(self@, visible_lines as nat));
        rows
    }
}

} // verus!
