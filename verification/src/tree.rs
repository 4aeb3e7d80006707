//! The tree index: the directories of a walk, in walk order, each with its
//! depth and its last-sibling flag, and the statistics of the whole walk.

use crate::path::{parent_of, same_parent};
use crate::preorder::{built_tree_is_preorder, is_preorder, walk_is_preorder};
use vstd::prelude::*;

verus! {

/// One entry of a directory walk, as the walker reports it.
#[derive(Clone, Debug, PartialEq, Eq)]
pub struct WalkEntry {
    /// The segments of the entry's path, root-most first.
    pub path: Vec<String>,
    /// The label to display for the entry.
    pub name: String,
    /// The number of path segments below the root of the walk.
    pub depth: usize,
    /// Whether the entry is a directory.
    pub is_dir: bool,
    /// The size of a file in bytes; not read for a directory.
    pub size: u64,
}

/// A directory of the tree.
#[derive(Clone, Debug, PartialEq, Eq)]
pub struct FileNode {
    /// The segments of the directory's path, root-most first.
    pub path: Vec<String>,
    /// The label to display for the directory.
    pub name: String,
    /// Whether the node is a directory.
    pub is_dir: bool,
    /// The number of path segments below the root of the walk.
    pub depth: usize,
    /// Whether no later sibling follows the node in the tree.
    pub is_last_child: bool,
}

/// The totals of a walk.
#[derive(Clone, Copy, Debug, PartialEq, Eq)]
pub struct Stats {
    /// The number of entries that are not directories.
    pub total_files: usize,
    /// The number of directories, the root among them.
    pub total_dirs: usize,
    /// The sizes of the files, added up.
    pub total_size: u64,
    /// The depth of the deepest directory.
    pub max_depth: usize,
}

/// What a [`WalkEntry`] stands for.
pub struct WalkEntryView {
    pub path: Seq<Seq<char>>,
    pub name: Seq<char>,
    pub depth: nat,
    pub is_dir: bool,
    pub size: nat,
}

/// What a [`FileNode`] stands for.
pub struct NodeView {
    pub path: Seq<Seq<char>>,
    pub name: Seq<char>,
    pub is_dir: bool,
    pub depth: nat,
    pub is_last_child: bool,
}

impl View for WalkEntry {
    type V = WalkEntryView;

    open spec fn view(&self) -> WalkEntryView {
        WalkEntryView {
            path: self.path.deep_view(),
            name: self.name@,
            depth: self.depth as nat,
            is_dir: self.is_dir,
            size: self.size as nat,
        }
    }
}

impl DeepView for WalkEntry {
    type V = WalkEntryView;

    open spec fn deep_view(&self) -> WalkEntryView {
        self@
    }
}

impl View for FileNode {
    type V = NodeView;

    open spec fn view(&self) -> NodeView {
        NodeView {
            path: self.path.deep_view(),
            name: self.name@,
            is_dir: self.is_dir,
            depth: self.depth as nat,
            is_last_child: self.is_last_child,
        }
    }
}

impl DeepView for FileNode {
    type V = NodeView;

    open spec fn deep_view(&self) -> NodeView {
        self@
    }
}

/// The node that an entry becomes, before its last-sibling flag is known.
pub open spec fn unflagged_node(e: WalkEntryView) -> NodeView {
    NodeView { path: e.path, name: e.name, is_dir: e.is_dir, depth: e.depth, is_last_child: false }
}

/// The directories among `entries`, in their order, as unflagged nodes.
pub open spec fn directory_nodes(entries: Seq<WalkEntryView>) -> Seq<NodeView> {
    entries.filter(|e: WalkEntryView| e.is_dir).map_values(|e: WalkEntryView| unflagged_node(e))
}

/// Node `j` is a later sibling of node `i` that a forward scan from `i`
/// reaches: it has the depth and the parent of `i`, and no node between them
/// is shallower than `i`.
pub open spec fn is_later_sibling(nodes: Seq<NodeView>, i: int, j: int) -> bool {
    &&& 0 <= i < j < nodes.len()
    &&& nodes[j].depth == nodes[i].depth
    &&& parent_of(nodes[j].path) == parent_of(nodes[i].path)
    &&& forall|m: int| i < m < j ==> (#[trigger] nodes[m]).depth >= nodes[i].depth
}

/// Node `i` is the last of its siblings: the forward scan from it reaches no
/// later sibling.
pub open spec fn is_last_sibling(nodes: Seq<NodeView>, i: int) -> bool {
    forall|j: int| !is_later_sibling(nodes, i, j)
}

/// `nodes` with every last-sibling flag set to what the sequence itself says.
pub open spec fn with_sibling_flags(nodes: Seq<NodeView>) -> Seq<NodeView> {
    Seq::new(
        nodes.len(),
        |i: int|
            NodeView {
                path: nodes[i].path,
                name: nodes[i].name,
                is_dir: nodes[i].is_dir,
                depth: nodes[i].depth,
                is_last_child: is_last_sibling(nodes, i),
            },
    )
}

/// The number of directories among `entries`.
pub open spec fn count_dirs(entries: Seq<WalkEntryView>) -> nat {
    entries.filter(|e: WalkEntryView| e.is_dir).len()
}

/// The number of entries that are not directories.
pub open spec fn count_files(entries: Seq<WalkEntryView>) -> nat {
    entries.filter(|e: WalkEntryView| !e.is_dir).len()
}

/// The sizes of the entries that are not directories, added up.
pub open spec fn file_bytes(entries: Seq<WalkEntryView>) -> nat
    decreases entries.len(),
{
    if entries.len() == 0 {
        0
    } else {
        file_bytes(entries.drop_last()) + if entries.last().is_dir {
            0
        } else {
            entries.last().size
        }
    }
}

/// The greatest depth among the directories of `entries`; 0 where there is
/// none. Files do not count, however deep they lie.
pub open spec fn deepest_directory(entries: Seq<WalkEntryView>) -> nat
    decreases entries.len(),
{
    if entries.len() == 0 {
        0
    } else {
        let rest = deepest_directory(entries.drop_last());
        if entries.last().is_dir && entries.last().depth > rest {
            entries.last().depth
        } else {
            rest
        }
    }
}

/// The statistics of a walk. The byte total stops at `u64::MAX`.
pub open spec fn stats_of(entries: Seq<WalkEntryView>) -> Stats {
    Stats {
        total_files: count_files(entries) as usize,
        total_dirs: count_dirs(entries) as usize,
        total_size: if file_bytes(entries) <= u64::MAX {
            file_bytes(entries) as u64
        } else {
            u64::MAX
        },
        max_depth: deepest_directory(entries) as usize,
    }
}

/// Whether the forward scan from node `i` stops without meeting a later
/// sibling. The scan ends at the first node that is shallower than node `i`.
pub fn scan_is_last_sibling(nodes: &Vec<FileNode>, i: usize) -> (r: bool)
    requires
        i < nodes.len(),
    ensures
        r == is_last_sibling(nodes.deep_view(), i as int),
{
    let ghost view = nodes.deep_view();
    let n = nodes.len();
    let mut j: usize = i + 1;
    while j < n
        invariant
            i < j <= n,
            n == nodes.len(),
            view == nodes.deep_view(),
            forall|m: int| i < m < j ==> (#[trigger] view[m]).depth >= view[i as int].depth,
            forall|m: int| i < m < j ==> !is_later_sibling(view, i as int, m),
        decreases n - j,
    {
        if nodes[j].depth < nodes[i].depth {
            assert forall|m: int| !is_later_sibling(view, i as int, m) by {
                if j < m < n && is_later_sibling(view, i as int, m) {
                    assert(view[j as int].depth >= view[i as int].depth);
                }
            }
            return true;
        }
        if nodes[j].depth == nodes[i].depth && same_parent(&nodes[j].path, &nodes[i].path) {
            assert(is_later_sibling(view, i as int, j as int));
            return false;
        }
        j += 1;
    }
    true
}

/// Sets the last-sibling flag of every node from the sequence itself, and
/// changes nothing else.
pub fn compute_last_sibling_flags(nodes: &mut Vec<FileNode>)
    ensures
        final(nodes).deep_view() == with_sibling_flags(old(nodes).deep_view()),
{
    let ghost before = nodes.deep_view();
    let n = nodes.len();
    let mut i: usize = 0;
    while i < n
        invariant
            i <= n,
            n == nodes.len(),
            n == before.len(),
            forall|k: int| 0 <= k < i ==> nodes.deep_view()[k] == with_sibling_flags(before)[k],
            forall|k: int| i <= k < n ==> nodes.deep_view()[k] == before[k],
        decreases n - i,
    {
        let ghost now = nodes.deep_view();
        let is_last = scan_is_last_sibling(nodes, i);
        proof {
            assert forall|k: int| 0 <= k < n implies now[k].path == before[k].path && now[k].depth
                == before[k].depth by {
                if k < i {
                    assert(now[k] == with_sibling_flags(before)[k]);
                }
            }
            lemma_flags_do_not_matter(now, before, i as int);
        }
        nodes[i].is_last_child = is_last;
        i += 1;
    }
    assert(nodes.deep_view() =~= with_sibling_flags(before));
}

/// Builds the tree index of a walk: the directories among `entries`, in walk
/// order and with their last-sibling flags, and the statistics of all entries.
/// The nodes of a walk that lists parents first and each subtree in one piece
/// are in pre-order.
pub fn build_tree(entries: &Vec<WalkEntry>) -> (r: (Vec<FileNode>, Stats))
    ensures
        r.0.deep_view() == with_sibling_flags(directory_nodes(entries.deep_view())),
        r.1 == stats_of(entries.deep_view()),
        walk_is_preorder(entries.deep_view()) ==> is_preorder(r.0.deep_view()),
{
    let ghost all = entries.deep_view();
    let mut nodes: Vec<FileNode> = Vec::new();
    let mut stats = Stats { total_files: 0, total_dirs: 0, total_size: 0, max_depth: 0 };
    let n = entries.len();
    let mut i: usize = 0;
    proof {
        reveal(Seq::filter);
        assert(all.take(0) =~= Seq::<WalkEntryView>::empty());
        assert(directory_nodes(all.take(0)) =~= Seq::<NodeView>::empty());
    }
    while i < n
        invariant
            i <= n,
            n == entries.len(),
            all == entries.deep_view(),
            nodes.deep_view() == directory_nodes(all.take(i as int)),
            stats == stats_of(all.take(i as int)),
            count_files(all.take(i as int)) + count_dirs(all.take(i as int)) == i,
            stats.max_depth == deepest_directory(all.take(i as int)),
        decreases n - i,
    {
        let entry = &entries[i];
        proof {
            lemma_take_next(all, i as int);
        }
        if entry.is_dir {
            stats.total_dirs += 1;
            if entry.depth > stats.max_depth {
                stats.max_depth = entry.depth;
            }
            nodes.push(
                FileNode {
                    path: entry.path.clone(),
                    name: entry.name.clone(),
                    is_dir: entry.is_dir,
                    depth: entry.depth,
                    is_last_child: false,
                },
            );
        } else {
            stats.total_files += 1;
            stats.total_size = stats.total_size.saturating_add(entry.size);
        }
        i += 1;
        assert(nodes.deep_view() =~= directory_nodes(all.take(i as int)));
    }
    assert(all.take(n as int) =~= all);
    compute_last_sibling_flags(&mut nodes);
    proof {
        if walk_is_preorder(all) {
            built_tree_is_preorder(all);
        }
    }
    (nodes, stats)
}

/// How the totals of the first `i + 1` entries come from those of the first `i`.
proof fn lemma_take_next(all: Seq<WalkEntryView>, i: int)
    requires
        0 <= i < all.len(),
    ensures
        directory_nodes(all.take(i + 1)) == if all[i].is_dir {
            directory_nodes(all.take(i)).push(unflagged_node(all[i]))
        } else {
            directory_nodes(all.take(i))
        },
        count_dirs(all.take(i + 1)) == count_dirs(all.take(i)) + if all[i].is_dir {
            1nat
        } else {
            0nat
        },
        count_files(all.take(i + 1)) == count_files(all.take(i)) + if all[i].is_dir {
            0nat
        } else {
            1nat
        },
        file_bytes(all.take(i + 1)) == file_bytes(all.take(i)) + if all[i].is_dir {
            0
        } else {
            all[i].size
        },
        deepest_directory(all.take(i + 1)) == if all[i].is_dir && all[i].depth
            > deepest_directory(all.take(i)) {
            all[i].depth
        } else {
            deepest_directory(all.take(i))
        },
{
    reveal(Seq::filter);
    let next = all.take(i + 1);
    assert(next.drop_last() =~= all.take(i));
    assert(next.last() == all[i]);
    assert(directory_nodes(next) =~= if all[i].is_dir {
        directory_nodes(all.take(i)).push(unflagged_node(all[i]))
    } else {
        directory_nodes(all.take(i))
    });
}

/// The deepest directory depth is that of some directory, or 0 where there is
/// none, and no directory is deeper.
pub proof fn lemma_deepest_directory(entries: Seq<WalkEntryView>)
    ensures
        forall|i: int|
            0 <= i < entries.len() && (#[trigger] entries[i]).is_dir ==> entries[i].depth
                <= deepest_directory(entries),
        deepest_directory(entries) == 0 || exists|i: int|
            0 <= i < entries.len() && (#[trigger] entries[i]).is_dir && entries[i].depth
                == deepest_directory(entries),
    decreases entries.len(),
{
    if entries.len() > 0 {
        let rest = entries.drop_last();
        lemma_deepest_directory(rest);
        assert forall|i: int| 0 <= i < entries.len() && (#[trigger] entries[i]).is_dir implies
            entries[i].depth <= deepest_directory(entries) by {
            if i < rest.len() {
                assert(rest[i].is_dir);
            }
        }
        if entries.last().is_dir && entries.last().depth > deepest_directory(rest) {
            assert(entries[entries.len() - 1].is_dir);
        } else if deepest_directory(rest) != 0 {
            let i = choose|i: int|
                0 <= i < rest.len() && (#[trigger] rest[i]).is_dir && rest[i].depth
                    == deepest_directory(rest);
            assert(entries[i].is_dir);
        }
    }
}

/// Every node taken from a walk is a directory, and an entry of the walk
/// without its flag.
pub proof fn lemma_directory_nodes(entries: Seq<WalkEntryView>)
    ensures
        directory_nodes(entries).len() == count_dirs(entries),
        forall|i: int|
            0 <= i < directory_nodes(entries).len() ==> {
                &&& (#[trigger] directory_nodes(entries)[i]).is_dir
                &&& exists|k: int|
                    0 <= k < entries.len() && directory_nodes(entries)[i] == unflagged_node(
                        #[trigger] entries[k],
                    )
            },
    decreases entries.len(),
{
    reveal(Seq::filter);
    if entries.len() > 0 {
        let rest = entries.drop_last();
        lemma_directory_nodes(rest);
        let nodes = directory_nodes(entries);
        let fewer = directory_nodes(rest);
        assert forall|i: int| 0 <= i < nodes.len() implies {
            &&& (#[trigger] nodes[i]).is_dir
            &&& exists|k: int|
                0 <= k < entries.len() && nodes[i] == unflagged_node(#[trigger] entries[k])
        } by {
            if i < fewer.len() {
                assert(nodes[i] == fewer[i]);
                let k = choose|k: int|
                    0 <= k < rest.len() && fewer[i] == unflagged_node(#[trigger] rest[k]);
                assert(nodes[i] == unflagged_node(entries[k]));
            } else {
                assert(nodes[i] == unflagged_node(entries[entries.len() - 1]));
            }
        }
    }
}

/// Whether a node is the last of its siblings depends on the paths and depths
/// of the sequence alone.
pub proof fn lemma_flags_do_not_matter(a: Seq<NodeView>, b: Seq<NodeView>, i: int)
    requires
        a.len() == b.len(),
        forall|k: int| 0 <= k < a.len() ==> a[k].path == b[k].path && a[k].depth == b[k].depth,
    ensures
        is_last_sibling(a, i) == is_last_sibling(b, i),
{
    assert forall|j: int| is_later_sibling(a, i, j) == is_later_sibling(b, i, j) by {
        if 0 <= i < j < a.len() {
            assert(a[j].depth == b[j].depth && a[i].depth == b[i].depth);
            if is_later_sibling(a, i, j) {
                assert forall|m: int| i < m < j implies (#[trigger] b[m]).depth >= b[i].depth by {
                    assert(a[m].depth >= a[i].depth);
                }
            }
            if is_later_sibling(b, i, j) {
                assert forall|m: int| i < m < j implies (#[trigger] a[m]).depth >= a[i].depth by {
                    assert(b[m].depth >= b[i].depth);
                }
            }
        }
    }
}

} // verus!
