//! The order of the tree index. A walk lists a directory before what lies in
//! it, and all that lies in it before anything else; the nodes kept from such
//! a walk are in the same order, and the last-sibling scan relies on it.

use crate::path::{
    is_ancestor, is_prefix, lemma_ancestor_reaches_parent, lemma_prefix_of_same_length,
    lemma_prefix_transitive, parent_of,
};
use crate::tree::{
    directory_nodes, is_last_sibling, is_later_sibling, unflagged_node, with_sibling_flags,
    NodeView, WalkEntryView,
};
use vstd::prelude::*;

verus! {

/// Every depth counts the segments of its path below one common root.
pub open spec fn depths_fit_paths(s: Seq<NodeView>) -> bool {
    forall|i: int, j: int|
        #![trigger s[i], s[j]]
        0 <= i < s.len() && 0 <= j < s.len() ==> s[i].path.len() - s[i].depth == s[j].path.len()
            - s[j].depth
}

/// No path occurs twice.
pub open spec fn paths_distinct(s: Seq<NodeView>) -> bool {
    forall|i: int, j: int|
        #![trigger s[i], s[j]]
        0 <= i < j < s.len() ==> s[i].path != s[j].path
}

/// Node `p` is the parent of node `k` and leads it: it stands before `k`, and
/// all from there to `k` lies in it.
pub open spec fn leads(s: Seq<NodeView>, p: int, k: int) -> bool {
    &&& 0 <= p < k < s.len()
    &&& parent_of(s[k].path) == Some(s[p].path)
    &&& forall|m: int| p < m <= k ==> is_prefix(s[p].path, (#[trigger] s[m]).path)
}

/// Every node below depth 0 is led by its parent.
pub open spec fn parents_lead(s: Seq<NodeView>) -> bool {
    forall|k: int| 0 <= k < s.len() && (#[trigger] s[k]).depth > 0 ==> exists|p: int| leads(s, p, k)
}

/// The sequence is in pre-order: parents first, and each subtree in one piece.
pub open spec fn is_preorder(s: Seq<NodeView>) -> bool {
    &&& depths_fit_paths(s)
    &&& paths_distinct(s)
    &&& parents_lead(s)
}

/// The entries are those of a walk that lists parents first and each subtree in
/// one piece, and that found what it stepped into to be a directory.
pub open spec fn walk_is_preorder(entries: Seq<WalkEntryView>) -> bool {
    &&& is_preorder(entries.map_values(|e: WalkEntryView| unflagged_node(e)))
    &&& forall|p: int, k: int|
        #![trigger entries[p], entries[k]]
        0 <= p < entries.len() && 0 <= k < entries.len() && parent_of(entries[k].path) == Some(
            entries[p].path,
        ) ==> entries[p].is_dir
}

/// Node `j` follows node `i` before any node that is no deeper than `i`.
pub open spec fn in_run_below(s: Seq<NodeView>, i: int, j: int) -> bool {
    &&& 0 <= i < j < s.len()
    &&& forall|m: int| i < m <= j ==> (#[trigger] s[m]).depth > s[i].depth
}

/// In a pre-order sequence, what lies in node `i` follows it, and all between
/// the two lies in node `i` as well.
proof fn lemma_descendant_follows(s: Seq<NodeView>, i: int, j: int)
    requires
        is_preorder(s),
        0 <= i < s.len(),
        0 <= j < s.len(),
        is_ancestor(s[i].path, s[j].path),
    ensures
        i < j,
        forall|m: int| i < m <= j ==> is_ancestor(s[i].path, (#[trigger] s[m]).path),
    decreases s[j].depth,
{
    assert(s[i].path.len() - s[i].depth == s[j].path.len() - s[j].depth);
    assert(s[j].depth > 0);
    let p = choose|p: int| leads(s, p, j);
    assert(leads(s, p, j));
    assert(s[p].path.len() - s[p].depth == s[j].path.len() - s[j].depth);
    lemma_ancestor_reaches_parent(s[i].path, s[j].path);
    if s[i].path.len() == s[p].path.len() {
        lemma_prefix_of_same_length(s[i].path, s[p].path);
        if i != p {
            if i < p {
                assert(s[i].path != s[p].path);
            } else {
                assert(s[p].path != s[i].path);
            }
        }
        assert forall|m: int| i < m <= j implies is_ancestor(s[i].path, (#[trigger] s[m]).path) by {
            assert(is_prefix(s[p].path, s[m].path));
            if s[m].path.len() == s[i].path.len() {
                lemma_prefix_of_same_length(s[i].path, s[m].path);
                assert(s[i].path != s[m].path);
            }
        }
    } else {
        lemma_descendant_follows(s, i, p);
        assert forall|m: int| i < m <= j implies is_ancestor(s[i].path, (#[trigger] s[m]).path) by {
            if m > p {
                assert(is_prefix(s[p].path, s[m].path));
                lemma_prefix_transitive(s[i].path, s[p].path, s[m].path);
            }
        }
    }
}

/// In a pre-order sequence, a node that follows node `i` before any node that
/// is no deeper than `i` lies in node `i`.
proof fn lemma_run_is_descendant(s: Seq<NodeView>, i: int, j: int)
    requires
        is_preorder(s),
        in_run_below(s, i, j),
    ensures
        is_ancestor(s[i].path, s[j].path),
    decreases j - i,
{
    assert(s[j].depth > s[i].depth);
    let p = choose|p: int| leads(s, p, j);
    assert(leads(s, p, j));
    assert(s[p].path.len() - s[p].depth == s[j].path.len() - s[j].depth);
    assert(s[i].path.len() - s[i].depth == s[j].path.len() - s[j].depth);
    lemma_ancestor_reaches_parent(s[p].path, s[j].path);
    if p < i {
        assert(is_prefix(s[p].path, s[i].path));
        lemma_prefix_of_same_length(s[p].path, s[i].path);
        assert(s[p].path != s[i].path);
    } else if p > i {
        assert forall|m: int| i < m <= p implies (#[trigger] s[m]).depth > s[i].depth by {}
        lemma_run_is_descendant(s, i, p);
        lemma_prefix_transitive(s[i].path, s[p].path, s[j].path.drop_last());
        lemma_ancestor_reaches_parent(s[i].path, s[j].path);
    }
}

/// In a pre-order sequence the nodes that lie in node `i` are those that
/// follow it before the next node that is no deeper than `i`: they come after
/// it, in one piece, and no shallower node that follows lies in it.
pub proof fn subtree_is_the_run_below(s: Seq<NodeView>, i: int, j: int)
    requires
        is_preorder(s),
        0 <= i < s.len(),
        0 <= j < s.len(),
    ensures
        is_ancestor(s[i].path, s[j].path) <==> in_run_below(s, i, j),
        i < j && s[j].depth < s[i].depth ==> !is_ancestor(s[i].path, s[j].path),
{
    if is_ancestor(s[i].path, s[j].path) {
        lemma_descendant_follows(s, i, j);
        assert forall|m: int| i < m <= j implies (#[trigger] s[m]).depth > s[i].depth by {
            assert(is_ancestor(s[i].path, s[m].path));
            assert(s[i].path.len() - s[i].depth == s[m].path.len() - s[m].depth);
        }
    }
    if in_run_below(s, i, j) {
        lemma_run_is_descendant(s, i, j);
    }
}

/// In a pre-order sequence the forward scan misses no sibling: a node is the
/// last of its siblings exactly when no later node at all has its depth and
/// its parent.
pub proof fn last_sibling_has_no_later_sibling(s: Seq<NodeView>, i: int)
    requires
        is_preorder(s),
        0 <= i < s.len(),
    ensures
        is_last_sibling(s, i) <==> forall|j: int|
            i < j < s.len() ==> !((#[trigger] s[j]).depth == s[i].depth && parent_of(s[j].path)
                == parent_of(s[i].path)),
{
    if is_last_sibling(s, i) {
        assert forall|j: int| i < j < s.len() implies !((#[trigger] s[j]).depth == s[i].depth
            && parent_of(s[j].path) == parent_of(s[i].path)) by {
            if s[j].depth == s[i].depth && parent_of(s[j].path) == parent_of(s[i].path) {
                lemma_siblings_enclose_deeper(s, i, j);
                assert(is_later_sibling(s, i, j));
            }
        }
    } else {
        let j = choose|j: int| is_later_sibling(s, i, j);
        assert(s[j].depth == s[i].depth);
    }
}

/// In a pre-order sequence no node between two siblings is shallower than
/// they are.
proof fn lemma_siblings_enclose_deeper(s: Seq<NodeView>, i: int, j: int)
    requires
        is_preorder(s),
        0 <= i < j < s.len(),
        s[j].depth == s[i].depth,
        parent_of(s[j].path) == parent_of(s[i].path),
    ensures
        forall|m: int| i < m < j ==> (#[trigger] s[m]).depth >= s[i].depth,
{
    if s[i].depth > 0 {
        let p = choose|p: int| leads(s, p, j);
        assert(leads(s, p, j));
        let q = choose|q: int| leads(s, q, i);
        assert(leads(s, q, i));
        if p != q {
            if p < q {
                assert(s[p].path != s[q].path);
            } else {
                assert(s[q].path != s[p].path);
            }
        }
        assert(s[p].path.len() - s[p].depth == s[i].path.len() - s[i].depth);
        assert forall|m: int| i < m < j implies (#[trigger] s[m]).depth >= s[i].depth by {
            assert(is_prefix(s[p].path, s[m].path));
            assert(s[p].path.len() - s[p].depth == s[m].path.len() - s[m].depth);
            if s[m].depth < s[i].depth {
                lemma_prefix_of_same_length(s[p].path, s[m].path);
                assert(s[p].path != s[m].path);
            }
        }
    }
}

/// Where each directory of a walk stands among its entries: the positions of
/// the nodes kept, in rising order, none left out.
proof fn lemma_kept_positions(entries: Seq<WalkEntryView>) -> (src: Seq<int>)
    ensures
        src.len() == directory_nodes(entries).len(),
        forall|k: int|
            0 <= k < src.len() ==> {
                &&& 0 <= (#[trigger] src[k]) < entries.len()
                &&& directory_nodes(entries)[k] == unflagged_node(entries[src[k]])
            },
        forall|k: int, l: int| 0 <= k < l < src.len() ==> src[k] < src[l],
        forall|i: int|
            0 <= i < entries.len() && (#[trigger] entries[i]).is_dir ==> exists|k: int|
                0 <= k < src.len() && src[k] == i,
    decreases entries.len(),
{
    reveal(Seq::filter);
    if entries.len() == 0 {
        Seq::empty()
    } else {
        let rest = entries.drop_last();
        let before = lemma_kept_positions(rest);
        let last = entries.len() - 1;
        let src = if entries.last().is_dir {
            before.push(last)
        } else {
            before
        };
        assert forall|i: int| 0 <= i < entries.len() && (#[trigger] entries[i]).is_dir implies exists|
            k: int,
        | 0 <= k < src.len() && src[k] == i by {
            if i < last {
                assert(rest[i].is_dir);
                let k = choose|k: int| 0 <= k < before.len() && before[k] == i;
                assert(src[k] == i);
            } else {
                assert(src[src.len() - 1] == i);
            }
        }
        assert forall|k: int| 0 <= k < src.len() implies {
            &&& 0 <= (#[trigger] src[k]) < entries.len()
            &&& directory_nodes(entries)[k] == unflagged_node(entries[src[k]])
        } by {
            if k < before.len() {
                assert(directory_nodes(rest)[k] == unflagged_node(rest[before[k]]));
            }
        }
        src
    }
}

/// The nodes that the index keeps from a pre-order walk are in pre-order.
pub proof fn built_tree_is_preorder(entries: Seq<WalkEntryView>)
    requires
        walk_is_preorder(entries),
    ensures
        is_preorder(with_sibling_flags(directory_nodes(entries))),
{
    let all = entries.map_values(|e: WalkEntryView| unflagged_node(e));
    let plain = directory_nodes(entries);
    let nodes = with_sibling_flags(plain);
    let src = lemma_kept_positions(entries);
    assert forall|k: int| 0 <= k < nodes.len() implies (#[trigger] nodes[k]).path == all[src[k]].path
        && nodes[k].depth == all[src[k]].depth by {
        assert(plain[k] == unflagged_node(entries[src[k]]));
    }
    assert forall|i: int, j: int|
        #![trigger nodes[i], nodes[j]]
        0 <= i < nodes.len() && 0 <= j < nodes.len() implies nodes[i].path.len() - nodes[i].depth
        == nodes[j].path.len() - nodes[j].depth by {
        assert(all[src[i]].path.len() - all[src[i]].depth == all[src[j]].path.len()
            - all[src[j]].depth);
    }
    assert forall|i: int, j: int|
        #![trigger nodes[i], nodes[j]]
        0 <= i < j < nodes.len() implies nodes[i].path != nodes[j].path by {
        assert(src[i] < src[j]);
        assert(all[src[i]].path != all[src[j]].path);
    }
    assert forall|k: int| 0 <= k < nodes.len() && (#[trigger] nodes[k]).depth > 0 implies exists|
        p: int,
    | leads(nodes, p, k) by {
        let e = src[k];
        assert(all[e].depth > 0);
        let q = choose|q: int| leads(all, q, e);
        assert(leads(all, q, e));
        assert(parent_of(entries[e].path) == Some(entries[q].path));
        assert(entries[q].is_dir);
        let p = choose|p: int| 0 <= p < src.len() && src[p] == q;
        if p >= k {
            if p > k {
                assert(src[k] < src[p]);
            }
        }
        assert forall|m: int| p < m <= k implies is_prefix(
            nodes[p].path,
            (#[trigger] nodes[m]).path,
        ) by {
            assert(src[p] < src[m]);
            if m < k {
                assert(src[m] < src[k]);
            }
            assert(is_prefix(all[q].path, all[src[m]].path));
        }
        assert(leads(nodes, p, k));
    }
}

} // verus!
