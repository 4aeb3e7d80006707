//! The viewport over the revealed nodes: which nodes are visible, how far the
//! view may scroll, how the selection moves, and what a click means.

use crate::tree::NodeView;
use vstd::prelude::*;

verus! {

/// Two clicks on one node count as a double click when less than this many
/// nanoseconds lie between them.
pub const DOUBLE_CLICK_WINDOW_NS: u64 = 500_000_000;

/// The indices below `n` of the nodes no deeper than `revealed`, in order.
pub open spec fn visible_below(nodes: Seq<NodeView>, revealed: nat, n: nat) -> Seq<int> {
    Seq::new(n, |i: int| i).filter(|i: int| nodes[i].depth <= revealed)
}

/// The indices of the revealed nodes, in the order of the tree.
pub open spec fn visible_indices(nodes: Seq<NodeView>, revealed: nat) -> Seq<int> {
    visible_below(nodes, revealed, nodes.len())
}

/// A sequence of indices as numbers.
pub open spec fn as_ints(v: Seq<usize>) -> Seq<int> {
    v.map_values(|x: usize| x as int)
}

/// The furthest that a view of `height` lines may scroll over `count` lines.
pub open spec fn max_scroll(count: nat, height: nat) -> nat {
    if count > height {
        (count - height) as nat
    } else {
        0
    }
}

/// The offset one line up, stopping at the top.
pub open spec fn scrolled_up(offset: nat) -> nat {
    if offset > 0 {
        (offset - 1) as nat
    } else {
        0
    }
}

/// The offset one line down, no further than the view may scroll. An offset
/// that lies beyond that bound, as after the view has grown, comes back to it.
pub open spec fn scrolled_down(offset: nat, count: nat, height: nat) -> nat {
    if offset < max_scroll(count, height) {
        offset + 1
    } else {
        max_scroll(count, height)
    }
}

/// The offset after `times` single steps up.
pub open spec fn scrolled_up_by(offset: nat, times: nat) -> nat
    decreases times,
{
    if times == 0 {
        offset
    } else {
        scrolled_up(scrolled_up_by(offset, (times - 1) as nat))
    }
}

/// The offset after `times` single steps down.
pub open spec fn scrolled_down_by(offset: nat, count: nat, height: nat, times: nat) -> nat
    decreases times,
{
    if times == 0 {
        offset
    } else {
        scrolled_down(scrolled_down_by(offset, count, height, (times - 1) as nat), count, height)
    }
}

/// The offset that brings line `pos` into a view of `height` lines with the
/// least movement: up to the line itself, or down until it is the last line
/// shown. A view without height is taken as one line high.
pub open spec fn offset_showing(offset: nat, pos: nat, height: nat) -> nat {
    if pos < offset {
        pos
    } else if pos >= offset + height {
        if height > 0 {
            (pos + 1 - height) as nat
        } else {
            pos
        }
    } else {
        offset
    }
}

/// The line on which the selected node stands among the visible ones.
pub open spec fn line_of(visible: Seq<int>, selected: Option<int>) -> Option<int> {
    if selected is Some && visible.contains(selected->0) {
        Some(visible.index_of(selected->0))
    } else {
        None
    }
}

/// The selection one step from `selected` within `visible`, where there is
/// one: `step` is -1 for the entry before and 1 for the entry after.
pub open spec fn neighbour(visible: Seq<int>, selected: Option<int>, step: int) -> Option<int> {
    match line_of(visible, selected) {
        Some(line) => if 0 <= line + step < visible.len() {
            Some(visible[line + step])
        } else {
            None
        },
        None => None,
    }
}

/// The sequence rises strictly.
pub open spec fn is_rising(v: Seq<int>) -> bool {
    forall|k: int, l: int| 0 <= k < l < v.len() ==> v[k] < v[l]
}

/// The line of the listing that a click on `row` meets, in a view whose frame
/// starts at row `top` and is `height` rows high. The first and the last row
/// of the frame are its border and meet no line.
pub open spec fn clicked_line(row: nat, top: nat, height: nat, offset: nat) -> Option<nat> {
    if top < row && row + 1 < top + height {
        Some((row - top - 1 + offset) as nat)
    } else {
        None
    }
}

/// The time from `earlier` to `later`; none where `later` is the earlier one.
pub open spec fn elapsed_between(earlier: nat, later: nat) -> nat {
    if later >= earlier {
        (later - earlier) as nat
    } else {
        0
    }
}

/// A click on node `index` at time `now` completes a double click: the click
/// before it met the same node, within the window.
pub open spec fn completes_double_click(
    last_click: Option<(int, nat)>,
    index: int,
    now: nat,
) -> bool {
    match last_click {
        Some((last_index, last_time)) => last_index == index && elapsed_between(last_time, now)
            < DOUBLE_CLICK_WINDOW_NS,
        None => false,
    }
}

/// In a rising sequence each value stands on one line only.
pub proof fn lemma_line_in_rising(v: Seq<int>, line: int)
    requires
        is_rising(v),
        0 <= line < v.len(),
    ensures
        v.contains(v[line]),
        v.index_of(v[line]) == line,
        line_of(v, Some(v[line])) == Some(line),
{
    let found = v.index_of(v[line]);
    assert(0 <= found < v.len() && v[found] == v[line]);
    if found < line {
        assert(v[found] < v[line]);
    } else if line < found {
        assert(v[line] < v[found]);
    }
}

/// How the visible indices below `n + 1` come from those below `n`.
pub proof fn lemma_visible_below_next(nodes: Seq<NodeView>, revealed: nat, n: nat)
    requires
        n < nodes.len(),
    ensures
        visible_below(nodes, revealed, n + 1) == if nodes[n as int].depth <= revealed {
            visible_below(nodes, revealed, n).push(n as int)
        } else {
            visible_below(nodes, revealed, n)
        },
{
    reveal(Seq::filter);
    let next = Seq::new(n + 1, |i: int| i);
    assert(next.drop_last() =~= Seq::new(n, |i: int| i));
    assert(next.last() == n);
}

/// The visible indices below `n` are below `n`, each of a revealed node, in
/// rising order, and none is left out.
pub proof fn lemma_visible_below(nodes: Seq<NodeView>, revealed: nat, n: nat)
    requires
        n <= nodes.len(),
    ensures
        visible_below(nodes, revealed, n).len() <= n,
        forall|k: int|
            0 <= k < visible_below(nodes, revealed, n).len() ==> {
                &&& 0 <= (#[trigger] visible_below(nodes, revealed, n)[k]) < n
                &&& nodes[visible_below(nodes, revealed, n)[k]].depth <= revealed
            },
        forall|k: int, l: int|
            0 <= k < l < visible_below(nodes, revealed, n).len() ==> visible_below(
                nodes,
                revealed,
                n,
            )[k] < visible_below(nodes, revealed, n)[l],
        forall|i: int|
            0 <= i < n && nodes[i].depth <= revealed ==> visible_below(nodes, revealed, n).contains(
                i,
            ),
    decreases n,
{
    if n == 0 {
        reveal(Seq::filter);
    } else {
        let m = (n - 1) as nat;
        lemma_visible_below(nodes, revealed, m);
        lemma_visible_below_next(nodes, revealed, m);
        let before = visible_below(nodes, revealed, m);
        let v = visible_below(nodes, revealed, n);
        assert forall|i: int| 0 <= i < n && nodes[i].depth <= revealed implies v.contains(i) by {
            if i < m {
                assert(before.contains(i));
                let k = choose|k: int| 0 <= k < before.len() && before[k] == i;
                assert(v[k] == i);
            } else {
                assert(v[v.len() - 1] == i);
            }
        }
    }
}

/// The visible indices are those of the revealed nodes, each once and in
/// rising order.
pub proof fn visible_indices_are_the_revealed(nodes: Seq<NodeView>, revealed: nat)
    ensures
        visible_indices(nodes, revealed).len() <= nodes.len(),
        forall|k: int|
            0 <= k < visible_indices(nodes, revealed).len() ==> {
                &&& 0 <= (#[trigger] visible_indices(nodes, revealed)[k]) < nodes.len()
                &&& nodes[visible_indices(nodes, revealed)[k]].depth <= revealed
            },
        forall|k: int, l: int|
            0 <= k < l < visible_indices(nodes, revealed).len() ==> visible_indices(
                nodes,
                revealed,
            )[k] < visible_indices(nodes, revealed)[l],
        forall|i: int|
            0 <= i < nodes.len() && nodes[i].depth <= revealed ==> visible_indices(
                nodes,
                revealed,
            ).contains(i),
{
    lemma_visible_below(nodes, revealed, nodes.len());
}

/// Revealing deeper levels hides no node: the visible nodes become no fewer.
pub proof fn revealing_more_shows_no_less(nodes: Seq<NodeView>, revealed: nat, later: nat)
    requires
        revealed <= later,
    ensures
        visible_indices(nodes, revealed).len() <= visible_indices(nodes, later).len(),
{
    lemma_visible_count_grows(nodes, revealed, later, nodes.len());
}

/// Among the nodes below `n`, no fewer are visible at a greater revealed depth.
proof fn lemma_visible_count_grows(nodes: Seq<NodeView>, revealed: nat, later: nat, n: nat)
    requires
        revealed <= later,
        n <= nodes.len(),
    ensures
        visible_below(nodes, revealed, n).len() <= visible_below(nodes, later, n).len(),
    decreases n,
{
    if n == 0 {
        reveal(Seq::filter);
    } else {
        let m = (n - 1) as nat;
        lemma_visible_count_grows(nodes, revealed, later, m);
        lemma_visible_below_next(nodes, revealed, m);
        lemma_visible_below_next(nodes, later, m);
    }
}

/// Moving the selection lands on a revealed node only: the entry before or
/// after the selection, where there is one, is a node of the tree no deeper
/// than the revealed depth.
pub proof fn neighbour_is_revealed(
    nodes: Seq<NodeView>,
    revealed: nat,
    selected: Option<int>,
    step: int,
)
    ensures
        neighbour(visible_indices(nodes, revealed), selected, step) matches Some(index) ==> 0
            <= index < nodes.len() && nodes[index].depth <= revealed,
{
    visible_indices_are_the_revealed(nodes, revealed);
}

/// Single steps keep the scroll offset in the range from 0 to
/// `max_scroll(count, height)`: a step down always ends within it, wherever
/// it started, and a step up never leaves it.
pub proof fn scrolling_stays_clamped(offset: nat, count: nat, height: nat)
    ensures
        scrolled_down(offset, count, height) <= max_scroll(count, height),
        offset <= max_scroll(count, height) ==> scrolled_up(offset) <= max_scroll(count, height),
        scrolled_up(offset) <= offset,
{
}

/// Any number of single steps moves a scroll offset by that many lines or as
/// far as the bounds allow, and keeps it within them; one step down or more
/// brings it within them wherever it started.
pub proof fn scrolling_by_steps(offset: nat, count: nat, height: nat, times: nat)
    ensures
        scrolled_up_by(offset, times) == if offset >= times {
            (offset - times) as nat
        } else {
            0
        },
        scrolled_down_by(offset, count, height, times) == if times == 0 {
            offset
        } else if offset + times <= max_scroll(count, height) {
            offset + times
        } else {
            max_scroll(count, height)
        },
        times > 0 ==> scrolled_down_by(offset, count, height, times) <= max_scroll(count, height),
        offset <= max_scroll(count, height) ==> scrolled_up_by(offset, times) <= max_scroll(
            count,
            height,
        ) && scrolled_down_by(offset, count, height, times) <= max_scroll(count, height),
    decreases times,
{
    if times > 0 {
        scrolling_by_steps(offset, count, height, (times - 1) as nat);
    }
}

/// Bringing a line into view leaves it in view: with `line` one of `count`
/// visible lines and a view of at least one line, the line lies from the new
/// offset on within the `height` lines shown. The new offset is within the
/// scroll bounds where the old one was, and the view moves only if the line
/// was out of it.
pub proof fn showing_brings_into_view(offset: nat, line: nat, count: nat, height: nat)
    requires
        line < count,
    ensures
        height > 0 ==> offset_showing(offset, line, height) <= line < offset_showing(
            offset,
            line,
            height,
        ) + height,
        offset <= max_scroll(count, height) ==> offset_showing(offset, line, height) <= max_scroll(
            count,
            height,
        ),
        offset <= line < offset + height ==> offset_showing(offset, line, height) == offset,
{
}

} // verus!
