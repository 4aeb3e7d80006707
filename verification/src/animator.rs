//! The reveal animation: a state machine that uncovers the tree one depth
//! level per tick and comes to rest once every level is uncovered.

use vstd::prelude::*;

verus! {

/// The state of the reveal animation.
pub struct AnimationState {
    /// Nodes down to this depth are revealed.
    pub revealed_depth: nat,
    /// The animation has come to rest.
    pub complete: bool,
    /// The phase of the connector that grows at the frontier, cycling 0, 1, 2.
    pub frame: nat,
}

/// The animation before its first tick: only depth 0 is revealed.
pub open spec fn initial_animation() -> AnimationState {
    AnimationState { revealed_depth: 0, complete: false, frame: 0 }
}

/// A node of depth `depth` is revealed in state `s`.
pub open spec fn is_revealed(depth: nat, s: AnimationState) -> bool {
    depth <= s.revealed_depth
}

/// One tick. While growing, it reveals the next level and advances the frame;
/// the tick that takes the revealed depth past `max_depth` completes the
/// animation. A complete animation stays as it is.
pub open spec fn advance(s: AnimationState, max_depth: nat) -> AnimationState {
    if s.complete {
        s
    } else if s.revealed_depth <= max_depth {
        AnimationState {
            revealed_depth: s.revealed_depth + 1,
            complete: s.revealed_depth + 1 > max_depth,
            frame: (s.frame + 1) % 3,
        }
    } else {
        AnimationState { revealed_depth: s.revealed_depth, complete: true, frame: s.frame }
    }
}

/// The state after `ticks` ticks from `s`.
pub open spec fn after_ticks(s: AnimationState, max_depth: nat, ticks: nat) -> AnimationState
    decreases ticks,
{
    if ticks == 0 {
        s
    } else {
        advance(after_ticks(s, max_depth, (ticks - 1) as nat), max_depth)
    }
}

/// The states that the animation passes through: it is complete exactly when
/// the revealed depth is past `max_depth`, and it goes one level past at most.
pub open spec fn animation_wf(s: AnimationState, max_depth: nat) -> bool {
    &&& s.frame < 3
    &&& s.revealed_depth <= max_depth + 1
    &&& s.complete <==> s.revealed_depth > max_depth
}

/// The smaller of two numbers.
pub open spec fn least(a: nat, b: nat) -> nat {
    if a <= b {
        a
    } else {
        b
    }
}

/// A tick keeps the animation among the states it passes through, never
/// lowers the revealed depth, never takes back completion, and leaves a
/// complete animation frozen.
pub proof fn advance_is_monotone(s: AnimationState, max_depth: nat)
    requires
        animation_wf(s, max_depth),
    ensures
        animation_wf(advance(s, max_depth), max_depth),
        advance(s, max_depth).revealed_depth >= s.revealed_depth,
        s.complete ==> advance(s, max_depth) == s,
        forall|depth: nat| is_revealed(depth, s) ==> is_revealed(depth, advance(s, max_depth)),
{
}

/// Where the animation stands after `ticks` ticks from its start: each tick
/// has revealed one level, up to one past `max_depth`, and advanced the frame
/// with it.
pub proof fn reveal_schedule(max_depth: nat, ticks: nat)
    ensures
        after_ticks(initial_animation(), max_depth, ticks) == (AnimationState {
            revealed_depth: least(ticks, max_depth + 1),
            complete: ticks >= max_depth + 1,
            frame: least(ticks, max_depth + 1) % 3,
        }),
        animation_wf(after_ticks(initial_animation(), max_depth, ticks), max_depth),
    decreases ticks,
{
    if ticks > 0 {
        reveal_schedule(max_depth, (ticks - 1) as nat);
    }
}

/// Starting from the initial state, the animation is complete after
/// `max_depth + 1` ticks, not before, and stays complete from then on.
pub proof fn completes_after_every_level(max_depth: nat, ticks: nat)
    ensures
        after_ticks(initial_animation(), max_depth, ticks).complete <==> ticks >= max_depth + 1,
{
    reveal_schedule(max_depth, ticks);
}

/// A node of depth `depth`, no deeper than `max_depth`, is revealed after
/// `ticks` ticks exactly when `ticks` has reached `depth`: not earlier, and
/// ever after.
pub proof fn revealed_from_its_tick(max_depth: nat, depth: nat, ticks: nat)
    requires
        depth <= max_depth,
    ensures
        is_revealed(depth, after_ticks(initial_animation(), max_depth, ticks)) <==> ticks >= depth,
{
    reveal_schedule(max_depth, ticks);
}

} // verus!
