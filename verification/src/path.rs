//! The zig-zag path: which rail each position of a message falls on.

use vstd::prelude::*;

verus! {

/// One step of the oscillator: from the rail just recorded and the current
/// heading, the rail of the next position and the heading taken to reach it.
///
/// The heading turns upward on rail 0 and downward on the last rail. With a
/// single rail there is nowhere to go and the walk stays on rail 0.
pub open spec fn next_rail_spec(rail: nat, ascending: bool, depth: nat) -> (nat, bool) {
    if depth <= 1 {
        (0, true)
    } else if rail == 0 {
        (1, true)
    } else if rail + 1 == depth {
        ((rail - 1) as nat, false)
    } else if ascending {
        (rail + 1, true)
    } else {
        ((rail - 1) as nat, false)
    }
}

/// State of the walk when it records position `i`: it starts on rail 0,
/// heading upward.
pub open spec fn path_state(i: nat, depth: nat) -> (nat, bool)
    decreases i,
{
    if i == 0 {
        (0, true)
    } else {
        let prev = path_state((i - 1) as nat, depth);
        next_rail_spec(prev.0, prev.1, depth)
    }
}

/// The rail that position `i` of a message falls on.
pub open spec fn rail_at(i: nat, depth: nat) -> nat {
    path_state(i, depth).0
}

/// The rail of position `i` written without reference to earlier positions:
/// the path repeats every `2 * (depth - 1)` steps, rising through the first
/// half of each period and falling through the second.
pub open spec fn zigzag(i: nat, depth: nat) -> nat {
    if depth <= 1 {
        0
    } else {
        let period = 2 * (depth - 1);
        let phase = (i as int) % period;
        if phase < depth {
            phase as nat
        } else {
            (period - phase) as nat
        }
    }
}

/// Where a position lies within the period of the path.
pub open spec fn phase(i: nat, depth: nat) -> int {
    (i as int) % (2 * (depth - 1))
}

/// One step further along the path the phase is one higher, or back at 0 when
/// the period is over.
pub proof fn lemma_phase_step(i: nat, depth: nat)
    requires
        depth >= 2,
    ensures
        0 <= phase(i, depth) < 2 * (depth - 1),
        phase(i + 1, depth) == if phase(i, depth) + 1 == 2 * (depth - 1) {
            0
        } else {
            phase(i, depth) + 1
        },
{
    let period = 2 * (depth - 1);
    let at = i as int;
    assert(0 <= at % period < period && (at + 1) % period == if at % period + 1 == period {
        0
    } else {
        at % period + 1
    }) by (nonlinear_arith)
        requires
            period > 0,
            at >= 0,
    ;
}

/// On a fence of two or more rails the walk rises through the first half of
/// each period and falls through the second.
pub proof fn lemma_path_state_by_phase(i: nat, depth: nat)
    requires
        depth >= 2,
    ensures
        rail_at(i, depth) == zigzag(i, depth),
        1 <= phase(i, depth) < depth ==> path_state(i, depth).1,
        depth <= phase(i, depth) ==> !path_state(i, depth).1,
    decreases i,
{
    if i > 0 {
        lemma_path_state_by_phase((i - 1) as nat, depth);
        lemma_phase_step((i - 1) as nat, depth);
    } else {
        assert(phase(0, depth) == 0) by (nonlinear_arith)
            requires
                depth >= 2,
                phase(0, depth) == 0int % (2 * (depth - 1)),
        ;
    }
}

/// Every position falls on one of the `depth` rails.
pub proof fn lemma_rail_in_range(i: nat, depth: nat)
    requires
        depth >= 1,
    ensures
        rail_at(i, depth) < depth,
    decreases i,
{
    if i > 0 {
        lemma_rail_in_range((i - 1) as nat, depth);
    }
}

/// The walk climbs at most one rail per step, so position `i` lies no deeper
/// than rail `i`.
pub proof fn lemma_rail_at_most_position(i: nat, depth: nat)
    ensures
        rail_at(i, depth) <= i,
    decreases i,
{
    if i > 0 {
        lemma_rail_at_most_position((i - 1) as nat, depth);
    }
}

/// Advances the walk by one position.
pub fn next_rail(current: usize, ascending: bool, depth: usize) -> (next: (usize, bool))
    requires
        current < depth,
    ensures
        (next.0 as nat, next.1) == next_rail_spec(current as nat, ascending, depth as nat),
        next.0 < depth,
{
    if depth == 1 {
        (0, true)
    } else if current == 0 {
        (1, true)
    } else if current == depth - 1 {
        (current - 1, false)
    } else if ascending {
        (current + 1, true)
    } else {
        (current - 1, false)
    }
}

} // verus!
