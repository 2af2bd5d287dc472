//! Per-resource and per-group playback state: the cursor, the loop-wrap
//! policy applied at the start of every tick, and the once-per-tick advance.
//!
//! A tick handles a cursor in three stages: `spec_wrap` folds the frame
//! back into the loop segment (or clamps it) exactly as the wrap policy
//! orders, the wrapped frame is the one shown, and `spec_advance` then
//! moves the cursor one frame for the next tick.  Every cursor, whether
//! owned by a single resource or shared by a group, advances exactly once
//! per tick.

use vstd::prelude::*;
use crate::container::AnimationBNTX;

verus! {

/// Mutable playback position of one resource or one group.
#[derive(Clone, Copy, Debug, PartialEq, Eq, Structural)]
pub struct Cursor {
    pub current_frame: u32,
    pub current_loop_count: i32,
}

/// The loop-policy fields a cursor is driven by, copied out of a container
/// descriptor (or recorded for a group when the group is created).
#[derive(Clone, Copy, Debug, PartialEq, Eq, Structural)]
pub struct LoopPolicy {
    pub frame_count: u32,
    pub loop_enabled: bool,
    /// Allowed loop re-entries; -1 means unlimited.
    pub loop_count: i32,
    pub loop_start: u32,
    pub loop_end: u32,
}

impl Cursor {
    /// The starting cursor of every registration.
    pub fn zeroed() -> (r: Cursor)
        ensures
            r == (Cursor { current_frame: 0u32, current_loop_count: 0i32 }),
    {
        Cursor { current_frame: 0, current_loop_count: 0 }
    }
}

impl AnimationBNTX {
    /// The loop policy a descriptor declares.
    pub open spec fn spec_policy(self) -> LoopPolicy {
        LoopPolicy {
            frame_count: self.frame_count,
            loop_enabled: self.loop_animation == 1,
            loop_count: self.loop_count,
            loop_start: self.starting_frame_loop,
            loop_end: self.ending_frame_loop,
        }
    }

    /// Copies the loop-policy fields out of a descriptor.
    pub fn policy(&self) -> (r: LoopPolicy)
        ensures
            r == self.spec_policy(),
    {
        LoopPolicy {
            frame_count: self.frame_count,
            loop_enabled: self.loop_animation == 1,
            loop_count: self.loop_count,
            loop_start: self.starting_frame_loop,
            loop_end: self.ending_frame_loop,
        }
    }
}

/// The loop re-entry at the end of the segment fires: the frame has
/// reached `loop_end`, looping is on, and the loop budget is not spent
/// (`loop_count == -1` never spends it).
pub open spec fn spec_reentry_fires(p: LoopPolicy, c: Cursor) -> bool {
    &&& c.current_frame >= p.loop_end
    &&& p.loop_enabled
    &&& (c.current_loop_count < p.loop_count || p.loop_count == -1)
}

/// The loop counter after a re-entry; it saturates instead of wrapping,
/// which only unlimited looping can ever reach.
pub open spec fn spec_bump_count(n: i32) -> i32 {
    if n == i32::MAX {
        n
    } else {
        (n + 1) as i32
    }
}

/// The wrap policy applied at the start of a tick, in order: first the
/// counted re-entry at the end of the loop segment, then the overflow
/// rule past the end of the frame table — reset to `loop_start` when
/// looping, clamp to `loop_end` when not.
pub open spec fn spec_wrap(p: LoopPolicy, c: Cursor) -> Cursor {
    let c1 = if spec_reentry_fires(p, c) {
        Cursor { current_frame: p.loop_start, current_loop_count: spec_bump_count(c.current_loop_count) }
    } else {
        c
    };
    if c1.current_frame >= p.frame_count {
        if !p.loop_enabled {
            Cursor { current_frame: p.loop_end, ..c1 }
        } else {
            Cursor { current_frame: p.loop_start, ..c1 }
        }
    } else {
        c1
    }
}

/// One frame forward; the frame saturates at the largest machine value,
/// which the wrap rule folds back anyway on every container whose fields
/// a stream can declare.
pub open spec fn spec_advance(c: Cursor) -> Cursor {
    if c.current_frame == u32::MAX {
        c
    } else {
        Cursor { current_frame: (c.current_frame + 1) as u32, ..c }
    }
}

/// A whole tick of one cursor: wrap, then advance.  The frame shown by
/// the tick is the wrapped cursor's.
pub open spec fn spec_tick(p: LoopPolicy, c: Cursor) -> Cursor {
    spec_advance(spec_wrap(p, c))
}

/// The cursor after `n` whole ticks.
pub open spec fn spec_after_ticks(p: LoopPolicy, c: Cursor, n: nat) -> Cursor
    decreases n,
{
    if n == 0 {
        c
    } else {
        spec_tick(p, spec_after_ticks(p, c, (n - 1) as nat))
    }
}

/// Applies the wrap policy.
pub fn wrap_cursor(p: LoopPolicy, c: Cursor) -> (r: Cursor)
    ensures
        r == spec_wrap(p, c),
{
    let fired = c.current_frame >= p.loop_end && p.loop_enabled && (c.current_loop_count
        < p.loop_count || p.loop_count == -1);
    let c1 = if fired {
        let bumped: i32 = if c.current_loop_count == i32::MAX {
            i32::MAX
        } else {
            c.current_loop_count + 1
        };
        Cursor { current_frame: p.loop_start, current_loop_count: bumped }
    } else {
        c
    };
    if c1.current_frame >= p.frame_count {
        if !p.loop_enabled {
            Cursor { current_frame: p.loop_end, current_loop_count: c1.current_loop_count }
        } else {
            Cursor { current_frame: p.loop_start, current_loop_count: c1.current_loop_count }
        }
    } else {
        c1
    }
}

/// Moves a cursor one frame forward for the next tick.
pub fn advance_cursor(c: Cursor) -> (r: Cursor)
    ensures
        r == spec_advance(c),
{
    if c.current_frame == u32::MAX {
        c
    } else {
        Cursor { current_frame: c.current_frame + 1, current_loop_count: c.current_loop_count }
    }
}

/// One whole tick of a cursor.
pub fn tick_cursor(p: LoopPolicy, c: Cursor) -> (r: Cursor)
    ensures
        r == spec_tick(p, c),
{
    advance_cursor(wrap_cursor(p, c))
}

/// Law: with looping enabled and a finite loop budget `loop_count >= 0`,
/// the loop counter never leaves `[0, loop_count]`, never decreases, and
/// rises by exactly one on exactly the ticks whose wrap re-enters the
/// loop segment — so a run that starts at zero re-enters at most
/// `loop_count` times, and exactly `current_loop_count` of them have
/// happened at any boundary.
pub proof fn lemma_loop_budget_bound(p: LoopPolicy, c: Cursor, n: nat)
    requires
        p.loop_enabled,
        p.loop_count >= 0,
        0 <= c.current_loop_count <= p.loop_count,
    ensures
        0 <= spec_after_ticks(p, c, n).current_loop_count <= p.loop_count,
        spec_after_ticks(p, c, n).current_loop_count >= c.current_loop_count,
        spec_after_ticks(p, c, (n + 1) as nat).current_loop_count == if spec_reentry_fires(
            p,
            spec_after_ticks(p, c, n),
        ) {
            spec_after_ticks(p, c, n).current_loop_count + 1
        } else {
            spec_after_ticks(p, c, n).current_loop_count as int
        },
    decreases n,
{
    if n == 0 {
        assert(spec_after_ticks(p, c, 1) == spec_tick(p, spec_after_ticks(p, c, 0)));
    } else {
        lemma_loop_budget_bound(p, c, (n - 1) as nat);
        assert(spec_after_ticks(p, c, (n + 1) as nat) == spec_tick(p, spec_after_ticks(p, c, n)));
    }
}

/// Law: with looping disabled, once the frame has run past the end of the
/// frame table the cursor is pinned: every later tick shows the clamp
/// frame `loop_end`, and the loop counter never moves.  This needs the
/// clamp frame to sit at the table's edge (`loop_end + 1 >= frame_count`);
/// a clamp frame further inside the table re-runs the tail of the table
/// instead of pinning.
pub proof fn lemma_disabled_clamp_pins(p: LoopPolicy, c: Cursor, n: nat)
    requires
        !p.loop_enabled,
        c.current_frame >= p.frame_count,
        p.loop_end as int + 1 >= p.frame_count as int,
    ensures
        spec_after_ticks(p, c, n).current_frame >= p.frame_count,
        spec_wrap(p, spec_after_ticks(p, c, n)).current_frame == p.loop_end,
        spec_after_ticks(p, c, n).current_loop_count == c.current_loop_count,
    decreases n,
{
    if n > 0 {
        lemma_disabled_clamp_pins(p, c, (n - 1) as nat);
        assert(spec_after_ticks(p, c, n) == spec_tick(p, spec_after_ticks(p, c, (n - 1) as nat)));
    }
}

/// Law: with looping enabled and an unlimited budget (`loop_count == -1`),
/// the cursor never stops re-entering the loop segment: from any
/// boundary, within `loop_end` further ticks there is a tick whose wrap
/// puts the frame back on `loop_start`, inside the segment.
pub proof fn lemma_unlimited_reentry(p: LoopPolicy, c: Cursor) -> (m: nat)
    requires
        p.loop_enabled,
        p.loop_count == -1,
        p.loop_start < p.loop_end,
    ensures
        m <= p.loop_end,
        m == 0 || m as int + c.current_frame as int <= p.loop_end as int,
        spec_wrap(p, spec_after_ticks(p, c, m)).current_frame == p.loop_start,
        p.loop_start < p.loop_end,
    decreases p.loop_end as int - c.current_frame as int,
{
    if c.current_frame >= p.loop_end {
        assert(spec_after_ticks(p, c, 0) == c);
        0
    } else if c.current_frame >= p.frame_count {
        assert(spec_after_ticks(p, c, 0) == c);
        0
    } else {
        let c1 = spec_tick(p, c);
        assert(c1.current_frame == c.current_frame + 1);
        let m1 = lemma_unlimited_reentry(p, c1);
        lemma_after_ticks_shift(p, c, m1);
        (m1 + 1) as nat
    }
}

/// Ticking `n` times from the cursor one tick ahead is ticking `n + 1`
/// times from the start.
pub proof fn lemma_after_ticks_shift(p: LoopPolicy, c: Cursor, n: nat)
    ensures
        spec_after_ticks(p, spec_tick(p, c), n) == spec_after_ticks(p, c, (n + 1) as nat),
    decreases n,
{
    if n == 0 {
        assert(spec_after_ticks(p, spec_tick(p, c), 0) == spec_tick(p, c));
        assert(spec_after_ticks(p, c, 1) == spec_tick(p, spec_after_ticks(p, c, 0)));
    } else {
        lemma_after_ticks_shift(p, c, (n - 1) as nat);
        assert(spec_after_ticks(p, spec_tick(p, c), n) == spec_tick(
            p,
            spec_after_ticks(p, spec_tick(p, c), (n - 1) as nat),
        ));
        assert(spec_after_ticks(p, c, (n + 1) as nat) == spec_tick(p, spec_after_ticks(p, c, n)));
    }
}

/// Law: with looping enabled, a finite budget not yet spent, and a loop
/// segment lying inside the frame table, the next counted re-entry is
/// never further away than `loop_end` ticks: the budget is spent down to
/// the last loop, not abandoned.
pub proof fn lemma_budget_reentry(p: LoopPolicy, c: Cursor) -> (m: nat)
    requires
        p.loop_enabled,
        p.loop_count >= 0,
        0 <= c.current_loop_count < p.loop_count,
        p.loop_start < p.loop_end,
        p.loop_end <= p.frame_count,
    ensures
        m <= p.loop_end,
        m == 0 || m as int + c.current_frame as int <= p.loop_end as int,
        spec_reentry_fires(p, spec_after_ticks(p, c, m)),
        spec_after_ticks(p, c, m).current_loop_count == c.current_loop_count,
        spec_after_ticks(p, c, (m + 1) as nat).current_loop_count == c.current_loop_count + 1,
    decreases p.loop_end as int - c.current_frame as int,
{
    if c.current_frame >= p.loop_end {
        assert(spec_after_ticks(p, c, 0) == c);
        assert(spec_after_ticks(p, c, 1) == spec_tick(p, c));
        0
    } else {
        let c1 = spec_tick(p, c);
        assert(c1.current_frame == c.current_frame + 1);
        assert(c1.current_loop_count == c.current_loop_count);
        let m1 = lemma_budget_reentry(p, c1);
        lemma_after_ticks_shift(p, c, m1);
        lemma_after_ticks_shift(p, c, (m1 + 1) as nat);
        (m1 + 1) as nat
    }
}

} // verus!
