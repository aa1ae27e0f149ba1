//! Walking a single creep along a fixed route, tick by tick. The kernel moves the creep; the walk
//! decides what to ask of it and accounts for every tick.

use crate::grid::{direction_between, steps_to, Direction, Position};
use vstd::prelude::*;

verus! {

/// The outcome of walking a creep along a route.
#[derive(Clone, Copy, Debug, PartialEq, Eq, Structural)]
pub struct Traversal {
    /// Ticks until the route's end was reached, or the cap.
    pub ticks: u32,
    /// Ticks on which the creep stepped.
    pub moves: u32,
    /// Ticks on which it stood still, fatigued.
    pub idle_fatigued: u32,
    /// Ticks on which it stood still without fatigue: a step that it could have made did not
    /// happen.
    pub idle_free: u32,
    /// The end of the route was reached within the cap.
    pub reached: bool,
}

impl Traversal {
    /// Every tick is accounted for once.
    pub open spec fn accounted(self) -> bool {
        self.ticks == self.moves + self.idle_fatigued + self.idle_free
    }

    /// The walk of one route after another, as one traversal.
    pub open spec fn s_joined(self, next: Traversal) -> Traversal {
        Traversal {
            ticks: (self.ticks + next.ticks) as u32,
            moves: (self.moves + next.moves) as u32,
            idle_fatigued: (self.idle_fatigued + next.idle_fatigued) as u32,
            idle_free: (self.idle_free + next.idle_free) as u32,
            reached: self.reached && next.reached,
        }
    }

    /// Joins the traversals of two legs that one creep walked without a break.
    pub fn joined(self, next: Traversal) -> (r: Traversal)
        requires
            self.accounted(),
            next.accounted(),
            self.ticks + next.ticks <= u32::MAX,
        ensures
            r == self.s_joined(next),
            r.accounted(),
    {
        Traversal {
            ticks: self.ticks + next.ticks,
            moves: self.moves + next.moves,
            idle_fatigued: self.idle_fatigued + next.idle_fatigued,
            idle_free: self.idle_free + next.idle_free,
            reached: self.reached && next.reached,
        }
    }
}

/// The cap of the next leg of a cycle that is capped as a whole: the ticks that the legs before
/// left over, or none where those were not completed and the cycle ends.
pub fn leg_cap(all: &Traversal, tick_cap: u32) -> (r: Option<u32>)
    requires
        all.ticks <= tick_cap,
    ensures
        r == if all.reached {
            Some((tick_cap - all.ticks) as u32)
        } else {
            None
        },
{
    if all.reached {
        Some(tick_cap - all.ticks)
    } else {
        None
    }
}

impl Default for Traversal {
    fn default() -> (r: Traversal)
        ensures
            r == (Traversal { ticks: 0, moves: 0, idle_fatigued: 0, idle_free: 0, reached: false }),
    {
        Traversal { ticks: 0, moves: 0, idle_fatigued: 0, idle_free: 0, reached: false }
    }
}

/// A walk in progress: the waypoint that is next, and the account so far.
#[derive(Clone, Copy, Debug, PartialEq, Eq, Structural)]
pub struct Walk {
    pub next: usize,
    pub tally: Traversal,
}

/// What a tick makes of a walk: a step counts as a move, and brings the next waypoint if it ends
/// there; standing still counts as fatigued or free idling.
pub open spec fn walked(w: Walk, route: Seq<Position>, before: Position, after: Position, fatigued: bool) -> Walk {
    let t = w.tally;
    let ticks = (t.ticks + 1) as u32;
    if after != before {
        Walk {
            next: if after == route[w.next as int] {
                (w.next + 1) as usize
            } else {
                w.next
            },
            tally: Traversal { ticks, moves: (t.moves + 1) as u32, ..t },
        }
    } else if fatigued {
        Walk {
            next: w.next,
            tally: Traversal { ticks, idle_fatigued: (t.idle_fatigued + 1) as u32, ..t },
        }
    } else {
        Walk {
            next: w.next,
            tally: Traversal { ticks, idle_free: (t.idle_free + 1) as u32, ..t },
        }
    }
}

impl Walk {
    /// The walk is at a waypoint of its route, and its account is complete.
    pub open spec fn wf(self, route: Seq<Position>) -> bool {
        self.next <= route.len() && self.tally.accounted()
    }

    /// A walk that has not begun.
    pub fn start() -> (r: Walk)
        ensures
            r.next == 0,
            r.tally == (Traversal {
                ticks: 0,
                moves: 0,
                idle_fatigued: 0,
                idle_free: 0,
                reached: false,
            }),
            forall|route: Seq<Position>| r.wf(route),
    {
        Walk { next: 0, tally: Traversal::default() }
    }

    /// Whether another tick is due: a waypoint is left, and the cap is not reached.
    pub fn due(&self, route: &[Position], tick_cap: u32) -> (r: bool)
        ensures
            r == (self.next < route@.len() && self.tally.ticks < tick_cap),
    {
        self.next < route.len() && self.tally.ticks < tick_cap
    }

    /// The step to ask for: towards the next waypoint, where it is adjacent.
    pub fn intent(&self, route: &[Position], at: Position) -> (r: Option<Direction>)
        requires
            self.next < route@.len(),
        ensures
            r matches Some(d) ==> steps_to(at, d, route@[self.next as int]),
            r is None ==> forall|d: Direction| !steps_to(at, d, route@[self.next as int]),
    {
        direction_between(at, route[self.next])
    }

    /// Accounts for a tick that took the creep from `before` to `after`.
    pub fn observe(&mut self, route: &[Position], before: Position, after: Position, fatigued: bool)
        requires
            old(self).wf(route@),
            old(self).next < route@.len(),
            old(self).tally.ticks < u32::MAX,
        ensures
            *final(self) == walked(*old(self), route@, before, after, fatigued),
            final(self).wf(route@),
            final(self).tally.ticks == old(self).tally.ticks + 1,
    {
        self.tally.ticks = self.tally.ticks + 1;
        if after != before {
            self.tally.moves = self.tally.moves + 1;
            if after == route[self.next] {
                self.next = self.next + 1;
            }
        } else if fatigued {
            self.tally.idle_fatigued = self.tally.idle_fatigued + 1;
        } else {
            self.tally.idle_free = self.tally.idle_free + 1;
        }
    }

    /// The account of the walk: it reached the end where no waypoint is left.
    pub fn finish(self, route: &[Position]) -> (r: Traversal)
        requires
            self.wf(route@),
        ensures
            r == (Traversal { reached: self.next >= route@.len(), ..self.tally }),
            r.accounted(),
    {
        Traversal { reached: self.next >= route.len(), ..self.tally }
    }
}

/// What one tick did to the creep: where it was, where it is, and whether it was fatigued.
pub struct Tick {
    pub before: Position,
    pub after: Position,
    pub fatigued: bool,
}

/// The walk after a history of ticks; ticks after the end of the route are not walked.
pub open spec fn history(route: Seq<Position>, ticks: Seq<Tick>) -> Walk
    decreases ticks.len(),
{
    if ticks.len() == 0 {
        Walk {
            next: 0,
            tally: Traversal { ticks: 0, moves: 0, idle_fatigued: 0, idle_free: 0, reached: false },
        }
    } else {
        let w = history(route, ticks.drop_last());
        let t = ticks.last();
        if w.next < route.len() {
            walked(w, route, t.before, t.after, t.fatigued)
        } else {
            w
        }
    }
}

/// However a walk goes, its ticks are the sum of its moves and its two kinds of idling, and it
/// passes at most one waypoint per move.
pub proof fn law_ticks_are_accounted_for(route: Seq<Position>, ticks: Seq<Tick>)
    requires
        ticks.len() <= u32::MAX,
        route.len() <= usize::MAX,
    ensures
        history(route, ticks).wf(route),
        history(route, ticks).next <= history(route, ticks).tally.moves,
        history(route, ticks).tally.ticks <= ticks.len(),
    decreases ticks.len(),
{
    if ticks.len() > 0 {
        law_ticks_are_accounted_for(route, ticks.drop_last());
    }
}

/// What a tick adds to a walk: a tick on which the creep is elsewhere afterwards is a move, and one
/// on which it stayed is idling, by fatigue or free. The next waypoint is passed exactly by a move
/// that ends on it.
pub proof fn law_a_tick_is_a_move_or_idling(
    w: Walk,
    route: Seq<Position>,
    before: Position,
    after: Position,
    fatigued: bool,
)
    requires
        w.wf(route),
        w.next < route.len() <= usize::MAX,
        w.tally.ticks < u32::MAX,
    ensures
        ({
            let next = walked(w, route, before, after, fatigued);
            let (a, b) = (w.tally, next.tally);
            let stayed = after == before;
            &&& b.ticks == a.ticks + 1
            &&& b.moves == a.moves + if stayed {
                0int
            } else {
                1int
            }
            &&& b.idle_fatigued == a.idle_fatigued + if stayed && fatigued {
                1int
            } else {
                0int
            }
            &&& b.idle_free == a.idle_free + if stayed && !fatigued {
                1int
            } else {
                0int
            }
            &&& next.next == w.next + if !stayed && after == route[w.next as int] {
                1int
            } else {
                0int
            }
        }),
{
}

/// Waypoints are passed in order: for every waypoint that a walk has passed some tick ended on it,
/// and a walk that has passed them all has been at the end of its route.
pub proof fn law_waypoints_are_passed_one_by_one(route: Seq<Position>, ticks: Seq<Tick>, k: int)
    requires
        ticks.len() <= u32::MAX,
        route.len() <= usize::MAX,
        0 <= k < history(route, ticks).next,
    ensures
        exists|j: int| 0 <= j < ticks.len() && (#[trigger] ticks[j]).after == route[k],
    decreases ticks.len(),
{
    law_ticks_are_accounted_for(route, ticks);
    if ticks.len() > 0 {
        let front = ticks.drop_last();
        law_ticks_are_accounted_for(route, front);
        let w = history(route, front);
        if k < w.next {
            law_waypoints_are_passed_one_by_one(route, front, k);
            let j = choose|j: int| 0 <= j < front.len() && (#[trigger] front[j]).after == route[k];
            assert(ticks[j].after == route[k]);
        } else {
            assert(ticks[ticks.len() - 1].after == route[k]);
        }
    }
}

/// Legs that follow one another add up, and the whole is completed exactly if both were.
pub proof fn law_legs_add_up(a: Traversal, b: Traversal)
    requires
        a.accounted(),
        b.accounted(),
        a.ticks + b.ticks <= u32::MAX,
    ensures
        a.s_joined(b).ticks == a.ticks + b.ticks,
        a.s_joined(b).moves == a.moves + b.moves,
        a.s_joined(b).idle_fatigued == a.idle_fatigued + b.idle_fatigued,
        a.s_joined(b).idle_free == a.idle_free + b.idle_free,
        a.s_joined(b).reached <==> a.reached && b.reached,
{
}

} // verus!
