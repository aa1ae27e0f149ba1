//! Multi-creep contention. The kernel resolves and applies the moves of a tick; the crowd run
//! decides who asks for one, when to stop, and what the tick was worth.

use crate::body::{same_body, SimBody, SimCreep};
use crate::grid::{steps_to, Direction, Position};
use crate::list::copied;
use crate::scalar::{Exact, Numbers, Scalar};
use crate::terrain::SimTerrain;
use vstd::prelude::*;

verus! {

/// Consecutive ticks without movement, with some creep still travelling, that count as deadlock.
pub const DEADLOCK_TICKS: u32 = 12;

/// How long nothing has moved, and whether that has been too long at any time.
pub struct Watch {
    pub stall: int,
    pub deadlocked: bool,
}

/// What a tick makes of a watch.
pub open spec fn watched(w: Watch, moved: bool) -> Watch {
    if moved {
        Watch { stall: 0, ..w }
    } else {
        Watch {
            stall: w.stall + 1,
            deadlocked: w.deadlocked || w.stall + 1 >= DEADLOCK_TICKS,
        }
    }
}

/// The watch after a history of ticks, each told by whether anything moved.
pub open spec fn watch(moves: Seq<bool>) -> Watch
    decreases moves.len(),
{
    if moves.len() == 0 {
        Watch { stall: 0, deadlocked: false }
    } else {
        watched(watch(moves.drop_last()), moves.last())
    }
}

/// From tick `k` on nothing moved for as long as a deadlock takes.
pub open spec fn stands_still(moves: Seq<bool>, k: int) -> bool {
    &&& 0 <= k
    &&& k + DEADLOCK_TICKS <= moves.len()
    &&& forall|j: int| k <= j < k + DEADLOCK_TICKS ==> !#[trigger] moves[j]
}

/// A run is deadlocked exactly if nothing moved for twelve ticks in a row.
pub proof fn law_deadlock_is_standing_still(moves: Seq<bool>)
    ensures
        watch(moves).deadlocked <==> exists|k: int| stands_still(moves, k),
{
    lemma_watch(moves);
}

proof fn lemma_watch(moves: Seq<bool>)
    ensures
        0 <= watch(moves).stall <= moves.len(),
        forall|j: int| moves.len() - watch(moves).stall <= j < moves.len() ==> !#[trigger] moves[j],
        watch(moves).stall < moves.len() ==> moves[moves.len() - watch(moves).stall - 1],
        watch(moves).deadlocked <==> exists|k: int| stands_still(moves, k),
    decreases moves.len(),
{
    let n = moves.len();
    if n > 0 {
        let front = moves.drop_last();
        lemma_watch(front);
        let before = watch(front);
        let now = watch(moves);
        assert forall|j: int| n - now.stall <= j < n implies !#[trigger] moves[j] by {
            if j < n - 1 {
                assert(moves[j] == front[j]);
            }
        }
        if now.stall < n && !moves.last() {
            assert(moves[n - now.stall - 1] == front[n - 1 - before.stall - 1]);
        }
        if before.deadlocked {
            let k = choose|k: int| stands_still(front, k);
            assert forall|j: int| k <= j < k + DEADLOCK_TICKS implies !#[trigger] moves[j] by {
                assert(moves[j] == front[j]);
            }
            assert(stands_still(moves, k));
        }
        if !moves.last() && now.stall >= DEADLOCK_TICKS {
            assert(stands_still(moves, n - DEADLOCK_TICKS));
        }
        if exists|k: int| stands_still(moves, k) {
            let k = choose|k: int| stands_still(moves, k);
            if k + DEADLOCK_TICKS < n {
                assert forall|j: int| k <= j < k + DEADLOCK_TICKS implies !#[trigger] front[j] by {
                    assert(moves[j] == front[j]);
                }
                assert(stands_still(front, k));
            } else {
                assert(!moves[n - 1]);
                if now.stall < DEADLOCK_TICKS {
                    assert(k <= n - now.stall - 1 < n);
                    assert(!moves[n - now.stall - 1]);
                }
            }
        }
    } else {
        assert forall|k: int| !stands_still(moves, k) by {
        }
    }
}

/// One creep of a crowd.
#[derive(Debug)]
pub struct CrowdCreep {
    pub body: SimBody,
    pub carry_used: u32,
    pub from: Position,
    pub goal: Position,
    pub range: u32,
}

impl Clone for CrowdCreep {
    fn clone(&self) -> (r: CrowdCreep)
        ensures
            same_body(r.body, self.body),
            r == (CrowdCreep { body: r.body, ..*self }),
    {
        CrowdCreep {
            body: self.body.clone(),
            carry_used: self.carry_used,
            from: self.from,
            goal: self.goal,
            range: self.range,
        }
    }
}

impl CrowdCreep {
    /// An unloaded creep.
    pub fn new(body: SimBody, from: Position, goal: Position, range: u32) -> (r: CrowdCreep)
        ensures
            r == (CrowdCreep { body, carry_used: 0, from, goal, range }),
    {
        CrowdCreep { body, carry_used: 0, from, goal, range }
    }

    /// A creep at `p` is within range of its goal.
    pub open spec fn satisfied(self, p: Position) -> bool {
        p.range_to(self.goal) <= self.range
    }

    /// Whether the creep at `p` is within range of its goal.
    pub fn within(&self, p: Position) -> (r: bool)
        requires
            p.on_grid(),
            self.goal.on_grid(),
        ensures
            r == self.satisfied(p),
    {
        p.get_range_to(self.goal) <= self.range
    }
}

/// The creep at place `i` of a crowd: at its start and rested. Creeps are numbered from one.
pub open spec fn is_mustered(c: CrowdCreep, i: int, s: SimCreep) -> bool {
    &&& s.id == i + 1
    &&& s.owner == 0
    &&& s.pos == c.from
    &&& same_body(s.body, c.body)
    &&& s.fatigue == 0
    &&& s.carry_used == c.carry_used
}

/// The creeps of a crowd that is about to set out.
pub fn muster(creeps: &[CrowdCreep]) -> (r: Vec<SimCreep>)
    requires
        creeps@.len() < u32::MAX,
    ensures
        r@.len() == creeps@.len(),
        forall|i: int| 0 <= i < r@.len() ==> is_mustered(creeps@[i], i, #[trigger] r@[i]),
{
    let mut r: Vec<SimCreep> = Vec::new();
    let mut i: usize = 0;
    while i < creeps.len()
        invariant
            i <= creeps@.len() < u32::MAX,
            r@.len() == i,
            forall|k: int| 0 <= k < i ==> is_mustered(creeps@[k], k, #[trigger] r@[k]),
        decreases creeps@.len() - i,
    {
        let c = &creeps[i];
        r.push(
            SimCreep {
                id: i as u32 + 1,
                owner: 0,
                pos: c.from,
                body: c.body.clone(),
                fatigue: 0,
                carry_used: c.carry_used,
            },
        );
        i += 1;
    }
    r
}

/// A request to be moved within `range` of `goal`.
#[derive(Clone, Copy, Debug, PartialEq, Eq, Structural)]
pub struct MoveRequest {
    pub creep: u32,
    pub goal: Position,
    pub range: u32,
}

/// The positions lie on the grid.
pub open spec fn all_on_grid(ps: Seq<Position>) -> bool {
    forall|i: int| 0 <= i < ps.len() ==> (#[trigger] ps[i]).on_grid()
}

/// The goals of the creeps lie on the grid, and every creep has a number.
pub open spec fn crowd_ok(creeps: Seq<CrowdCreep>) -> bool {
    creeps.len() < u32::MAX && forall|i: int|
        0 <= i < creeps.len() ==> (#[trigger] creeps[i]).goal.on_grid()
}

/// Every creep is within range of its goal.
pub open spec fn all_satisfied(creeps: Seq<CrowdCreep>, at: Seq<Position>) -> bool {
    forall|i: int| 0 <= i < creeps.len() ==> (#[trigger] creeps[i]).satisfied(at[i])
}

/// Whether every creep is within range of its goal.
pub fn all_within(creeps: &[CrowdCreep], at: &[Position]) -> (r: bool)
    requires
        crowd_ok(creeps@),
        all_on_grid(at@),
        at@.len() == creeps@.len(),
    ensures
        r == all_satisfied(creeps@, at@),
{
    let mut i: usize = 0;
    while i < creeps.len()
        invariant
            i <= creeps@.len(),
            crowd_ok(creeps@),
            all_on_grid(at@),
            at@.len() == creeps@.len(),
            forall|k: int| 0 <= k < i ==> (#[trigger] creeps@[k]).satisfied(at@[k]),
        decreases creeps@.len() - i,
    {
        assert(at@[i as int].on_grid() && creeps@[i as int].goal.on_grid());
        if !creeps[i].within(at[i]) {
            return false;
        }
        i += 1;
    }
    true
}

/// The requests of the first `n` creeps: one for each that is still travelling. Creeps are
/// numbered from one.
pub open spec fn requests_of(creeps: Seq<CrowdCreep>, at: Seq<Position>, n: nat) -> Seq<MoveRequest>
    decreases n,
{
    if n == 0 {
        Seq::empty()
    } else {
        let before = requests_of(creeps, at, (n - 1) as nat);
        let c = creeps[n - 1];
        if c.satisfied(at[n - 1]) {
            before
        } else {
            before.push(MoveRequest { creep: n as u32, goal: c.goal, range: c.range })
        }
    }
}

/// The requests of a tick: one for each creep that is still travelling.
pub fn requests(creeps: &[CrowdCreep], at: &[Position]) -> (r: Vec<MoveRequest>)
    requires
        crowd_ok(creeps@),
        all_on_grid(at@),
        at@.len() == creeps@.len(),
    ensures
        r@ == requests_of(creeps@, at@, creeps@.len()),
{
    let mut r: Vec<MoveRequest> = Vec::new();
    let mut i: usize = 0;
    while i < creeps.len()
        invariant
            i <= creeps@.len(),
            crowd_ok(creeps@),
            all_on_grid(at@),
            at@.len() == creeps@.len(),
            r@ == requests_of(creeps@, at@, i as nat),
        decreases creeps@.len() - i,
    {
        assert(at@[i as int].on_grid() && creeps@[i as int].goal.on_grid());
        let c = &creeps[i];
        if !c.within(at[i]) {
            r.push(MoveRequest { creep: i as u32 + 1, goal: c.goal, range: c.range });
        }
        i += 1;
    }
    r
}

/// The outcome of a crowd run.
#[derive(Debug)]
pub struct CrowdReport {
    /// Ticks until all arrived, deadlock, or the cap.
    pub ticks: u32,
    /// The tick at which each creep arrived; `None` if it never did.
    pub arrivals: Vec<Option<u32>>,
    /// Every creep is within range of its goal at the end.
    pub all_arrived: bool,
    /// Creep-ticks spent travelling.
    pub active_creep_ticks: u32,
    /// Steps over all creeps.
    pub moves: u32,
    /// Creep-ticks that a travelling creep stood still without fatigue: lost to traffic.
    pub traffic_idle: u32,
    /// Creep-ticks that a travelling creep stood still, fatigued.
    pub fatigue_idle: u32,
    /// Nothing moved for too long while some goal was unmet.
    pub deadlocked: bool,
}

impl CrowdReport {
    /// Every travelling creep-tick is a move, lost to fatigue, or lost to traffic.
    pub open spec fn accounted(self) -> bool {
        self.active_creep_ticks == self.moves + self.traffic_idle + self.fatigue_idle
    }
}

impl Clone for CrowdReport {
    fn clone(&self) -> (r: CrowdReport)
        ensures
            r.arrivals@ == self.arrivals@,
            r == (CrowdReport { arrivals: r.arrivals, ..*self }),
    {
        CrowdReport {
            ticks: self.ticks,
            arrivals: copied(self.arrivals.as_slice()),
            all_arrived: self.all_arrived,
            active_creep_ticks: self.active_creep_ticks,
            moves: self.moves,
            traffic_idle: self.traffic_idle,
            fatigue_idle: self.fatigue_idle,
            deadlocked: self.deadlocked,
        }
    }
}

impl Default for CrowdReport {
    fn default() -> (r: CrowdReport)
        ensures
            r.ticks == 0,
            r.arrivals@.len() == 0,
            !r.all_arrived,
            r.active_creep_ticks == 0,
            r.moves == 0,
            r.traffic_idle == 0,
            r.fatigue_idle == 0,
            !r.deadlocked,
    {
        CrowdReport {
            ticks: 0,
            arrivals: Vec::new(),
            all_arrived: false,
            active_creep_ticks: 0,
            moves: 0,
            traffic_idle: 0,
            fatigue_idle: 0,
            deadlocked: false,
        }
    }
}

/// What a tick was to a creep.
#[derive(Clone, Copy, Debug, PartialEq, Eq, Structural)]
pub enum Fate {
    /// It was at its goal when the tick began.
    Arrived,
    /// It stepped.
    Moved,
    /// It stood still, fatigued.
    Fatigued,
    /// It stood still without fatigue.
    Blocked,
}

/// What a tick was to a creep that was at `before` and is at `after`.
pub open spec fn fate(c: CrowdCreep, before: Position, after: Position, fatigued: bool) -> Fate {
    if c.satisfied(before) {
        Fate::Arrived
    } else if after != before {
        Fate::Moved
    } else if fatigued {
        Fate::Fatigued
    } else {
        Fate::Blocked
    }
}

/// How many of the first `n` creeps met a fate.
pub open spec fn fated(
    creeps: Seq<CrowdCreep>,
    before: Seq<Position>,
    after: Seq<Position>,
    fatigued: Seq<bool>,
    n: nat,
    f: Fate,
) -> nat
    decreases n,
{
    if n == 0 {
        0
    } else {
        fated(creeps, before, after, fatigued, (n - 1) as nat, f) + if fate(
            creeps[n - 1],
            before[n - 1],
            after[n - 1],
            fatigued[n - 1],
        ) == f {
            1nat
        } else {
            0nat
        }
    }
}

/// The arrival tick of a creep after a tick that began at `t`. An arrival that is known stays.
pub open spec fn arrival(
    known: Option<u32>,
    c: CrowdCreep,
    before: Position,
    after: Position,
    t: u32,
) -> Option<u32> {
    if known is Some {
        known
    } else if c.satisfied(before) {
        Some(t)
    } else if c.satisfied(after) {
        Some((t + 1) as u32)
    } else {
        None
    }
}

/// The arrival tick of a creep that stands at `at` when a run ends: a creep that is in range and
/// has no arrival yet has arrived by now.
pub open spec fn closed_arrival(known: Option<u32>, c: CrowdCreep, at: Position, ticks: u32) -> Option<u32> {
    if known is None && c.satisfied(at) {
        Some(ticks)
    } else {
        known
    }
}

/// The arrival tick that a run in progress knows of a creep that was at `path[t]` when tick `t`
/// began.
pub open spec fn known_arrival(c: CrowdCreep, path: Seq<Position>) -> Option<u32>
    decreases path.len(),
{
    if path.len() <= 1 {
        None
    } else {
        arrival(
            known_arrival(c, path.drop_last()),
            c,
            path[path.len() - 2],
            path.last(),
            (path.len() - 2) as u32,
        )
    }
}

/// The arrival tick that a run reports of a creep that was at `path[t]` when tick `t` began, and
/// at the last of the path when the run ended.
pub open spec fn arrival_on(c: CrowdCreep, path: Seq<Position>) -> Option<u32> {
    closed_arrival(known_arrival(c, path), c, path.last(), (path.len() - 1) as u32)
}

/// A creep's arrival is the first tick at which it is within range of its goal, tick zero for a
/// creep that starts there, and stays if it is shoved out of range again. A creep without one was
/// never in range.
pub proof fn law_arrival_is_the_first_in_range(c: CrowdCreep, path: Seq<Position>)
    requires
        1 <= path.len() <= u32::MAX,
    ensures
        arrival_on(c, path) matches Some(t) ==> t < path.len() && c.satisfied(path[t as int]) && (
        forall|k: int| 0 <= k < t ==> !c.satisfied(#[trigger] path[k])),
        arrival_on(c, path) is None ==> forall|k: int|
            0 <= k < path.len() ==> !c.satisfied(#[trigger] path[k]),
{
    if path.len() > 1 {
        lemma_known_arrival(c, path);
    }
}

proof fn lemma_known_arrival(c: CrowdCreep, path: Seq<Position>)
    requires
        2 <= path.len() <= u32::MAX,
    ensures
        known_arrival(c, path) matches Some(t) ==> t < path.len() && c.satisfied(path[t as int]) && (
        forall|k: int| 0 <= k < t ==> !c.satisfied(#[trigger] path[k])),
        known_arrival(c, path) is None ==> forall|k: int|
            0 <= k < path.len() ==> !c.satisfied(#[trigger] path[k]),
    decreases path.len(),
{
    let n = path.len();
    let front = path.drop_last();
    if n > 2 {
        lemma_known_arrival(c, front);
        assert forall|k: int| 0 <= k < n - 1 implies path[k] == front[k] by {
        }
        assert(known_arrival(c, front) matches Some(t) ==> path[t as int] == front[t as int]);
    } else {
        assert(known_arrival(c, front) is None);
    }
}

/// A crowd run in progress.
#[derive(Debug)]
pub struct CrowdRun {
    pub report: CrowdReport,
    /// Consecutive ticks without movement.
    pub stall: u32,
}

impl CrowdRun {
    /// The account of the run is complete, and no larger than the ticks allow.
    pub open spec fn wf(self, n: nat) -> bool {
        &&& self.report.arrivals@.len() == n
        &&& self.report.accounted()
        &&& self.report.active_creep_ticks <= self.report.ticks * n
        &&& self.stall <= self.report.ticks
    }

    /// How long nothing has moved, and whether that has been too long.
    pub open spec fn s_watch(self) -> Watch {
        Watch { stall: self.stall as int, deadlocked: self.report.deadlocked }
    }

    /// A run of `n` creeps that has not begun.
    pub fn new(n: usize) -> (r: CrowdRun)
        ensures
            r.wf(n as nat),
            r.report.ticks == 0,
            r.report.active_creep_ticks == 0,
            r.s_watch() == watch(Seq::empty()),
            !r.report.all_arrived,
            forall|i: int| 0 <= i < n ==> #[trigger] r.report.arrivals@[i] is None,
    {
        let mut arrivals: Vec<Option<u32>> = Vec::new();
        let mut i: usize = 0;
        while i < n
            invariant
                i <= n,
                arrivals@.len() == i,
                forall|k: int| 0 <= k < i ==> #[trigger] arrivals@[k] is None,
            decreases n - i,
        {
            arrivals.push(None);
            i += 1;
        }
        let blank = CrowdReport::default();
        CrowdRun { report: CrowdReport { arrivals, ..blank }, stall: 0 }
    }

    /// Whether another tick is due: the cap is not reached, somebody is still travelling, and the
    /// run is not deadlocked.
    pub fn due(&self, creeps: &[CrowdCreep], at: &[Position], tick_cap: u32) -> (r: bool)
        requires
            crowd_ok(creeps@),
            all_on_grid(at@),
            at@.len() == creeps@.len(),
        ensures
            r == (self.report.ticks < tick_cap && !all_satisfied(creeps@, at@)
                && !self.report.deadlocked),
    {
        self.report.ticks < tick_cap && !self.report.deadlocked && !all_within(creeps, at)
    }

    /// Accounts for a tick that took the creeps from `before` to `after`. A creep that was at its
    /// goal when the tick began is no traveller; of the others each moved, or stood still with
    /// fatigue or without. Twelve ticks in a row on which no traveller moved are a deadlock.
    #[verifier::rlimit(30)]
    pub fn observe(
        &mut self,
        creeps: &[CrowdCreep],
        before: &[Position],
        after: &[Position],
        fatigued: &[bool],
    )
        requires
            crowd_ok(creeps@),
            old(self).wf(creeps@.len()),
            before@.len() == creeps@.len(),
            after@.len() == creeps@.len(),
            fatigued@.len() == creeps@.len(),
            all_on_grid(before@),
            all_on_grid(after@),
            old(self).report.active_creep_ticks + creeps@.len() <= u32::MAX,
            old(self).report.ticks < u32::MAX,
        ensures
            final(self).wf(creeps@.len()),
            final(self).report.ticks == old(self).report.ticks + 1,
            final(self).report.moves == old(self).report.moves + fated(
                creeps@,
                before@,
                after@,
                fatigued@,
                creeps@.len(),
                Fate::Moved,
            ),
            final(self).report.fatigue_idle == old(self).report.fatigue_idle + fated(
                creeps@,
                before@,
                after@,
                fatigued@,
                creeps@.len(),
                Fate::Fatigued,
            ),
            final(self).report.traffic_idle == old(self).report.traffic_idle + fated(
                creeps@,
                before@,
                after@,
                fatigued@,
                creeps@.len(),
                Fate::Blocked,
            ),
            forall|i: int|
                0 <= i < creeps@.len() ==> #[trigger] final(self).report.arrivals@[i] == arrival(
                    old(self).report.arrivals@[i],
                    creeps@[i],
                    before@[i],
                    after@[i],
                    old(self).report.ticks,
                ),
            ({
                let moved = fated(
                    creeps@,
                    before@,
                    after@,
                    fatigued@,
                    creeps@.len(),
                    Fate::Moved,
                ) > 0;
                final(self).s_watch() == watched(old(self).s_watch(), moved)
            }),
            final(self).report.all_arrived == old(self).report.all_arrived,
    {
        let t: u32 = self.report.ticks;
        let n: usize = creeps.len();
        let ghost start = *self;
        let mut moves: u32 = 0;
        let mut tired: u32 = 0;
        let mut blocked: u32 = 0;
        let mut arrivals: Vec<Option<u32>> = Vec::new();
        let mut i: usize = 0;
        while i < n
            invariant
                i <= n == creeps@.len(),
                *self == start,
                start.wf(n as nat),
                start.report.ticks == t < u32::MAX,
                n < u32::MAX,
                crowd_ok(creeps@),
                before@.len() == n,
                after@.len() == n,
                fatigued@.len() == n,
                all_on_grid(before@),
                all_on_grid(after@),
                moves == fated(creeps@, before@, after@, fatigued@, i as nat, Fate::Moved),
                tired == fated(creeps@, before@, after@, fatigued@, i as nat, Fate::Fatigued),
                blocked == fated(creeps@, before@, after@, fatigued@, i as nat, Fate::Blocked),
                moves + tired + blocked <= i,
                arrivals@.len() == i,
                forall|k: int|
                    0 <= k < i ==> #[trigger] arrivals@[k] == arrival(
                        start.report.arrivals@[k],
                        creeps@[k],
                        before@[k],
                        after@[k],
                        t,
                    ),
            decreases n - i,
        {
            assert(before@[i as int].on_grid() && after@[i as int].on_grid()
                && creeps@[i as int].goal.on_grid());
            let c = &creeps[i];
            let known = self.report.arrivals[i];
            if c.within(before[i]) {
                arrivals.push(
                    if known.is_none() {
                        Some(t)
                    } else {
                        known
                    },
                );
            } else {
                if after[i] != before[i] {
                    moves += 1;
                } else if fatigued[i] {
                    tired += 1;
                } else {
                    blocked += 1;
                }
                arrivals.push(
                    if known.is_none() && c.within(after[i]) {
                        Some(t + 1)
                    } else {
                        known
                    },
                );
            }
            i += 1;
        }
        proof {
            assert((t + 1) * n == t * n + n) by (nonlinear_arith);
        }
        let active: u32 = self.report.active_creep_ticks + moves + tired + blocked;
        let stall: u32 = if moves > 0 {
            0
        } else {
            self.stall + 1
        };
        let report = CrowdReport {
            ticks: t + 1,
            arrivals,
            all_arrived: self.report.all_arrived,
            active_creep_ticks: active,
            moves: self.report.moves + moves,
            traffic_idle: self.report.traffic_idle + blocked,
            fatigue_idle: self.report.fatigue_idle + tired,
            deadlocked: self.report.deadlocked || stall >= DEADLOCK_TICKS,
        };
        self.report = report;
        self.stall = stall;
    }

    /// The report of a run that ended with the creeps at `at`. A creep that is in range then has
    /// arrived, also where the run took no tick.
    pub fn finish(self, creeps: &[CrowdCreep], at: &[Position]) -> (r: CrowdReport)
        requires
            crowd_ok(creeps@),
            all_on_grid(at@),
            at@.len() == creeps@.len(),
            self.wf(creeps@.len()),
        ensures
            r == (CrowdReport {
                all_arrived: all_satisfied(creeps@, at@),
                arrivals: r.arrivals,
                ..self.report
            }),
            r.arrivals@.len() == creeps@.len(),
            forall|i: int|
                0 <= i < creeps@.len() ==> #[trigger] r.arrivals@[i] == closed_arrival(
                    self.report.arrivals@[i],
                    creeps@[i],
                    at@[i],
                    self.report.ticks,
                ),
            r.all_arrived ==> forall|i: int|
                0 <= i < creeps@.len() ==> #[trigger] r.arrivals@[i] is Some,
            r.accounted(),
    {
        let all_arrived = all_within(creeps, at);
        let ticks: u32 = self.report.ticks;
        let mut arrivals: Vec<Option<u32>> = Vec::new();
        let mut i: usize = 0;
        while i < creeps.len()
            invariant
                i <= creeps@.len(),
                crowd_ok(creeps@),
                all_on_grid(at@),
                at@.len() == creeps@.len(),
                self.wf(creeps@.len()),
                ticks == self.report.ticks,
                arrivals@.len() == i,
                forall|k: int|
                    0 <= k < i ==> #[trigger] arrivals@[k] == closed_arrival(
                        self.report.arrivals@[k],
                        creeps@[k],
                        at@[k],
                        ticks,
                    ),
            decreases creeps@.len() - i,
        {
            assert(at@[i as int].on_grid() && creeps@[i as int].goal.on_grid());
            let known = self.report.arrivals[i];
            arrivals.push(
                if known.is_none() && creeps[i].within(at[i]) {
                    Some(ticks)
                } else {
                    known
                },
            );
            i += 1;
        }
        proof {
            if all_arrived {
                assert forall|k: int| 0 <= k < creeps@.len() implies #[trigger] arrivals@[k] is Some by {
                    assert(creeps@[k].satisfied(at@[k]));
                }
            }
        }
        CrowdReport { all_arrived, arrivals, ..self.report }
    }
}

/// Congestion as a number.
pub open spec fn s_congestion<S: Numbers>(r: CrowdReport) -> S {
    if r.active_creep_ticks == 0 {
        S::s_of(0)
    } else {
        S::s_of(r.traffic_idle as u64).s_over(S::s_of(r.active_creep_ticks as u64))
    }
}

/// Congestion: the share of travelling creep-ticks that were lost to traffic.
pub fn congestion<S: Scalar>(r: &CrowdReport) -> (c: S)
    ensures
        c == s_congestion::<S>(*r),
{
    if r.active_creep_ticks == 0 {
        return S::of(0);
    }
    S::of(r.traffic_idle as u64).over(S::of(r.active_creep_ticks as u64))
}

/// The share of travel that was productive or forced by fatigue.
pub fn crowd_fatigue_util<S: Scalar>(r: &CrowdReport) -> (u: S)
    ensures
        u == S::s_of(1).s_minus(s_congestion::<S>(*r)),
{
    S::of(1).minus(congestion(r))
}

/// Congestion is a fraction, and nothing exactly in free flow.
pub proof fn law_congestion_is_a_fraction<S: Scalar>(r: CrowdReport)
    requires
        r.accounted(),
    ensures
        s_congestion::<S>(r).amount(),
        !S::s_of(1).s_below(s_congestion::<S>(r)),
        r.traffic_idle == 0 ==> s_congestion::<S>(r) == S::s_of(0),
{
    S::lemma_counts(0, 1);
    if r.active_creep_ticks > 0 {
        S::lemma_share(r.traffic_idle as u64, r.active_creep_ticks as u64);
    }
}

/// The fates of a tick partition the creeps.
pub proof fn law_fates_partition_the_crowd(
    creeps: Seq<CrowdCreep>,
    before: Seq<Position>,
    after: Seq<Position>,
    fatigued: Seq<bool>,
    n: nat,
)
    ensures
        fated(creeps, before, after, fatigued, n, Fate::Arrived) + fated(
            creeps,
            before,
            after,
            fatigued,
            n,
            Fate::Moved,
        ) + fated(creeps, before, after, fatigued, n, Fate::Fatigued) + fated(
            creeps,
            before,
            after,
            fatigued,
            n,
            Fate::Blocked,
        ) == n,
    decreases n,
{
    if n > 0 {
        law_fates_partition_the_crowd(creeps, before, after, fatigued, (n - 1) as nat);
    }
}

/// Only travelling creeps ask to be moved: a request is made for a creep if and only if the
/// creep is out of range of its goal.
pub proof fn law_travellers_ask(creeps: Seq<CrowdCreep>, at: Seq<Position>, n: nat, i: int)
    requires
        0 <= i < n <= creeps.len(),
        creeps.len() < u32::MAX,
    ensures
        (exists|k: int|
            0 <= k < requests_of(creeps, at, n).len() && (#[trigger] requests_of(
                creeps,
                at,
                n,
            )[k]).creep == i + 1) <==> !creeps[i].satisfied(at[i]),
        forall|k: int|
            0 <= k < requests_of(creeps, at, n).len() ==> 1 <= (#[trigger] requests_of(
                creeps,
                at,
                n,
            )[k]).creep <= n,
    decreases n,
{
    let now = requests_of(creeps, at, n);
    let before = requests_of(creeps, at, (n - 1) as nat);
    if n > 1 {
        if i < n - 1 {
            law_travellers_ask(creeps, at, (n - 1) as nat, i);
        } else {
            law_travellers_ask(creeps, at, (n - 1) as nat, 0);
        }
    }
    assert forall|k: int| 0 <= k < now.len() implies 1 <= (#[trigger] now[k]).creep <= n by {
        if k < before.len() {
            assert(now[k] == before[k]);
        }
    }
    if i < n - 1 {
        if !creeps[i].satisfied(at[i]) {
            let k = choose|k: int| 0 <= k < before.len() && (#[trigger] before[k]).creep == i + 1;
            assert(now[k].creep == i + 1);
        } else {
            assert forall|k: int| 0 <= k < now.len() implies (#[trigger] now[k]).creep != i + 1 by {
                if k < before.len() {
                    assert(now[k] == before[k]);
                }
            }
        }
    } else {
        if !creeps[i].satisfied(at[i]) {
            assert(now[now.len() - 1].creep == i + 1);
        } else {
            assert forall|k: int| 0 <= k < now.len() implies (#[trigger] now[k]).creep != i + 1 by {
                assert(now[k] == before[k]);
            }
        }
    }
}

/// Why a move that was asked for did not happen.
#[derive(Clone, Copy, Debug, PartialEq, Eq, Structural)]
pub enum Cause {
    /// The creep was fatigued.
    Fatigued,
    /// The tile is a wall, or outside the room.
    Wall,
    /// The chain of blockers ends at a creep that asked for nothing.
    IntoParked,
    /// Anything else: only creeps that asked to move are involved.
    Coordination,
}

/// The failed-move account of a run: how many moves were issued, how many were not executed, and
/// why.
#[derive(Clone, Copy, Debug, PartialEq, Eq, Structural)]
pub struct IntentAudit {
    pub intents_issued: u32,
    pub failed_moves: u32,
    pub failed_fatigued: u32,
    pub failed_wall: u32,
    pub failed_into_parked: u32,
    pub failed_coordination: u32,
}

impl Default for IntentAudit {
    fn default() -> (r: IntentAudit)
        ensures
            r == s_blank_audit(),
    {
        IntentAudit {
            intents_issued: 0,
            failed_moves: 0,
            failed_fatigued: 0,
            failed_wall: 0,
            failed_into_parked: 0,
            failed_coordination: 0,
        }
    }
}

/// An account of nothing.
pub open spec fn s_blank_audit() -> IntentAudit {
    IntentAudit {
        intents_issued: 0,
        failed_moves: 0,
        failed_fatigued: 0,
        failed_wall: 0,
        failed_into_parked: 0,
        failed_coordination: 0,
    }
}

/// What is known of a tick: where everybody was and is, who was fatigued, who asked to be moved,
/// and which step each was issued.
#[derive(Debug)]
pub struct TickFacts {
    pub before: Vec<Position>,
    pub after: Vec<Position>,
    pub fatigued: Vec<bool>,
    pub requested: Vec<bool>,
    pub issued: Vec<Option<Direction>>,
}

impl TickFacts {
    /// There is one entry per creep, and every position lies on the grid.
    pub open spec fn wf(self) -> bool {
        &&& self.after@.len() == self.before@.len()
        &&& self.fatigued@.len() == self.before@.len()
        &&& self.requested@.len() == self.before@.len()
        &&& self.issued@.len() == self.before@.len()
        &&& all_on_grid(self.before@)
        &&& all_on_grid(self.after@)
    }

    /// The creep was issued a step, and stayed where it was.
    pub open spec fn failed(self, i: int) -> bool {
        self.issued@[i] is Some && self.after@[i] == self.before@[i]
    }
}

/// The tile that a step from `p` enters, inside the room.
pub open spec fn target(p: Position, d: Direction) -> Option<Position> {
    let (nx, ny) = (p.x + d.dx(), p.y + d.dy());
    if 0 <= nx < 50 && 0 <= ny < 50 {
        Some(Position { room: p.room, x: nx as u8, y: ny as u8 })
    } else {
        None
    }
}

/// The first creep from `k` on that stands on a tile.
pub open spec fn occupant(at: Seq<Position>, p: Position, k: int) -> Option<int>
    decreases at.len() - k,
{
    if k >= at.len() {
        None
    } else if at[k] == p {
        Some(k)
    } else {
        occupant(at, p, k + 1)
    }
}

/// What the chain of blockers that begins at the tile `p` comes to. A creep that asked for
/// nothing ends it; a creep whose own step failed hands on to the tile it was to enter, at most
/// `fuel` times.
pub open spec fn chain(facts: TickFacts, p: Position, fuel: nat) -> Cause
    decreases fuel,
{
    match occupant(facts.before@, p, 0) {
        None => Cause::Coordination,
        Some(j) => if !facts.requested@[j] {
            Cause::IntoParked
        } else if fuel > 0 && facts.failed(j) {
            match target(facts.before@[j], facts.issued@[j].unwrap()) {
                Some(next) => chain(facts, next, (fuel - 1) as nat),
                None => Cause::Coordination,
            }
        } else {
            Cause::Coordination
        },
    }
}

/// Why the step of the creep at `i` failed.
pub open spec fn cause(facts: TickFacts, terrain: SimTerrain, i: int) -> Cause {
    if facts.fatigued@[i] {
        Cause::Fatigued
    } else {
        match target(facts.before@[i], facts.issued@[i].unwrap()) {
            None => Cause::Wall,
            Some(p) => if terrain.walls@.contains((p.x, p.y)) {
                Cause::Wall
            } else {
                chain(facts, p, facts.before@.len())
            },
        }
    }
}

/// How many of the first `n` creeps were issued a step.
pub open spec fn issued_count(facts: TickFacts, n: nat) -> nat
    decreases n,
{
    if n == 0 {
        0
    } else {
        issued_count(facts, (n - 1) as nat) + if facts.issued@[n - 1] is Some {
            1nat
        } else {
            0nat
        }
    }
}

/// How many steps of the first `n` creeps failed for one cause.
pub open spec fn failed_by(facts: TickFacts, terrain: SimTerrain, n: nat, c: Cause) -> nat
    decreases n,
{
    if n == 0 {
        0
    } else {
        failed_by(facts, terrain, (n - 1) as nat, c) + if facts.failed(n - 1) && cause(
            facts,
            terrain,
            n - 1,
        ) == c {
            1nat
        } else {
            0nat
        }
    }
}

/// The tile that a step enters, inside the room.
fn step_target(p: Position, d: Direction) -> (r: Option<Position>)
    requires
        p.on_grid(),
    ensures
        r == target(p, d),
        r matches Some(q) ==> q.on_grid(),
{
    let dx: i32 = match d {
        Direction::TopRight => 1,
        Direction::Right => 1,
        Direction::BottomRight => 1,
        Direction::TopLeft => -1,
        Direction::Left => -1,
        Direction::BottomLeft => -1,
        Direction::Top => 0,
        Direction::Bottom => 0,
    };
    let dy: i32 = match d {
        Direction::BottomLeft => 1,
        Direction::Bottom => 1,
        Direction::BottomRight => 1,
        Direction::TopLeft => -1,
        Direction::Top => -1,
        Direction::TopRight => -1,
        Direction::Left => 0,
        Direction::Right => 0,
    };
    let nx: i32 = p.x as i32 + dx;
    let ny: i32 = p.y as i32 + dy;
    if 0 <= nx && nx < 50 && 0 <= ny && ny < 50 {
        Some(Position { room: p.room, x: nx as u8, y: ny as u8 })
    } else {
        None
    }
}

/// The first creep that stands on a tile.
fn find_occupant(at: &Vec<Position>, p: Position) -> (r: Option<usize>)
    ensures
        r matches Some(j) ==> j < at@.len() && occupant(at@, p, 0) == Some(j as int),
        r is None ==> occupant(at@, p, 0) is None,
{
    let mut i: usize = 0;
    while i < at.len()
        invariant
            i <= at@.len(),
            occupant(at@, p, 0) == occupant(at@, p, i as int),
        decreases at@.len() - i,
    {
        if at[i] == p {
            return Some(i);
        }
        i += 1;
    }
    None
}

/// Walks the chain of blockers that begins at the tile `p`.
fn walk_chain(facts: &TickFacts, p: Position) -> (r: Cause)
    requires
        facts.wf(),
        p.on_grid(),
    ensures
        r == chain(*facts, p, facts.before@.len()),
{
    let mut tile = p;
    let mut fuel: usize = facts.before.len();
    loop
        invariant
            facts.wf(),
            tile.on_grid(),
            fuel <= facts.before@.len(),
            chain(*facts, p, facts.before@.len()) == chain(*facts, tile, fuel as nat),
        decreases fuel,
    {
        match find_occupant(&facts.before, tile) {
            None => {
                return Cause::Coordination;
            },
            Some(j) => {
                assert(facts.before@[j as int].on_grid());
                if !facts.requested[j] {
                    return Cause::IntoParked;
                }
                if fuel == 0 || facts.after[j] != facts.before[j] {
                    return Cause::Coordination;
                }
                match facts.issued[j] {
                    None => {
                        return Cause::Coordination;
                    },
                    Some(d) => {
                        match step_target(facts.before[j], d) {
                            None => {
                                return Cause::Coordination;
                            },
                            Some(next) => {
                                tile = next;
                                fuel -= 1;
                            },
                        }
                    },
                }
            },
        }
    }
}

impl IntentAudit {
    /// Every failure has one cause, and no more moves failed than were issued.
    pub open spec fn wf(self) -> bool {
        &&& self.failed_moves == self.failed_fatigued + self.failed_wall + self.failed_into_parked
            + self.failed_coordination
        &&& self.failed_moves <= self.intents_issued
    }

    /// The account with a tick added to it.
    pub open spec fn s_reconciled(self, facts: TickFacts, terrain: SimTerrain) -> IntentAudit {
        let n = facts.before@.len();
        let fatigued = failed_by(facts, terrain, n, Cause::Fatigued);
        let wall = failed_by(facts, terrain, n, Cause::Wall);
        let parked = failed_by(facts, terrain, n, Cause::IntoParked);
        let coordination = failed_by(facts, terrain, n, Cause::Coordination);
        IntentAudit {
            intents_issued: (self.intents_issued + issued_count(facts, n)) as u32,
            failed_moves: (self.failed_moves + fatigued + wall + parked + coordination) as u32,
            failed_fatigued: (self.failed_fatigued + fatigued) as u32,
            failed_wall: (self.failed_wall + wall) as u32,
            failed_into_parked: (self.failed_into_parked + parked) as u32,
            failed_coordination: (self.failed_coordination + coordination) as u32,
        }
    }

    /// Adds a tick to the account: every step that was issued and not executed counts as failed,
    /// under the cause that fatigue, terrain or the chain of blockers gives.
    pub fn reconcile(&mut self, facts: &TickFacts, terrain: &SimTerrain)
        requires
            old(self).wf(),
            facts.wf(),
            old(self).intents_issued + facts.before@.len() <= u32::MAX,
        ensures
            *final(self) == old(self).s_reconciled(*facts, *terrain),
            final(self).wf(),
    {
        let n: usize = facts.before.len();
        let mut issued: u32 = 0;
        let mut fatigued: u32 = 0;
        let mut wall: u32 = 0;
        let mut parked: u32 = 0;
        let mut coordination: u32 = 0;
        let mut i: usize = 0;
        while i < n
            invariant
                i <= n == facts.before@.len(),
                facts.wf(),
                n <= u32::MAX,
                issued <= i,
                issued == issued_count(*facts, i as nat),
                fatigued == failed_by(*facts, *terrain, i as nat, Cause::Fatigued),
                wall == failed_by(*facts, *terrain, i as nat, Cause::Wall),
                parked == failed_by(*facts, *terrain, i as nat, Cause::IntoParked),
                coordination == failed_by(*facts, *terrain, i as nat, Cause::Coordination),
                fatigued + wall + parked + coordination <= issued,
            decreases n - i,
        {
            assert(facts.before@[i as int].on_grid());
            if let Some(d) = facts.issued[i] {
                issued += 1;
                if facts.after[i] == facts.before[i] {
                    let why = if facts.fatigued[i] {
                        Cause::Fatigued
                    } else {
                        match step_target(facts.before[i], d) {
                            None => Cause::Wall,
                            Some(p) => if terrain.is_wall(p.x, p.y) {
                                Cause::Wall
                            } else {
                                walk_chain(facts, p)
                            },
                        }
                    };
                    match why {
                        Cause::Fatigued => {
                            fatigued += 1;
                        },
                        Cause::Wall => {
                            wall += 1;
                        },
                        Cause::IntoParked => {
                            parked += 1;
                        },
                        Cause::Coordination => {
                            coordination += 1;
                        },
                    }
                }
            }
            i += 1;
        }
        *self = IntentAudit {
            intents_issued: self.intents_issued + issued,
            failed_moves: self.failed_moves + fatigued + wall + parked + coordination,
            failed_fatigued: self.failed_fatigued + fatigued,
            failed_wall: self.failed_wall + wall,
            failed_into_parked: self.failed_into_parked + parked,
            failed_coordination: self.failed_coordination + coordination,
        };
    }

    /// The share of issued moves that were not executed; nothing where none was issued.
    pub fn failed_move_rate<S: Scalar>(&self) -> (r: S)
        ensures
            r == if self.intents_issued == 0 {
                S::s_of(0)
            } else {
                S::s_of(self.failed_moves as u64).s_over(S::s_of(self.intents_issued as u64))
            },
    {
        if self.intents_issued == 0 {
            S::of(0)
        } else {
            S::of(self.failed_moves as u64).over(S::of(self.intents_issued as u64))
        }
    }
}

/// What a tick was to the creeps, counted: of those that were out of range of their goals when it
/// began, those that are elsewhere when it is over moved; of those that stayed the fatigued ones
/// rested, and the others were held up by traffic.
pub proof fn law_a_tick_counts_its_travellers(
    creeps: Seq<CrowdCreep>,
    before: Seq<Position>,
    after: Seq<Position>,
    fatigued: Seq<bool>,
    n: nat,
)
    ensures
        ({
            let out = |i: int| before[i].range_to(creeps[i].goal) > creeps[i].range;
            let all = Seq::new(n, |i: int| i);
            &&& fated(creeps, before, after, fatigued, n, Fate::Moved) == all.fold_left(
                0int,
                |t: int, i: int| t + tally(out(i) && after[i] != before[i]),
            )
            &&& fated(creeps, before, after, fatigued, n, Fate::Fatigued) == all.fold_left(
                0int,
                |t: int, i: int| t + tally(out(i) && after[i] == before[i] && fatigued[i]),
            )
            &&& fated(creeps, before, after, fatigued, n, Fate::Blocked) == all.fold_left(
                0int,
                |t: int, i: int| t + tally(out(i) && after[i] == before[i] && !fatigued[i]),
            )
            &&& fated(creeps, before, after, fatigued, n, Fate::Arrived) == all.fold_left(
                0int,
                |t: int, i: int| t + tally(!out(i)),
            )
        }),
    decreases n,
{
    if n > 0 {
        law_a_tick_counts_its_travellers(creeps, before, after, fatigued, (n - 1) as nat);
        assert(Seq::new(n, |i: int| i).drop_last() =~= Seq::new((n - 1) as nat, |i: int| i));
    }
}

/// One for what holds.
pub open spec fn tally(b: bool) -> int {
    if b {
        1
    } else {
        0
    }
}

/// Every request is for a creep that is out of range of its goal, and names that creep's own goal
/// and range; requests stand in the order of the creeps, who are numbered from one.
pub proof fn law_requests_name_their_goals(creeps: Seq<CrowdCreep>, at: Seq<Position>, n: nat)
    requires
        n <= creeps.len() == at.len(),
        n < u32::MAX,
    ensures
        ({
            let asked = requests_of(creeps, at, n);
            &&& forall|k: int|
                0 <= k < asked.len() ==> ({
                    let q = #[trigger] asked[k];
                    let i = q.creep - 1;
                    &&& 0 <= i < n
                    &&& at[i].range_to(creeps[i].goal) > creeps[i].range
                    &&& q.goal == creeps[i].goal
                    &&& q.range == creeps[i].range
                })
            &&& forall|j: int, k: int|
                0 <= j < k < asked.len() ==> (#[trigger] asked[j]).creep < (#[trigger] asked[k]).creep
        }),
    decreases n,
{
    if n > 0 {
        let m = (n - 1) as nat;
        law_requests_name_their_goals(creeps, at, m);
        let (before, asked) = (requests_of(creeps, at, m), requests_of(creeps, at, n));
        assert forall|k: int| 0 <= k < asked.len() implies ({
            let q = #[trigger] asked[k];
            let i = q.creep - 1;
            &&& 0 <= i < n
            &&& at[i].range_to(creeps[i].goal) > creeps[i].range
            &&& q.goal == creeps[i].goal
            &&& q.range == creeps[i].range
        }) by {
            if k < before.len() {
                assert(asked[k] == before[k]);
            }
        }
        assert forall|j: int, k: int| 0 <= j < k < asked.len() implies (#[trigger] asked[j]).creep
            < (#[trigger] asked[k]).creep by {
            assert(asked[j] == before[j]);
            assert(before[j].creep - 1 < m);
            if k < before.len() {
                assert(asked[k] == before[k]);
            }
        }
    }
}

/// In exact arithmetic congestion times the ticks of travel is the ticks lost to traffic; a crowd
/// that did not travel was not congested.
pub proof fn law_congestion_is_what_traffic_took(r: CrowdReport)
    ensures
        r.active_creep_ticks > 0 ==> s_congestion::<Exact>(r).v * r.active_creep_ticks as real
            == r.traffic_idle as real,
        r.active_creep_ticks == 0 ==> s_congestion::<Exact>(r).v == 0real,
{
    if r.active_creep_ticks > 0 {
        let (a, b) = (r.traffic_idle as real, r.active_creep_ticks as real);
        assert(a / b * b == a) by (nonlinear_arith)
            requires
                b > 0real,
        ;
    }
}

/// The utilization of a crowd and its congestion are parts of one whole.
pub proof fn law_utilization_is_what_congestion_leaves<S: Scalar>(r: &CrowdReport, u: S)
    requires
        call_ensures(crowd_fatigue_util::<S>, (r,), u),
    ensures
        u == S::s_of(1).s_minus(s_congestion::<S>(*r)),
{
}

/// The first creep on a tile is there, and no creep before it is; a tile without one is empty.
pub proof fn law_occupant_is_the_first_on_the_tile(at: Seq<Position>, p: Position, from: int)
    requires
        0 <= from <= at.len(),
    ensures
        occupant(at, p, from) matches Some(j) ==> from <= j < at.len() && at[j] == p && forall|
            k: int,
        | from <= k < j ==> #[trigger] at[k] != p,
        occupant(at, p, from) is None ==> forall|k: int| from <= k < at.len() ==> #[trigger] at[k] != p,
    decreases at.len() - from,
{
    if from < at.len() {
        law_occupant_is_the_first_on_the_tile(at, p, from + 1);
    }
}

/// Why a step failed, told by the tile that it was to enter. A fatigued creep was too tired. A step
/// out of the room, or onto a wall, met a wall. A step onto an empty tile failed among active
/// creeps; one onto a creep that asked for nothing failed on a parked creep; one onto a creep that
/// was on its way and did move failed among active creeps.
pub proof fn law_causes_of_failed_steps(facts: TickFacts, terrain: SimTerrain, i: int, j: int)
    requires
        facts.wf(),
        0 <= i < facts.before@.len(),
        facts.failed(i),
    ensures
        ({
            let d = facts.issued@[i].unwrap();
            let (x, y) = (facts.before@[i].x + d.dx(), facts.before@[i].y + d.dy());
            let inside = 0 <= x < 50 && 0 <= y < 50;
            let p = Position { room: facts.before@[i].room, x: x as u8, y: y as u8 };
            let wall = terrain.walls@.contains((x as u8, y as u8));
            let open = !facts.fatigued@[i] && inside && !wall;
            let alone = 0 <= j < facts.before@.len() && facts.before@[j] == p && forall|k: int|
                0 <= k < facts.before@.len() && k != j ==> #[trigger] facts.before@[k] != p;
            let empty = forall|k: int|
                0 <= k < facts.before@.len() ==> #[trigger] facts.before@[k] != p;
            let why = cause(facts, terrain, i);
            &&& why is Fatigued <==> facts.fatigued@[i]
            &&& why is Wall <==> !facts.fatigued@[i] && (!inside || wall)
            &&& open && empty ==> why is Coordination
            &&& open && alone && !facts.requested@[j] ==> why is IntoParked
            &&& open && alone && facts.requested@[j] && facts.after@[j] != facts.before@[j]
                ==> why is Coordination
            &&& open && alone && facts.requested@[j] && facts.issued@[j] is None
                ==> why is Coordination
        }),
{
    let d = facts.issued@[i].unwrap();
    let (x, y) = (facts.before@[i].x + d.dx(), facts.before@[i].y + d.dy());
    let p = Position { room: facts.before@[i].room, x: x as u8, y: y as u8 };
    law_occupant_is_the_first_on_the_tile(facts.before@, p, 0);
    lemma_chain_kinds(facts, p, facts.before@.len());
}

/// A chain of blockers ends at a parked creep or among active ones.
proof fn lemma_chain_kinds(facts: TickFacts, p: Position, fuel: nat)
    ensures
        chain(facts, p, fuel) is IntoParked || chain(facts, p, fuel) is Coordination,
    decreases fuel,
{
    match occupant(facts.before@, p, 0) {
        None => {},
        Some(j) => {
            if facts.requested@[j] && fuel > 0 && facts.failed(j) {
                match target(facts.before@[j], facts.issued@[j].unwrap()) {
                    Some(next) => {
                        lemma_chain_kinds(facts, next, (fuel - 1) as nat);
                    },
                    None => {},
                }
            }
        },
    }
}

/// A step that failed behind a creep whose own step failed on a parked creep failed on that parked
/// creep too: the blame goes along the chain of blockers, not to the creep next in line.
pub proof fn law_blame_goes_along_the_chain(
    facts: TickFacts,
    terrain: SimTerrain,
    i: int,
    j: int,
    k: int,
)
    requires
        facts.wf(),
        0 <= i < facts.before@.len(),
        0 <= j < facts.before@.len(),
        0 <= k < facts.before@.len(),
        facts.failed(i) && facts.failed(j),
        !facts.fatigued@[i],
        facts.requested@[j],
        !facts.requested@[k],
        steps_to(facts.before@[i], facts.issued@[i].unwrap(), facts.before@[j]),
        steps_to(facts.before@[j], facts.issued@[j].unwrap(), facts.before@[k]),
        !terrain.walls@.contains((facts.before@[j].x, facts.before@[j].y)),
        forall|m: int|
            0 <= m < facts.before@.len() && m != j ==> #[trigger] facts.before@[m]
                != facts.before@[j],
        forall|m: int|
            0 <= m < facts.before@.len() && m != k ==> #[trigger] facts.before@[m]
                != facts.before@[k],
    ensures
        cause(facts, terrain, i) is IntoParked,
{
    let n = facts.before@.len();
    assert(facts.before@[j].on_grid() && facts.before@[k].on_grid());
    let (p, q) = (facts.before@[j], facts.before@[k]);
    law_occupant_is_the_first_on_the_tile(facts.before@, p, 0);
    law_occupant_is_the_first_on_the_tile(facts.before@, q, 0);
    assert(occupant(facts.before@, p, 0) == Some(j));
    assert(occupant(facts.before@, q, 0) == Some(k));
    assert(target(facts.before@[i], facts.issued@[i].unwrap()) == Some(p));
    assert(target(facts.before@[j], facts.issued@[j].unwrap()) == Some(q));
    assert(chain(facts, q, (n - 1) as nat) is IntoParked);
    assert(chain(facts, p, n) is IntoParked);
}

/// Two creeps that were to change places and both stayed failed among active creeps.
pub proof fn law_a_blocked_swap_is_nobody_parked(
    facts: TickFacts,
    terrain: SimTerrain,
    i: int,
    j: int,
)
    requires
        facts.wf(),
        0 <= i < facts.before@.len(),
        0 <= j < facts.before@.len(),
        facts.failed(i) && facts.failed(j),
        !facts.fatigued@[i],
        facts.requested@[i] && facts.requested@[j],
        steps_to(facts.before@[i], facts.issued@[i].unwrap(), facts.before@[j]),
        steps_to(facts.before@[j], facts.issued@[j].unwrap(), facts.before@[i]),
        !terrain.walls@.contains((facts.before@[j].x, facts.before@[j].y)),
        forall|m: int|
            0 <= m < facts.before@.len() && m != j ==> #[trigger] facts.before@[m]
                != facts.before@[j],
        forall|m: int|
            0 <= m < facts.before@.len() && m != i ==> #[trigger] facts.before@[m]
                != facts.before@[i],
    ensures
        cause(facts, terrain, i) is Coordination,
{
    assert(facts.before@[i].on_grid() && facts.before@[j].on_grid());
    assert(target(facts.before@[i], facts.issued@[i].unwrap()) == Some(facts.before@[j]));
    lemma_swap_chain(facts, i, j, facts.before@.len());
}

proof fn lemma_swap_chain(facts: TickFacts, i: int, j: int, fuel: nat)
    requires
        facts.wf(),
        0 <= i < facts.before@.len(),
        0 <= j < facts.before@.len(),
        facts.failed(i) && facts.failed(j),
        facts.requested@[i] && facts.requested@[j],
        steps_to(facts.before@[i], facts.issued@[i].unwrap(), facts.before@[j]),
        steps_to(facts.before@[j], facts.issued@[j].unwrap(), facts.before@[i]),
        forall|m: int|
            0 <= m < facts.before@.len() && m != j ==> #[trigger] facts.before@[m]
                != facts.before@[j],
        forall|m: int|
            0 <= m < facts.before@.len() && m != i ==> #[trigger] facts.before@[m]
                != facts.before@[i],
    ensures
        chain(facts, facts.before@[j], fuel) is Coordination,
    decreases fuel,
{
    assert(facts.before@[i].on_grid() && facts.before@[j].on_grid());
    law_occupant_is_the_first_on_the_tile(facts.before@, facts.before@[j], 0);
    assert(occupant(facts.before@, facts.before@[j], 0) == Some(j));
    if fuel > 0 {
        assert(target(facts.before@[j], facts.issued@[j].unwrap()) == Some(facts.before@[i]));
        lemma_swap_chain(facts, j, i, (fuel - 1) as nat);
    }
}

/// A tick is added to an account step by step: every step that was issued counts, and every one
/// whose creep stayed counts as failed, once in all and once under its cause.
pub proof fn law_account_counts_every_step(audit: IntentAudit, facts: TickFacts, terrain: SimTerrain)
    requires
        audit.wf(),
        audit.intents_issued + facts.before@.len() <= u32::MAX,
    ensures
        ({
            let next = audit.s_reconciled(facts, terrain);
            let all = Seq::new(facts.before@.len(), |i: int| i);
            let failed = |i: int| facts.issued@[i] is Some && facts.after@[i] == facts.before@[i];
            &&& next.intents_issued == audit.intents_issued + all.fold_left(
                0int,
                |t: int, i: int| t + tally(facts.issued@[i] is Some),
            )
            &&& next.failed_moves == audit.failed_moves + all.fold_left(
                0int,
                |t: int, i: int| t + tally(failed(i)),
            )
            &&& next.failed_fatigued == audit.failed_fatigued + all.fold_left(
                0int,
                |t: int, i: int| t + tally(failed(i) && cause(facts, terrain, i) is Fatigued),
            )
            &&& next.failed_wall == audit.failed_wall + all.fold_left(
                0int,
                |t: int, i: int| t + tally(failed(i) && cause(facts, terrain, i) is Wall),
            )
            &&& next.failed_into_parked == audit.failed_into_parked + all.fold_left(
                0int,
                |t: int, i: int| t + tally(failed(i) && cause(facts, terrain, i) is IntoParked),
            )
            &&& next.failed_coordination == audit.failed_coordination + all.fold_left(
                0int,
                |t: int, i: int| t + tally(failed(i) && cause(facts, terrain, i) is Coordination),
            )
        }),
{
    lemma_account(facts, terrain, facts.before@.len());
}

proof fn lemma_account(facts: TickFacts, terrain: SimTerrain, n: nat)
    ensures
        ({
            let all = Seq::new(n, |i: int| i);
            let failed = |i: int| facts.issued@[i] is Some && facts.after@[i] == facts.before@[i];
            let fatigued = failed_by(facts, terrain, n, Cause::Fatigued);
            let wall = failed_by(facts, terrain, n, Cause::Wall);
            let parked = failed_by(facts, terrain, n, Cause::IntoParked);
            let coordination = failed_by(facts, terrain, n, Cause::Coordination);
            &&& issued_count(facts, n) == all.fold_left(
                0int,
                |t: int, i: int| t + tally(facts.issued@[i] is Some),
            )
            &&& fatigued + wall + parked + coordination == all.fold_left(
                0int,
                |t: int, i: int| t + tally(failed(i)),
            )
            &&& fatigued == all.fold_left(
                0int,
                |t: int, i: int| t + tally(failed(i) && cause(facts, terrain, i) is Fatigued),
            )
            &&& wall == all.fold_left(
                0int,
                |t: int, i: int| t + tally(failed(i) && cause(facts, terrain, i) is Wall),
            )
            &&& parked == all.fold_left(
                0int,
                |t: int, i: int| t + tally(failed(i) && cause(facts, terrain, i) is IntoParked),
            )
            &&& coordination == all.fold_left(
                0int,
                |t: int, i: int| t + tally(failed(i) && cause(facts, terrain, i) is Coordination),
            )
            &&& fatigued + wall + parked + coordination <= issued_count(facts, n) <= n
        }),
    decreases n,
{
    if n > 0 {
        lemma_account(facts, terrain, (n - 1) as nat);
        assert(Seq::new(n, |i: int| i).drop_last() =~= Seq::new((n - 1) as nat, |i: int| i));
        assert(Seq::new(n, |i: int| i).last() == n - 1);
    }
}

/// The rate of failed moves is those that failed over those that were issued, and nothing where
/// none was issued.
pub proof fn law_failed_rate_is_failed_over_issued<S: Scalar>(a: &IntentAudit, r: S)
    requires
        call_ensures(IntentAudit::failed_move_rate::<S>, (a,), r),
    ensures
        a.intents_issued == 0 ==> r == S::s_of(0),
        a.intents_issued > 0 ==> r == S::s_of(a.failed_moves as u64).s_over(
            S::s_of(a.intents_issued as u64),
        ),
{
}

/// A crowd musters creep by creep: each at its start with its own load, rested, numbered from one.
pub proof fn law_crowds_muster_at_their_starts(creeps: &[CrowdCreep], r: Vec<SimCreep>, i: int)
    requires
        call_ensures(muster, (creeps,), r),
        0 <= i < creeps@.len(),
    ensures
        r@.len() == creeps@.len(),
        r@[i].id == i + 1,
        r@[i].pos == creeps@[i].from,
        r@[i].carry_used == creeps@[i].carry_used,
        r@[i].fatigue == 0,
        r@[i].body.parts@ == creeps@[i].body.parts@,
{
    assert(is_mustered(creeps@[i], i, r@[i]));
}

/// A run goes on while its cap is not reached, some creep is out of range of its goal, and nothing
/// deadlocked.
pub proof fn law_a_crowd_runs_until_all_are_there(
    run: &CrowdRun,
    creeps: &[CrowdCreep],
    at: &[Position],
    tick_cap: u32,
    r: bool,
)
    requires
        at@.len() == creeps@.len(),
        call_ensures(CrowdRun::due, (run, creeps, at, tick_cap), r),
    ensures
        r <==> run.report.ticks < tick_cap && !run.report.deadlocked && exists|i: int|
            0 <= i < creeps@.len() && (#[trigger] at@[i]).range_to(creeps@[i].goal)
                > creeps@[i].range,
{
    if !all_satisfied(creeps@, at@) {
        let i = choose|i: int|
            0 <= i < creeps@.len() && !(#[trigger] creeps@[i]).satisfied(at@[i]);
        assert(at@[i].range_to(creeps@[i].goal) > creeps@[i].range);
    }
    if exists|i: int|
        0 <= i < creeps@.len() && (#[trigger] at@[i]).range_to(creeps@[i].goal) > creeps@[i].range {
        let i = choose|i: int|
            0 <= i < creeps@.len() && (#[trigger] at@[i]).range_to(creeps@[i].goal)
                > creeps@[i].range;
        assert(!creeps@[i].satisfied(at@[i]));
    }
}

} // verus!
