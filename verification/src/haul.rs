//! The hauler objective: a fleet cycles cargo from source to sink and back, and every round trip
//! is scored by the optimal round trip over the realized one, weighted by the cargo.
//!
//! The kernel resolves and applies the moves of a tick; the fleet run decides who asks for one and
//! towards what, when cargo is dumped and taken up, and when to stop. Loading is instant: movement
//! alone is priced.

use crate::body::{same_body, SimBody, SimCreep};
use crate::crowd::{
    all_on_grid, s_blank_audit, watch, watched, IntentAudit, MoveRequest, TickFacts, Watch,
    DEADLOCK_TICKS,
};
use crate::grid::{pos_in, Position, ROOM_SIZE};
use crate::list::copied;
use crate::scalar::{Exact, Numbers, Scalar, EXACT_COUNT};
use crate::stats::{draws_suffice, s_summary, s_totals, Summary};
use crate::terrain::SimTerrain;
use crate::traverse::Traversal;
use vstd::prelude::*;

verus! {

/// Arrival range at both endpoints.
pub const ENDPOINT_RANGE: u32 = 1;

/// The cap on a lone hauler's baseline run, in ticks.
pub const SOLO_TICK_CAP: u32 = 10_000;

/// The cap on an optimal round trip, in ticks.
pub const ORACLE_TICK_CAP: u32 = 10_000;

/// One hauler's task: cycle `q` cargo units per round trip between `source` and `sink`, `trips`
/// times. Assignments may share endpoints; that contention is what a fleet run measures.
#[derive(Debug)]
pub struct HaulAssignment {
    pub body: SimBody,
    /// Cargo units per loaded leg (energy-equivalent; other cargo arrives priced).
    pub q: u32,
    pub source: Position,
    pub sink: Position,
    pub trips: u32,
}

/// The two assignments are alike.
pub open spec fn same_assignment(a: HaulAssignment, b: HaulAssignment) -> bool {
    &&& same_body(a.body, b.body)
    &&& a.q == b.q
    &&& a.source == b.source
    &&& a.sink == b.sink
    &&& a.trips == b.trips
}

impl Clone for HaulAssignment {
    fn clone(&self) -> (r: HaulAssignment)
        ensures
            same_assignment(r, *self),
    {
        HaulAssignment {
            body: self.body.clone(),
            q: self.q,
            source: self.source,
            sink: self.sink,
            trips: self.trips,
        }
    }
}

/// Which leg of the round trip a hauler is on.
#[derive(Clone, Copy, Debug, PartialEq, Eq, Structural)]
pub enum Leg {
    ToSink,
    ToSource,
}

/// A hauler's progress.
#[derive(Debug)]
pub struct Hauler {
    pub leg: Leg,
    pub trips_done: u32,
    /// The tick at which the present trip began.
    pub trip_start: u32,
    /// The ticks of the completed trips, in order.
    pub trip_ticks: Vec<u32>,
}

/// A hauler's progress, as a value.
pub struct HaulerState {
    pub leg: Leg,
    pub trips_done: int,
    pub trip_start: int,
    pub trip_ticks: Seq<u32>,
}

impl View for Hauler {
    type V = HaulerState;

    open spec fn view(&self) -> HaulerState {
        HaulerState {
            leg: self.leg,
            trips_done: self.trips_done as int,
            trip_start: self.trip_start as int,
            trip_ticks: self.trip_ticks@,
        }
    }
}

/// A hauler that has not moved yet.
pub open spec fn fresh() -> HaulerState {
    HaulerState { leg: Leg::ToSink, trips_done: 0, trip_start: 0, trip_ticks: Seq::empty() }
}

/// The hauler has made its trips.
pub open spec fn is_done(a: HaulAssignment, h: HaulerState) -> bool {
    h.trips_done >= a.trips
}

/// Where the hauler is headed.
pub open spec fn goal_of(a: HaulAssignment, h: HaulerState) -> Position {
    match h.leg {
        Leg::ToSink => a.sink,
        Leg::ToSource => a.source,
    }
}

/// What a tick makes of a hauler that is not done and stands at `at` when the tick is over.
/// Within range of the sink it turns around; back within range of the source the trip is
/// complete, and the next one begins if one is left.
pub open spec fn advanced(a: HaulAssignment, h: HaulerState, at: Position, ticks: int) -> HaulerState {
    if at.range_to(goal_of(a, h)) > ENDPOINT_RANGE {
        h
    } else {
        match h.leg {
            Leg::ToSink => HaulerState { leg: Leg::ToSource, ..h },
            Leg::ToSource => {
                let trip_ticks = h.trip_ticks.push((ticks - h.trip_start) as u32);
                let trips_done = h.trips_done + 1;
                if trips_done < a.trips {
                    HaulerState { leg: Leg::ToSink, trips_done, trip_start: ticks, trip_ticks }
                } else {
                    HaulerState { trips_done, trip_ticks, ..h }
                }
            },
        }
    }
}

/// The sum of tick counts.
pub open spec fn total(times: Seq<u32>) -> int
    decreases times.len(),
{
    if times.len() == 0 {
        0
    } else {
        total(times.drop_last()) + times.last()
    }
}

/// What a hauler's progress keeps: it has a time for every completed trip, has made no more trips
/// than it was to make, and its trips follow one another without overlap.
pub open spec fn hauler_ok(a: HaulAssignment, h: HaulerState, ticks: int) -> bool {
    &&& 0 <= h.trips_done <= a.trips
    &&& h.trips_done == h.trip_ticks.len()
    &&& 0 <= h.trip_start <= ticks
    &&& total(h.trip_ticks) <= ticks
    &&& !is_done(a, h) ==> total(h.trip_ticks) == h.trip_start
}

impl Hauler {
    /// Whether the hauler has made its trips.
    pub fn done(&self, a: &HaulAssignment) -> (r: bool)
        ensures
            r == is_done(*a, self@),
    {
        self.trips_done >= a.trips
    }

    /// Where the hauler is headed.
    pub fn goal(&self, a: &HaulAssignment) -> (r: Position)
        ensures
            r == goal_of(*a, self@),
    {
        match self.leg {
            Leg::ToSink => a.sink,
            Leg::ToSource => a.source,
        }
    }

    /// Takes a tick into account that left the hauler at `at`.
    fn advance(&mut self, a: &HaulAssignment, at: Position, ticks: u32)
        requires
            a.source.on_grid(),
            a.sink.on_grid(),
            at.on_grid(),
            !is_done(*a, old(self)@),
            hauler_ok(*a, old(self)@, ticks as int),
        ensures
            final(self)@ == advanced(*a, old(self)@, at, ticks as int),
            hauler_ok(*a, final(self)@, ticks as int),
    {
        if at.get_range_to(self.goal(a)) <= ENDPOINT_RANGE {
            match self.leg {
                Leg::ToSink => {
                    self.leg = Leg::ToSource;
                },
                Leg::ToSource => {
                    let ghost before = self.trip_ticks@;
                    self.trip_ticks.push(ticks - self.trip_start);
                    proof {
                        assert(self.trip_ticks@.drop_last() =~= before);
                    }
                    self.trips_done = self.trips_done + 1;
                    if self.trips_done < a.trips {
                        self.leg = Leg::ToSink;
                        self.trip_start = ticks;
                    }
                },
            }
        }
    }
}

/// A fleet run in progress.
#[derive(Debug)]
pub struct FleetRun {
    pub haulers: Vec<Hauler>,
    pub audit: IntentAudit,
    pub ticks: u32,
    /// Consecutive ticks on which no working hauler moved.
    pub stall: u32,
    pub deadlocked: bool,
}

/// The endpoints of the fleet lie on the grid, and every hauler has a number.
pub open spec fn fleet_ok(fleet: Seq<HaulAssignment>) -> bool {
    &&& fleet.len() < u32::MAX
    &&& forall|i: int|
        0 <= i < fleet.len() ==> (#[trigger] fleet[i]).source.on_grid() && fleet[i].sink.on_grid()
}

/// The creep of the hauler at `i`: at its source, rested and loaded. Haulers are numbered from one.
pub open spec fn is_mustered(a: HaulAssignment, i: int, c: SimCreep) -> bool {
    &&& c.id == i + 1
    &&& c.owner == 0
    &&& c.pos == a.source
    &&& same_body(c.body, a.body)
    &&& c.fatigue == 0
    &&& c.carry_used == a.q
}

/// The creeps of a fleet that is about to set out.
pub fn muster(fleet: &[HaulAssignment]) -> (r: Vec<SimCreep>)
    requires
        fleet@.len() < u32::MAX,
    ensures
        r@.len() == fleet@.len(),
        forall|i: int| 0 <= i < r@.len() ==> is_mustered(fleet@[i], i, #[trigger] r@[i]),
{
    let mut r: Vec<SimCreep> = Vec::new();
    let mut i: usize = 0;
    while i < fleet.len()
        invariant
            i <= fleet@.len() < u32::MAX,
            r@.len() == i,
            forall|k: int| 0 <= k < i ==> is_mustered(fleet@[k], k, #[trigger] r@[k]),
        decreases fleet@.len() - i,
    {
        let a = &fleet[i];
        r.push(
            SimCreep {
                id: i as u32 + 1,
                owner: 0,
                pos: a.source,
                body: a.body.clone(),
                fatigue: 0,
                carry_used: a.q,
            },
        );
        i += 1;
    }
    r
}

/// Which haulers ask to be moved: those that are not done.
pub open spec fn s_working(fleet: Seq<HaulAssignment>, haulers: Seq<Hauler>) -> Seq<bool> {
    Seq::new(fleet.len(), |i: int| !is_done(fleet[i], haulers[i]@))
}

/// The requests of the first `n` haulers: one for each that is not done, towards the goal of its
/// leg. Haulers are numbered from one.
pub open spec fn haul_requests(fleet: Seq<HaulAssignment>, haulers: Seq<Hauler>, n: nat) -> Seq<MoveRequest>
    decreases n,
{
    if n == 0 {
        Seq::empty()
    } else {
        let before = haul_requests(fleet, haulers, (n - 1) as nat);
        if is_done(fleet[n - 1], haulers[n - 1]@) {
            before
        } else {
            before.push(
                MoveRequest {
                    creep: n as u32,
                    goal: goal_of(fleet[n - 1], haulers[n - 1]@),
                    range: ENDPOINT_RANGE,
                },
            )
        }
    }
}

/// Every hauler has made its trips.
pub open spec fn all_done(fleet: Seq<HaulAssignment>, haulers: Seq<Hauler>) -> bool {
    forall|i: int| 0 <= i < fleet.len() ==> is_done(fleet[i], (#[trigger] haulers[i])@)
}

/// A fleet run as a value: the progress of every hauler, the ticks, and how long nothing moved.
pub struct FleetState {
    pub haulers: Seq<HaulerState>,
    pub ticks: int,
    pub watch: Watch,
}

/// A run of `n` haulers that has not begun.
pub open spec fn s_mustered(n: nat) -> FleetState {
    FleetState { haulers: Seq::new(n, |i: int| fresh()), ticks: 0, watch: watch(Seq::empty()) }
}

/// Every hauler of the state has made its trips.
pub open spec fn s_finished(fleet: Seq<HaulAssignment>, st: FleetState) -> bool {
    forall|i: int| 0 <= i < fleet.len() ==> is_done(fleet[i], #[trigger] st.haulers[i])
}

/// Another tick is due: the cap is not reached, some hauler is not done, and nothing deadlocked.
pub open spec fn s_due(fleet: Seq<HaulAssignment>, st: FleetState, tick_cap: int) -> bool {
    st.ticks < tick_cap && !s_finished(fleet, st) && !st.watch.deadlocked
}

/// What a tick makes of a run whose haulers it took from `before` to `after`.
pub open spec fn s_stepped(
    fleet: Seq<HaulAssignment>,
    st: FleetState,
    before: Seq<Position>,
    after: Seq<Position>,
) -> FleetState {
    FleetState {
        haulers: Seq::new(
            fleet.len(),
            |i: int|
                if is_done(fleet[i], st.haulers[i]) {
                    st.haulers[i]
                } else {
                    advanced(fleet[i], st.haulers[i], after[i], st.ticks + 1)
                },
        ),
        ticks: st.ticks + 1,
        watch: watched(
            st.watch,
            exists|i: int|
                0 <= i < fleet.len() && !is_done(fleet[i], #[trigger] st.haulers[i]) && after[i]
                    != before[i],
        ),
    }
}

/// Some hauler that was not done moved.
pub open spec fn any_moved(
    fleet: Seq<HaulAssignment>,
    haulers: Seq<Hauler>,
    before: Seq<Position>,
    after: Seq<Position>,
) -> bool {
    exists|i: int|
        0 <= i < fleet.len() && !is_done(fleet[i], (#[trigger] haulers[i])@) && after[i]
            != before[i]
}

impl FleetRun {
    /// The run keeps the progress of every hauler of the fleet, and its account.
    pub open spec fn wf(self, fleet: Seq<HaulAssignment>) -> bool {
        &&& self.haulers@.len() == fleet.len()
        &&& forall|i: int|
            0 <= i < fleet.len() ==> hauler_ok(
                fleet[i],
                (#[trigger] self.haulers@[i])@,
                self.ticks as int,
            )
        &&& self.stall <= self.ticks
        &&& self.audit.wf()
    }

    /// How long nothing has moved, and whether that has been too long.
    pub open spec fn s_watch(self) -> Watch {
        Watch { stall: self.stall as int, deadlocked: self.deadlocked }
    }

    /// The run as a value.
    pub open spec fn s_state(self) -> FleetState {
        FleetState {
            haulers: Seq::new(self.haulers@.len(), |i: int| self.haulers@[i]@),
            ticks: self.ticks as int,
            watch: self.s_watch(),
        }
    }

    /// A run that has not begun: every hauler is at its source, loaded.
    pub fn new(fleet: &[HaulAssignment]) -> (r: FleetRun)
        ensures
            r.wf(fleet@),
            r.s_state() == s_mustered(fleet@.len()),
            forall|i: int| 0 <= i < fleet@.len() ==> (#[trigger] r.haulers@[i])@ == fresh(),
            r.ticks == 0,
            r.s_watch() == watch(Seq::empty()),
            r.audit == s_blank_audit(),
    {
        let mut haulers: Vec<Hauler> = Vec::new();
        let mut i: usize = 0;
        while i < fleet.len()
            invariant
                i <= fleet@.len(),
                haulers@.len() == i,
                forall|k: int| 0 <= k < i ==> (#[trigger] haulers@[k])@ == fresh(),
            decreases fleet@.len() - i,
        {
            let h = Hauler {
                leg: Leg::ToSink,
                trips_done: 0,
                trip_start: 0,
                trip_ticks: Vec::new(),
            };
            assert(h@.trip_ticks =~= Seq::<u32>::empty());
            haulers.push(h);
            i += 1;
        }
        let r = FleetRun {
            haulers,
            audit: IntentAudit::default(),
            ticks: 0,
            stall: 0,
            deadlocked: false,
        };
        assert(r.s_state().haulers =~= s_mustered(fleet@.len()).haulers);
        r
    }

    /// Whether every hauler has made its trips.
    pub fn finished(&self, fleet: &[HaulAssignment]) -> (r: bool)
        requires
            self.wf(fleet@),
        ensures
            r == all_done(fleet@, self.haulers@),
    {
        let mut i: usize = 0;
        while i < fleet.len()
            invariant
                i <= fleet@.len(),
                self.wf(fleet@),
                forall|k: int| 0 <= k < i ==> is_done(fleet@[k], (#[trigger] self.haulers@[k])@),
            decreases fleet@.len() - i,
        {
            if !self.haulers[i].done(&fleet[i]) {
                assert(!is_done(fleet@[i as int], self.haulers@[i as int]@));
                return false;
            }
            i += 1;
        }
        true
    }

    /// Whether another tick is due: the cap is not reached, some hauler is not done, and the run
    /// is not deadlocked.
    pub fn due(&self, fleet: &[HaulAssignment], tick_cap: u32) -> (r: bool)
        requires
            self.wf(fleet@),
        ensures
            r == (self.ticks < tick_cap && !all_done(fleet@, self.haulers@) && !self.deadlocked),
            r == s_due(fleet@, self.s_state(), tick_cap as int),
    {
        proof {
            lemma_finished(*self, fleet@);
        }
        self.ticks < tick_cap && !self.deadlocked && !self.finished(fleet)
    }

    /// Which haulers ask to be moved: those that are not done.
    pub fn working(&self, fleet: &[HaulAssignment]) -> (r: Vec<bool>)
        requires
            self.wf(fleet@),
        ensures
            r@ == s_working(fleet@, self.haulers@),
    {
        let mut r: Vec<bool> = Vec::new();
        let mut i: usize = 0;
        while i < fleet.len()
            invariant
                i <= fleet@.len(),
                self.wf(fleet@),
                r@ == s_working(fleet@, self.haulers@).take(i as int),
            decreases fleet@.len() - i,
        {
            r.push(!self.haulers[i].done(&fleet[i]));
            i += 1;
            assert(r@ =~= s_working(fleet@, self.haulers@).take(i as int));
        }
        assert(r@ =~= s_working(fleet@, self.haulers@));
        r
    }

    /// The requests of a tick: one for each hauler that is not done, towards the goal of its leg.
    pub fn requests(&self, fleet: &[HaulAssignment]) -> (r: Vec<MoveRequest>)
        requires
            fleet_ok(fleet@),
            self.wf(fleet@),
        ensures
            r@ == haul_requests(fleet@, self.haulers@, fleet@.len()),
    {
        let mut r: Vec<MoveRequest> = Vec::new();
        let mut i: usize = 0;
        while i < fleet.len()
            invariant
                i <= fleet@.len(),
                fleet_ok(fleet@),
                self.wf(fleet@),
                r@ == haul_requests(fleet@, self.haulers@, i as nat),
            decreases fleet@.len() - i,
        {
            if !self.haulers[i].done(&fleet[i]) {
                r.push(
                    MoveRequest {
                        creep: i as u32 + 1,
                        goal: self.haulers[i].goal(&fleet[i]),
                        range: ENDPOINT_RANGE,
                    },
                );
            }
            i += 1;
        }
        r
    }

    /// The cargo aboard the hauler at `i`: the full load on the way to the sink, and nothing on
    /// the way back.
    pub fn cargo(&self, fleet: &[HaulAssignment], i: usize) -> (r: u32)
        requires
            self.wf(fleet@),
            i < fleet@.len(),
        ensures
            r == match self.haulers@[i as int].leg {
                Leg::ToSink => fleet@[i as int].q,
                Leg::ToSource => 0,
            },
    {
        match self.haulers[i].leg {
            Leg::ToSink => fleet[i].q,
            Leg::ToSource => 0,
        }
    }

    /// Accounts for a tick. Steps that were issued and not executed are entered in the audit;
    /// every hauler that was not done advances; ticks on which none of them moved add up to a
    /// deadlock.
    pub fn observe(&mut self, fleet: &[HaulAssignment], facts: &TickFacts, terrain: &SimTerrain)
        requires
            fleet_ok(fleet@),
            old(self).wf(fleet@),
            old(self).ticks < u32::MAX,
            old(self).audit.intents_issued + fleet@.len() <= u32::MAX,
            facts.wf(),
            facts.before@.len() == fleet@.len(),
            facts.requested@ == s_working(fleet@, old(self).haulers@),
        ensures
            final(self).wf(fleet@),
            final(self).ticks == old(self).ticks + 1,
            final(self).audit == old(self).audit.s_reconciled(*facts, *terrain),
            forall|i: int|
                0 <= i < fleet@.len() ==> (#[trigger] final(self).haulers@[i])@ == if is_done(
                    fleet@[i],
                    old(self).haulers@[i]@,
                ) {
                    old(self).haulers@[i]@
                } else {
                    advanced(fleet@[i], old(self).haulers@[i]@, facts.after@[i], old(self).ticks + 1)
                },
            ({
                let moved = any_moved(fleet@, old(self).haulers@, facts.before@, facts.after@);
                final(self).s_watch() == watched(old(self).s_watch(), moved)
            }),
            final(self).s_state() == s_stepped(
                fleet@,
                old(self).s_state(),
                facts.before@,
                facts.after@,
            ),
    {
        let ghost was = *self;
        self.audit.reconcile(facts, terrain);
        self.advance_all(fleet, &facts.before, &facts.after);
        proof {
            let st = was.s_state();
            let next = s_stepped(fleet@, st, facts.before@, facts.after@);
            assert(self.s_state().haulers =~= next.haulers);
            let moved = any_moved(fleet@, was.haulers@, facts.before@, facts.after@);
            if moved {
                let i = choose|i: int|
                    0 <= i < fleet@.len() && !is_done(fleet@[i], (#[trigger] was.haulers@[i])@)
                        && facts.after@[i] != facts.before@[i];
                assert(!is_done(fleet@[i], st.haulers[i]));
            }
            if exists|i: int|
                0 <= i < fleet@.len() && !is_done(fleet@[i], #[trigger] st.haulers[i])
                    && facts.after@[i] != facts.before@[i] {
                let i = choose|i: int|
                    0 <= i < fleet@.len() && !is_done(fleet@[i], #[trigger] st.haulers[i])
                        && facts.after@[i] != facts.before@[i];
                assert(!is_done(fleet@[i], was.haulers@[i]@));
            }
        }
    }

    /// Takes a tick into account that took the haulers from `before` to `after`.
    fn advance_all(&mut self, fleet: &[HaulAssignment], before: &Vec<Position>, after: &Vec<Position>)
        requires
            fleet_ok(fleet@),
            old(self).wf(fleet@),
            old(self).ticks < u32::MAX,
            before@.len() == fleet@.len(),
            after@.len() == fleet@.len(),
            all_on_grid(after@),
        ensures
            final(self).wf(fleet@),
            final(self).ticks == old(self).ticks + 1,
            final(self).audit == old(self).audit,
            forall|i: int|
                0 <= i < fleet@.len() ==> (#[trigger] final(self).haulers@[i])@ == if is_done(
                    fleet@[i],
                    old(self).haulers@[i]@,
                ) {
                    old(self).haulers@[i]@
                } else {
                    advanced(fleet@[i], old(self).haulers@[i]@, after@[i], old(self).ticks + 1)
                },
            ({
                let moved = any_moved(fleet@, old(self).haulers@, before@, after@);
                final(self).s_watch() == watched(old(self).s_watch(), moved)
            }),
    {
        let ghost start = self.haulers@;
        let ghost tick0 = self.ticks as int;
        let ticks: u32 = self.ticks + 1;
        let n: usize = fleet.len();
        let mut moved = false;
        let mut i: usize = 0;
        while i < n
            invariant
                i <= n == fleet@.len(),
                fleet_ok(fleet@),
                after@.len() == n,
                before@.len() == n,
                all_on_grid(after@),
                ticks == tick0 + 1,
                self.haulers@.len() == n,
                start.len() == n,
                self.ticks == tick0,
                self.stall == old(self).stall,
                self.deadlocked == old(self).deadlocked,
                self.audit == old(self).audit,
                forall|k: int|
                    0 <= k < n ==> hauler_ok(fleet@[k], (#[trigger] start[k])@, tick0),
                forall|k: int| i <= k < n ==> #[trigger] self.haulers@[k] == start[k],
                forall|k: int|
                    0 <= k < i ==> (#[trigger] self.haulers@[k])@ == if is_done(
                        fleet@[k],
                        start[k]@,
                    ) {
                        start[k]@
                    } else {
                        advanced(fleet@[k], start[k]@, after@[k], tick0 + 1)
                    },
                forall|k: int|
                    0 <= k < i ==> hauler_ok(
                        fleet@[k],
                        (#[trigger] self.haulers@[k])@,
                        tick0 + 1,
                    ),
                moved == (exists|k: int|
                    0 <= k < i && !is_done(fleet@[k], (#[trigger] start[k])@) && after@[k]
                        != before@[k]),
            decreases n - i,
        {
            assert(after@[i as int].on_grid());
            assert(self.haulers@[i as int] == start[i as int]);
            assert(hauler_ok(fleet@[i as int], start[i as int]@, tick0));
            if !self.haulers[i].done(&fleet[i]) {
                if after[i] != before[i] {
                    moved = true;
                    assert(!is_done(fleet@[i as int], start[i as int]@));
                }
                let h = &mut self.haulers[i];
                h.advance(&fleet[i], after[i], ticks);
            }
            i += 1;
        }
        self.ticks = ticks;
        if moved {
            self.stall = 0;
        } else {
            self.stall = self.stall + 1;
            if self.stall >= DEADLOCK_TICKS {
                self.deadlocked = true;
            }
        }
    }
}

/// A run and its value are finished together.
proof fn lemma_finished(run: FleetRun, fleet: Seq<HaulAssignment>)
    requires
        run.wf(fleet),
    ensures
        all_done(fleet, run.haulers@) == s_finished(fleet, run.s_state()),
{
    let st = run.s_state();
    if all_done(fleet, run.haulers@) {
        assert forall|i: int| 0 <= i < fleet.len() implies is_done(fleet[i], #[trigger] st.haulers[i]) by {
            assert(is_done(fleet[i], run.haulers@[i]@));
        }
    }
    if s_finished(fleet, st) {
        assert forall|i: int| 0 <= i < fleet.len() implies is_done(
            fleet[i],
            (#[trigger] run.haulers@[i])@,
        ) by {
            assert(is_done(fleet[i], st.haulers[i]));
        }
    }
}

/// A hauler's trips follow one another without overlap, so that their ticks add up to no more
/// than the run's.
pub proof fn law_trips_do_not_overlap(run: FleetRun, fleet: Seq<HaulAssignment>, i: int)
    requires
        run.wf(fleet),
        0 <= i < fleet.len(),
    ensures
        total(run.haulers@[i].trip_ticks@) <= run.ticks,
        run.haulers@[i].trip_ticks@.len() <= fleet[i].trips,
{
    assert(hauler_ok(fleet[i], run.haulers@[i]@, run.ticks as int));
}

/// A trip is completed only by a hauler that is on its way back and has come within range of its
/// source, and one at a time.
pub proof fn law_trips_pass_the_sink(a: HaulAssignment, h: HaulerState, at: Position, ticks: int)
    requires
        !is_done(a, h),
        advanced(a, h, at, ticks).trips_done > h.trips_done,
    ensures
        h.leg == Leg::ToSource,
        advanced(a, h, at, ticks).trips_done == h.trips_done + 1,
        at.range_to(a.source) <= ENDPOINT_RANGE,
{
}

/// Whether the optimal round trip can be searched in one room; a route across rooms is measured
/// against the lone hauler instead.
pub fn in_one_room(a: &HaulAssignment) -> (r: bool)
    ensures
        r == (a.source.room == a.sink.room),
{
    a.source.room == a.sink.room
}

/// Coordinates that lie on the grid of a room.
pub open spec fn coords_on_grid(path: Seq<(u8, u8)>) -> bool {
    forall|i: int|
        0 <= i < path.len() ==> (#[trigger] path[i]).0 < ROOM_SIZE && path[i].1 < ROOM_SIZE
}

/// The path as positions of a room.
pub fn route_in(room: u16, path: &[(u8, u8)]) -> (r: Vec<Position>)
    requires
        coords_on_grid(path@),
    ensures
        r@ == Seq::new(path@.len(), |i: int| Position { room, x: path@[i].0, y: path@[i].1 }),
        all_on_grid(r@),
{
    let mut r: Vec<Position> = Vec::new();
    let mut i: usize = 0;
    while i < path.len()
        invariant
            i <= path@.len(),
            coords_on_grid(path@),
            r@.len() == i,
            forall|k: int|
                0 <= k < i ==> #[trigger] r@[k] == (Position {
                    room,
                    x: path@[k].0,
                    y: path@[k].1,
                }),
        decreases path@.len() - i,
    {
        assert(path@[i as int].0 < ROOM_SIZE);
        r.push(pos_in(room, path[i].0, path[i].1));
        i += 1;
    }
    proof {
        assert forall|k: int| 0 <= k < r@.len() implies (#[trigger] r@[k]).on_grid() by {
            assert(path@[k].0 < ROOM_SIZE && path@[k].1 < ROOM_SIZE);
        }
    }
    r
}

/// Where the hauler turns around: at the end of its way out, or at its source if that is no way.
pub fn turn_tile(a: &HaulAssignment, out_route: &[Position]) -> (r: Position)
    ensures
        r == if out_route@.len() == 0 {
            a.source
        } else {
            out_route@[out_route@.len() - 1]
        },
{
    if out_route.len() == 0 {
        a.source
    } else {
        out_route[out_route.len() - 1]
    }
}

/// The optimal round-trip ticks: those of the walk out and back, if it was completed.
pub fn round_trip_ticks(cycle: &Traversal) -> (r: Option<u32>)
    ensures
        r == if cycle.reached {
            Some(cycle.ticks)
        } else {
            None
        },
{
    if cycle.reached {
        Some(cycle.ticks)
    } else {
        None
    }
}

/// The assignment of the lone hauler that is the baseline of a route across rooms: one trip.
pub fn solo_assignment(a: &HaulAssignment) -> (r: HaulAssignment)
    ensures
        same_body(r.body, a.body),
        r.q == a.q,
        r.source == a.source,
        r.sink == a.sink,
        r.trips == 1,
{
    HaulAssignment { body: a.body.clone(), q: a.q, source: a.source, sink: a.sink, trips: 1 }
}

/// The baseline that a lone hauler's run gives: the ticks of its trip, if it made one and did not
/// deadlock.
pub open spec fn s_solo_baseline(run: FleetRun) -> Option<u32> {
    if run.deadlocked || run.haulers@[0].trip_ticks@.len() == 0 {
        None
    } else {
        Some(run.haulers@[0].trip_ticks@[0])
    }
}

/// The baseline that a lone hauler's run gives.
pub fn solo_baseline(run: &FleetRun) -> (r: Option<u32>)
    requires
        run.haulers@.len() > 0,
    ensures
        r == s_solo_baseline(*run),
{
    if run.deadlocked || run.haulers[0].trip_ticks.len() == 0 {
        None
    } else {
        Some(run.haulers[0].trip_ticks[0])
    }
}

/// The baselines of a fleet, if every assignment has one: without one the scenario is mis-built.
pub fn baselines(found: &[Option<u32>]) -> (r: Option<Vec<u32>>)
    ensures
        r is Some <==> forall|i: int| 0 <= i < found@.len() ==> #[trigger] found@[i] is Some,
        r matches Some(t_stars) ==> {
            &&& t_stars@.len() == found@.len()
            &&& forall|i: int| 0 <= i < found@.len() ==> found@[i] == Some(#[trigger] t_stars@[i])
        },
{
    let mut r: Vec<u32> = Vec::new();
    let mut i: usize = 0;
    while i < found.len()
        invariant
            i <= found@.len(),
            r@.len() == i,
            forall|k: int| 0 <= k < i ==> found@[k] == Some(#[trigger] r@[k]),
        decreases found@.len() - i,
    {
        match found[i] {
            Some(t) => {
                r.push(t);
            },
            None => {
                assert(found@[i as int] is None);
                return None;
            },
        }
        i += 1;
    }
    proof {
        assert forall|k: int| 0 <= k < found@.len() implies #[trigger] found@[k] is Some by {
            assert(found@[k] == Some(r@[k]));
        }
    }
    Some(r)
}

/// The outcome of a haul-fleet run.
#[derive(Debug)]
pub struct HaulOutcome<S> {
    /// Efficiency and weight of every expected trip.
    pub samples: Vec<(S, S)>,
    /// The weighted mean of the samples, with its interval and percentiles.
    pub summary: Summary<S>,
    /// The failed-move account of the run.
    pub audit: IntentAudit,
    pub completed_trips: u32,
    pub expected_trips: u32,
    pub ticks: u32,
    pub deadlocked: bool,
}

impl<S: Copy> Clone for HaulOutcome<S> {
    fn clone(&self) -> (r: Self)
        ensures
            r.samples@ == self.samples@,
            r == (HaulOutcome { samples: r.samples, ..*self }),
    {
        HaulOutcome {
            samples: copied(self.samples.as_slice()),
            summary: self.summary,
            audit: self.audit,
            completed_trips: self.completed_trips,
            expected_trips: self.expected_trips,
            ticks: self.ticks,
            deadlocked: self.deadlocked,
        }
    }
}

/// The efficiency of a trip: optimal over realized ticks, at most one.
pub open spec fn s_efficiency<S: Numbers>(t_star: u32, ticks: u32) -> S {
    S::s_of(t_star as u64).s_over(
        S::s_of(
            if ticks < 1 {
                1u64
            } else {
                ticks as u64
            },
        ),
    ).s_least(S::s_of(1))
}

/// The samples of one assignment: one per expected trip, nothing for a trip that was not
/// completed; the weight is the cargo.
pub open spec fn trip_samples<S: Numbers>(a: HaulAssignment, t_star: u32, times: Seq<u32>) -> Seq<(S, S)> {
    Seq::new(
        if times.len() < a.trips {
            a.trips as nat
        } else {
            times.len()
        },
        |k: int|
            (
                if k < times.len() {
                    s_efficiency::<S>(t_star, times[k])
                } else {
                    S::s_of(0)
                },
                S::s_of(a.q as u64),
            ),
    )
}

/// The samples of the first `n` assignments.
pub open spec fn fleet_samples<S: Numbers>(
    fleet: Seq<HaulAssignment>,
    t_stars: Seq<u32>,
    haulers: Seq<Hauler>,
    n: nat,
) -> Seq<(S, S)>
    decreases n,
{
    if n == 0 {
        Seq::empty()
    } else {
        fleet_samples::<S>(fleet, t_stars, haulers, (n - 1) as nat) + trip_samples::<S>(
            fleet[n - 1],
            t_stars[n - 1],
            haulers[n - 1].trip_ticks@,
        )
    }
}

/// The trips that the first `n` haulers are to make.
pub open spec fn expected_of(fleet: Seq<HaulAssignment>, n: nat) -> nat
    decreases n,
{
    if n == 0 {
        0
    } else {
        expected_of(fleet, (n - 1) as nat) + fleet[n - 1].trips as nat
    }
}

/// The trips that the first `n` haulers have made.
pub open spec fn completed_of(haulers: Seq<Hauler>, n: nat) -> nat
    decreases n,
{
    if n == 0 {
        0
    } else {
        completed_of(haulers, (n - 1) as nat) + haulers[n - 1].trip_ticks@.len()
    }
}

proof fn lemma_expected_grows(fleet: Seq<HaulAssignment>, m: nat, n: nat)
    requires
        m <= n,
    ensures
        expected_of(fleet, m) <= expected_of(fleet, n),
    decreases n - m,
{
    if m < n {
        lemma_expected_grows(fleet, m, (n - 1) as nat);
    }
}

/// There is one sample per expected trip, and no more trips are completed than expected.
pub proof fn law_one_sample_per_expected_trip<S: Scalar>(
    fleet: Seq<HaulAssignment>,
    t_stars: Seq<u32>,
    run: FleetRun,
    n: nat,
)
    requires
        run.wf(fleet),
        n <= fleet.len(),
    ensures
        fleet_samples::<S>(fleet, t_stars, run.haulers@, n).len() == expected_of(fleet, n),
        completed_of(run.haulers@, n) <= expected_of(fleet, n),
    decreases n,
{
    if n > 0 {
        law_one_sample_per_expected_trip::<S>(fleet, t_stars, run, (n - 1) as nat);
        assert(hauler_ok(fleet[n - 1], run.haulers@[n - 1]@, run.ticks as int));
    }
}

/// A trip's efficiency lies between zero and one, and is one where the trip took its baseline.
pub proof fn law_efficiency_is_a_fraction<S: Scalar>(t_star: u32, ticks: u32)
    ensures
        !S::s_of(1).s_below(s_efficiency::<S>(t_star, ticks)),
        s_efficiency::<S>(t_star, ticks).amount(),
        t_star == ticks && ticks > 0 ==> s_efficiency::<S>(t_star, ticks) == S::s_of(1),
{
    let whole: u64 = if ticks < 1 {
        1u64
    } else {
        ticks as u64
    };
    let x = S::s_of(t_star as u64).s_over(S::s_of(whole));
    if t_star <= whole {
        S::lemma_share(t_star as u64, whole);
    } else {
        S::lemma_multiple(t_star as u64, whole);
    }
    S::lemma_counts(1, 1);
    S::lemma_least(x, S::s_of(1));
}

/// The run of a fleet through a world that holds the haulers at `world[t]` when tick `t` begins,
/// after at most `n` ticks: ticks are taken while they are due.
pub open spec fn run_through(
    fleet: Seq<HaulAssignment>,
    tick_cap: int,
    world: Seq<Seq<Position>>,
    n: nat,
) -> FleetState
    decreases n,
{
    if n == 0 {
        s_mustered(fleet.len())
    } else {
        let st = run_through(fleet, tick_cap, world, (n - 1) as nat);
        if s_due(fleet, st, tick_cap) {
            s_stepped(fleet, st, world[n - 1], world[n as int])
        } else {
            st
        }
    }
}

/// A finished run does not depend on its cap, as long as that allows for its ticks.
proof fn lemma_cap(
    fleet: Seq<HaulAssignment>,
    cap: int,
    other: int,
    world: Seq<Seq<Position>>,
    n: nat,
)
    requires
        s_finished(fleet, run_through(fleet, cap, world, n)),
        run_through(fleet, cap, world, n).ticks <= other,
    ensures
        run_through(fleet, other, world, n) == run_through(fleet, cap, world, n),
    decreases n,
{
    if n > 0 {
        let m = (n - 1) as nat;
        let st = run_through(fleet, cap, world, m);
        if s_finished(fleet, st) {
            lemma_cap(fleet, cap, other, world, m);
        } else {
            assert(s_due(fleet, st, cap));
            lemma_running(fleet, cap, other, world, m);
        }
    }
}

/// Neither does a run that is not finished yet and has not met either cap.
proof fn lemma_running(
    fleet: Seq<HaulAssignment>,
    cap: int,
    other: int,
    world: Seq<Seq<Position>>,
    n: nat,
)
    requires
        run_through(fleet, cap, world, n).ticks < cap,
        run_through(fleet, cap, world, n).ticks < other,
    ensures
        run_through(fleet, other, world, n) == run_through(fleet, cap, world, n),
    decreases n,
{
    if n > 0 {
        let m = (n - 1) as nat;
        lemma_running(fleet, cap, other, world, m);
    }
}

/// What a lone hauler's run of one trip keeps: no trip before the first is over, and then the trip
/// took all ticks of the run.
proof fn lemma_lone_run(a: HaulAssignment, cap: int, world: Seq<Seq<Position>>, n: nat)
    requires
        a.trips == 1,
        0 <= cap <= u32::MAX,
    ensures
        ({
            let st = run_through(seq![a], cap, world, n);
            let h = st.haulers[0];
            &&& st.haulers.len() == 1
            &&& 0 <= st.ticks <= cap
            &&& !is_done(a, h) ==> h.trips_done == 0 && h.trip_start == 0 && h.trip_ticks
                == Seq::<u32>::empty()
            &&& is_done(a, h) ==> st.ticks > 0 && h.trips_done == 1 && h.trip_ticks == seq![
                st.ticks as u32,
            ]
        }),
    decreases n,
{
    let fleet = seq![a];
    if n > 0 {
        let m = (n - 1) as nat;
        lemma_lone_run(a, cap, world, m);
        let st = run_through(fleet, cap, world, m);
        if s_due(fleet, st, cap) {
            let h = st.haulers[0];
            if is_done(a, h) {
                assert(s_finished(fleet, st));
            }
            let next = s_stepped(fleet, st, world[n - 1], world[n as int]);
            assert(next.haulers[0] == advanced(a, h, world[n as int][0], st.ticks + 1));
            assert(Seq::<u32>::empty().push((st.ticks + 1) as u32) =~= seq![(st.ticks + 1) as u32]);
        }
    } else {
        let st = run_through(fleet, cap, world, n);
        assert(st.haulers[0] == fresh());
    }
}

/// A lone hauler that makes one trip is its own baseline: where its baseline run took `t` ticks
/// and the cap allows for them, the run through the same world makes the one trip, ends at that
/// tick without deadlock, and scores exactly one, weighted by the cargo.
pub proof fn law_a_lone_run_scores_one<S: Scalar>(
    a: HaulAssignment,
    world: Seq<Seq<Position>>,
    n: nat,
    solo: FleetRun,
    solo_cap: u32,
    run: FleetRun,
    tick_cap: u32,
    t: u32,
)
    requires
        a.trips == 1,
        solo.haulers@.len() == 1,
        solo.s_state() == run_through(seq![a], solo_cap as int, world, n),
        s_solo_baseline(solo) == Some(t),
        t <= tick_cap,
        run.haulers@.len() == 1,
        run.s_state() == run_through(seq![a], tick_cap as int, world, n),
    ensures
        fleet_samples::<S>(seq![a], seq![t], run.haulers@, 1) == seq![
            (S::s_of(1), S::s_of(a.q as u64)),
        ],
        completed_of(run.haulers@, 1) == 1,
        run.ticks == t,
        !run.deadlocked,
{
    let fleet = seq![a];
    lemma_lone_run(a, solo_cap as int, world, n);
    let st = solo.s_state();
    assert(st.haulers[0] == solo.haulers@[0]@);
    assert(is_done(a, st.haulers[0]));
    assert(solo.haulers@[0].trip_ticks@[0] == t);
    assert(st.ticks == t);
    assert(s_finished(fleet, st)) by {
        assert forall|i: int| 0 <= i < fleet.len() implies is_done(fleet[i], #[trigger] st.haulers[i]) by {
        }
    }
    lemma_cap(fleet, solo_cap as int, tick_cap as int, world, n);
    assert(run.s_state() == st);
    assert(run.s_state().haulers[0] == run.haulers@[0]@);
    assert(run.haulers@[0].trip_ticks@ == seq![t]);
    law_efficiency_is_a_fraction::<S>(t, t);
    reveal_with_fuel(fleet_samples, 2);
    reveal_with_fuel(completed_of, 2);
    assert(fleet_samples::<S>(fleet, seq![t], run.haulers@, 1) =~= seq![
        (S::s_of(1), S::s_of(a.q as u64)),
    ]);
    assert(run.s_state().watch == st.watch);
    assert(run.s_watch() == solo.s_watch());
}

/// The cargo that the first `n` haulers are to bring in.
pub open spec fn cargo_of(fleet: Seq<HaulAssignment>, n: nat) -> nat
    decreases n,
{
    if n == 0 {
        0
    } else {
        cargo_of(fleet, (n - 1) as nat) + fleet[n - 1].q as nat * fleet[n - 1].trips as nat
    }
}

/// Samples of one weight add it up as often as there are of them.
proof fn lemma_level_weights<S: Scalar>(xs: Seq<(S, S)>, ys: Seq<(S, S)>, w: u64, q: u32)
    requires
        s_totals(xs).0 == S::s_of(w),
        forall|k: int| 0 <= k < ys.len() ==> (#[trigger] ys[k]).1 == S::s_of(q as u64),
        w + q * ys.len() <= EXACT_COUNT,
    ensures
        s_totals(xs + ys).0 == S::s_of((w + q * ys.len()) as u64),
    decreases ys.len(),
{
    if ys.len() == 0 {
        assert(xs + ys =~= xs);
        assert(q * ys.len() == 0) by (nonlinear_arith)
            requires
                ys.len() == 0,
        ;
    } else {
        let front = ys.drop_last();
        assert(q * ys.len() == q * front.len() + q) by (nonlinear_arith)
            requires
                ys.len() == front.len() + 1,
        ;
        lemma_level_weights(xs, front, w, q);
        assert((xs + ys).drop_last() =~= xs + front);
        assert((xs + ys).last() == ys[ys.len() - 1]);
        S::lemma_sum((w + q * front.len()) as u64, q as u64);
    }
}

/// The weights of the samples add up to the cargo of the expected trips, whether or not those
/// were completed.
pub proof fn law_weights_are_the_cargo<S: Scalar>(
    fleet: Seq<HaulAssignment>,
    t_stars: Seq<u32>,
    run: FleetRun,
    n: nat,
)
    requires
        run.wf(fleet),
        n <= fleet.len(),
        cargo_of(fleet, n) <= EXACT_COUNT,
    ensures
        s_totals(fleet_samples::<S>(fleet, t_stars, run.haulers@, n)).0 == S::s_of(
            cargo_of(fleet, n) as u64,
        ),
    decreases n,
{
    if n > 0 {
        let m = (n - 1) as nat;
        let a = fleet[n - 1];
        assert(0 <= a.q as nat * a.trips as nat) by (nonlinear_arith);
        law_weights_are_the_cargo::<S>(fleet, t_stars, run, m);
        assert(hauler_ok(a, run.haulers@[n - 1]@, run.ticks as int));
        let own = trip_samples::<S>(a, t_stars[n - 1], run.haulers@[n - 1].trip_ticks@);
        assert(own.len() == a.trips);
        lemma_level_weights(
            fleet_samples::<S>(fleet, t_stars, run.haulers@, m),
            own,
            cargo_of(fleet, m) as u64,
            a.q,
        );
    }
}

/// All expected trips are completed exactly if every hauler is done.
pub proof fn law_completion_means_all_done(fleet: Seq<HaulAssignment>, run: FleetRun)
    requires
        run.wf(fleet),
    ensures
        completed_of(run.haulers@, fleet.len()) == expected_of(fleet, fleet.len()) <==> all_done(
            fleet,
            run.haulers@,
        ),
{
    lemma_completion(fleet, run, fleet.len());
}

proof fn lemma_completion(fleet: Seq<HaulAssignment>, run: FleetRun, n: nat)
    requires
        run.wf(fleet),
        n <= fleet.len(),
    ensures
        completed_of(run.haulers@, n) <= expected_of(fleet, n),
        completed_of(run.haulers@, n) == expected_of(fleet, n) <==> (forall|i: int|
            0 <= i < n ==> is_done(fleet[i], (#[trigger] run.haulers@[i])@)),
    decreases n,
{
    if n > 0 {
        lemma_completion(fleet, run, (n - 1) as nat);
        assert(hauler_ok(fleet[n - 1], run.haulers@[n - 1]@, run.ticks as int));
    }
}

/// The samples of a run, in fleet order.
fn collect_samples<S: Scalar>(fleet: &[HaulAssignment], t_stars: &[u32], run: &FleetRun) -> (r: Vec<
    (S, S),
>)
    requires
        run.wf(fleet@),
        t_stars@.len() == fleet@.len(),
    ensures
        r@ == fleet_samples::<S>(fleet@, t_stars@, run.haulers@, fleet@.len()),
{
    let mut r: Vec<(S, S)> = Vec::new();
    let mut i: usize = 0;
    while i < fleet.len()
        invariant
            i <= fleet@.len(),
            run.wf(fleet@),
            t_stars@.len() == fleet@.len(),
            r@ == fleet_samples::<S>(fleet@, t_stars@, run.haulers@, i as nat),
        decreases fleet@.len() - i,
    {
        let w = S::of(fleet[i].q as u64);
        let times = &run.haulers[i].trip_ticks;
        let trips: u32 = fleet[i].trips;
        let ghost before = r@;
        let ghost own = trip_samples::<S>(fleet@[i as int], t_stars@[i as int], times@);
        assert(hauler_ok(fleet@[i as int], run.haulers@[i as int]@, run.ticks as int));
        assert(own.len() == trips);
        let mut k: u32 = 0;
        while k < trips
            invariant
                k <= trips,
                i < fleet@.len(),
                t_stars@.len() == fleet@.len(),
                trips == fleet@[i as int].trips,
                times@.len() <= trips,
                w == S::s_of(fleet@[i as int].q as u64),
                own == trip_samples::<S>(fleet@[i as int], t_stars@[i as int], times@),
                own.len() == trips,
                r@ == before + own.take(k as int),
            decreases trips - k,
        {
            if (k as usize) < times.len() {
                let rt: u32 = times[k as usize];
                let floor: u64 = if rt < 1 {
                    1
                } else {
                    rt as u64
                };
                let eta = S::of(t_stars[i] as u64).over(S::of(floor)).least(S::of(1));
                r.push((eta, w));
            } else {
                r.push((S::of(0), w));
            }
            k += 1;
            assert(r@ =~= before + own.take(k as int));
        }
        assert(own.take(k as int) =~= own);
        i += 1;
    }
    r
}

/// Scores a run against the baselines of its fleet. `draws` drives the bootstrap.
pub fn score_fleet<S: Scalar>(
    fleet: &[HaulAssignment],
    t_stars: &[u32],
    run: &FleetRun,
    draws: &[u64],
) -> (r: HaulOutcome<S>)
    requires
        run.wf(fleet@),
        t_stars@.len() == fleet@.len(),
        expected_of(fleet@, fleet@.len()) <= u32::MAX,
        draws_suffice(expected_of(fleet@, fleet@.len()) as int, draws@),
    ensures
        r.samples@ == fleet_samples::<S>(fleet@, t_stars@, run.haulers@, fleet@.len()),
        r.summary == s_summary(r.samples@, draws@),
        r.audit == run.audit,
        r.completed_trips == completed_of(run.haulers@, fleet@.len()),
        r.expected_trips == expected_of(fleet@, fleet@.len()),
        r.ticks == run.ticks,
        r.deadlocked == run.deadlocked,
        r.samples@.len() == r.expected_trips,
{
    let samples = collect_samples::<S>(fleet, t_stars, run);
    let mut completed: u32 = 0;
    let mut expected: u32 = 0;
    let mut i: usize = 0;
    while i < fleet.len()
        invariant
            i <= fleet@.len(),
            run.wf(fleet@),
            expected_of(fleet@, fleet@.len()) <= u32::MAX,
            completed == completed_of(run.haulers@, i as nat),
            expected == expected_of(fleet@, i as nat),
            completed <= expected,
        decreases fleet@.len() - i,
    {
        proof {
            lemma_expected_grows(fleet@, (i + 1) as nat, fleet@.len());
            assert(hauler_ok(fleet@[i as int], run.haulers@[i as int]@, run.ticks as int));
        }
        completed += run.haulers[i].trip_ticks.len() as u32;
        expected += fleet[i].trips;
        i += 1;
    }
    proof {
        law_one_sample_per_expected_trip::<S>(fleet@, t_stars@, *run, fleet@.len());
    }
    let summary = Summary::of(samples.as_slice(), draws);
    HaulOutcome {
        samples,
        summary,
        audit: run.audit,
        completed_trips: completed,
        expected_trips: expected,
        ticks: run.ticks,
        deadlocked: run.deadlocked,
    }
}

/// How a hauler's tick goes: out of range of its goal nothing changes. On the way out, within range
/// of the sink, it turns around and keeps its count. On the way back, within range of the source,
/// the trip counts, with the ticks since it began; the next trip begins at once if one is left.
pub proof fn law_a_round_trip_goes_out_and_back(
    a: HaulAssignment,
    h: HaulerState,
    at: Position,
    ticks: int,
)
    requires
        hauler_ok(a, h, ticks),
        !is_done(a, h),
        ticks <= u32::MAX,
    ensures
        ({
            let next = advanced(a, h, at, ticks);
            let out = h.leg is ToSink;
            &&& out && at.range_to(a.sink) > 1 ==> next == h
            &&& !out && at.range_to(a.source) > 1 ==> next == h
            &&& out && at.range_to(a.sink) <= 1 ==> next.leg is ToSource && next.trips_done
                == h.trips_done && next.trip_start == h.trip_start && next.trip_ticks == h.trip_ticks
            &&& !out && at.range_to(a.source) <= 1 ==> {
                &&& next.trips_done == h.trips_done + 1
                &&& next.trip_ticks.len() == h.trip_ticks.len() + 1
                &&& next.trip_ticks.take(h.trip_ticks.len() as int) == h.trip_ticks
                &&& next.trip_ticks.last() == ticks - h.trip_start
                &&& h.trips_done + 1 < a.trips ==> next.leg is ToSink && next.trip_start == ticks
            }
        }),
{
    let next = advanced(a, h, at, ticks);
    if next.trip_ticks.len() > h.trip_ticks.len() {
        assert(next.trip_ticks.take(h.trip_ticks.len() as int) =~= h.trip_ticks);
    }
}

/// In exact arithmetic a trip's efficiency times its ticks is its baseline, where it took no less;
/// a trip below its baseline counts as one, and a trip of no ticks as one of a single tick.
#[verifier::spinoff_prover]
pub proof fn law_efficiency_is_baseline_over_ticks(t_star: u32, ticks: u32)
    ensures
        ({
            let e = s_efficiency::<Exact>(t_star, ticks).v;
            let took = if ticks == 0 {
                1real
            } else {
                ticks as real
            };
            &&& t_star as real <= took ==> e * took == t_star as real
            &&& t_star as real >= took ==> e == 1real
        }),
{
    let t = t_star as real;
    let took = if ticks == 0 {
        1real
    } else {
        ticks as real
    };
    let q = t / took;
    assert(q * took == t && (t <= took ==> q <= 1real) && (t >= took ==> q >= 1real)) by (nonlinear_arith)
        requires
            q == t / took,
            took > 0real,
            t >= 0real,
    ;
}

/// The samples of a fleet, hauler by hauler: one for each trip that a hauler was to make. A trip that
/// it made is scored by its efficiency and one that it did not make by nothing; both weigh the
/// hauler's cargo.
pub proof fn law_every_expected_trip_is_scored<S: Scalar>(
    fleet: Seq<HaulAssignment>,
    t_stars: Seq<u32>,
    run: FleetRun,
)
    requires
        run.wf(fleet),
    ensures
        fleet_samples::<S>(fleet, t_stars, run.haulers@, fleet.len()) == Seq::new(
            fleet.len(),
            |i: int|
                Seq::new(
                    fleet[i].trips as nat,
                    |k: int|
                        (
                            if k < run.haulers@[i].trip_ticks@.len() {
                                s_efficiency::<S>(t_stars[i], run.haulers@[i].trip_ticks@[k])
                            } else {
                                S::s_of(0)
                            },
                            S::s_of(fleet[i].q as u64),
                        ),
                ),
        ).flatten(),
{
    lemma_scored::<S>(fleet, t_stars, run, fleet.len());
}

proof fn lemma_scored<S: Scalar>(
    fleet: Seq<HaulAssignment>,
    t_stars: Seq<u32>,
    run: FleetRun,
    n: nat,
)
    requires
        run.wf(fleet),
        n <= fleet.len(),
    ensures
        fleet_samples::<S>(fleet, t_stars, run.haulers@, n) == Seq::new(
            n,
            |i: int|
                Seq::new(
                    fleet[i].trips as nat,
                    |k: int|
                        (
                            if k < run.haulers@[i].trip_ticks@.len() {
                                s_efficiency::<S>(t_stars[i], run.haulers@[i].trip_ticks@[k])
                            } else {
                                S::s_of(0)
                            },
                            S::s_of(fleet[i].q as u64),
                        ),
                ),
        ).flatten(),
    decreases n,
{
    let own = |i: int|
        Seq::new(
            fleet[i].trips as nat,
            |k: int|
                (
                    if k < run.haulers@[i].trip_ticks@.len() {
                        s_efficiency::<S>(t_stars[i], run.haulers@[i].trip_ticks@[k])
                    } else {
                        S::s_of(0)
                    },
                    S::s_of(fleet[i].q as u64),
                ),
        );
    let all = |m: nat| Seq::new(m, |i: int| own(i));
    assert(all(n) =~= Seq::new(
        n,
        |i: int|
            Seq::new(
                fleet[i].trips as nat,
                |k: int|
                    (
                        if k < run.haulers@[i].trip_ticks@.len() {
                            s_efficiency::<S>(t_stars[i], run.haulers@[i].trip_ticks@[k])
                        } else {
                            S::s_of(0)
                        },
                        S::s_of(fleet[i].q as u64),
                    ),
            ),
    ));
    if n > 0 {
        let m = (n - 1) as nat;
        lemma_scored::<S>(fleet, t_stars, run, m);
        assert(all(m) =~= Seq::new(
            m,
            |i: int|
                Seq::new(
                    fleet[i].trips as nat,
                    |k: int|
                        (
                            if k < run.haulers@[i].trip_ticks@.len() {
                                s_efficiency::<S>(t_stars[i], run.haulers@[i].trip_ticks@[k])
                            } else {
                                S::s_of(0)
                            },
                            S::s_of(fleet[i].q as u64),
                        ),
                ),
        ));
        assert(all(n) =~= all(m).push(own(n - 1)));
        all(m).lemma_flatten_push(own(n - 1));
        assert(hauler_ok(fleet[n - 1], run.haulers@[n - 1]@, run.ticks as int));
        assert(trip_samples::<S>(fleet[n - 1], t_stars[n - 1], run.haulers@[n - 1].trip_ticks@)
            =~= own(n - 1));
    } else {
        assert(all(0).flatten() =~= Seq::empty());
    }
}

/// An outcome reports its run: the samples of its fleet and their summary, the trips made and the
/// trips to be made, the run's account, its ticks and whether it deadlocked.
pub proof fn law_outcome_reports_its_run<S: Scalar>(
    fleet: &[HaulAssignment],
    t_stars: &[u32],
    run: &FleetRun,
    draws: &[u64],
    r: HaulOutcome<S>,
)
    requires
        run.wf(fleet@),
        call_ensures(score_fleet::<S>, (fleet, t_stars, run, draws), r),
    ensures
        r.samples@ == fleet_samples::<S>(fleet@, t_stars@, run.haulers@, fleet@.len()),
        r.summary == s_summary(r.samples@, draws@),
        r.expected_trips == fleet@.fold_left(0int, |t: int, a: HaulAssignment| t + a.trips),
        r.completed_trips == run.haulers@.fold_left(
            0int,
            |t: int, h: Hauler| t + h.trip_ticks@.len(),
        ),
        r.audit == run.audit,
        r.ticks == run.ticks,
        r.deadlocked == run.deadlocked,
{
    lemma_trips_fold(fleet@, run.haulers@, fleet@.len());
    assert(fleet@.take(fleet@.len() as int) =~= fleet@);
    assert(run.haulers@.take(fleet@.len() as int) =~= run.haulers@);
}

proof fn lemma_trips_fold(fleet: Seq<HaulAssignment>, haulers: Seq<Hauler>, n: nat)
    requires
        n <= fleet.len() == haulers.len(),
    ensures
        expected_of(fleet, n) == fleet.take(n as int).fold_left(
            0int,
            |t: int, a: HaulAssignment| t + a.trips,
        ),
        completed_of(haulers, n) == haulers.take(n as int).fold_left(
            0int,
            |t: int, h: Hauler| t + h.trip_ticks@.len(),
        ),
    decreases n,
{
    if n > 0 {
        lemma_trips_fold(fleet, haulers, (n - 1) as nat);
        assert(fleet.take(n as int).drop_last() =~= fleet.take(n - 1));
        assert(haulers.take(n as int).drop_last() =~= haulers.take(n - 1));
        assert(fleet.take(n as int).last() == fleet[n - 1]);
        assert(haulers.take(n as int).last() == haulers[n - 1]);
    }
}

/// Every hauler that has trips left asks to be moved, towards the sink on its way out and towards
/// the source on its way back, until it is next to it; a hauler that is done asks for nothing. The
/// requests stand in the order of the haulers, who are numbered from one.
pub proof fn law_working_haulers_ask(fleet: Seq<HaulAssignment>, haulers: Seq<Hauler>, n: nat)
    requires
        n <= fleet.len() == haulers.len(),
        n < u32::MAX,
    ensures
        ({
            let asked = haul_requests(fleet, haulers, n);
            &&& forall|k: int|
                0 <= k < asked.len() ==> ({
                    let q = #[trigger] asked[k];
                    let i = q.creep - 1;
                    &&& 0 <= i < n
                    &&& haulers[i].trips_done < fleet[i].trips
                    &&& haulers[i].leg is ToSink ==> q.goal == fleet[i].sink
                    &&& haulers[i].leg is ToSource ==> q.goal == fleet[i].source
                    &&& q.range == 1
                })
            &&& forall|j: int, k: int|
                0 <= j < k < asked.len() ==> (#[trigger] asked[j]).creep < (#[trigger] asked[k]).creep
            &&& forall|i: int|
                0 <= i < n && (#[trigger] haulers[i]).trips_done < fleet[i].trips ==> exists|k: int|
                    0 <= k < asked.len() && (#[trigger] asked[k]).creep == i + 1
        }),
    decreases n,
{
    if n > 0 {
        let m = (n - 1) as nat;
        law_working_haulers_ask(fleet, haulers, m);
        let (before, asked) = (haul_requests(fleet, haulers, m), haul_requests(fleet, haulers, n));
        assert forall|k: int| 0 <= k < asked.len() implies ({
            let q = #[trigger] asked[k];
            let i = q.creep - 1;
            &&& 0 <= i < n
            &&& haulers[i].trips_done < fleet[i].trips
            &&& haulers[i].leg is ToSink ==> q.goal == fleet[i].sink
            &&& haulers[i].leg is ToSource ==> q.goal == fleet[i].source
            &&& q.range == 1
        }) by {
            if k < before.len() {
                assert(asked[k] == before[k]);
            }
        }
        assert forall|j: int, k: int| 0 <= j < k < asked.len() implies (#[trigger] asked[j]).creep
            < (#[trigger] asked[k]).creep by {
            assert(asked[j] == before[j]);
            assert(before[j].creep - 1 < m);
            if k < before.len() {
                assert(asked[k] == before[k]);
            }
        }
        assert forall|i: int| 0 <= i < n && (#[trigger] haulers[i]).trips_done < fleet[i].trips implies exists|
            k: int,
        | 0 <= k < asked.len() && (#[trigger] asked[k]).creep == i + 1 by {
            if i < m {
                let k = choose|k: int| 0 <= k < before.len() && (#[trigger] before[k]).creep == i + 1;
                assert(asked[k] == before[k]);
            } else {
                assert(asked[before.len() as int].creep == i + 1);
            }
        }
    }
}

/// The baseline of a lone run is the ticks of its first trip; a run without a trip, or one that
/// deadlocked, has none.
pub proof fn law_baseline_is_the_first_trip(run: FleetRun)
    requires
        run.haulers@.len() > 0,
    ensures
        s_solo_baseline(run) is Some <==> !run.deadlocked && run.haulers@[0].trip_ticks@.len() > 0,
        s_solo_baseline(run) matches Some(t) ==> t == run.haulers@[0].trip_ticks@.first(),
{
}

/// A fleet musters hauler by hauler: each at its source, rested and fully loaded, numbered from one.
pub proof fn law_haulers_muster_loaded(fleet: &[HaulAssignment], r: Vec<SimCreep>, i: int)
    requires
        call_ensures(muster, (fleet,), r),
        0 <= i < fleet@.len(),
    ensures
        r@.len() == fleet@.len(),
        r@[i].id == i + 1,
        r@[i].pos == fleet@[i].source,
        r@[i].carry_used == fleet@[i].q,
        r@[i].fatigue == 0,
        r@[i].body.parts@ == fleet@[i].body.parts@,
{
    assert(is_mustered(fleet@[i], i, r@[i]));
}

/// A hauler is loaded on its way out and empty on its way back.
pub proof fn law_cargo_is_aboard_on_the_way_out(
    run: &FleetRun,
    fleet: &[HaulAssignment],
    i: usize,
    r: u32,
)
    requires
        call_ensures(FleetRun::cargo, (run, fleet, i), r),
    ensures
        run.haulers@[i as int].leg is ToSink ==> r == fleet@[i as int].q,
        run.haulers@[i as int].leg is ToSource ==> r == 0,
{
}

/// A run goes on while its cap is not reached, some hauler has trips left, and nothing deadlocked.
pub proof fn law_a_run_ends_when_all_are_done(
    run: &FleetRun,
    fleet: &[HaulAssignment],
    tick_cap: u32,
    r: bool,
)
    requires
        call_ensures(FleetRun::due, (run, fleet, tick_cap), r),
    ensures
        r <==> run.ticks < tick_cap && !run.deadlocked && exists|i: int|
            0 <= i < fleet@.len() && (#[trigger] run.haulers@[i]).trips_done < fleet@[i].trips,
{
    if !all_done(fleet@, run.haulers@) {
        let i = choose|i: int|
            0 <= i < fleet@.len() && !is_done(fleet@[i], (#[trigger] run.haulers@[i])@);
        assert(run.haulers@[i].trips_done < fleet@[i].trips);
    }
    if exists|i: int|
        0 <= i < fleet@.len() && (#[trigger] run.haulers@[i]).trips_done < fleet@[i].trips {
        let i = choose|i: int|
            0 <= i < fleet@.len() && (#[trigger] run.haulers@[i]).trips_done < fleet@[i].trips;
        assert(!is_done(fleet@[i], run.haulers@[i]@));
    }
}

} // verus!
