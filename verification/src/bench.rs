//! The operation-count bench: what a run cost the mover in pathfinding operations and searches,
//! with wall-clock time as a secondary signal, and the scenarios that scale it.

use crate::body::{hauler_body, hauler_parts};
use crate::crowd::{all_on_grid, all_satisfied, all_within, crowd_ok, CrowdCreep};
use crate::grid::{home_room, pos_in, west_north_room, Position};
use crate::scalar::{Exact, Numbers, Scalar};
use crate::terrain::{gapped_wall, one_gap_room, SimTerrain};
use vstd::prelude::*;

verus! {

/// The account of a bench run.
#[derive(Clone, Copy, Debug, PartialEq, Eq, Structural)]
pub struct OpsRun {
    pub creeps: usize,
    pub ticks: u32,
    pub all_arrived: bool,
    /// Moves that were issued.
    pub intents_issued: u64,
    /// Pathfinding operations: the primary, deterministic signal.
    pub ops_consumed: u64,
    /// Path searches, first ones and repeated ones.
    pub repaths: u64,
    /// The budget of operations per tick.
    pub ops_budget_cap: u32,
    /// The most operations that a tick took.
    pub max_tick_ops: u32,
    /// Whole seconds of wall clock.
    pub elapsed_secs: u64,
    /// The rest of the wall clock, in nanoseconds.
    pub elapsed_nanos: u32,
}

impl OpsRun {
    /// The sums are no larger than their ticks allow.
    pub open spec fn wf(self) -> bool {
        &&& self.intents_issued <= self.ticks * u32::MAX
        &&& self.ops_consumed <= self.ticks * self.max_tick_ops
        &&& self.repaths <= self.ticks * u32::MAX
    }

    /// A run of `creeps` creeps that has not begun.
    pub open spec fn s_begun(creeps: usize, ops_budget_cap: u32) -> OpsRun {
        OpsRun {
            creeps,
            ticks: 0,
            all_arrived: false,
            intents_issued: 0,
            ops_consumed: 0,
            repaths: 0,
            ops_budget_cap,
            max_tick_ops: 0,
            elapsed_secs: 0,
            elapsed_nanos: 0,
        }
    }

    /// A run of `creeps` creeps that has not begun.
    pub fn begin(creeps: usize, ops_budget_cap: u32) -> (r: OpsRun)
        ensures
            r == OpsRun::s_begun(creeps, ops_budget_cap),
            r.wf(),
    {
        OpsRun {
            creeps,
            ticks: 0,
            all_arrived: false,
            intents_issued: 0,
            ops_consumed: 0,
            repaths: 0,
            ops_budget_cap,
            max_tick_ops: 0,
            elapsed_secs: 0,
            elapsed_nanos: 0,
        }
    }

    /// Whether another tick is due: the cap is not reached, and somebody is still travelling.
    pub fn due(&self, creeps: &[CrowdCreep], at: &[Position], tick_cap: u32) -> (r: bool)
        requires
            crowd_ok(creeps@),
            all_on_grid(at@),
            at@.len() == creeps@.len(),
        ensures
            r == (self.ticks < tick_cap && !all_satisfied(creeps@, at@)),
    {
        self.ticks < tick_cap && !all_within(creeps, at)
    }

    /// The run with a tick added to it.
    pub open spec fn s_recorded(self, intents: u32, ops: u32, repaths: u32) -> OpsRun {
        OpsRun {
            ticks: (self.ticks + 1) as u32,
            intents_issued: (self.intents_issued + intents) as u64,
            ops_consumed: (self.ops_consumed + ops) as u64,
            repaths: (self.repaths + repaths) as u64,
            max_tick_ops: if self.max_tick_ops < ops {
                ops
            } else {
                self.max_tick_ops
            },
            ..self
        }
    }

    /// Adds a tick: the moves it issued, the operations it took and the searches it made.
    pub fn record(&mut self, intents: u32, ops: u32, repaths: u32)
        requires
            old(self).wf(),
            old(self).ticks < u32::MAX,
        ensures
            *final(self) == old(self).s_recorded(intents, ops, repaths),
            final(self).wf(),
    {
        let most: u32 = if self.max_tick_ops < ops {
            ops
        } else {
            self.max_tick_ops
        };
        proof {
            let t = self.ticks as int;
            assert(t * u32::MAX + u32::MAX == (t + 1) * u32::MAX) by (nonlinear_arith);
            assert((t + 1) * u32::MAX <= u64::MAX) by (nonlinear_arith)
                requires
                    0 <= t < u32::MAX,
            ;
            assert(t * self.max_tick_ops + ops <= (t + 1) * most) by (nonlinear_arith)
                requires
                    self.max_tick_ops <= most,
                    ops <= most,
                    0 <= t,
            ;
            assert((t + 1) * most <= (t + 1) * u32::MAX) by (nonlinear_arith)
                requires
                    most <= u32::MAX,
                    0 <= t,
            ;
        }
        *self = OpsRun {
            ticks: self.ticks + 1,
            intents_issued: self.intents_issued + intents as u64,
            ops_consumed: self.ops_consumed + ops as u64,
            repaths: self.repaths + repaths as u64,
            max_tick_ops: most,
            ..*self
        };
    }

    /// The run, ended with the creeps at `at` after the given wall-clock time.
    pub fn finish(
        self,
        creeps: &[CrowdCreep],
        at: &[Position],
        elapsed_secs: u64,
        elapsed_nanos: u32,
    ) -> (r: OpsRun)
        requires
            crowd_ok(creeps@),
            all_on_grid(at@),
            at@.len() == creeps@.len(),
        ensures
            r == (OpsRun {
                all_arrived: all_satisfied(creeps@, at@),
                elapsed_secs,
                elapsed_nanos,
                ..self
            }),
    {
        let all_arrived = all_within(creeps, at);
        OpsRun { all_arrived, elapsed_secs, elapsed_nanos, ..self }
    }

    /// The ticks, at least one.
    pub open spec fn s_ticks(self) -> u64 {
        if self.ticks < 1 {
            1
        } else {
            self.ticks as u64
        }
    }

    /// Mean pathfinding operations per tick.
    pub fn ops_per_tick<S: Scalar>(&self) -> (r: S)
        ensures
            r == S::s_of(self.ops_consumed).s_over(S::s_of(self.s_ticks())),
    {
        let ticks: u64 = if self.ticks < 1 {
            1
        } else {
            self.ticks as u64
        };
        S::of(self.ops_consumed).over(S::of(ticks))
    }

    /// The wall clock in seconds.
    pub open spec fn s_seconds<S: Numbers>(self) -> S {
        S::s_of(self.elapsed_secs).s_plus(
            S::s_of(self.elapsed_nanos as u64).s_over(S::s_of(1_000_000_000)),
        )
    }

    /// Mean wall-clock microseconds per creep and tick.
    pub fn us_per_creep_tick<S: Scalar>(&self) -> (r: S)
        ensures
            r == self.s_seconds::<S>().s_times(S::s_of(1_000_000)).s_over(
                S::s_of(self.creeps as u64).s_times(S::s_of(self.s_ticks())),
            ),
    {
        let ticks: u64 = if self.ticks < 1 {
            1
        } else {
            self.ticks as u64
        };
        let seconds = S::of(self.elapsed_secs).plus(
            S::of(self.elapsed_nanos as u64).over(S::of(1_000_000_000)),
        );
        seconds.times(S::of(1_000_000)).over(S::of(self.creeps as u64).times(S::of(ticks)))
    }
}

/// Ticks within the budget keep the run within it.
pub proof fn law_budget_holds_tick_by_tick(run: OpsRun, intents: u32, ops: u32, repaths: u32)
    requires
        run.max_tick_ops <= run.ops_budget_cap,
        ops <= run.ops_budget_cap,
    ensures
        run.s_recorded(intents, ops, repaths).max_tick_ops <= run.s_recorded(
            intents,
            ops,
            repaths,
        ).ops_budget_cap,
{
}

/// A creep that crosses the home room from one tile to another.
pub open spec fn crosses(c: CrowdCreep, from: (int, int), goal: (int, int)) -> bool {
    &&& c.body.is_unboosted(hauler_parts(2, 2))
    &&& c.carry_used == 0
    &&& c.from == (Position {
        room: west_north_room(1, 1),
        x: from.0 as u8,
        y: from.1 as u8,
    })
    &&& c.goal == (Position {
        room: west_north_room(1, 1),
        x: goal.0 as u8,
        y: goal.1 as u8,
    })
    &&& c.range == 0
}

/// The most creeps that the parallel lanes hold.
pub const MAX_LANES: usize = 288;

/// The tile where the creep of a lane starts, `i` counting lanes down the room and then back
/// two tiles behind.
pub open spec fn lane_start(i: int) -> (int, int) {
    (10 - 2 * (i / 48), 1 + i % 48)
}

/// The tile where the creep of a lane ends.
pub open spec fn lane_goal(i: int) -> (int, int) {
    (40 - 2 * (i / 48), 1 + i % 48)
}

/// Creeps on parallel lanes across an open plain: nobody contends for anybody's tile.
pub fn parallel_lanes(n: usize) -> (r: (SimTerrain, Vec<CrowdCreep>))
    requires
        n <= MAX_LANES,
    ensures
        r.0.made_of(Set::empty(), Set::empty(), Set::empty()),
        r.1@.len() == n,
        forall|i: int| 0 <= i < n ==> crosses(#[trigger] r.1@[i], lane_start(i), lane_goal(i)),
        crowd_ok(r.1@),
{
    let room: u16 = home_room();
    let mut creeps: Vec<CrowdCreep> = Vec::new();
    let mut i: usize = 0;
    while i < n
        invariant
            i <= n <= MAX_LANES,
            room == west_north_room(1, 1),
            creeps@.len() == i,
            forall|k: int|
                0 <= k < i ==> crosses(#[trigger] creeps@[k], lane_start(k), lane_goal(k)),
            forall|k: int| 0 <= k < i ==> (#[trigger] creeps@[k]).goal.on_grid(),
        decreases n - i,
    {
        let y: u8 = 1 + (i % 48) as u8;
        let behind: u8 = 2 * (i / 48) as u8;
        creeps.push(
            CrowdCreep::new(
                hauler_body(2, 2),
                pos_in(room, 10 - behind, y),
                pos_in(room, 40 - behind, y),
                0,
            ),
        );
        i += 1;
    }
    (SimTerrain::default(), creeps)
}

/// No two creeps on parallel lanes start on one tile, and no two end on one.
pub proof fn law_lanes_are_disjoint(i: int, j: int)
    requires
        0 <= i < MAX_LANES,
        0 <= j < MAX_LANES,
        i != j,
    ensures
        lane_start(i) != lane_start(j),
        lane_goal(i) != lane_goal(j),
{
}

/// The most creeps that the pinch holds.
pub const MAX_PINCH: usize = 256;

/// The tile where a creep of the pinch starts.
pub open spec fn pinch_start(i: int) -> (int, int) {
    (3 + i % 8, 18 + i / 8)
}

/// The tile where a creep of the pinch ends.
pub open spec fn pinch_goal(i: int) -> (int, int) {
    (46 - i % 8, 18 + i / 8)
}

/// Creeps that have to pass a wall's single gap, from a block on its left to the mirrored block
/// on its right.
pub fn shared_pinch(n: usize) -> (r: (SimTerrain, Vec<CrowdCreep>))
    requires
        n <= MAX_PINCH,
    ensures
        r.0.made_of(gapped_wall(), Set::empty(), Set::empty()),
        r.1@.len() == n,
        forall|i: int| 0 <= i < n ==> crosses(#[trigger] r.1@[i], pinch_start(i), pinch_goal(i)),
        crowd_ok(r.1@),
{
    let room: u16 = home_room();
    let mut creeps: Vec<CrowdCreep> = Vec::new();
    let mut i: usize = 0;
    while i < n
        invariant
            i <= n <= MAX_PINCH,
            room == west_north_room(1, 1),
            creeps@.len() == i,
            forall|k: int|
                0 <= k < i ==> crosses(#[trigger] creeps@[k], pinch_start(k), pinch_goal(k)),
            forall|k: int| 0 <= k < i ==> (#[trigger] creeps@[k]).goal.on_grid(),
        decreases n - i,
    {
        let col: u8 = (i % 8) as u8;
        let row: u8 = (i / 8) as u8;
        creeps.push(
            CrowdCreep::new(
                hauler_body(2, 2),
                pos_in(room, 3 + col, 18 + row),
                pos_in(room, 46 - col, 18 + row),
                0,
            ),
        );
        i += 1;
    }
    (one_gap_room(), creeps)
}

/// Every creep of the pinch starts left of the wall and ends right of it, on the same row.
pub proof fn law_pinch_is_crossed(i: int)
    requires
        0 <= i < MAX_PINCH,
    ensures
        0 <= pinch_start(i).0 < 15 < pinch_goal(i).0 < 50,
        pinch_start(i).1 == pinch_goal(i).1,
        0 <= pinch_start(i).1 < 50,
{
}

/// The points that a power law can be fitted to: both coordinates above zero.
pub open spec fn s_fit_points<S: Numbers>(points: Seq<(S, S)>) -> Seq<(S, S)>
    decreases points.len(),
{
    if points.len() == 0 {
        Seq::empty()
    } else {
        let before = s_fit_points(points.drop_last());
        let p = points.last();
        if S::s_of(0).s_below(p.0) && S::s_of(0).s_below(p.1) {
            before.push(p)
        } else {
            before
        }
    }
}

/// The points that a power law can be fitted to: both coordinates above zero.
pub fn fit_points<S: Scalar>(points: &[(S, S)]) -> (r: Vec<(S, S)>)
    ensures
        r@ == s_fit_points(points@),
{
    let mut r: Vec<(S, S)> = Vec::new();
    let mut i: usize = 0;
    while i < points.len()
        invariant
            i <= points@.len(),
            r@ == s_fit_points(points@.take(i as int)),
        decreases points@.len() - i,
    {
        assert(points@.take(i + 1).drop_last() =~= points@.take(i as int));
        let p = points[i];
        if S::of(0).below(p.0) && S::of(0).below(p.1) {
            r.push(p);
        }
        i += 1;
    }
    assert(points@.take(i as int) =~= points@);
    r
}

/// Points are fitted one by one: those of a list are those of its pieces.
pub proof fn law_points_are_fitted_one_by_one<S: Numbers>(a: Seq<(S, S)>, b: Seq<(S, S)>)
    ensures
        s_fit_points(a + b) == s_fit_points(a) + s_fit_points(b),
    decreases b.len(),
{
    if b.len() == 0 {
        assert(a + b =~= a);
        assert(s_fit_points(a) + s_fit_points(b) =~= s_fit_points(a));
    } else {
        assert((a + b).drop_last() =~= a + b.drop_last());
        assert((a + b).last() == b.last());
        law_points_are_fitted_one_by_one(a, b.drop_last());
        assert(s_fit_points(a + b) =~= s_fit_points(a) + s_fit_points(b));
    }
}

/// Points with a coordinate that is not above zero change nothing, wherever they stand.
pub proof fn law_unfit_points_change_nothing<S: Numbers>(
    before: Seq<(S, S)>,
    unfit: Seq<(S, S)>,
    after: Seq<(S, S)>,
)
    requires
        forall|i: int|
            0 <= i < unfit.len() ==> !S::s_of(0).s_below((#[trigger] unfit[i]).0) || !S::s_of(
                0,
            ).s_below(unfit[i].1),
    ensures
        s_fit_points(before + unfit + after) == s_fit_points(before + after),
{
    law_points_are_fitted_one_by_one(before + unfit, after);
    law_points_are_fitted_one_by_one(before, unfit);
    law_points_are_fitted_one_by_one(before, after);
    lemma_unfit(unfit);
    assert(s_fit_points(before) + s_fit_points(unfit) =~= s_fit_points(before));
}

proof fn lemma_unfit<S: Numbers>(unfit: Seq<(S, S)>)
    requires
        forall|i: int|
            0 <= i < unfit.len() ==> !S::s_of(0).s_below((#[trigger] unfit[i]).0) || !S::s_of(
                0,
            ).s_below(unfit[i].1),
    ensures
        s_fit_points(unfit).len() == 0,
    decreases unfit.len(),
{
    if unfit.len() > 0 {
        let front = unfit.drop_last();
        assert forall|i: int| 0 <= i < front.len() implies !S::s_of(0).s_below(
            (#[trigger] front[i]).0,
        ) || !S::s_of(0).s_below(front[i].1) by {
            assert(front[i] == unfit[i]);
        }
        lemma_unfit(front);
        assert(unfit[unfit.len() - 1] == unfit.last());
    }
}

/// The sums of the coordinates.
pub open spec fn s_sums<S: Numbers>(pts: Seq<(S, S)>) -> (S, S)
    decreases pts.len(),
{
    if pts.len() == 0 {
        (S::s_of(0), S::s_of(0))
    } else {
        let before = s_sums(pts.drop_last());
        (before.0.s_plus(pts.last().0), before.1.s_plus(pts.last().1))
    }
}

/// The sums of products and squares of the deviations from the means.
pub open spec fn s_deviations<S: Numbers>(pts: Seq<(S, S)>, mx: S, my: S) -> (S, S)
    decreases pts.len(),
{
    if pts.len() == 0 {
        (S::s_of(0), S::s_of(0))
    } else {
        let before = s_deviations(pts.drop_last(), mx, my);
        let (x, y) = pts.last();
        (
            before.0.s_plus(x.s_minus(mx).s_times(y.s_minus(my))),
            before.1.s_plus(x.s_minus(mx).s_times(x.s_minus(mx))),
        )
    }
}

/// The slope of the least-squares line.
pub open spec fn s_slope<S: Numbers>(pts: Seq<(S, S)>) -> S {
    if pts.len() < 2 {
        S::s_of(0)
    } else {
        let n = S::s_of(pts.len() as u64);
        let (sx, sy) = s_sums(pts);
        let (num, den) = s_deviations(pts, sx.s_over(n), sy.s_over(n));
        if den.s_same(S::s_of(0)) {
            S::s_of(0)
        } else {
            num.s_over(den)
        }
    }
}

/// The slope of the least-squares line through the points; zero for fewer than two points or for
/// points that share one abscissa. On logarithms it is the exponent of a fitted power law.
pub fn least_squares_slope<S: Scalar>(pts: &[(S, S)]) -> (r: S)
    ensures
        r == s_slope(pts@),
{
    if pts.len() < 2 {
        return S::of(0);
    }
    let n = S::of(pts.len() as u64);
    let mut sx: S = S::of(0);
    let mut sy: S = S::of(0);
    let mut i: usize = 0;
    while i < pts.len()
        invariant
            i <= pts@.len(),
            (sx, sy) == s_sums(pts@.take(i as int)),
        decreases pts@.len() - i,
    {
        assert(pts@.take(i + 1).drop_last() =~= pts@.take(i as int));
        let (x, y) = pts[i];
        sx = sx.plus(x);
        sy = sy.plus(y);
        i += 1;
    }
    assert(pts@.take(i as int) =~= pts@);
    let mx = sx.over(n);
    let my = sy.over(n);
    let mut num: S = S::of(0);
    let mut den: S = S::of(0);
    let mut j: usize = 0;
    while j < pts.len()
        invariant
            j <= pts@.len(),
            (num, den) == s_deviations(pts@.take(j as int), mx, my),
        decreases pts@.len() - j,
    {
        assert(pts@.take(j + 1).drop_last() =~= pts@.take(j as int));
        let (x, y) = pts[j];
        num = num.plus(x.minus(mx).times(y.minus(my)));
        den = den.plus(x.minus(mx).times(x.minus(mx)));
        j += 1;
    }
    assert(pts@.take(j as int) =~= pts@);
    if den.same(S::of(0)) {
        S::of(0)
    } else {
        num.over(den)
    }
}

/// The points lie on a line.
pub open spec fn on_line(pts: Seq<(Exact, Exact)>, slope: real, offset: real) -> bool {
    forall|i: int| 0 <= i < pts.len() ==> (#[trigger] pts[i]).1.v == slope * pts[i].0.v + offset
}

proof fn lemma_line_front(pts: Seq<(Exact, Exact)>, slope: real, offset: real)
    requires
        on_line(pts, slope, offset),
        pts.len() > 0,
    ensures
        on_line(pts.drop_last(), slope, offset),
        pts.last().1.v == slope * pts.last().0.v + offset,
{
    let front = pts.drop_last();
    assert forall|i: int| 0 <= i < front.len() implies (#[trigger] front[i]).1.v == slope
        * front[i].0.v + offset by {
        assert(front[i] == pts[i]);
    }
    assert(pts[pts.len() - 1] == pts.last());
}

proof fn lemma_line_sums(pts: Seq<(Exact, Exact)>, slope: real, offset: real)
    requires
        on_line(pts, slope, offset),
    ensures
        s_sums(pts).1.v == slope * s_sums(pts).0.v + offset * (pts.len() as real),
    decreases pts.len(),
{
    if pts.len() == 0 {
        assert(slope * 0real + offset * 0real == 0real) by (nonlinear_arith);
    } else {
        lemma_line_front(pts, slope, offset);
        lemma_line_sums(pts.drop_last(), slope, offset);
        let sx = s_sums(pts.drop_last()).0.v;
        let n = pts.drop_last().len() as real;
        let x = pts.last().0.v;
        assert(slope * sx + offset * n + (slope * x + offset) == slope * (sx + x) + offset * (n
            + 1real)) by (nonlinear_arith);
    }
}

proof fn lemma_line_deviations(
    pts: Seq<(Exact, Exact)>,
    slope: real,
    offset: real,
    mx: Exact,
    my: Exact,
)
    requires
        on_line(pts, slope, offset),
        my.v == slope * mx.v + offset,
    ensures
        s_deviations(pts, mx, my).0.v == slope * s_deviations(pts, mx, my).1.v,
        s_deviations(pts, mx, my).1.v >= 0real,
        (exists|i: int| 0 <= i < pts.len() && (#[trigger] pts[i]).0.v != mx.v) ==> s_deviations(
            pts,
            mx,
            my,
        ).1.v > 0real,
    decreases pts.len(),
{
    if pts.len() == 0 {
        assert(slope * 0real == 0real) by (nonlinear_arith);
    } else {
        let front = pts.drop_last();
        lemma_line_front(pts, slope, offset);
        lemma_line_deviations(front, slope, offset, mx, my);
        let d = pts.last().0.v - mx.v;
        let e = pts.last().1.v - my.v;
        let (num, den) = (s_deviations(front, mx, my).0.v, s_deviations(front, mx, my).1.v);
        assert(e == slope * d) by (nonlinear_arith)
            requires
                e == (slope * pts.last().0.v + offset) - (slope * mx.v + offset),
                d == pts.last().0.v - mx.v,
        ;
        assert(num + d * e == slope * (den + d * d)) by (nonlinear_arith)
            requires
                num == slope * den,
                e == slope * d,
        ;
        assert(d * d >= 0real && (d != 0real ==> d * d > 0real)) by (nonlinear_arith);
        if exists|i: int| 0 <= i < pts.len() && (#[trigger] pts[i]).0.v != mx.v {
            let i = choose|i: int| 0 <= i < pts.len() && (#[trigger] pts[i]).0.v != mx.v;
            if i < front.len() {
                assert(front[i] == pts[i]);
            } else {
                assert(pts[i] == pts.last());
            }
        }
    }
}

/// In exact arithmetic the slope fitted to points of a line is the line's, where two of them
/// differ in abscissa.
pub proof fn law_a_line_has_its_slope(
    pts: Seq<(Exact, Exact)>,
    slope: real,
    offset: real,
    i: int,
    j: int,
)
    requires
        on_line(pts, slope, offset),
        pts.len() <= u64::MAX,
        0 <= i < pts.len(),
        0 <= j < pts.len(),
        pts[i].0.v != pts[j].0.v,
    ensures
        s_slope(pts).v == slope,
{
    let n = Exact::s_of(pts.len() as u64);
    let (sx, sy) = s_sums(pts);
    let (mx, my) = (sx.s_over(n), sy.s_over(n));
    lemma_line_sums(pts, slope, offset);
    assert(my.v == slope * mx.v + offset) by (nonlinear_arith)
        requires
            my.v == sy.v / n.v,
            mx.v == sx.v / n.v,
            sy.v == slope * sx.v + offset * n.v,
            n.v > 0real,
    ;
    lemma_line_deviations(pts, slope, offset, mx, my);
    assert(pts[i].0.v != mx.v || pts[j].0.v != mx.v);
    let (num, den) = (s_deviations(pts, mx, my).0.v, s_deviations(pts, mx, my).1.v);
    assert(num / den == slope) by (nonlinear_arith)
        requires
            num == slope * den,
            den > 0real,
    ;
}

/// A recorded tick adds its moves, operations and searches to the run's, and the most operations of
/// a tick are those of the tick that took most.
#[verifier::spinoff_prover]
pub proof fn law_recorded_ticks_add_up(run: OpsRun, intents: u32, ops: u32, repaths: u32)
    requires
        run.wf(),
        run.ticks < u32::MAX,
    ensures
        ({
            let next = run.s_recorded(intents, ops, repaths);
            &&& next.ticks == run.ticks + 1
            &&& next.intents_issued == run.intents_issued + intents
            &&& next.ops_consumed == run.ops_consumed + ops
            &&& next.repaths == run.repaths + repaths
            &&& next.max_tick_ops >= ops && next.max_tick_ops >= run.max_tick_ops
            &&& next.max_tick_ops == ops || next.max_tick_ops == run.max_tick_ops
            &&& next.creeps == run.creeps && next.ops_budget_cap == run.ops_budget_cap
        }),
{
    let (t, most) = (run.ticks as int, run.max_tick_ops as int);
    assert(t * u32::MAX <= 0xffff_fffe * 0xffff_ffff) by (nonlinear_arith)
        requires
            0 <= t <= 0xffff_fffe,
    ;
    assert(t * most <= 0xffff_fffe * 0xffff_ffff) by (nonlinear_arith)
        requires
            0 <= t <= 0xffff_fffe,
            0 <= most <= 0xffff_ffff,
    ;
}

/// Means are taken over the run's ticks, at least one: operations per tick, and microseconds of
/// wall clock per creep and tick.
pub proof fn law_means_are_taken_over_the_ticks<S: Scalar>(run: &OpsRun, ops: S, us: S)
    requires
        call_ensures(OpsRun::ops_per_tick::<S>, (run,), ops),
        call_ensures(OpsRun::us_per_creep_tick::<S>, (run,), us),
    ensures
        ({
            let ticks: u64 = if run.ticks == 0 {
                1
            } else {
                run.ticks as u64
            };
            let seconds = S::s_of(run.elapsed_secs).s_plus(
                S::s_of(run.elapsed_nanos as u64).s_over(S::s_of(1_000_000_000)),
            );
            &&& ops == S::s_of(run.ops_consumed).s_over(S::s_of(ticks))
            &&& us == seconds.s_times(S::s_of(1_000_000)).s_over(
                S::s_of(run.creeps as u64).s_times(S::s_of(ticks)),
            )
        }),
{
}

/// The points that are fitted are those with both coordinates above zero, in their order.
pub proof fn law_fitted_points_are_positive<S: Numbers>(points: Seq<(S, S)>)
    ensures
        s_fit_points(points) == points.filter(
            |p: (S, S)| S::s_of(0).s_below(p.0) && S::s_of(0).s_below(p.1),
        ),
    decreases points.len(),
{
    reveal(Seq::filter);
    if points.len() > 0 {
        law_fitted_points_are_positive(points.drop_last());
    }
}

proof fn lemma_sums_fold(pts: Seq<(Exact, Exact)>)
    ensures
        s_sums(pts).0.v == pts.fold_left(0real, |t: real, p: (Exact, Exact)| t + p.0.v),
        s_sums(pts).1.v == pts.fold_left(0real, |t: real, p: (Exact, Exact)| t + p.1.v),
    decreases pts.len(),
{
    if pts.len() > 0 {
        lemma_sums_fold(pts.drop_last());
    }
}

#[verifier::spinoff_prover]
proof fn lemma_deviations_fold(pts: Seq<(Exact, Exact)>, mx: Exact, my: Exact)
    ensures
        s_deviations(pts, mx, my).0.v == pts.fold_left(
            0real,
            |t: real, p: (Exact, Exact)| t + (p.0.v - mx.v) * (p.1.v - my.v),
        ),
        s_deviations(pts, mx, my).1.v == pts.fold_left(
            0real,
            |t: real, p: (Exact, Exact)| t + (p.0.v - mx.v) * (p.0.v - mx.v),
        ),
    decreases pts.len(),
{
    if pts.len() > 0 {
        lemma_deviations_fold(pts.drop_last(), mx, my);
    }
}

/// In exact arithmetic the slope is that of least squares: times the squared deviations of the
/// abscissas from their mean it is the products of the deviations of both coordinates. Points that
/// share one abscissa have no slope, and neither have fewer than two points.
#[verifier::spinoff_prover]
pub proof fn law_slope_is_of_least_squares(pts: Seq<(Exact, Exact)>, mx: real, my: real)
    requires
        0 < pts.len() <= u64::MAX,
        mx * pts.len() as real == pts.fold_left(0real, |t: real, p: (Exact, Exact)| t + p.0.v),
        my * pts.len() as real == pts.fold_left(0real, |t: real, p: (Exact, Exact)| t + p.1.v),
    ensures
        ({
            let products = pts.fold_left(
                0real,
                |t: real, p: (Exact, Exact)| t + (p.0.v - mx) * (p.1.v - my),
            );
            let squares = pts.fold_left(
                0real,
                |t: real, p: (Exact, Exact)| t + (p.0.v - mx) * (p.0.v - mx),
            );
            &&& pts.len() >= 2 && squares != 0real ==> s_slope(pts).v * squares == products
            &&& pts.len() < 2 || squares == 0real ==> s_slope(pts).v == 0real
        }),
{
    let n = Exact::s_of(pts.len() as u64);
    let (sx, sy) = s_sums(pts);
    let (ex, ey) = (sx.s_over(n), sy.s_over(n));
    lemma_sums_fold(pts);
    assert(n.v == pts.len() as real);
    lemma_mean_of(mx, sx.v, n.v);
    lemma_mean_of(my, sy.v, n.v);
    assert(ex == Exact { v: mx } && ey == Exact { v: my });
    lemma_deviations_fold(pts, ex, ey);
    let (num, den) = (s_deviations(pts, ex, ey).0.v, s_deviations(pts, ex, ey).1.v);
    if den != 0real {
        assert(num / den * den == num) by (nonlinear_arith)
            requires
                den != 0real,
        ;
    }
}

proof fn lemma_mean_of(m: real, sum: real, n: real)
    requires
        m * n == sum,
        n > 0real,
    ensures
        sum / n == m,
{
    assert(sum / n == m) by (nonlinear_arith)
        requires
            m * n == sum,
            n > 0real,
    ;
}

/// Lanes are thirty columns long and each keeps to its row; forty-eight rows make a rank, and every
/// further rank stands two columns behind.
pub proof fn law_lanes_are_thirty_long(i: int)
    requires
        0 <= i < MAX_LANES,
    ensures
        lane_goal(i).0 == lane_start(i).0 + 30,
        lane_goal(i).1 == lane_start(i).1,
        1 <= lane_start(i).1 <= 48,
        i < 48 ==> lane_start(i) == (10int, 1 + i),
        i >= 48 ==> lane_start(i) == (lane_start(i - 48).0 - 2, lane_start(i - 48).1),
{
}

/// The blocks on both sides of the pinch mirror each other, eight creeps to a row.
pub proof fn law_pinch_is_mirrored(i: int)
    requires
        0 <= i < MAX_PINCH,
    ensures
        pinch_start(i).0 + pinch_goal(i).0 == 49,
        i < 8 ==> pinch_start(i) == (3 + i, 18int),
        i >= 8 ==> pinch_start(i) == (pinch_start(i - 8).0, pinch_start(i - 8).1 + 1),
{
}

} // verus!
