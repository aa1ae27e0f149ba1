//! Scenarios of a single creep on its way to a goal: a curated catalog, procedural rooms, and the
//! gates that a measured scenario has to meet.

use crate::body::{countable, Part, SimBody};
use crate::grid::{chebyshev, distance, home_room, pos_in, west_north_room, Position};
use crate::list::copied;
use crate::metrics::{fatigue_util, movement_eff, s_tick_share};
use crate::scalar::{Exact, Numbers, Scalar};
use crate::stats::{hundredths, s_hundredths};
use crate::terrain::{insert_rect, rect, road_through_swamp, SimTerrain, TileSet};
use crate::traverse::Traversal;
use vstd::prelude::*;

verus! {

/// The creep of a scenario: its parts, and what it carries.
#[derive(Debug)]
pub struct CreepSpec {
    pub parts: Vec<Part>,
    pub carry_used: u32,
}

impl Clone for CreepSpec {
    fn clone(&self) -> (r: CreepSpec)
        ensures
            r.parts@ == self.parts@,
            r.carry_used == self.carry_used,
    {
        CreepSpec { parts: copied(self.parts.as_slice()), carry_used: self.carry_used }
    }
}

impl CreepSpec {
    /// A body of these parts at full health, without boosts.
    pub fn body(&self) -> (r: SimBody)
        requires
            countable(self.parts@),
        ensures
            r.is_unboosted(self.parts@),
    {
        SimBody::unboosted(self.parts.as_slice())
    }
}

/// A scenario: terrain, creep, way, and the gates it has to meet.
#[derive(Debug)]
pub struct Scenario<S> {
    pub name: &'static str,
    pub terrain: SimTerrain,
    pub spec: CreepSpec,
    pub from: Position,
    pub goal: Position,
    pub range: u32,
    /// Bound on route optimality.
    pub max_r_fatigue: S,
    /// Bound on travel time.
    pub max_r_ticks: S,
}

/// What was measured of a scenario.
#[derive(Debug)]
pub struct Measured<S> {
    /// The optimum reaches the goal.
    pub solvable: bool,
    pub r_fatigue: Option<S>,
    pub r_ticks: Option<S>,
    /// The walk along the mover's route, if its search was complete.
    pub traversal: Option<Traversal>,
}

/// A gate that a scenario did not meet.
#[derive(Debug)]
pub enum Failure<S> {
    /// The optimum does not reach the goal.
    Unsolvable,
    /// The route is too expensive.
    FatigueRatio { ratio: S, bound: S },
    /// The mover's search was incomplete, or the goal is out of reach.
    NoFatigueRatio,
    /// The route takes too long.
    TickRatio { ratio: S, bound: S },
    /// A traversal was not completed.
    NoTickRatio,
    /// The creep idled with a step available.
    FreeIdling { util: S },
}

impl<S: Copy> Clone for Failure<S> {
    fn clone(&self) -> (r: Self)
        ensures
            r == *self,
    {
        *self
    }
}

impl<S: Copy> Copy for Failure<S> {

}

/// The outcome of validating a scenario.
#[derive(Debug)]
pub struct ScenarioResult<S> {
    pub name: &'static str,
    /// The scenario is well posed.
    pub solvable: bool,
    pub r_fatigue: Option<S>,
    pub r_ticks: Option<S>,
    pub movement_eff: S,
    pub fatigue_util: S,
    /// Every gate is met.
    pub passed: bool,
    /// One entry per gate that is not.
    pub failures: Vec<Failure<S>>,
}

impl<S: Copy> Clone for ScenarioResult<S> {
    fn clone(&self) -> (r: Self)
        ensures
            r.failures@ == self.failures@,
            r == (ScenarioResult { failures: r.failures, ..*self }),
    {
        ScenarioResult {
            name: self.name,
            solvable: self.solvable,
            r_fatigue: self.r_fatigue,
            r_ticks: self.r_ticks,
            movement_eff: self.movement_eff,
            fatigue_util: self.fatigue_util,
            passed: self.passed,
            failures: copied(self.failures.as_slice()),
        }
    }
}

/// The tolerance of a comparison.
pub open spec fn s_tolerance<S: Numbers>() -> S {
    S::s_of(1).s_over(S::s_of(1_000_000_000))
}

/// A ratio is within its bound, up to the tolerance.
pub open spec fn within_bound<S: Numbers>(ratio: S, bound: S) -> bool {
    let limit = bound.s_plus(s_tolerance());
    ratio.s_below(limit) || ratio.s_same(limit)
}

/// A share differs from one by more than the tolerance.
pub open spec fn off_one<S: Numbers>(share: S) -> bool {
    let d = share.s_minus(S::s_of(1));
    s_tolerance::<S>().s_below(
        if d.s_below(S::s_of(0)) {
            S::s_of(0).s_minus(d)
        } else {
            d
        },
    )
}

/// The movement efficiency of a walk; zero without one.
pub open spec fn s_efficiency_of<S: Numbers>(t: Option<Traversal>) -> S {
    match t {
        Some(t) => s_tick_share::<S>(t.moves as u64, t.ticks as u64),
        None => S::s_of(0),
    }
}

/// The utilization of a walk; zero without one.
pub open spec fn s_util_of<S: Numbers>(t: Option<Traversal>) -> S {
    match t {
        Some(t) => s_tick_share::<S>((t.moves + t.idle_fatigued) as u64, t.ticks as u64),
        None => S::s_of(0),
    }
}

/// The solvability gate.
pub open spec fn solvable_failures<S: Numbers>(m: Measured<S>) -> Seq<Failure<S>> {
    if m.solvable {
        seq![]
    } else {
        seq![Failure::Unsolvable]
    }
}

/// The route-optimality gate.
pub open spec fn fatigue_failures<S: Numbers>(s: Scenario<S>, m: Measured<S>) -> Seq<Failure<S>> {
    match m.r_fatigue {
        Some(ratio) => if within_bound(ratio, s.max_r_fatigue) {
            seq![]
        } else {
            seq![Failure::FatigueRatio { ratio, bound: s.max_r_fatigue }]
        },
        None => seq![Failure::NoFatigueRatio],
    }
}

/// The travel-time gate.
pub open spec fn tick_failures<S: Numbers>(s: Scenario<S>, m: Measured<S>) -> Seq<Failure<S>> {
    match m.r_ticks {
        Some(ratio) => if within_bound(ratio, s.max_r_ticks) {
            seq![]
        } else {
            seq![Failure::TickRatio { ratio, bound: s.max_r_ticks }]
        },
        None => seq![Failure::NoTickRatio],
    }
}

/// The bound on idling: a lone creep on a valid route never idles with a step available.
pub open spec fn idling_failures<S: Numbers>(m: Measured<S>) -> Seq<Failure<S>> {
    let util = s_util_of::<S>(m.traversal);
    if m.traversal is Some && off_one(util) {
        seq![Failure::FreeIdling { util }]
    } else {
        seq![]
    }
}

/// Every gate that a measured scenario does not meet, in the order of the gates.
pub open spec fn failures_of<S: Numbers>(s: Scenario<S>, m: Measured<S>) -> Seq<Failure<S>> {
    solvable_failures(m) + fatigue_failures(s, m) + tick_failures(s, m) + idling_failures(m)
}

/// The tolerance of a comparison.
fn tolerance<S: Scalar>() -> (r: S)
    ensures
        r == s_tolerance::<S>(),
{
    S::of(1).over(S::of(1_000_000_000))
}

/// Whether a ratio is within its bound, up to the tolerance.
fn is_within<S: Scalar>(ratio: S, bound: S) -> (r: bool)
    ensures
        r == within_bound(ratio, bound),
{
    let limit = bound.plus(tolerance());
    ratio.below(limit) || ratio.same(limit)
}

/// Whether a share differs from one by more than the tolerance.
fn is_off_one<S: Scalar>(share: S) -> (r: bool)
    ensures
        r == off_one(share),
{
    let d = share.minus(S::of(1));
    let size = if d.below(S::of(0)) {
        S::of(0).minus(d)
    } else {
        d
    };
    tolerance::<S>().below(size)
}

/// Holds what was measured of a scenario against its gates.
pub fn validate<S: Scalar>(s: &Scenario<S>, m: &Measured<S>) -> (r: ScenarioResult<S>)
    requires
        m.traversal matches Some(t) ==> t.accounted(),
    ensures
        r.name == s.name,
        r.solvable == m.solvable,
        r.r_fatigue == m.r_fatigue,
        r.r_ticks == m.r_ticks,
        r.movement_eff == s_efficiency_of::<S>(m.traversal),
        r.fatigue_util == s_util_of::<S>(m.traversal),
        r.failures@ == failures_of(*s, *m),
        r.passed == (failures_of(*s, *m).len() == 0),
{
    let (eff, util): (S, S) = match &m.traversal {
        Some(t) => (movement_eff(t), fatigue_util(t)),
        None => (S::of(0), S::of(0)),
    };
    let mut failures: Vec<Failure<S>> = Vec::new();
    if !m.solvable {
        failures.push(Failure::Unsolvable);
    }
    assert(failures@ =~= solvable_failures(*m));
    match m.r_fatigue {
        Some(ratio) => {
            if !is_within(ratio, s.max_r_fatigue) {
                failures.push(Failure::FatigueRatio { ratio, bound: s.max_r_fatigue });
            }
        },
        None => {
            failures.push(Failure::NoFatigueRatio);
        },
    }
    assert(failures@ =~= solvable_failures(*m) + fatigue_failures(*s, *m));
    match m.r_ticks {
        Some(ratio) => {
            if !is_within(ratio, s.max_r_ticks) {
                failures.push(Failure::TickRatio { ratio, bound: s.max_r_ticks });
            }
        },
        None => {
            failures.push(Failure::NoTickRatio);
        },
    }
    assert(failures@ =~= solvable_failures(*m) + fatigue_failures(*s, *m) + tick_failures(*s, *m));
    if m.traversal.is_some() && is_off_one(util) {
        failures.push(Failure::FreeIdling { util });
    }
    assert(failures@ =~= failures_of(*s, *m));
    ScenarioResult {
        name: s.name,
        solvable: m.solvable,
        r_fatigue: m.r_fatigue,
        r_ticks: m.r_ticks,
        movement_eff: eff,
        fatigue_util: util,
        passed: failures.len() == 0,
        failures,
    }
}

/// A scenario passes exactly if it is solvable, both ratios were measured and are within their
/// bounds, and nothing idled with a step available.
pub proof fn law_passing_means_every_gate<S: Scalar>(s: Scenario<S>, m: Measured<S>)
    ensures
        failures_of(s, m).len() == 0 <==> {
            &&& m.solvable
            &&& m.r_fatigue matches Some(r) && within_bound(r, s.max_r_fatigue)
            &&& m.r_ticks matches Some(r) && within_bound(r, s.max_r_ticks)
            &&& m.traversal is Some ==> !off_one(s_util_of::<S>(m.traversal))
        },
{
}

/// An unsolvable scenario never passes.
pub proof fn law_unsolvable_fails<S: Scalar>(s: Scenario<S>, m: Measured<S>)
    requires
        !m.solvable,
    ensures
        failures_of(s, m).len() > 0,
        failures_of(s, m)[0] is Unsolvable,
{
}

/// The parts of a body that keeps up on plains and roads.
pub open spec fn balanced_parts() -> Seq<Part> {
    seq![Part::Attack, Part::Move]
}

/// The parts of a body that stalls every other tick even on plains.
pub open spec fn under_move_parts() -> Seq<Part> {
    seq![Part::Attack, Part::Attack, Part::Move]
}

/// The parts of a hauler that stalls when loaded.
pub open spec fn short_hauler_parts() -> Seq<Part> {
    seq![Part::Carry, Part::Carry, Part::Move]
}

fn balanced() -> (r: CreepSpec)
    ensures
        r.parts@ == balanced_parts(),
        r.carry_used == 0,
{
    let mut parts: Vec<Part> = Vec::new();
    parts.push(Part::Attack);
    parts.push(Part::Move);
    assert(parts@ =~= balanced_parts());
    CreepSpec { parts, carry_used: 0 }
}

fn under_move() -> (r: CreepSpec)
    ensures
        r.parts@ == under_move_parts(),
        r.carry_used == 0,
{
    let mut parts: Vec<Part> = Vec::new();
    parts.push(Part::Attack);
    parts.push(Part::Attack);
    parts.push(Part::Move);
    assert(parts@ =~= under_move_parts());
    CreepSpec { parts, carry_used: 0 }
}

fn short_hauler() -> (r: CreepSpec)
    ensures
        r.parts@ == short_hauler_parts(),
        r.carry_used == 100,
{
    let mut parts: Vec<Part> = Vec::new();
    parts.push(Part::Carry);
    parts.push(Part::Carry);
    parts.push(Part::Move);
    assert(parts@ =~= short_hauler_parts());
    CreepSpec { parts, carry_used: 100 }
}

/// A tile of the home room.
pub open spec fn at_home(x: int, y: int) -> Position {
    Position { room: west_north_room(1, 1), x: x as u8, y: y as u8 }
}

/// What a scenario of the catalog is: a creep of these parts and load crosses the terrain from
/// `(10, 25)` to `(20, 25)`, within these bounds in hundredths.
pub struct CatalogEntry {
    pub name: Seq<char>,
    pub walls: Set<(u8, u8)>,
    pub swamps: Set<(u8, u8)>,
    pub roads: Set<(u8, u8)>,
    pub parts: Seq<Part>,
    pub carry_used: u32,
    pub fatigue_percent: u64,
    pub ticks_percent: u64,
}

/// The catalog.
pub open spec fn catalog_entry(k: int) -> CatalogEntry {
    let plain = CatalogEntry {
        name: "open_plain"@,
        walls: Set::empty(),
        swamps: Set::empty(),
        roads: Set::empty(),
        parts: balanced_parts(),
        carry_used: 0,
        fatigue_percent: 100,
        ticks_percent: 100,
    };
    let detour = CatalogEntry { fatigue_percent: 105, ticks_percent: 110, ..plain };
    if k == 0 {
        plain
    } else if k == 1 {
        CatalogEntry { name: "wall_detour"@, walls: rect(15, 15, 21, 29), ..detour }
    } else if k == 2 {
        CatalogEntry { name: "swamp_skirt"@, swamps: rect(13, 17, 23, 27), ..detour }
    } else if k == 3 {
        CatalogEntry {
            name: "road_corridor"@,
            swamps: rect(13, 17, 0, 49),
            roads: rect(13, 17, 25, 25),
            ..detour
        }
    } else if k == 4 {
        CatalogEntry { name: "under_move_open"@, parts: under_move_parts(), ..plain }
    } else if k == 5 {
        CatalogEntry {
            name: "loaded_hauler"@,
            parts: short_hauler_parts(),
            carry_used: 100,
            ..plain
        }
    } else {
        CatalogEntry {
            name: "swamp_trap_under_move"@,
            swamps: rect(15, 15, 25, 25),
            parts: under_move_parts(),
            ..detour
        }
    }
}

/// The scenario is the entry.
pub open spec fn matches_entry<S: Numbers>(s: Scenario<S>, e: CatalogEntry) -> bool {
    &&& s.name@ == e.name
    &&& s.terrain.made_of(e.walls, e.swamps, e.roads)
    &&& s.spec.parts@ == e.parts
    &&& s.spec.carry_used == e.carry_used
    &&& s.from == at_home(10, 25)
    &&& s.goal == at_home(20, 25)
    &&& s.range == 0
    &&& s.max_r_fatigue == s_hundredths::<S>(e.fatigue_percent)
    &&& s.max_r_ticks == s_hundredths::<S>(e.ticks_percent)
}

/// A scenario of the catalog.
fn crossing<S: Scalar>(
    name: &'static str,
    terrain: SimTerrain,
    spec: CreepSpec,
    fatigue_percent: u64,
    ticks_percent: u64,
) -> (r: Scenario<S>)
    ensures
        r.name == name,
        r.terrain == terrain,
        r.spec == spec,
        r.from == at_home(10, 25),
        r.goal == at_home(20, 25),
        r.range == 0,
        r.max_r_fatigue == s_hundredths::<S>(fatigue_percent),
        r.max_r_ticks == s_hundredths::<S>(ticks_percent),
{
    let room: u16 = home_room();
    Scenario {
        name,
        terrain,
        spec,
        from: pos_in(room, 10, 25),
        goal: pos_in(room, 20, 25),
        range: 0,
        max_r_fatigue: hundredths(fatigue_percent),
        max_r_ticks: hundredths(ticks_percent),
    }
}

/// The curated scenarios: open plain, wall detour, swamp skirt, road corridor, and the bodies
/// that fatigue binds.
pub fn catalog<S: Scalar>() -> (r: Vec<Scenario<S>>)
    ensures
        r@.len() == 7,
        forall|k: int| 0 <= k < 7 ==> matches_entry(#[trigger] r@[k], catalog_entry(k)),
{
    let mut wall = SimTerrain::default();
    insert_rect(&mut wall.walls, 15, 15, 21, 29);
    assert(wall.walls@ =~= rect(15, 15, 21, 29));
    let mut swamp = SimTerrain::default();
    insert_rect(&mut swamp.swamps, 13, 17, 23, 27);
    assert(swamp.swamps@ =~= rect(13, 17, 23, 27));
    let mut trap = SimTerrain::default();
    insert_rect(&mut trap.swamps, 15, 15, 25, 25);
    assert(trap.swamps@ =~= rect(15, 15, 25, 25));
    let mut r: Vec<Scenario<S>> = Vec::new();
    r.push(crossing("open_plain", SimTerrain::default(), balanced(), 100, 100));
    r.push(crossing("wall_detour", wall, balanced(), 105, 110));
    r.push(crossing("swamp_skirt", swamp, balanced(), 105, 110));
    r.push(crossing("road_corridor", road_through_swamp(), balanced(), 105, 110));
    r.push(crossing("under_move_open", SimTerrain::default(), under_move(), 100, 100));
    r.push(crossing("loaded_hauler", SimTerrain::default(), short_hauler(), 100, 100));
    r.push(crossing("swamp_trap_under_move", trap, under_move(), 105, 110));
    r
}

/// The tile lies off the border of a room.
pub open spec fn interior(t: (u8, u8)) -> bool {
    1 <= t.0 <= 48 && 1 <= t.1 <= 48
}

/// The squared distance of a tile from column `tx` on the middle row.
pub open spec fn off_target(t: (u8, u8), tx: int) -> int {
    distance(t.0 as int, tx) * distance(t.0 as int, tx) + distance(t.1 as int, 25) * distance(
        t.1 as int,
        25,
    )
}

/// The first interior tile of the region that is nearest to column `tx` on the middle row.
pub open spec fn nearest_interior(region: Seq<(u8, u8)>, tx: int) -> Option<(u8, u8)>
    decreases region.len(),
{
    if region.len() == 0 {
        None
    } else {
        let before = nearest_interior(region.drop_last(), tx);
        let t = region.last();
        match before {
            Some(best) if !interior(t) || off_target(best, tx) <= off_target(t, tx) => Some(best),
            None if !interior(t) => None,
            _ => Some(t),
        }
    }
}

/// The tile that is picked: the nearest, or the middle of the room if the region has no interior.
pub open spec fn picked(region: Seq<(u8, u8)>, tx: int) -> (u8, u8) {
    match nearest_interior(region, tx) {
        Some(t) => t,
        None => (25, 25),
    }
}

/// The picked tile is interior, belongs to the region if that has any interior tile, and no
/// interior tile of the region is nearer.
pub proof fn law_picked_is_nearest(region: Seq<(u8, u8)>, tx: int)
    ensures
        interior(picked(region, tx)),
        forall|i: int|
            0 <= i < region.len() && interior(#[trigger] region[i]) ==> region.contains(
                picked(region, tx),
            ) && off_target(picked(region, tx), tx) <= off_target(region[i], tx),
{
    lemma_nearest_interior(region, tx);
}

proof fn lemma_nearest_interior(region: Seq<(u8, u8)>, tx: int)
    ensures
        nearest_interior(region, tx) matches Some(t) ==> interior(t) && region.contains(t),
        nearest_interior(region, tx) is None ==> forall|i: int|
            0 <= i < region.len() ==> !interior(#[trigger] region[i]),
        forall|i: int|
            0 <= i < region.len() && interior(#[trigger] region[i]) ==> (nearest_interior(
                region,
                tx,
            ) matches Some(t) && off_target(t, tx) <= off_target(region[i], tx)),
    decreases region.len(),
{
    if region.len() > 0 {
        let front = region.drop_last();
        lemma_nearest_interior(front, tx);
        assert(region[region.len() - 1] == region.last());
        if let Some(b) = nearest_interior(front, tx) {
            let k = choose|k: int| 0 <= k < front.len() && front[k] == b;
            assert(region[k] == b);
        }
        assert forall|i: int| 0 <= i < region.len() && interior(#[trigger] region[i]) implies (
        nearest_interior(region, tx) matches Some(t) && off_target(t, tx) <= off_target(
            region[i],
            tx,
        )) by {
            if i < front.len() {
                assert(front[i] == region[i]);
            }
        }
        if nearest_interior(region, tx) is None {
            assert forall|i: int| 0 <= i < region.len() implies !interior(#[trigger] region[i]) by {
                if i < front.len() {
                    assert(front[i] == region[i]);
                }
            }
        }
    }
}

/// The absolute difference.
fn gap(a: u8, b: u8) -> (r: u32)
    ensures
        r == distance(a as int, b as int),
        r <= 255,
{
    if a < b {
        b as u32 - a as u32
    } else {
        a as u32 - b as u32
    }
}

/// The squared distance of a tile from column `tx` on the middle row.
fn miss(t: (u8, u8), tx: u8) -> (r: u32)
    ensures
        r == off_target(t, tx as int),
{
    let dx: u32 = gap(t.0, tx);
    let dy: u32 = gap(t.1, 25);
    assert(0 <= dx * dx <= 255 * 255) by (nonlinear_arith)
        requires
            dx <= 255,
    ;
    assert(0 <= dy * dy <= 255 * 255) by (nonlinear_arith)
        requires
            dy <= 255,
    ;
    dx * dx + dy * dy
}

/// Picks the interior tile of a region that is nearest to column `tx` on the middle row; border
/// tiles would take the creep to another room.
pub fn pick(region: &[(u8, u8)], tx: u8) -> (r: (u8, u8))
    ensures
        r == picked(region@, tx as int),
        interior(r),
{
    let mut best: Option<(u8, u8)> = None;
    let mut i: usize = 0;
    while i < region.len()
        invariant
            i <= region@.len(),
            best == nearest_interior(region@.take(i as int), tx as int),
        decreases region@.len() - i,
    {
        assert(region@.take(i + 1).drop_last() =~= region@.take(i as int));
        let t = region[i];
        if 1 <= t.0 && t.0 <= 48 && 1 <= t.1 && t.1 <= 48 {
            best = match best {
                Some(b) if miss(b, tx) <= miss(t, tx) => Some(b),
                _ => Some(t),
            };
        }
        i += 1;
    }
    assert(region@.take(i as int) =~= region@);
    proof {
        lemma_nearest_interior(region@, tx as int);
    }
    match best {
        Some(t) => t,
        None => (25, 25),
    }
}

/// A scenario in a generated cave: `terrain` is the cave, and `region` its connected open tiles,
/// between which the way runs from the left to the right.
pub fn generate_realistic<S: Scalar>(terrain: SimTerrain, region: &[(u8, u8)]) -> (r: Scenario<S>)
    ensures
        r.name@ == "generated_realistic"@,
        r.terrain == terrain,
        r.spec.parts@ == balanced_parts(),
        r.spec.carry_used == 0,
        r.from == at_home(picked(region@, 6).0 as int, picked(region@, 6).1 as int),
        r.goal == at_home(picked(region@, 43).0 as int, picked(region@, 43).1 as int),
        r.range == 0,
        r.max_r_fatigue == s_hundredths::<S>(115),
        r.max_r_ticks == s_hundredths::<S>(150),
{
    let room: u16 = home_room();
    let (fx, fy) = pick(region, 6);
    let (gx, gy) = pick(region, 43);
    Scenario {
        name: "generated_realistic",
        terrain,
        spec: balanced(),
        from: pos_in(room, fx, fy),
        goal: pos_in(room, gx, gy),
        range: 0,
        max_r_fatigue: hundredths(115),
        max_r_ticks: hundredths(150),
    }
}

/// A swamp patch: the tiles within `radius` of its centre, off the far borders.
#[derive(Clone, Copy, Debug, PartialEq, Eq, Structural)]
pub struct Patch {
    pub cx: u8,
    pub cy: u8,
    pub radius: u8,
}

impl Patch {
    /// The patch's far corner is representable.
    pub open spec fn fits(self) -> bool {
        self.cx + self.radius <= 255 && self.cy + self.radius <= 255
    }

    /// The tiles of the patch.
    pub open spec fn covers(self, t: (u8, u8)) -> bool {
        &&& self.cx - self.radius <= t.0 <= self.cx + self.radius
        &&& self.cy - self.radius <= t.1 <= self.cy + self.radius
        &&& t.0 <= 48
        &&& t.1 <= 48
    }
}

/// Some patch covers the tile.
pub open spec fn patched(patches: Seq<Patch>, t: (u8, u8)) -> bool {
    exists|i: int| 0 <= i < patches.len() && (#[trigger] patches[i]).covers(t)
}

/// How many patches a procedural room is drawn with, at least and at most.
pub const PATCH_COUNT: (u32, u32) = (3, 8);

/// Where the centre of a patch is drawn, along either axis.
pub const PATCH_CENTRE: (u32, u32) = (8, 41);

/// How far a patch is drawn to reach.
pub const PATCH_RADIUS: (u32, u32) = (1, 3);

/// The rows in which a road is drawn.
pub const ROAD_ROW: (u32, u32) = (12, 37);

/// The rows in which start and goal are drawn.
pub const END_ROW: (u32, u32) = (20, 30);

/// The number lies between two bounds.
pub open spec fn drawn_from(n: int, bounds: (u32, u32)) -> bool {
    bounds.0 <= n <= bounds.1
}

/// What was drawn lies within the bounds that it is drawn from.
pub open spec fn is_drawn(patches: Seq<Patch>, road: Option<u8>, fy: u8, gy: u8) -> bool {
    &&& drawn_from(patches.len() as int, PATCH_COUNT)
    &&& forall|i: int|
        0 <= i < patches.len() ==> {
            &&& drawn_from((#[trigger] patches[i]).cx as int, PATCH_CENTRE)
            &&& drawn_from(patches[i].cy as int, PATCH_CENTRE)
            &&& drawn_from(patches[i].radius as int, PATCH_RADIUS)
        }
    &&& road matches Some(ry) ==> drawn_from(ry as int, ROAD_ROW)
    &&& drawn_from(fy as int, END_ROW)
    &&& drawn_from(gy as int, END_ROW)
}

/// A drawn room can be built, and its swamps, its road and its ends keep off the border.
pub proof fn law_drawn_rooms_keep_off_the_border(
    patches: Seq<Patch>,
    road: Option<u8>,
    fy: u8,
    gy: u8,
    t: (u8, u8),
)
    requires
        is_drawn(patches, road, fy, gy),
    ensures
        forall|i: int| 0 <= i < patches.len() ==> (#[trigger] patches[i]).fits(),
        patched(patches, t) ==> 0 < t.0 < 49 && 0 < t.1 < 49,
        road matches Some(ry) ==> 0 < ry < 49,
        0 < fy < 49,
        0 < gy < 49,
{
    if patched(patches, t) {
        let i = choose|i: int| 0 <= i < patches.len() && (#[trigger] patches[i]).covers(t);
        assert(drawn_from(patches[i].cx as int, PATCH_CENTRE));
    }
}

/// Adds a swamp patch.
fn insert_patch(swamps: &mut TileSet, p: Patch)
    requires
        p.fits(),
    ensures
        forall|t: (u8, u8)| #[trigger]
            final(swamps)@.contains(t) <==> old(swamps)@.contains(t) || p.covers(t),
{
    let x1: u8 = if p.cx + p.radius < 48 {
        p.cx + p.radius
    } else {
        48
    };
    let y1: u8 = if p.cy + p.radius < 48 {
        p.cy + p.radius
    } else {
        48
    };
    insert_rect(swamps, p.cx.saturating_sub(p.radius), x1, p.cy.saturating_sub(p.radius), y1);
}

/// A procedural room: swamp patches and perhaps a road stripe, all passable, with a balanced
/// creep that crosses it. What was drawn at random is given: the patches, the row of the road if
/// there is one, and the rows of start and goal.
pub fn generate<S: Scalar>(patches: &[Patch], road: Option<u8>, fy: u8, gy: u8) -> (r: Scenario<S>)
    requires
        forall|i: int| 0 <= i < patches@.len() ==> (#[trigger] patches@[i]).fits(),
        road matches Some(ry) ==> ry < 50,
        fy < 50,
        gy < 50,
    ensures
        r.name@ == "generated"@,
        r.terrain.walls@ == Set::<(u8, u8)>::empty(),
        forall|t: (u8, u8)| #[trigger] r.terrain.swamps@.contains(t) <==> patched(patches@, t),
        r.terrain.roads@ == match road {
            Some(ry) => rect(5, 44, ry as int, ry as int),
            None => Set::empty(),
        },
        r.spec.parts@ == balanced_parts(),
        r.spec.carry_used == 0,
        r.from == at_home(5, fy as int),
        r.goal == at_home(44, gy as int),
        r.range == 0,
        r.max_r_fatigue == s_hundredths::<S>(110),
        r.max_r_ticks == s_hundredths::<S>(125),
{
    let room: u16 = home_room();
    let mut terrain = SimTerrain::default();
    let mut i: usize = 0;
    while i < patches.len()
        invariant
            i <= patches@.len(),
            forall|k: int| 0 <= k < patches@.len() ==> (#[trigger] patches@[k]).fits(),
            terrain.walls@ == Set::<(u8, u8)>::empty(),
            terrain.roads@ == Set::<(u8, u8)>::empty(),
            forall|t: (u8, u8)| #[trigger]
                terrain.swamps@.contains(t) <==> (exists|k: int|
                    0 <= k < i && (#[trigger] patches@[k]).covers(t)),
        decreases patches@.len() - i,
    {
        let ghost before = terrain.swamps@;
        assert(patches@[i as int].fits());
        insert_patch(&mut terrain.swamps, patches[i]);
        proof {
            assert forall|t: (u8, u8)| #[trigger] terrain.swamps@.contains(t) <==> (exists|k: int|
                0 <= k < i + 1 && (#[trigger] patches@[k]).covers(t)) by {
                assert(terrain.swamps@.contains(t) <==> before.contains(t)
                    || patches@[i as int].covers(t));
                if before.contains(t) {
                    let k = choose|k: int| 0 <= k < i && (#[trigger] patches@[k]).covers(t);
                    assert(patches@[k].covers(t));
                }
                if exists|k: int| 0 <= k < i + 1 && (#[trigger] patches@[k]).covers(t) {
                    let k = choose|k: int| 0 <= k < i + 1 && (#[trigger] patches@[k]).covers(t);
                    if k < i {
                        assert(before.contains(t));
                    }
                }
            }
        }
        i += 1;
    }
    if let Some(ry) = road {
        insert_rect(&mut terrain.roads, 5, 44, ry, ry);
        assert(terrain.roads@ =~= rect(5, 44, ry as int, ry as int));
    }
    Scenario {
        name: "generated",
        terrain,
        spec: balanced(),
        from: pos_in(room, 5, fy),
        goal: pos_in(room, 44, gy),
        range: 0,
        max_r_fatigue: hundredths(110),
        max_r_ticks: hundredths(125),
    }
}

/// In exact arithmetic a ratio meets its bound exactly if it is above it by no more than a
/// billionth, and a share is off one exactly if it differs from it by more.
#[verifier::spinoff_prover]
pub proof fn law_gates_hold_to_a_billionth(ratio: Exact, bound: Exact, share: Exact)
    ensures
        within_bound(ratio, bound) <==> (ratio.v - bound.v) * 1_000_000_000real <= 1real,
        off_one(share) <==> (share.v - 1real) * 1_000_000_000real > 1real || (1real - share.v)
            * 1_000_000_000real > 1real,
{
    let t = 1real / 1_000_000_000real;
    assert(t * 1_000_000_000real == 1real) by (nonlinear_arith)
        requires
            t == 1real / 1_000_000_000real,
    ;
}

/// In exact arithmetic a walk fails for idling exactly if it idled with a step available, by more
/// than a billionth of its ticks.
#[verifier::spinoff_prover]
pub proof fn law_free_idling_fails(t: Traversal)
    requires
        t.accounted(),
        t.ticks > 0,
    ensures
        off_one(s_util_of::<Exact>(Some(t))) <==> t.idle_free * 1_000_000_000 > t.ticks,
{
    let (u, n, f) = (s_util_of::<Exact>(Some(t)).v, t.ticks as real, t.idle_free as real);
    let part = (t.moves + t.idle_fatigued) as u64 as real;
    assert(part == n - f);
    assert(u == part / n);
    assert((1real - u) * n == f) by (nonlinear_arith)
        requires
            u == (n - f) / n,
            n > 0real,
    ;
    law_gates_hold_to_a_billionth(Exact { v: 0real }, Exact { v: 0real }, Exact { v: u });
    assert((1real - u) * 1_000_000_000real > 1real <==> f * 1_000_000_000real > n) by (nonlinear_arith)
        requires
            (1real - u) * n == f,
            n > 0real,
    ;
    assert((u - 1real) * 1_000_000_000real <= 1real) by (nonlinear_arith)
        requires
            (1real - u) * n == f,
            n > 0real,
            f >= 0real,
    ;
    assert((t.idle_free * 1_000_000_000) as real == f * 1_000_000_000real);
}

/// The failures of a scenario name the gates that it did not meet, each once and in order:
/// solvability, route optimality, travel time, idling.
pub proof fn law_failures_name_their_gates<S: Scalar>(
    s: &Scenario<S>,
    m: &Measured<S>,
    r: ScenarioResult<S>,
)
    requires
        call_ensures(validate::<S>, (s, m), r),
    ensures
        ({
            let unsolvable = !m.solvable;
            let fatigue = m.r_fatigue is None || !within_bound(
                m.r_fatigue.unwrap(),
                s.max_r_fatigue,
            );
            let ticks = m.r_ticks is None || !within_bound(m.r_ticks.unwrap(), s.max_r_ticks);
            let idling = m.traversal is Some && off_one(s_util_of::<S>(m.traversal));
            let one = |b: bool|
                if b {
                    1int
                } else {
                    0int
                };
            let f = r.failures@;
            let (a, b, c) = (one(unsolvable), one(unsolvable) + one(fatigue), one(unsolvable) + one(
                fatigue,
            ) + one(ticks));
            &&& f.len() == c + one(idling)
            &&& r.passed <==> !unsolvable && !fatigue && !ticks && !idling
            &&& unsolvable ==> f[0] is Unsolvable
            &&& fatigue ==> f[a] == match m.r_fatigue {
                Some(ratio) => Failure::FatigueRatio { ratio, bound: s.max_r_fatigue },
                None => Failure::NoFatigueRatio,
            }
            &&& ticks ==> f[b] == match m.r_ticks {
                Some(ratio) => Failure::TickRatio { ratio, bound: s.max_r_ticks },
                None => Failure::NoTickRatio,
            }
            &&& idling ==> f[c] == (Failure::FreeIdling { util: s_util_of::<S>(m.traversal) })
        }),
{
}

/// A result repeats what was measured, and gives the shares of the walk; without a walk both are
/// nothing.
pub proof fn law_result_repeats_the_measurement<S: Scalar>(
    s: &Scenario<S>,
    m: &Measured<S>,
    r: ScenarioResult<S>,
)
    requires
        call_ensures(validate::<S>, (s, m), r),
    ensures
        r.name == s.name,
        r.solvable == m.solvable,
        r.r_fatigue == m.r_fatigue,
        r.r_ticks == m.r_ticks,
        m.traversal matches Some(t) ==> t.accounted() ==> r.movement_eff == s_tick_share::<S>(
            t.moves as u64,
            t.ticks as u64,
        ) && r.fatigue_util == s_tick_share::<S>((t.ticks - t.idle_free) as u64, t.ticks as u64),
        m.traversal is None ==> r.movement_eff == S::s_of(0) && r.fatigue_util == S::s_of(0),
{
}

/// Of tiles that are as near the first of the region is picked, and the middle of the room where
/// the region has no tile off the border. Nearness is the straight distance to the given column on
/// the middle row.
#[verifier::spinoff_prover]
pub proof fn law_first_of_the_nearest_is_picked(region: Seq<(u8, u8)>, tx: int, i: int)
    ensures
        ({
            let p = picked(region, tx);
            let miss = |t: (u8, u8)| (t.0 - tx) * (t.0 - tx) + (t.1 - 25) * (t.1 - 25);
            let off_border = |t: (u8, u8)| 1 <= t.0 <= 48 && 1 <= t.1 <= 48;
            &&& 0 <= i < region.len() && off_border(region[i]) ==> miss(p) <= miss(region[i])
            &&& 0 <= i < region.len() && off_border(region[i]) && miss(p) == miss(region[i])
                ==> exists|j: int| 0 <= j <= i && #[trigger] region[j] == p
            &&& (forall|k: int| 0 <= k < region.len() ==> !off_border(#[trigger] region[k])) ==> p
                == (25u8, 25u8)
        }),
{
    lemma_nearest_interior(region, tx);
    lemma_first_nearest(region, tx, i);
    lemma_square(picked(region, tx), tx);
    if 0 <= i < region.len() {
        lemma_square(region[i], tx);
        law_picked_is_nearest(region, tx);
    }
    if nearest_interior(region, tx) is Some {
        let t = nearest_interior(region, tx).unwrap();
        let k = choose|k: int| 0 <= k < region.len() && region[k] == t;
        assert(interior(region[k]));
    }
}

proof fn lemma_square(t: (u8, u8), tx: int)
    ensures
        off_target(t, tx) == (t.0 - tx) * (t.0 - tx) + (t.1 - 25) * (t.1 - 25),
{
    let (a, b) = (t.0 - tx, t.1 - 25);
    assert((-a) * (-a) == a * a && (-b) * (-b) == b * b) by (nonlinear_arith);
}

proof fn lemma_first_nearest(region: Seq<(u8, u8)>, tx: int, i: int)
    ensures
        0 <= i < region.len() && interior(region[i]) && nearest_interior(region, tx) is Some
            && off_target(nearest_interior(region, tx).unwrap(), tx) == off_target(region[i], tx)
            ==> exists|j: int| 0 <= j <= i && #[trigger] region[j] == nearest_interior(
            region,
            tx,
        ).unwrap(),
    decreases region.len(),
{
    if region.len() > 0 && 0 <= i < region.len() && interior(region[i]) {
        let front = region.drop_last();
        lemma_first_nearest(front, tx, i);
        lemma_nearest_interior(front, tx);
        lemma_nearest_interior(region, tx);
        if nearest_interior(region, tx) is Some && off_target(
            nearest_interior(region, tx).unwrap(),
            tx,
        ) == off_target(region[i], tx) {
            let now = nearest_interior(region, tx).unwrap();
            if i < front.len() {
                assert(front[i] == region[i]);
                assert(nearest_interior(front, tx) is Some);
                let before = nearest_interior(front, tx).unwrap();
                assert(off_target(before, tx) <= off_target(front[i], tx)) by {
                    law_picked_is_nearest(front, tx);
                }
                assert(now == before);
                let j = choose|j: int| 0 <= j <= i && #[trigger] front[j] == before;
                assert(region[j] == now);
            } else {
                let k = choose|k: int| 0 <= k < region.len() && region[k] == now;
                assert(region[k] == now);
            }
        }
    }
}

/// A patch covers the tiles within its radius, but for those on the far borders of the room.
pub proof fn law_patch_reaches_its_radius(p: Patch, t: (u8, u8))
    ensures
        p.covers(t) <==> chebyshev((p.cx, p.cy), t) <= p.radius && t.0 <= 48 && t.1 <= 48,
{
}

/// The ways of the catalog run between open tiles ten apart. Where nothing lies in the way a mover
/// has to find the optimum exactly; where something does it may take five percent more fatigue and
/// ten percent more ticks.
pub proof fn law_catalog_allows_for_detours(k: int)
    requires
        0 <= k < 7,
    ensures
        ({
            let e = catalog_entry(k);
            let bare = e.walls == Set::<(u8, u8)>::empty() && e.swamps == Set::<(u8, u8)>::empty();
            &&& bare ==> e.fatigue_percent == 100 && e.ticks_percent == 100
            &&& !bare ==> e.fatigue_percent == 105 && e.ticks_percent == 110
            &&& bare <==> k == 0 || k == 4 || k == 5
            &&& !e.walls.contains((10, 25)) && !e.walls.contains((20, 25))
            &&& !e.swamps.contains((10, 25)) && !e.swamps.contains((20, 25))
        }),
{
    let e = catalog_entry(k);
    if k == 1 {
        assert(e.walls.contains((15, 25)));
    } else if k == 2 || k == 3 || k == 6 {
        assert(e.swamps.contains((15, 25)));
    }
}

} // verus!
