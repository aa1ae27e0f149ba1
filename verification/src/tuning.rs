//! The parameter tournament: a fixed corpus of hauling scenarios, the score of one configuration
//! over it, and the ranking of configurations.

use crate::base_traffic::{base_scenario, checked_traffic_fleet, ends_on_grid, is_traffic, realizes, CapturedLayout};
use crate::body::{hauler_body, hauler_parts};
use crate::grid::{home_room, named_room, pos_in, safe_name, west_north_room, western_room, Position};
use crate::haul::{HaulAssignment, HaulOutcome};
use crate::list::copied;
use crate::scalar::{Exact, Numbers, Scalar};
use crate::stats::{draws_suffice, lemma_totals_add_up, s_summary, s_totals, s_weighted_mean, Summary};
use crate::terrain::{gapped_wall, insert_rect, one_gap_room, rect, road_through_swamp, SimTerrain};
use crate::text::{
    comes_before, law_text_order_is_total, law_text_order_is_transitive, parts_at, same_text, text_before,
};
use crate::value::{quantize_w, s_quantum};
use vstd::prelude::*;
use vstd::string::StringExecFns;

verus! {

/// The label of the synthetic family.
pub const FAMILY_SYNTHETIC: &'static str = "synthetic";

/// The label of the family of captured rooms.
pub const FAMILY_REAL: &'static str = "real";

/// The label of the family of border routes.
pub const FAMILY_BORDER: &'static str = "border";

/// The families that the objective is reported by, in the order of their labels.
#[derive(Clone, Copy, Debug, PartialEq, Eq, Structural)]
pub enum Family {
    /// Routes across a room border.
    Border,
    /// Captured room layouts.
    Real,
    /// Rooms built to exercise one mechanism.
    Synthetic,
}

impl Family {
    /// The label of a family.
    pub open spec fn s_label(self) -> Seq<char> {
        match self {
            Family::Border => FAMILY_BORDER@,
            Family::Real => FAMILY_REAL@,
            Family::Synthetic => FAMILY_SYNTHETIC@,
        }
    }

    /// The label of the family in reports.
    pub fn label(self) -> (r: &'static str)
        ensures
            r@ == self.s_label(),
    {
        match self {
            Family::Border => FAMILY_BORDER,
            Family::Real => FAMILY_REAL,
            Family::Synthetic => FAMILY_SYNTHETIC,
        }
    }
}

/// A scenario of the corpus.
#[derive(Debug)]
pub struct TuneScenario {
    pub name: String,
    pub family: Family,
    pub terrain: SimTerrain,
    pub fleet: Vec<HaulAssignment>,
    pub tick_cap: u32,
}

/// A hauler with `parts` carry parts and as many move parts that makes two trips of `q` cargo.
pub open spec fn hauls(a: HaulAssignment, parts: nat, q: u32, source: Position, sink: Position) -> bool {
    &&& a.body.is_unboosted(hauler_parts(parts, parts))
    &&& a.q == q
    &&& a.source == source
    &&& a.sink == sink
    &&& a.trips == 2
}

/// A hauler that makes two trips.
fn hauler(parts: usize, q: u32, source: Position, sink: Position) -> (r: HaulAssignment)
    requires
        parts <= 25,
    ensures
        hauls(r, parts as nat, q, source, sink),
{
    HaulAssignment { body: hauler_body(parts, parts), q, source, sink, trips: 2 }
}

/// A tile of the home room.
pub open spec fn home(x: int, y: int) -> Position {
    Position { room: west_north_room(1, 1), x: x as u8, y: y as u8 }
}

/// A tile of the room west of the home room.
pub open spec fn west(x: int, y: int) -> Position {
    Position { room: west_north_room(2, 1), x: x as u8, y: y as u8 }
}

/// What a built scenario holds but for its fleet.
pub open spec fn frame(
    s: TuneScenario,
    name: Seq<char>,
    family: Family,
    walls: Set<(u8, u8)>,
    swamps: Set<(u8, u8)>,
    roads: Set<(u8, u8)>,
    tick_cap: u32,
) -> bool {
    &&& s.name@ == name
    &&& s.family == family
    &&& s.terrain.made_of(walls, swamps, roads)
    &&& s.tick_cap == tick_cap
}

/// Every hauler of the fleet from `k` on is the small one on one route.
pub open spec fn all_haul(fleet: Seq<HaulAssignment>, k: int, source: Position, sink: Position) -> bool {
    forall|i: int| k <= i < fleet.len() ==> hauls(#[trigger] fleet[i], 2, 100, source, sink)
}

/// The free-flow floor: four haulers on parallel lanes.
pub open spec fn is_open_lanes(s: TuneScenario) -> bool {
    &&& frame(
        s,
        "open_lanes"@,
        Family::Synthetic,
        Set::empty(),
        Set::empty(),
        Set::empty(),
        400,
    )
    &&& s.fleet@.len() == 4
    &&& forall|i: int|
        0 <= i < 4 ==> hauls(
            #[trigger] s.fleet@[i],
            2,
            100,
            home(10, 20 + 2 * i),
            home(20, 20 + 2 * i),
        )
}

/// Four haulers share a route through one gap.
pub open spec fn is_pinch(s: TuneScenario) -> bool {
    &&& frame(
        s,
        "pinch"@,
        Family::Synthetic,
        gapped_wall(),
        Set::empty(),
        Set::empty(),
        2_000,
    )
    &&& s.fleet@.len() == 4
    &&& all_haul(s.fleet@, 0, home(10, 25), home(20, 25))
}

/// One hauler of large cargo and three of small share a route through one gap.
pub open spec fn is_pinch_hetero(s: TuneScenario) -> bool {
    &&& frame(
        s,
        "pinch_hetero"@,
        Family::Synthetic,
        gapped_wall(),
        Set::empty(),
        Set::empty(),
        2_000,
    )
    &&& s.fleet@.len() == 4
    &&& hauls(s.fleet@[0], 16, 800, home(10, 25), home(20, 25))
    &&& all_haul(s.fleet@, 1, home(10, 25), home(20, 25))
}

/// Two perpendicular routes of two haulers cross.
pub open spec fn is_cross_traffic(s: TuneScenario) -> bool {
    &&& frame(
        s,
        "cross_traffic"@,
        Family::Synthetic,
        Set::empty(),
        Set::empty(),
        Set::empty(),
        1_000,
    )
    &&& s.fleet@.len() == 4
    &&& hauls(s.fleet@[0], 2, 100, home(15, 25), home(35, 25))
    &&& hauls(s.fleet@[1], 2, 100, home(16, 25), home(35, 25))
    &&& hauls(s.fleet@[2], 2, 100, home(25, 15), home(25, 35))
    &&& hauls(s.fleet@[3], 2, 100, home(25, 16), home(25, 35))
}

/// Two haulers share a road through a swamp band.
pub open spec fn is_swamp_road(s: TuneScenario) -> bool {
    &&& frame(
        s,
        "swamp_road"@,
        Family::Synthetic,
        Set::empty(),
        rect(13, 17, 0, 49),
        rect(13, 17, 25, 25),
        1_000,
    )
    &&& s.fleet@.len() == 2
    &&& all_haul(s.fleet@, 0, home(10, 25), home(20, 25))
}

/// Two haulers cycle across a room border, over plains.
pub open spec fn is_border_plain(s: TuneScenario) -> bool {
    &&& frame(
        s,
        "border_plain"@,
        Family::Border,
        Set::empty(),
        Set::empty(),
        Set::empty(),
        800,
    )
    &&& s.fleet@.len() == 2
    &&& all_haul(s.fleet@, 0, home(10, 25), west(40, 25))
}

/// All tiles but those of row 25.
pub open spec fn off_row() -> Set<(u8, u8)> {
    Set::new(|t: (u8, u8)| t.0 <= 49 && t.1 <= 49 && t.1 != 25)
}

/// Two haulers cycle across a room border, on a road with swamp on both sides.
pub open spec fn is_border_swamp_road(s: TuneScenario) -> bool {
    &&& frame(
        s,
        "border_swamp_road"@,
        Family::Border,
        Set::empty(),
        off_row(),
        rect(0, 49, 25, 25),
        2_000,
    )
    &&& s.fleet@.len() == 2
    &&& all_haul(s.fleet@, 0, home(10, 25), west(40, 25))
}

/// `n` small haulers on one route.
fn small_fleet(n: usize, source: Position, sink: Position) -> (r: Vec<HaulAssignment>)
    ensures
        r@.len() == n,
        all_haul(r@, 0, source, sink),
{
    let mut r: Vec<HaulAssignment> = Vec::new();
    let mut i: usize = 0;
    while i < n
        invariant
            i <= n,
            r@.len() == i,
            all_haul(r@, 0, source, sink),
        decreases n - i,
    {
        r.push(hauler(2, 100, source, sink));
        i += 1;
    }
    r
}

/// The synthetic scenarios, in order.
pub open spec fn is_synthetic(s: Seq<TuneScenario>) -> bool {
    &&& s.len() == 5
    &&& is_open_lanes(s[0])
    &&& is_pinch(s[1])
    &&& is_pinch_hetero(s[2])
    &&& is_cross_traffic(s[3])
    &&& is_swamp_road(s[4])
}

/// The synthetic scenarios: free-flow floor, one-gap pinch, pinch of unequal cargo, crossing
/// routes, road through swamp.
pub fn synthetic_corpus() -> (r: Vec<TuneScenario>)
    ensures
        is_synthetic(r@),
{
    let room: u16 = home_room();
    let a = pos_in(room, 10, 25);
    let b = pos_in(room, 20, 25);
    let mut lanes: Vec<HaulAssignment> = Vec::new();
    lanes.push(hauler(2, 100, pos_in(room, 10, 20), pos_in(room, 20, 20)));
    lanes.push(hauler(2, 100, pos_in(room, 10, 22), pos_in(room, 20, 22)));
    lanes.push(hauler(2, 100, pos_in(room, 10, 24), pos_in(room, 20, 24)));
    lanes.push(hauler(2, 100, pos_in(room, 10, 26), pos_in(room, 20, 26)));
    let mut unequal: Vec<HaulAssignment> = Vec::new();
    unequal.push(hauler(16, 800, a, b));
    unequal.push(hauler(2, 100, a, b));
    unequal.push(hauler(2, 100, a, b));
    unequal.push(hauler(2, 100, a, b));
    let mut crossing: Vec<HaulAssignment> = Vec::new();
    crossing.push(hauler(2, 100, pos_in(room, 15, 25), pos_in(room, 35, 25)));
    crossing.push(hauler(2, 100, pos_in(room, 16, 25), pos_in(room, 35, 25)));
    crossing.push(hauler(2, 100, pos_in(room, 25, 15), pos_in(room, 25, 35)));
    crossing.push(hauler(2, 100, pos_in(room, 25, 16), pos_in(room, 25, 35)));
    let mut r: Vec<TuneScenario> = Vec::new();
    r.push(
        TuneScenario {
            name: "open_lanes".to_string(),
            family: Family::Synthetic,
            terrain: SimTerrain::default(),
            fleet: lanes,
            tick_cap: 400,
        },
    );
    r.push(
        TuneScenario {
            name: "pinch".to_string(),
            family: Family::Synthetic,
            terrain: one_gap_room(),
            fleet: small_fleet(4, a, b),
            tick_cap: 2_000,
        },
    );
    r.push(
        TuneScenario {
            name: "pinch_hetero".to_string(),
            family: Family::Synthetic,
            terrain: one_gap_room(),
            fleet: unequal,
            tick_cap: 2_000,
        },
    );
    r.push(
        TuneScenario {
            name: "cross_traffic".to_string(),
            family: Family::Synthetic,
            terrain: SimTerrain::default(),
            fleet: crossing,
            tick_cap: 1_000,
        },
    );
    r.push(
        TuneScenario {
            name: "swamp_road".to_string(),
            family: Family::Synthetic,
            terrain: road_through_swamp(),
            fleet: small_fleet(2, a, b),
            tick_cap: 1_000,
        },
    );
    r
}

/// The border scenarios.
pub fn border_corpus() -> (r: Vec<TuneScenario>)
    ensures
        r@.len() == 2,
        is_border_plain(r@[0]),
        is_border_swamp_road(r@[1]),
{
    let a = pos_in(home_room(), 10, 25);
    let b = pos_in(western_room(), 40, 25);
    let mut corridor = SimTerrain::default();
    insert_rect(&mut corridor.swamps, 0, 49, 0, 24);
    insert_rect(&mut corridor.swamps, 0, 49, 26, 49);
    insert_rect(&mut corridor.roads, 0, 49, 25, 25);
    assert(corridor.swamps@ =~= off_row());
    assert(corridor.roads@ =~= rect(0, 49, 25, 25));
    let mut r: Vec<TuneScenario> = Vec::new();
    r.push(
        TuneScenario {
            name: "border_plain".to_string(),
            family: Family::Border,
            terrain: SimTerrain::default(),
            fleet: small_fleet(2, a, b),
            tick_cap: 800,
        },
    );
    r.push(
        TuneScenario {
            name: "border_swamp_road".to_string(),
            family: Family::Border,
            terrain: corridor,
            fleet: small_fleet(2, a, b),
            tick_cap: 2_000,
        },
    );
    r
}

/// A captured layout with its terrain decoded.
#[derive(Debug)]
pub struct DecodedLayout {
    pub layout: CapturedLayout,
    pub decoded: SimTerrain,
}

/// The room is one of those that the fast corpus keeps: a healthy room as regression floor, and
/// two rooms that once starved.
pub open spec fn is_fast_pick(room: Seq<char>) -> bool {
    room == "E11N13"@ || room == "E13S29"@ || room == "E11N17"@
}

/// Whether the fast corpus keeps the room.
pub fn fast_pick(room: &str) -> (r: bool)
    ensures
        r == is_fast_pick(room@),
{
    same_text(room, "E11N13") || same_text(room, "E13S29") || same_text(room, "E11N17")
}

/// The name of the layout's room can be read.
pub open spec fn readable(l: DecodedLayout) -> bool {
    safe_name(l.layout.room@) && named_room(l.layout.room@) is Some
}

/// The scenario is the traffic of a captured layout.
pub open spec fn is_base(s: TuneScenario, l: DecodedLayout) -> bool {
    &&& s.name@ == "base:"@ + l.layout.room@
    &&& s.family == Family::Real
    &&& realizes(s.terrain, l.layout, l.decoded)
    &&& is_traffic(s.fleet@, named_room(l.layout.room@).unwrap(), l.layout, s.terrain)
    &&& s.tick_cap == 2_500
}

/// The places of the layouts that the fast corpus keeps, or of those that it leaves out.
pub open spec fn selected(layouts: Seq<DecodedLayout>, fast: bool) -> Seq<int>
    decreases layouts.len(),
{
    if layouts.len() == 0 {
        Seq::empty()
    } else {
        let before = selected(layouts.drop_last(), fast);
        if is_fast_pick(layouts.last().layout.room@) == fast {
            before.push(layouts.len() - 1)
        } else {
            before
        }
    }
}

/// Every selected layout has a readable room name.
pub open spec fn all_readable(layouts: Seq<DecodedLayout>, fast: bool) -> bool {
    forall|i: int|
        0 <= i < layouts.len() && is_fast_pick((#[trigger] layouts[i]).layout.room@) == fast
            ==> readable(layouts[i])
}

/// The scenarios are those of the selected layouts, in order.
pub open spec fn are_bases(s: Seq<TuneScenario>, layouts: Seq<DecodedLayout>, fast: bool) -> bool {
    &&& s.len() == selected(layouts, fast).len()
    &&& forall|k: int|
        0 <= k < s.len() ==> is_base(#[trigger] s[k], layouts[selected(layouts, fast)[k]])
}

/// The traffic of every selected layout starts and ends on the grid.
pub open spec fn layouts_ok(layouts: Seq<DecodedLayout>, fast: bool) -> bool {
    forall|i: int|
        0 <= i < layouts.len() && is_fast_pick((#[trigger] layouts[i]).layout.room@) == fast
            ==> ends_on_grid(layouts[i].layout)
}

proof fn lemma_selected(layouts: Seq<DecodedLayout>, fast: bool)
    ensures
        forall|k: int|
            0 <= k < selected(layouts, fast).len() ==> 0 <= #[trigger] selected(layouts, fast)[k]
                < layouts.len(),
    decreases layouts.len(),
{
    if layouts.len() > 0 {
        let front = layouts.drop_last();
        lemma_selected(front, fast);
        assert forall|k: int| 0 <= k < selected(layouts, fast).len() implies 0
            <= #[trigger] selected(layouts, fast)[k] < layouts.len() by {
            if k < selected(front, fast).len() {
                assert(selected(layouts, fast)[k] == selected(front, fast)[k]);
            }
        }
    }
}

/// The scenario of one captured layout; `None` where its room name cannot be read.
fn layout_scenario(l: &DecodedLayout) -> (r: Option<TuneScenario>)
    requires
        ends_on_grid(l.layout),
    ensures
        r is Some <==> readable(*l),
        r matches Some(s) ==> is_base(s, *l),
{
    let terrain = base_scenario(&l.layout, &l.decoded);
    match checked_traffic_fleet(&l.layout, &terrain) {
        None => None,
        Some(fleet) => {
            let prefix = "base:".to_string();
            let name = prefix.concat(l.layout.room.as_str());
            Some(
                TuneScenario { name, family: Family::Real, terrain, fleet, tick_cap: 2_500 },
            )
        },
    }
}

/// The scenarios of the selected layouts; `None` where a room name cannot be read.
fn base_corpus(layouts: &[DecodedLayout], fast: bool) -> (r: Option<Vec<TuneScenario>>)
    requires
        layouts_ok(layouts@, fast),
    ensures
        r is Some <==> all_readable(layouts@, fast),
        r matches Some(s) ==> are_bases(s@, layouts@, fast),
{
    let mut r: Vec<TuneScenario> = Vec::new();
    let mut i: usize = 0;
    while i < layouts.len()
        invariant
            i <= layouts@.len(),
            layouts_ok(layouts@, fast),
            forall|k: int|
                0 <= k < i && is_fast_pick((#[trigger] layouts@[k]).layout.room@) == fast
                    ==> readable(layouts@[k]),
            are_bases(r@, layouts@.take(i as int), fast),
        decreases layouts@.len() - i,
    {
        let ghost now = layouts@.take(i + 1);
        let ghost before = layouts@.take(i as int);
        let ghost made = r@;
        proof {
            assert(now.drop_last() =~= before);
            assert(now.last() == layouts@[i as int]);
            lemma_selected(before, fast);
            assert(is_fast_pick(layouts@[i as int].layout.room@) == fast ==> ends_on_grid(
                layouts@[i as int].layout,
            ));
        }
        if fast_pick(layouts[i].layout.room.as_str()) == fast {
            match layout_scenario(&layouts[i]) {
                None => {
                    assert(!readable(layouts@[i as int]));
                    return None;
                },
                Some(s) => {
                    r.push(s);
                },
            }
        }
        proof {
            assert forall|k: int| 0 <= k < r@.len() implies is_base(
                #[trigger] r@[k],
                now[selected(now, fast)[k]],
            ) by {
                if k < made.len() {
                    assert(r@[k] == made[k]);
                    assert(selected(now, fast)[k] == selected(before, fast)[k]);
                    assert(0 <= selected(before, fast)[k] < before.len());
                    assert(is_base(made[k], before[selected(before, fast)[k]]));
                    assert(now[selected(now, fast)[k]] == before[selected(before, fast)[k]]);
                }
            }
        }
        i += 1;
    }
    assert(layouts@.take(i as int) =~= layouts@);
    Some(r)
}

/// The fast corpus: the synthetic scenarios, then the layouts that it keeps.
pub open spec fn is_corpus(s: Seq<TuneScenario>, layouts: Seq<DecodedLayout>) -> bool {
    &&& s.len() >= 5
    &&& is_synthetic(s.take(5))
    &&& are_bases(s.skip(5), layouts, true)
}

/// The default tuning corpus: the synthetic scenarios and three captured rooms. `None` where the
/// name of one of those rooms cannot be read.
pub fn corpus(layouts: &[DecodedLayout]) -> (r: Option<Vec<TuneScenario>>)
    requires
        layouts_ok(layouts@, true),
    ensures
        r is Some <==> all_readable(layouts@, true),
        r matches Some(s) ==> is_corpus(s@, layouts@),
{
    match base_corpus(layouts, true) {
        None => None,
        Some(found) => {
            let mut s = synthetic_corpus();
            let mut rooms = found;
            let ghost five = s@;
            let ghost bases = rooms@;
            s.append(&mut rooms);
            proof {
                assert(s@.take(5) =~= five);
                assert(s@.skip(5) =~= bases);
            }
            Some(s)
        },
    }
}

/// The full corpus: the fast one, then the layouts that it leaves out, then the border routes.
pub open spec fn is_corpus_full(s: Seq<TuneScenario>, layouts: Seq<DecodedLayout>) -> bool {
    let fast = (5 + selected(layouts, true).len()) as int;
    let rooms = (5 + selected(layouts, true).len() + selected(layouts, false).len()) as int;
    &&& s.len() == rooms + 2
    &&& is_corpus(s.take(fast), layouts)
    &&& are_bases(s.subrange(fast, rooms), layouts, false)
    &&& is_border_plain(s[rooms])
    &&& is_border_swamp_road(s[rooms + 1])
}

/// The full tuning corpus: every captured room, and the routes across a border. `None` where the
/// name of a room cannot be read.
pub fn corpus_full(layouts: &[DecodedLayout]) -> (r: Option<Vec<TuneScenario>>)
    requires
        layouts_ok(layouts@, true),
        layouts_ok(layouts@, false),
    ensures
        r is Some <==> all_readable(layouts@, true) && all_readable(layouts@, false),
        r matches Some(s) ==> is_corpus_full(s@, layouts@),
{
    match (corpus(layouts), base_corpus(layouts, false)) {
        (Some(fast), Some(rest)) => {
            let mut s = fast;
            let mut rest = rest;
            let mut border = border_corpus();
            let ghost a = s@;
            let ghost b = rest@;
            let ghost c = border@;
            s.append(&mut rest);
            s.append(&mut border);
            proof {
                let n = (5 + selected(layouts@, true).len()) as int;
                let m = (5 + selected(layouts@, true).len() + selected(
                    layouts@,
                    false,
                ).len()) as int;
                assert(a.skip(5).len() == selected(layouts@, true).len());
                assert(s@ =~= a + b + c);
                assert(s@.take(n) =~= a);
                assert(s@.subrange(n, m) =~= b);
                assert(s@[m] == c[0] && s@[m + 1] == c[1]);
            }
            Some(s)
        },
        _ => None,
    }
}

/// The objective of one family.
#[derive(Debug)]
pub struct FamilySummary<S> {
    pub family: Family,
    pub summary: Summary<S>,
}

impl<S: Copy> Clone for FamilySummary<S> {
    fn clone(&self) -> (r: Self)
        ensures
            r == *self,
    {
        *self
    }
}

impl<S: Copy> Copy for FamilySummary<S> {

}

/// The score of one configuration over a corpus.
#[derive(Debug)]
pub struct TuneScore<S> {
    /// The objective: weighted efficiency over every trip of the corpus.
    pub h: S,
    pub ci95: (S, S),
    pub p05: S,
    /// The objective of every family of the corpus, in the order of their labels.
    pub per_family: Vec<FamilySummary<S>>,
    /// Completed over expected trips.
    pub completion: S,
    pub deadlocks: u32,
    /// Moves that failed with only active creeps involved.
    pub failed_coordination: u32,
    /// Moves that failed on parked creeps.
    pub failed_into_parked: u32,
    pub intents_issued: u32,
    pub total_ticks: u32,
    /// Nothing deadlocked, and no move failed with only active creeps involved.
    pub gates_held: bool,
}

impl<S: Copy> Clone for TuneScore<S> {
    fn clone(&self) -> (r: Self)
        ensures
            r.per_family@ == self.per_family@,
            r == (TuneScore { per_family: r.per_family, ..*self }),
    {
        TuneScore {
            h: self.h,
            ci95: self.ci95,
            p05: self.p05,
            per_family: copied(self.per_family.as_slice()),
            completion: self.completion,
            deadlocks: self.deadlocks,
            failed_coordination: self.failed_coordination,
            failed_into_parked: self.failed_into_parked,
            intents_issued: self.intents_issued,
            total_ticks: self.total_ticks,
            gates_held: self.gates_held,
        }
    }
}

/// The key by which scores are preferred, greatest first.
pub open spec fn s_ranked_key<S: Numbers>(score: TuneScore<S>) -> (u8, i64, i64, i64) {
    (
        if score.gates_held {
            1
        } else {
            0
        },
        s_quantum(score.h),
        (-(score.failed_into_parked + score.failed_coordination)) as i64,
        (-(score.total_ticks as int)) as i64,
    )
}

impl<S: Scalar> TuneScore<S> {
    /// The wasted moves are representable.
    pub open spec fn countable(self) -> bool {
        self.failed_into_parked + self.failed_coordination <= u32::MAX
    }

    /// The key by which scores are preferred, greatest first: gates, then the objective in
    /// thousandths, then fewer wasted moves, then fewer ticks.
    pub fn ranked_key(&self) -> (r: (u8, i64, i64, i64))
        requires
            self.countable(),
        ensures
            r == s_ranked_key(*self),
    {
        let wasted: u32 = self.failed_into_parked + self.failed_coordination;
        let gates: u8 = if self.gates_held {
            1
        } else {
            0
        };
        (gates, quantize_w(self.h), -(wasted as i64), -(self.total_ticks as i64))
    }
}

/// The samples of the first `n` outcomes, one after another.
pub open spec fn pooled<S: Numbers>(outcomes: Seq<HaulOutcome<S>>, n: nat) -> Seq<(S, S)>
    decreases n,
{
    if n == 0 {
        Seq::empty()
    } else {
        pooled(outcomes, (n - 1) as nat) + outcomes[n - 1].samples@
    }
}

/// The samples of the first `n` outcomes that belong to a family.
pub open spec fn pooled_in<S: Numbers>(
    corpus: Seq<TuneScenario>,
    outcomes: Seq<HaulOutcome<S>>,
    family: Family,
    n: nat,
) -> Seq<(S, S)>
    decreases n,
{
    if n == 0 {
        Seq::empty()
    } else {
        let before = pooled_in(corpus, outcomes, family, (n - 1) as nat);
        if corpus[n - 1].family == family {
            before + outcomes[n - 1].samples@
        } else {
            before
        }
    }
}

/// Every sample belongs to exactly one family: the families' samples are as many as all.
pub proof fn law_families_partition_the_samples<S: Scalar>(
    corpus: Seq<TuneScenario>,
    outcomes: Seq<HaulOutcome<S>>,
    n: nat,
)
    ensures
        pooled_in(corpus, outcomes, Family::Border, n).len() + pooled_in(
            corpus,
            outcomes,
            Family::Real,
            n,
        ).len() + pooled_in(corpus, outcomes, Family::Synthetic, n).len() == pooled(
            outcomes,
            n,
        ).len(),
        pooled_in(corpus, outcomes, Family::Border, n).to_multiset().add(
            pooled_in(corpus, outcomes, Family::Real, n).to_multiset(),
        ).add(pooled_in(corpus, outcomes, Family::Synthetic, n).to_multiset()) == pooled(
            outcomes,
            n,
        ).to_multiset(),
    decreases n,
{
    broadcast use vstd::seq_lib::group_to_multiset_ensures;

    if n == 0 {
        assert(pooled_in(corpus, outcomes, Family::Border, 0).to_multiset().add(
            pooled_in(corpus, outcomes, Family::Real, 0).to_multiset(),
        ).add(pooled_in(corpus, outcomes, Family::Synthetic, 0).to_multiset()) =~= pooled(
            outcomes,
            0,
        ).to_multiset());
    } else {
        let m = (n - 1) as nat;
        law_families_partition_the_samples(corpus, outcomes, m);
        let own = outcomes[n - 1].samples@;
        let b = pooled_in(corpus, outcomes, Family::Border, m);
        let r = pooled_in(corpus, outcomes, Family::Real, m);
        let s = pooled_in(corpus, outcomes, Family::Synthetic, m);
        let all = pooled(outcomes, m);
        vstd::seq_lib::lemma_multiset_commutative(b, own);
        vstd::seq_lib::lemma_multiset_commutative(r, own);
        vstd::seq_lib::lemma_multiset_commutative(s, own);
        vstd::seq_lib::lemma_multiset_commutative(all, own);
        assert(pooled_in(corpus, outcomes, Family::Border, n).to_multiset().add(
            pooled_in(corpus, outcomes, Family::Real, n).to_multiset(),
        ).add(pooled_in(corpus, outcomes, Family::Synthetic, n).to_multiset()) =~= pooled(
            outcomes,
            n,
        ).to_multiset());
    }
}

/// In exact arithmetic the pooled objective is the mean of the families' objectives, each weighted
/// by what its trips weigh.
pub proof fn law_pool_is_the_sum_of_the_families(
    corpus: Seq<TuneScenario>,
    outcomes: Seq<HaulOutcome<Exact>>,
    n: nat,
)
    ensures
        ({
            let all = s_totals(pooled(outcomes, n));
            let b = s_totals(pooled_in(corpus, outcomes, Family::Border, n));
            let r = s_totals(pooled_in(corpus, outcomes, Family::Real, n));
            let s = s_totals(pooled_in(corpus, outcomes, Family::Synthetic, n));
            &&& all.0.v == b.0.v + r.0.v + s.0.v
            &&& all.1.v == b.1.v + r.1.v + s.1.v
        }),
    decreases n,
{
    if n > 0 {
        let m = (n - 1) as nat;
        law_pool_is_the_sum_of_the_families(corpus, outcomes, m);
        let own = outcomes[n - 1].samples@;
        lemma_totals_add_up(pooled(outcomes, m), own);
        lemma_totals_add_up(pooled_in(corpus, outcomes, corpus[n - 1].family, m), own);
    }
}

/// No sample weighs less than nothing.
pub open spec fn weights_are_amounts(samples: Seq<(Exact, Exact)>) -> bool {
    forall|k: int| 0 <= k < samples.len() ==> (#[trigger] samples[k]).1.v >= 0real
}

proof fn lemma_weightless(samples: Seq<(Exact, Exact)>)
    requires
        weights_are_amounts(samples),
    ensures
        s_totals(samples).0.v >= 0real,
        s_totals(samples).0.v == 0real ==> s_totals(samples).1.v == 0real,
    decreases samples.len(),
{
    if samples.len() > 0 {
        let front = samples.drop_last();
        assert forall|k: int| 0 <= k < front.len() implies (#[trigger] front[k]).1.v >= 0real by {
            assert(front[k] == samples[k]);
        }
        lemma_weightless(front);
        let w = samples[samples.len() - 1].1.v;
        let v = samples[samples.len() - 1].0.v;
        assert(w >= 0real);
        assert(w == 0real ==> w * v == 0real) by (nonlinear_arith);
    }
}

/// In exact arithmetic the pooled objective never leaves the envelope of the families' objectives:
/// bounds that hold of every family that weighs anything hold of the pool.
pub proof fn law_pool_stays_in_the_family_envelope(
    corpus: Seq<TuneScenario>,
    outcomes: Seq<HaulOutcome<Exact>>,
    lo: real,
    hi: real,
)
    requires
        corpus.len() == outcomes.len(),
        forall|family: Family|
            weights_are_amounts(#[trigger] pooled_in(corpus, outcomes, family, corpus.len())),
        forall|family: Family|
            s_totals(#[trigger] pooled_in(corpus, outcomes, family, corpus.len())).0.v > 0real
                ==> lo <= s_weighted_mean(pooled_in(corpus, outcomes, family, corpus.len())).v
                <= hi,
    ensures
        s_totals(pooled(outcomes, outcomes.len())).0.v > 0real ==> lo <= s_weighted_mean(
            pooled(outcomes, outcomes.len()),
        ).v <= hi,
{
    let n = corpus.len();
    law_pool_is_the_sum_of_the_families(corpus, outcomes, n);
    lemma_family_bounds(pooled_in(corpus, outcomes, Family::Border, n), lo, hi);
    lemma_family_bounds(pooled_in(corpus, outcomes, Family::Real, n), lo, hi);
    lemma_family_bounds(pooled_in(corpus, outcomes, Family::Synthetic, n), lo, hi);
    let b = s_totals(pooled_in(corpus, outcomes, Family::Border, n));
    let r = s_totals(pooled_in(corpus, outcomes, Family::Real, n));
    let s = s_totals(pooled_in(corpus, outcomes, Family::Synthetic, n));
    let all = s_totals(pooled(outcomes, n));
    assert(lo * (b.0.v + r.0.v + s.0.v) == lo * b.0.v + lo * r.0.v + lo * s.0.v) by (nonlinear_arith);
    assert(hi * (b.0.v + r.0.v + s.0.v) == hi * b.0.v + hi * r.0.v + hi * s.0.v) by (nonlinear_arith);
    let (w, t) = (all.0.v, all.1.v);
    if w > 0real {
        assert(lo <= t / w <= hi) by (nonlinear_arith)
            requires
                w > 0real,
                lo * w <= t <= hi * w,
        ;
    }
}

proof fn lemma_family_bounds(samples: Seq<(Exact, Exact)>, lo: real, hi: real)
    requires
        weights_are_amounts(samples),
        s_totals(samples).0.v > 0real ==> lo <= s_weighted_mean(samples).v <= hi,
    ensures
        lo * s_totals(samples).0.v <= s_totals(samples).1.v <= hi * s_totals(samples).0.v,
{
    lemma_weightless(samples);
    let (w, t) = (s_totals(samples).0.v, s_totals(samples).1.v);
    if w > 0real {
        let m = t / w;
        assert(m * w == t) by (nonlinear_arith)
            requires
                m == t / w,
                w > 0real,
        ;
        assert(lo * w <= m * w <= hi * w) by (nonlinear_arith)
            requires
                lo <= m <= hi,
                w > 0real,
        ;
    } else {
        assert(lo * 0real == 0real && hi * 0real == 0real) by (nonlinear_arith);
    }
}

/// Some scenario of the corpus belongs to the family.
pub open spec fn has_family(corpus: Seq<TuneScenario>, family: Family) -> bool {
    exists|i: int| 0 <= i < corpus.len() && (#[trigger] corpus[i]).family == family
}

/// The summary of a family, if the corpus has it.
pub open spec fn family_summary<S: Numbers>(
    corpus: Seq<TuneScenario>,
    outcomes: Seq<HaulOutcome<S>>,
    draws: Seq<u64>,
    family: Family,
) -> Seq<FamilySummary<S>> {
    if has_family(corpus, family) {
        seq![
            FamilySummary {
                family,
                summary: s_summary(pooled_in(corpus, outcomes, family, corpus.len()), draws),
            },
        ]
    } else {
        seq![]
    }
}

/// The summaries of the families that the corpus has.
pub open spec fn family_summaries<S: Numbers>(
    corpus: Seq<TuneScenario>,
    outcomes: Seq<HaulOutcome<S>>,
    draws: Seq<u64>,
) -> Seq<FamilySummary<S>> {
    family_summary(corpus, outcomes, draws, Family::Border) + family_summary(
        corpus,
        outcomes,
        draws,
        Family::Real,
    ) + family_summary(corpus, outcomes, draws, Family::Synthetic)
}

/// What is added up over the outcomes.
#[derive(Clone, Copy, Debug, PartialEq, Eq, Structural)]
pub enum Count {
    Completed,
    Expected,
    Deadlocks,
    Coordination,
    Parked,
    Intents,
    Ticks,
}

/// What one outcome adds.
pub open spec fn counted<S>(o: HaulOutcome<S>, c: Count) -> nat {
    match c {
        Count::Completed => o.completed_trips as nat,
        Count::Expected => o.expected_trips as nat,
        Count::Deadlocks => if o.deadlocked {
            1
        } else {
            0
        },
        Count::Coordination => o.audit.failed_coordination as nat,
        Count::Parked => o.audit.failed_into_parked as nat,
        Count::Intents => o.audit.intents_issued as nat,
        Count::Ticks => o.ticks as nat,
    }
}

/// What the first `n` outcomes add up to.
pub open spec fn sum_of<S>(outcomes: Seq<HaulOutcome<S>>, c: Count, n: nat) -> nat
    decreases n,
{
    if n == 0 {
        0
    } else {
        sum_of(outcomes, c, (n - 1) as nat) + counted(outcomes[n - 1], c)
    }
}

/// Every sum over the outcomes is representable.
pub open spec fn sums_fit<S>(outcomes: Seq<HaulOutcome<S>>) -> bool {
    forall|c: Count| #[trigger] sum_of(outcomes, c, outcomes.len()) <= u32::MAX
}

proof fn lemma_sum_grows<S>(outcomes: Seq<HaulOutcome<S>>, c: Count, m: nat, n: nat)
    requires
        m <= n,
    ensures
        sum_of(outcomes, c, m) <= sum_of(outcomes, c, n),
    decreases n - m,
{
    if m < n {
        lemma_sum_grows(outcomes, c, m, (n - 1) as nat);
    }
}

/// Adds up one count over the outcomes.
fn sum_counts<S: Scalar>(outcomes: &[HaulOutcome<S>], c: Count) -> (r: u32)
    requires
        sums_fit(outcomes@),
    ensures
        r == sum_of(outcomes@, c, outcomes@.len()),
{
    let mut sum: u32 = 0;
    let mut i: usize = 0;
    while i < outcomes.len()
        invariant
            i <= outcomes@.len(),
            sums_fit(outcomes@),
            sum == sum_of(outcomes@, c, i as nat),
        decreases outcomes@.len() - i,
    {
        proof {
            lemma_sum_grows(outcomes@, c, (i + 1) as nat, outcomes@.len());
            assert(sum_of(outcomes@, c, outcomes@.len()) <= u32::MAX);
        }
        let o = &outcomes[i];
        let share: u32 = match c {
            Count::Completed => o.completed_trips,
            Count::Expected => o.expected_trips,
            Count::Deadlocks => if o.deadlocked {
                1
            } else {
                0
            },
            Count::Coordination => o.audit.failed_coordination,
            Count::Parked => o.audit.failed_into_parked,
            Count::Intents => o.audit.intents_issued,
            Count::Ticks => o.ticks,
        };
        sum += share;
        i += 1;
    }
    sum
}

/// Appends the samples of an outcome.
fn extend<S: Scalar>(pool: &mut Vec<(S, S)>, samples: &Vec<(S, S)>)
    ensures
        final(pool)@ == old(pool)@ + samples@,
{
    let ghost before = pool@;
    let mut i: usize = 0;
    while i < samples.len()
        invariant
            i <= samples@.len(),
            pool@ == before + samples@.take(i as int),
        decreases samples@.len() - i,
    {
        pool.push(samples[i]);
        i += 1;
        assert(pool@ =~= before + samples@.take(i as int));
    }
    assert(samples@.take(i as int) =~= samples@);
}

/// The samples of all outcomes.
fn pool_all<S: Scalar>(outcomes: &[HaulOutcome<S>]) -> (r: Vec<(S, S)>)
    ensures
        r@ == pooled(outcomes@, outcomes@.len()),
{
    let mut r: Vec<(S, S)> = Vec::new();
    let mut i: usize = 0;
    while i < outcomes.len()
        invariant
            i <= outcomes@.len(),
            r@ == pooled(outcomes@, i as nat),
        decreases outcomes@.len() - i,
    {
        extend(&mut r, &outcomes[i].samples);
        i += 1;
    }
    r
}

/// The summary of a family, if the corpus has it.
fn summarize_family<S: Scalar>(
    corpus: &[TuneScenario],
    outcomes: &[HaulOutcome<S>],
    draws: &[u64],
    family: Family,
) -> (r: Option<FamilySummary<S>>)
    requires
        corpus@.len() == outcomes@.len(),
        draws_suffice(pooled(outcomes@, outcomes@.len()).len() as int, draws@),
    ensures
        family_summary(corpus@, outcomes@, draws@, family) == match r {
            Some(s) => seq![s],
            None => seq![],
        },
{
    let mut pool: Vec<(S, S)> = Vec::new();
    let mut present = false;
    let mut i: usize = 0;
    while i < corpus.len()
        invariant
            i <= corpus@.len(),
            corpus@.len() == outcomes@.len(),
            pool@ == pooled_in(corpus@, outcomes@, family, i as nat),
            present == (exists|k: int| 0 <= k < i && (#[trigger] corpus@[k]).family == family),
        decreases corpus@.len() - i,
    {
        if corpus[i].family == family {
            extend(&mut pool, &outcomes[i].samples);
            present = true;
            assert(corpus@[i as int].family == family);
        }
        i += 1;
    }
    if present {
        proof {
            law_families_partition_the_samples(corpus@, outcomes@, corpus@.len());
        }
        Some(FamilySummary { family, summary: Summary::of(pool.as_slice(), draws) })
    } else {
        None
    }
}

/// Scores the outcomes of a configuration over a corpus. Every trip's sample is pooled into one
/// objective and into that of its family; `draws` drives every bootstrap.
pub fn score_outcomes<S: Scalar>(
    corpus: &[TuneScenario],
    outcomes: &[HaulOutcome<S>],
    draws: &[u64],
) -> (r: TuneScore<S>)
    requires
        corpus@.len() == outcomes@.len(),
        sums_fit(outcomes@),
        draws_suffice(pooled(outcomes@, outcomes@.len()).len() as int, draws@),
    ensures
        ({
            let n = outcomes@.len();
            let summary = s_summary(pooled(outcomes@, n), draws@);
            let completed = sum_of(outcomes@, Count::Completed, n);
            let expected = sum_of(outcomes@, Count::Expected, n);
            &&& r.h == summary.weighted_mean
            &&& r.ci95 == summary.ci95
            &&& r.p05 == summary.p05
            &&& r.per_family@ == family_summaries(corpus@, outcomes@, draws@)
            &&& r.completion == if expected > 0 {
                S::s_of(completed as u64).s_over(S::s_of(expected as u64))
            } else {
                S::s_of(1)
            }
            &&& r.deadlocks == sum_of(outcomes@, Count::Deadlocks, n)
            &&& r.failed_coordination == sum_of(outcomes@, Count::Coordination, n)
            &&& r.failed_into_parked == sum_of(outcomes@, Count::Parked, n)
            &&& r.intents_issued == sum_of(outcomes@, Count::Intents, n)
            &&& r.total_ticks == sum_of(outcomes@, Count::Ticks, n)
            &&& r.gates_held == (r.failed_coordination == 0 && r.deadlocks == 0)
        }),
{
    let pool = pool_all(outcomes);
    let summary = Summary::of(pool.as_slice(), draws);
    let mut per_family: Vec<FamilySummary<S>> = Vec::new();
    if let Some(f) = summarize_family(corpus, outcomes, draws, Family::Border) {
        per_family.push(f);
    }
    assert(per_family@ =~= family_summary(corpus@, outcomes@, draws@, Family::Border));
    if let Some(f) = summarize_family(corpus, outcomes, draws, Family::Real) {
        per_family.push(f);
    }
    assert(per_family@ =~= family_summary(corpus@, outcomes@, draws@, Family::Border)
        + family_summary(corpus@, outcomes@, draws@, Family::Real));
    if let Some(f) = summarize_family(corpus, outcomes, draws, Family::Synthetic) {
        per_family.push(f);
    }
    assert(per_family@ =~= family_summaries(corpus@, outcomes@, draws@));
    let completed: u32 = sum_counts(outcomes, Count::Completed);
    let expected: u32 = sum_counts(outcomes, Count::Expected);
    let deadlocks: u32 = sum_counts(outcomes, Count::Deadlocks);
    let coordination: u32 = sum_counts(outcomes, Count::Coordination);
    TuneScore {
        h: summary.weighted_mean,
        ci95: summary.ci95,
        p05: summary.p05,
        per_family,
        completion: if expected > 0 {
            S::of(completed as u64).over(S::of(expected as u64))
        } else {
            S::of(1)
        },
        deadlocks,
        failed_coordination: coordination,
        failed_into_parked: sum_counts(outcomes, Count::Parked),
        intents_issued: sum_counts(outcomes, Count::Intents),
        total_ticks: sum_counts(outcomes, Count::Ticks),
        gates_held: coordination == 0 && deadlocks == 0,
    }
}

/// The failed-move accounts of all outcomes, added up.
#[derive(Clone, Copy, Debug, PartialEq, Eq, Structural)]
pub struct AuditTotals {
    pub issued: u64,
    pub failed: u64,
    pub fatigued: u64,
    pub wall: u64,
    pub parked: u64,
    pub coordination: u64,
}

/// The accounts of the first `n` outcomes, added up.
pub open spec fn s_totals_of<S>(outcomes: Seq<HaulOutcome<S>>, n: nat) -> AuditTotals
    decreases n,
{
    if n == 0 {
        AuditTotals { issued: 0, failed: 0, fatigued: 0, wall: 0, parked: 0, coordination: 0 }
    } else {
        let before = s_totals_of(outcomes, (n - 1) as nat);
        let a = outcomes[n - 1].audit;
        AuditTotals {
            issued: (before.issued + a.intents_issued) as u64,
            failed: (before.failed + a.failed_moves) as u64,
            fatigued: (before.fatigued + a.failed_fatigued) as u64,
            wall: (before.wall + a.failed_wall) as u64,
            parked: (before.parked + a.failed_into_parked) as u64,
            coordination: (before.coordination + a.failed_coordination) as u64,
        }
    }
}

/// Adds up the failed-move accounts of all outcomes.
pub fn audit_totals<S: Scalar>(outcomes: &[HaulOutcome<S>]) -> (r: AuditTotals)
    requires
        outcomes@.len() <= u32::MAX,
    ensures
        r == s_totals_of(outcomes@, outcomes@.len()),
{
    let mut t = AuditTotals { issued: 0, failed: 0, fatigued: 0, wall: 0, parked: 0, coordination: 0 };
    let mut i: usize = 0;
    while i < outcomes.len()
        invariant
            i <= outcomes@.len() <= u32::MAX,
            t == s_totals_of(outcomes@, i as nat),
            t.issued <= i * 0xffff_ffff,
            t.failed <= i * 0xffff_ffff,
            t.fatigued <= i * 0xffff_ffff,
            t.wall <= i * 0xffff_ffff,
            t.parked <= i * 0xffff_ffff,
            t.coordination <= i * 0xffff_ffff,
        decreases outcomes@.len() - i,
    {
        let a = &outcomes[i].audit;
        t = AuditTotals {
            issued: t.issued + a.intents_issued as u64,
            failed: t.failed + a.failed_moves as u64,
            fatigued: t.fatigued + a.failed_fatigued as u64,
            wall: t.wall + a.failed_wall as u64,
            parked: t.parked + a.failed_into_parked as u64,
            coordination: t.coordination + a.failed_coordination as u64,
        };
        i += 1;
    }
    t
}

/// A key is preferred to another.
pub open spec fn key_above(a: (u8, i64, i64, i64), b: (u8, i64, i64, i64)) -> bool {
    a.0 > b.0 || (a.0 == b.0 && (a.1 > b.1 || (a.1 == b.1 && (a.2 > b.2 || (a.2 == b.2 && a.3
        > b.3)))))
}

/// Whether a key is preferred to another.
fn is_above(a: (u8, i64, i64, i64), b: (u8, i64, i64, i64)) -> (r: bool)
    ensures
        r == key_above(a, b),
{
    a.0 > b.0 || (a.0 == b.0 && (a.1 > b.1 || (a.1 == b.1 && (a.2 > b.2 || (a.2 == b.2 && a.3
        > b.3)))))
}

/// The point at `i` ranks before the point at `j`: by key, then by name, then by place.
pub open spec fn outranks<S: Numbers>(names: Seq<String>, scores: Seq<TuneScore<S>>, i: int, j: int) -> bool {
    let a = s_ranked_key(scores[i]);
    let b = s_ranked_key(scores[j]);
    key_above(a, b) || (a == b && (text_before(names[i]@, names[j]@) || (names[i]@ == names[j]@
        && i < j)))
}

/// Ranking is a strict total order of the points.
pub proof fn law_ranking_is_total<S: Scalar>(
    names: Seq<String>,
    scores: Seq<TuneScore<S>>,
    i: int,
    j: int,
    k: int,
)
    ensures
        !outranks(names, scores, i, i),
        i != j ==> outranks(names, scores, i, j) != outranks(names, scores, j, i),
        outranks(names, scores, i, j) && outranks(names, scores, j, k) ==> outranks(
            names,
            scores,
            i,
            k,
        ),
{
    law_text_order_is_total(names[i]@, names[i]@);
    law_text_order_is_total(names[i]@, names[j]@);
    if text_before(names[i]@, names[j]@) && text_before(names[j]@, names[k]@) {
        law_text_order_is_transitive(names[i]@, names[j]@, names[k]@);
    }
}

/// The order lists every point once, each before those that it outranks.
pub open spec fn is_ranking<S: Numbers>(
    order: Seq<usize>,
    names: Seq<String>,
    scores: Seq<TuneScore<S>>,
    n: nat,
) -> bool {
    &&& order.len() == n
    &&& forall|a: int| 0 <= a < n ==> (#[trigger] order[a]) < n
    &&& forall|p: int| 0 <= p < n ==> order.contains(#[trigger] (p as usize))
    &&& forall|a: int, b: int|
        0 <= a < b < n ==> outranks(
            names,
            scores,
            #[trigger] order[a] as int,
            #[trigger] order[b] as int,
        )
}

/// Whether the point at `i` ranks before the point at `j`.
fn ranks_before<S: Scalar>(names: &[String], scores: &[TuneScore<S>], i: usize, j: usize) -> (r: bool)
    requires
        i < names@.len() == scores@.len(),
        j < names@.len(),
        scores@[i as int].countable(),
        scores@[j as int].countable(),
    ensures
        r == outranks(names@, scores@, i as int, j as int),
{
    let a = scores[i].ranked_key();
    let b = scores[j].ranked_key();
    if is_above(a, b) {
        true
    } else if is_above(b, a) {
        false
    } else if comes_before(names[i].as_str(), names[j].as_str()) {
        true
    } else {
        same_text(names[i].as_str(), names[j].as_str()) && i < j
    }
}

/// Ranks scored points, best first: the order of their places.
pub fn rank<S: Scalar>(names: &[String], scores: &[TuneScore<S>]) -> (r: Vec<usize>)
    requires
        names@.len() == scores@.len(),
        forall|i: int| 0 <= i < scores@.len() ==> (#[trigger] scores@[i]).countable(),
    ensures
        is_ranking(r@, names@, scores@, names@.len()),
{
    let n: usize = names.len();
    let mut order: Vec<usize> = Vec::new();
    let mut i: usize = 0;
    while i < n
        invariant
            i <= n == names@.len() == scores@.len(),
            forall|k: int| 0 <= k < scores@.len() ==> (#[trigger] scores@[k]).countable(),
            is_ranking(order@, names@, scores@, i as nat),
        decreases n - i,
    {
        let ghost before = order@;
        let mut p: usize = order.len();
        while p > 0 && ranks_before(names, scores, i, order[p - 1])
            invariant
                p <= order@.len() == i,
                i < n == names@.len() == scores@.len(),
                order@ == before,
                is_ranking(before, names@, scores@, i as nat),
                forall|k: int| 0 <= k < scores@.len() ==> (#[trigger] scores@[k]).countable(),
                forall|a: int|
                    p <= a < i ==> outranks(
                        names@,
                        scores@,
                        i as int,
                        #[trigger] order@[a] as int,
                    ),
            decreases p,
        {
            p -= 1;
        }
        order.insert(p, i);
        proof {
            lemma_ranked_insert(before, names@, scores@, i, p as int);
            assert(order@ =~= before.insert(p as int, i));
        }
        i += 1;
    }
    order
}

/// Putting the next point behind all that outrank it keeps the ranking.
proof fn lemma_ranked_insert<S: Scalar>(
    before: Seq<usize>,
    names: Seq<String>,
    scores: Seq<TuneScore<S>>,
    i: usize,
    p: int,
)
    requires
        is_ranking(before, names, scores, i as nat),
        i < usize::MAX,
        0 <= p <= i,
        forall|a: int| p <= a < i ==> outranks(names, scores, i as int, #[trigger] before[a] as int),
        p > 0 ==> !outranks(names, scores, i as int, before[p - 1] as int),
    ensures
        is_ranking(before.insert(p, i), names, scores, (i + 1) as nat),
{
    let after = before.insert(p, i);
    assert forall|a: int| 0 <= a < i + 1 implies (#[trigger] after[a]) < i + 1 by {
        if a < p {
            assert(after[a] == before[a]);
        } else if a > p {
            assert(after[a] == before[a - 1]);
        }
    }
    assert forall|q: int| 0 <= q < i + 1 implies after.contains(#[trigger] (q as usize)) by {
        if q == i {
            assert(after[p] == i);
        } else {
            assert(before.contains(q as usize));
            let k = choose|k: int| 0 <= k < before.len() && before[k] == q as usize;
            if k < p {
                assert(after[k] == before[k]);
            } else {
                assert(after[k + 1] == before[k]);
            }
        }
    }
    assert forall|a: int, b: int| 0 <= a < b < i + 1 implies outranks(
        names,
        scores,
        #[trigger] after[a] as int,
        #[trigger] after[b] as int,
    ) by {
        let x: int = if a < p {
            before[a] as int
        } else if a == p {
            i as int
        } else {
            before[a - 1] as int
        };
        let y: int = if b < p {
            before[b] as int
        } else if b == p {
            i as int
        } else {
            before[b - 1] as int
        };
        assert(after[a] == x && after[b] == y);
        if b == p {
            let z = before[p - 1] as int;
            assert(before[p - 1] < i);
            law_ranking_is_total(names, scores, z, i as int, i as int);
            if a < p - 1 {
                assert(outranks(names, scores, before[a] as int, before[p - 1] as int));
                law_ranking_is_total(names, scores, before[a] as int, z, i as int);
            }
        } else if a == p {
            assert(outranks(names, scores, i as int, before[b - 1] as int));
        } else if b < p {
            assert(outranks(names, scores, before[a] as int, before[b] as int));
        } else if a < p {
            assert(outranks(names, scores, before[a] as int, before[b - 1] as int));
        } else {
            assert(outranks(names, scores, before[a - 1] as int, before[b - 1] as int));
        }
    }
}

/// The creep-ticks that the first `n` scenarios take at worst.
pub open spec fn worst_case(corpus: Seq<TuneScenario>, n: nat) -> nat
    decreases n,
{
    if n == 0 {
        0
    } else {
        worst_case(corpus, (n - 1) as nat) + corpus[n - 1].fleet@.len() * corpus[n
            - 1].tick_cap as nat
    }
}

proof fn lemma_worst_case_grows(corpus: Seq<TuneScenario>, m: nat, n: nat)
    requires
        m <= n,
    ensures
        worst_case(corpus, m) <= worst_case(corpus, n),
    decreases n - m,
{
    if m < n {
        lemma_worst_case_grows(corpus, m, (n - 1) as nat);
        let k = n - 1;
        assert(0 <= corpus[k].fleet@.len() * corpus[k].tick_cap as nat) by (nonlinear_arith);
    }
}

/// The price of a sweep before it is run: its points, and the creep-ticks that they take at
/// worst.
pub fn estimate_budget(points: usize, corpus: &[TuneScenario]) -> (r: (usize, u64))
    requires
        worst_case(corpus@, corpus@.len()) <= u64::MAX,
        worst_case(corpus@, corpus@.len()) * points <= u64::MAX,
    ensures
        r.0 == points,
        r.1 == worst_case(corpus@, corpus@.len()) * points,
{
    let mut sum: u64 = 0;
    let mut i: usize = 0;
    while i < corpus.len()
        invariant
            i <= corpus@.len(),
            worst_case(corpus@, corpus@.len()) <= u64::MAX,
            sum == worst_case(corpus@, i as nat),
        decreases corpus@.len() - i,
    {
        proof {
            lemma_worst_case_grows(corpus@, (i + 1) as nat, corpus@.len());
        }
        sum += corpus[i].fleet.len() as u64 * corpus[i].tick_cap as u64;
        i += 1;
    }
    (points, sum * points as u64)
}

/// The labels of the families stand in the order of the families.
proof fn lemma_labels_in_order()
    ensures
        text_before(Family::Border.s_label(), Family::Real.s_label()),
        text_before(Family::Border.s_label(), Family::Synthetic.s_label()),
        text_before(Family::Real.s_label(), Family::Synthetic.s_label()),
{
    reveal_strlit("border");
    reveal_strlit("real");
    reveal_strlit("synthetic");
    assert(parts_at(Family::Border.s_label(), Family::Real.s_label(), 0));
    assert(parts_at(Family::Border.s_label(), Family::Synthetic.s_label(), 0));
    assert(parts_at(Family::Real.s_label(), Family::Synthetic.s_label(), 0));
}

/// A score reports exactly the families that the corpus has: a family has an entry if and only if
/// some scenario belongs to it.
pub proof fn law_every_family_is_reported<S: Scalar>(
    corpus: &[TuneScenario],
    outcomes: &[HaulOutcome<S>],
    draws: &[u64],
    r: TuneScore<S>,
    family: Family,
)
    requires
        corpus@.len() == outcomes@.len(),
        call_ensures(score_outcomes::<S>, (corpus, outcomes, draws), r),
    ensures
        (exists|k: int| 0 <= k < r.per_family@.len() && (#[trigger] r.per_family@[k]).family == family)
            <==> (exists|i: int|
            0 <= i < corpus@.len() && (#[trigger] corpus@[i]).family == family),
{
    let b = family_summary(corpus@, outcomes@, draws@, Family::Border);
    let m = family_summary(corpus@, outcomes@, draws@, Family::Real);
    let s = family_summary(corpus@, outcomes@, draws@, Family::Synthetic);
    let all = r.per_family@;
    assert(all == b + m + s);
    if has_family(corpus@, family) {
        match family {
            Family::Border => {
                assert(all[0].family == family);
            },
            Family::Real => {
                assert(all[b.len() as int].family == family);
            },
            Family::Synthetic => {
                assert(all[(b.len() + m.len()) as int].family == family);
            },
        }
    }
    if exists|k: int| 0 <= k < all.len() && (#[trigger] all[k]).family == family {
        let k = choose|k: int| 0 <= k < all.len() && (#[trigger] all[k]).family == family;
        if k < b.len() {
            assert(all[k] == b[k]);
        } else if k < b.len() + m.len() {
            assert(all[k] == m[k - b.len()]);
        } else {
            assert(all[k] == s[k - b.len() - m.len()]);
        }
        assert(has_family(corpus@, family));
    }
}

/// The families of a score stand in the order of their labels, so that none is reported twice.
pub proof fn law_families_stand_in_label_order<S: Scalar>(
    corpus: &[TuneScenario],
    outcomes: &[HaulOutcome<S>],
    draws: &[u64],
    r: TuneScore<S>,
    j: int,
    k: int,
)
    requires
        corpus@.len() == outcomes@.len(),
        call_ensures(score_outcomes::<S>, (corpus, outcomes, draws), r),
        0 <= j < k < r.per_family@.len(),
    ensures
        text_before(r.per_family@[j].family.s_label(), r.per_family@[k].family.s_label()),
        r.per_family@[j].family != r.per_family@[k].family,
{
    lemma_labels_in_order();
}

/// The samples of the first `n` outcomes that belong to a family, laid end to end.
proof fn lemma_pooled_in_flat<S: Numbers>(
    corpus: Seq<TuneScenario>,
    outcomes: Seq<HaulOutcome<S>>,
    family: Family,
    n: nat,
)
    ensures
        pooled_in(corpus, outcomes, family, n) == Seq::new(
            n,
            |i: int|
                if corpus[i].family == family {
                    outcomes[i].samples@
                } else {
                    Seq::empty()
                },
        ).flatten(),
        pooled(outcomes, n) == Seq::new(n, |i: int| outcomes[i].samples@).flatten(),
    decreases n,
{
    let own = |k: nat|
        Seq::new(
            k,
            |i: int|
                if corpus[i].family == family {
                    outcomes[i].samples@
                } else {
                    Seq::empty()
                },
        );
    let all = |k: nat| Seq::new(k, |i: int| outcomes[i].samples@);
    if n > 0 {
        let m = (n - 1) as nat;
        lemma_pooled_in_flat(corpus, outcomes, family, m);
        let x = if corpus[n - 1].family == family {
            outcomes[n - 1].samples@
        } else {
            Seq::empty()
        };
        assert(own(n) =~= own(m).push(x));
        own(m).lemma_flatten_push(x);
        assert(all(n) =~= all(m).push(outcomes[n - 1].samples@));
        all(m).lemma_flatten_push(outcomes[n - 1].samples@);
        assert(pooled_in(corpus, outcomes, family, m) + Seq::<(S, S)>::empty() =~= pooled_in(
            corpus,
            outcomes,
            family,
            m,
        ));
    } else {
        assert(own(0).flatten() =~= Seq::empty());
        assert(all(0).flatten() =~= Seq::empty());
    }
}

/// The objective of a family summarizes the trips of its own scenarios and of no others; the pooled
/// objective summarizes the trips of all. What the families count adds up to all trips.
pub proof fn law_families_summarize_their_own_trips<S: Scalar>(
    corpus: &[TuneScenario],
    outcomes: &[HaulOutcome<S>],
    draws: &[u64],
    r: TuneScore<S>,
)
    requires
        corpus@.len() == outcomes@.len(),
        draws_suffice(pooled(outcomes@, outcomes@.len()).len() as int, draws@),
        call_ensures(score_outcomes::<S>, (corpus, outcomes, draws), r),
    ensures
        ({
            let n = outcomes@.len();
            let all = Seq::new(n, |i: int| outcomes@[i].samples@).flatten();
            &&& forall|k: int|
                0 <= k < r.per_family@.len() ==> ({
                    let f = #[trigger] r.per_family@[k];
                    f.summary == s_summary(
                        Seq::new(
                            n,
                            |i: int|
                                if corpus@[i].family == f.family {
                                    outcomes@[i].samples@
                                } else {
                                    Seq::empty()
                                },
                        ).flatten(),
                        draws@,
                    )
                })
            &&& r.h == s_weighted_mean(all)
            &&& r.ci95 == s_summary(all, draws@).ci95
            &&& r.p05 == s_summary(all, draws@).p05
            &&& r.per_family@.fold_left(
                0int,
                |t: int, f: FamilySummary<S>| t + f.summary.n as int,
            ) == all.len()
        }),
{
    let n = outcomes@.len();
    lemma_pooled_in_flat(corpus@, outcomes@, Family::Border, n);
    lemma_pooled_in_flat(corpus@, outcomes@, Family::Real, n);
    lemma_pooled_in_flat(corpus@, outcomes@, Family::Synthetic, n);
    law_families_partition_the_samples(corpus@, outcomes@, n);
    let b = family_summary(corpus@, outcomes@, draws@, Family::Border);
    let m = family_summary(corpus@, outcomes@, draws@, Family::Real);
    let s = family_summary(corpus@, outcomes@, draws@, Family::Synthetic);
    let f = |t: int, f: FamilySummary<S>| t + f.summary.n as int;
    assert(r.per_family@ == b + m + s);
    assert forall|k: int| 0 <= k < r.per_family@.len() implies ({
        let g = #[trigger] r.per_family@[k];
        g.summary == s_summary(pooled_in(corpus@, outcomes@, g.family, n), draws@)
    }) by {
        if k < b.len() {
            assert(r.per_family@[k] == b[k]);
        } else if k < b.len() + m.len() {
            assert(r.per_family@[k] == m[k - b.len()]);
        } else {
            assert(r.per_family@[k] == s[k - b.len() - m.len()]);
        }
    }
    assert forall|k: int| 0 <= k < r.per_family@.len() implies ({
        let g = #[trigger] r.per_family@[k];
        g.summary == s_summary(
            Seq::new(
                n,
                |i: int|
                    if corpus@[i].family == g.family {
                        outcomes@[i].samples@
                    } else {
                        Seq::empty()
                    },
            ).flatten(),
            draws@,
        )
    }) by {
        lemma_pooled_in_flat(corpus@, outcomes@, r.per_family@[k].family, n);
    }
    assert(draws@.len() == draws.len());
    lemma_family_count(corpus@, outcomes@, draws@, Family::Border, 0);
    lemma_family_count(corpus@, outcomes@, draws@, Family::Real, b.fold_left(0int, f));
    lemma_family_count(
        corpus@,
        outcomes@,
        draws@,
        Family::Synthetic,
        (b + m).fold_left(0int, f),
    );
    lemma_fold_appends(b, m, f);
    lemma_fold_appends(b + m, s, f);
}

/// Folding one sequence behind another starts where the first one ended.
proof fn lemma_fold_appends<A>(a: Seq<A>, b: Seq<A>, f: spec_fn(int, A) -> int)
    ensures
        (a + b).fold_left(0int, f) == b.fold_left(a.fold_left(0int, f), f),
    decreases b.len(),
{
    if b.len() == 0 {
        assert(a + b =~= a);
    } else {
        assert((a + b).drop_last() =~= a + b.drop_last());
        lemma_fold_appends(a, b.drop_last(), f);
    }
}

/// A family's entry counts the family's samples, and a family without an entry has none.
proof fn lemma_family_count<S: Scalar>(
    corpus: Seq<TuneScenario>,
    outcomes: Seq<HaulOutcome<S>>,
    draws: Seq<u64>,
    family: Family,
    from: int,
)
    requires
        pooled_in(corpus, outcomes, family, corpus.len()).len() <= usize::MAX,
    ensures
        family_summary(corpus, outcomes, draws, family).fold_left(
            from,
            |t: int, f: FamilySummary<S>| t + f.summary.n as int,
        ) == from + pooled_in(corpus, outcomes, family, corpus.len()).len(),
{
    let f = |t: int, f: FamilySummary<S>| t + f.summary.n as int;
    let own = family_summary(corpus, outcomes, draws, family);
    if has_family(corpus, family) {
        assert(own.drop_last() =~= seq![]);
        assert(own.drop_last().fold_left(from, f) == from);
    } else {
        lemma_absent_family(corpus, outcomes, family, corpus.len());
        assert(own.fold_left(from, f) == from);
    }
}

proof fn lemma_absent_family<S: Numbers>(
    corpus: Seq<TuneScenario>,
    outcomes: Seq<HaulOutcome<S>>,
    family: Family,
    n: nat,
)
    requires
        !has_family(corpus, family),
        n <= corpus.len(),
    ensures
        pooled_in(corpus, outcomes, family, n).len() == 0,
    decreases n,
{
    if n > 0 {
        lemma_absent_family(corpus, outcomes, family, (n - 1) as nat);
        assert(corpus[n - 1].family != family);
    }
}

proof fn lemma_sum_folds<S>(outcomes: Seq<HaulOutcome<S>>, c: Count, n: nat)
    requires
        n <= outcomes.len(),
    ensures
        sum_of(outcomes, c, n) == outcomes.take(n as int).fold_left(
            0int,
            |t: int, o: HaulOutcome<S>| t + counted(o, c),
        ),
    decreases n,
{
    if n > 0 {
        lemma_sum_folds(outcomes, c, (n - 1) as nat);
        assert(outcomes.take(n as int).drop_last() =~= outcomes.take(n - 1));
    }
}

proof fn lemma_same_fold<A>(s: Seq<A>, f: spec_fn(int, A) -> int, g: spec_fn(int, A) -> int)
    requires
        forall|t: int, a: A| #[trigger] f(t, a) == g(t, a),
    ensures
        s.fold_left(0int, f) == s.fold_left(0int, g),
    decreases s.len(),
{
    if s.len() > 0 {
        lemma_same_fold(s.drop_last(), f, g);
    }
}

/// A score adds up what its outcomes report: deadlocked runs, moves that failed among active creeps,
/// moves that failed on parked ones, moves issued, and ticks. Its gates hold if and only if no run
/// deadlocked and no move failed among active creeps.
pub proof fn law_score_adds_up_the_outcomes<S: Scalar>(
    corpus: &[TuneScenario],
    outcomes: &[HaulOutcome<S>],
    draws: &[u64],
    r: TuneScore<S>,
)
    requires
        call_ensures(score_outcomes::<S>, (corpus, outcomes, draws), r),
    ensures
        r.deadlocks == outcomes@.fold_left(
            0int,
            |t: int, o: HaulOutcome<S>|
                t + if o.deadlocked {
                    1int
                } else {
                    0int
                },
        ),
        r.failed_coordination == outcomes@.fold_left(
            0int,
            |t: int, o: HaulOutcome<S>| t + o.audit.failed_coordination,
        ),
        r.failed_into_parked == outcomes@.fold_left(
            0int,
            |t: int, o: HaulOutcome<S>| t + o.audit.failed_into_parked,
        ),
        r.intents_issued == outcomes@.fold_left(
            0int,
            |t: int, o: HaulOutcome<S>| t + o.audit.intents_issued,
        ),
        r.total_ticks == outcomes@.fold_left(0int, |t: int, o: HaulOutcome<S>| t + o.ticks),
        r.gates_held <==> r.deadlocks == 0 && r.failed_coordination == 0,
{
    let n = outcomes@.len();
    assert(outcomes@.take(n as int) =~= outcomes@);
    lemma_sum_folds(outcomes@, Count::Deadlocks, n);
    lemma_sum_folds(outcomes@, Count::Coordination, n);
    lemma_sum_folds(outcomes@, Count::Parked, n);
    lemma_sum_folds(outcomes@, Count::Intents, n);
    lemma_sum_folds(outcomes@, Count::Ticks, n);
    lemma_same_fold(
        outcomes@,
        |t: int, o: HaulOutcome<S>| t + counted(o, Count::Deadlocks),
        |t: int, o: HaulOutcome<S>|
            t + if o.deadlocked {
                1int
            } else {
                0int
            },
    );
    lemma_same_fold(
        outcomes@,
        |t: int, o: HaulOutcome<S>| t + counted(o, Count::Coordination),
        |t: int, o: HaulOutcome<S>| t + o.audit.failed_coordination,
    );
    lemma_same_fold(
        outcomes@,
        |t: int, o: HaulOutcome<S>| t + counted(o, Count::Parked),
        |t: int, o: HaulOutcome<S>| t + o.audit.failed_into_parked,
    );
    lemma_same_fold(
        outcomes@,
        |t: int, o: HaulOutcome<S>| t + counted(o, Count::Intents),
        |t: int, o: HaulOutcome<S>| t + o.audit.intents_issued,
    );
    lemma_same_fold(
        outcomes@,
        |t: int, o: HaulOutcome<S>| t + counted(o, Count::Ticks),
        |t: int, o: HaulOutcome<S>| t + o.ticks,
    );
}

/// Completion is the trips made over the trips expected, over all outcomes; a corpus that expects
/// none is complete.
pub proof fn law_completion_is_trips_made_over_expected<S: Scalar>(
    corpus: &[TuneScenario],
    outcomes: &[HaulOutcome<S>],
    draws: &[u64],
    r: TuneScore<S>,
)
    requires
        sums_fit(outcomes@),
        call_ensures(score_outcomes::<S>, (corpus, outcomes, draws), r),
    ensures
        ({
            let made = outcomes@.fold_left(
                0int,
                |t: int, o: HaulOutcome<S>| t + o.completed_trips,
            );
            let expected = outcomes@.fold_left(
                0int,
                |t: int, o: HaulOutcome<S>| t + o.expected_trips,
            );
            &&& 0 <= made <= u32::MAX
            &&& 0 <= expected <= u32::MAX
            &&& expected > 0 ==> r.completion == S::s_of(made as u64).s_over(S::s_of(expected as u64))
            &&& expected == 0 ==> r.completion == S::s_of(1)
        }),
{
    let n = outcomes@.len();
    assert(outcomes@.take(n as int) =~= outcomes@);
    lemma_sum_folds(outcomes@, Count::Completed, n);
    lemma_sum_folds(outcomes@, Count::Expected, n);
    assert(sum_of(outcomes@, Count::Completed, n) <= u32::MAX);
    assert(sum_of(outcomes@, Count::Expected, n) <= u32::MAX);
    lemma_same_fold(
        outcomes@,
        |t: int, o: HaulOutcome<S>| t + counted(o, Count::Completed),
        |t: int, o: HaulOutcome<S>| t + o.completed_trips,
    );
    lemma_same_fold(
        outcomes@,
        |t: int, o: HaulOutcome<S>| t + counted(o, Count::Expected),
        |t: int, o: HaulOutcome<S>| t + o.expected_trips,
    );
}

/// Points are preferred by their gates, then by their objective in thousandths, then by fewer wasted
/// moves, then by fewer ticks, then by their names, then by their places.
pub proof fn law_what_ranks_first<S: Scalar>(
    names: Seq<String>,
    scores: Seq<TuneScore<S>>,
    i: int,
    j: int,
)
    requires
        scores[i].countable(),
        scores[j].countable(),
    ensures
        ({
            let (a, b) = (scores[i], scores[j]);
            let gates = a.gates_held == b.gates_held;
            let objective = gates && s_quantum(a.h) == s_quantum(b.h);
            let waste = |s: TuneScore<S>| s.failed_into_parked + s.failed_coordination;
            let wasted = objective && waste(a) == waste(b);
            let ticks = wasted && a.total_ticks == b.total_ticks;
            &&& a.gates_held && !b.gates_held ==> outranks(names, scores, i, j)
            &&& gates && s_quantum(a.h) > s_quantum(b.h) ==> outranks(names, scores, i, j)
            &&& objective && waste(a) < waste(b) ==> outranks(names, scores, i, j)
            &&& wasted && a.total_ticks < b.total_ticks ==> outranks(names, scores, i, j)
            &&& ticks && text_before(names[i]@, names[j]@) ==> outranks(names, scores, i, j)
            &&& ticks && names[i]@ == names[j]@ && i < j ==> outranks(names, scores, i, j)
        }),
{
}

/// The accounts of all outcomes are added up one by one.
pub proof fn law_audit_totals_add_up<S: Scalar>(outcomes: &[HaulOutcome<S>], r: AuditTotals)
    requires
        outcomes@.len() <= u32::MAX,
        call_ensures(audit_totals::<S>, (outcomes,), r),
    ensures
        r.issued == outcomes@.fold_left(
            0int,
            |t: int, o: HaulOutcome<S>| t + o.audit.intents_issued,
        ),
        r.failed == outcomes@.fold_left(
            0int,
            |t: int, o: HaulOutcome<S>| t + o.audit.failed_moves,
        ),
        r.fatigued == outcomes@.fold_left(
            0int,
            |t: int, o: HaulOutcome<S>| t + o.audit.failed_fatigued,
        ),
        r.wall == outcomes@.fold_left(0int, |t: int, o: HaulOutcome<S>| t + o.audit.failed_wall),
        r.parked == outcomes@.fold_left(
            0int,
            |t: int, o: HaulOutcome<S>| t + o.audit.failed_into_parked,
        ),
        r.coordination == outcomes@.fold_left(
            0int,
            |t: int, o: HaulOutcome<S>| t + o.audit.failed_coordination,
        ),
{
    lemma_audit_folds(outcomes@, outcomes@.len());
    assert(outcomes@.take(outcomes@.len() as int) =~= outcomes@);
}

proof fn lemma_audit_folds<S>(outcomes: Seq<HaulOutcome<S>>, n: nat)
    requires
        n <= outcomes.len(),
        outcomes.len() <= u32::MAX,
    ensures
        ({
            let t = s_totals_of(outcomes, n);
            let s = outcomes.take(n as int);
            let cap = n * 0xffff_ffff;
            &&& t.issued == s.fold_left(
                0int,
                |t: int, o: HaulOutcome<S>| t + o.audit.intents_issued,
            )
            &&& t.failed == s.fold_left(0int, |t: int, o: HaulOutcome<S>| t + o.audit.failed_moves)
            &&& t.fatigued == s.fold_left(
                0int,
                |t: int, o: HaulOutcome<S>| t + o.audit.failed_fatigued,
            )
            &&& t.wall == s.fold_left(0int, |t: int, o: HaulOutcome<S>| t + o.audit.failed_wall)
            &&& t.parked == s.fold_left(
                0int,
                |t: int, o: HaulOutcome<S>| t + o.audit.failed_into_parked,
            )
            &&& t.coordination == s.fold_left(
                0int,
                |t: int, o: HaulOutcome<S>| t + o.audit.failed_coordination,
            )
            &&& t.issued <= cap && t.failed <= cap && t.fatigued <= cap && t.wall <= cap
            &&& t.parked <= cap && t.coordination <= cap
        }),
    decreases n,
{
    if n > 0 {
        lemma_audit_folds(outcomes, (n - 1) as nat);
        assert(outcomes.take(n as int).drop_last() =~= outcomes.take(n - 1));
        assert(outcomes.take(n as int).last() == outcomes[n - 1]);
    }
}

/// A sweep is priced at the fleet size times the tick cap of every scenario, for every point.
pub proof fn law_budget_counts_creep_ticks(points: usize, corpus: &[TuneScenario], r: (usize, u64))
    requires
        call_ensures(estimate_budget, (points, corpus), r),
    ensures
        r.0 == points,
        r.1 == points * corpus@.fold_left(
            0int,
            |t: int, s: TuneScenario| t + s.fleet@.len() * s.tick_cap,
        ),
{
    lemma_worst_case_folds(corpus@, corpus@.len());
    assert(corpus@.take(corpus@.len() as int) =~= corpus@);
    let (a, b) = (points as int, worst_case(corpus@, corpus@.len()) as int);
    assert(a * b == b * a) by (nonlinear_arith);
}

proof fn lemma_worst_case_folds(corpus: Seq<TuneScenario>, n: nat)
    requires
        n <= corpus.len(),
    ensures
        worst_case(corpus, n) == corpus.take(n as int).fold_left(
            0int,
            |t: int, s: TuneScenario| t + s.fleet@.len() * s.tick_cap,
        ),
    decreases n,
{
    if n > 0 {
        lemma_worst_case_folds(corpus, (n - 1) as nat);
        assert(corpus.take(n as int).drop_last() =~= corpus.take(n - 1));
        assert(corpus.take(n as int).last() == corpus[n - 1]);
    }
}

/// A corpus takes every layout that it is to keep, each once, in the order in which they are given.
pub proof fn law_selection_keeps_the_picked_layouts(layouts: Seq<DecodedLayout>, fast: bool)
    ensures
        ({
            let picked = selected(layouts, fast);
            &&& forall|k: int|
                0 <= k < picked.len() ==> 0 <= #[trigger] picked[k] < layouts.len() && is_fast_pick(
                    layouts[picked[k]].layout.room@,
                ) == fast
            &&& forall|j: int, k: int|
                0 <= j < k < picked.len() ==> #[trigger] picked[j] < #[trigger] picked[k]
            &&& forall|i: int|
                0 <= i < layouts.len() && is_fast_pick((#[trigger] layouts[i]).layout.room@) == fast
                    ==> picked.contains(i)
        }),
    decreases layouts.len(),
{
    if layouts.len() > 0 {
        let front = layouts.drop_last();
        law_selection_keeps_the_picked_layouts(front, fast);
        let (before, picked) = (selected(front, fast), selected(layouts, fast));
        let last = layouts.len() - 1;
        assert forall|k: int| 0 <= k < picked.len() implies 0 <= #[trigger] picked[k] < layouts.len()
            && is_fast_pick(layouts[picked[k]].layout.room@) == fast by {
            if k < before.len() {
                assert(picked[k] == before[k]);
                assert(front[before[k]] == layouts[before[k]]);
            }
        }
        assert forall|j: int, k: int| 0 <= j < k < picked.len() implies #[trigger] picked[j]
            < #[trigger] picked[k] by {
            assert(picked[j] == before[j]);
            if k < before.len() {
                assert(picked[k] == before[k]);
            }
        }
        assert forall|i: int|
            0 <= i < layouts.len() && is_fast_pick((#[trigger] layouts[i]).layout.room@) == fast implies picked.contains(
            i,
        ) by {
            if i < last {
                assert(front[i] == layouts[i]);
                assert(before.contains(i));
                let k = choose|k: int| 0 <= k < before.len() && before[k] == i;
                assert(picked[k] == i);
            } else {
                assert(picked[before.len() as int] == i);
            }
        }
    }
}

/// The built scenarios are sound: they belong to the synthetic family, and every hauler makes two
/// trips with a full load, fifty units for each of its carry parts, between two tiles of one room
/// that are at least ten apart and no walls.
pub proof fn law_synthetic_routes_are_sound(r: Vec<TuneScenario>, i: int, j: int)
    requires
        call_ensures(synthetic_corpus, (), r),
        0 <= i < r@.len(),
        0 <= j < r@[i].fleet@.len(),
    ensures
        ({
            let (s, a) = (r@[i], r@[i].fleet@[j]);
            &&& r@.len() == 5
            &&& s.family is Synthetic
            &&& a.trips == 2
            &&& 2 * a.q == 50 * a.body.parts@.len()
            &&& a.source.room == a.sink.room
            &&& a.source.range_to(a.sink) >= 10
            &&& !s.terrain.walls@.contains((a.source.x, a.source.y))
            &&& !s.terrain.walls@.contains((a.sink.x, a.sink.y))
        }),
{
    assert(is_synthetic(r@));
    let a = r@[i].fleet@[j];
    if i == 0 {
        assert(hauls(a, 2, 100, home(10, 20 + 2 * j), home(20, 20 + 2 * j)));
    } else if i == 1 || i == 4 {
        assert(hauls(a, 2, 100, home(10, 25), home(20, 25)));
    } else if i == 2 && j > 0 {
        assert(hauls(a, 2, 100, home(10, 25), home(20, 25)));
    }
}

/// The border scenarios belong to their own family, and every hauler makes two fully loaded trips
/// from one room to another.
pub proof fn law_border_routes_cross_rooms(r: Vec<TuneScenario>, i: int, j: int)
    requires
        call_ensures(border_corpus, (), r),
        west_north_room(1, 1) != west_north_room(2, 1),
        0 <= i < r@.len(),
        0 <= j < r@[i].fleet@.len(),
    ensures
        ({
            let (s, a) = (r@[i], r@[i].fleet@[j]);
            &&& r@.len() == 2
            &&& s.family is Border
            &&& a.trips == 2
            &&& 2 * a.q == 50 * a.body.parts@.len()
            &&& a.source.room != a.sink.room
            &&& a.source.y == a.sink.y
            &&& s.terrain.walls@ == Set::<(u8, u8)>::empty()
        }),
{
    let a = r@[i].fleet@[j];
    assert(hauls(a, 2, 100, home(10, 25), west(40, 25)));
}

} // verus!
