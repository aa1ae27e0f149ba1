//! Pathing-quality metrics: route optimality, travel time, and what idling was forced.

use crate::cost::fatigue_rate;
use crate::grid::Position;
use crate::scalar::{Exact, Numbers, Scalar};
use crate::terrain::SimTerrain;
use crate::traverse::Traversal;
use vstd::prelude::*;

verus! {

/// The cap on a single-room traversal, in ticks.
pub const TRAVERSAL_TICK_CAP: u32 = 5_000;

/// The tile of a position, without its room.
pub open spec fn tile_of(p: Position) -> (u8, u8) {
    (p.x, p.y)
}

/// The fatigue of entering each tile in turn.
pub open spec fn fatigue_of(terrain: SimTerrain, tiles: Seq<(u8, u8)>) -> nat
    decreases tiles.len(),
{
    if tiles.len() == 0 {
        0
    } else {
        fatigue_of(terrain, tiles.drop_last()) + terrain.rate(tiles.last()) as nat
    }
}

/// A longer path costs no less.
proof fn lemma_fatigue_grows(terrain: SimTerrain, tiles: Seq<(u8, u8)>, n: int)
    requires
        0 <= n <= tiles.len(),
    ensures
        fatigue_of(terrain, tiles.take(n)) <= fatigue_of(terrain, tiles),
    decreases tiles.len() - n,
{
    if n == tiles.len() {
        assert(tiles.take(n) =~= tiles);
    } else {
        lemma_fatigue_grows(terrain, tiles, n + 1);
        assert(tiles.take(n + 1).drop_last() =~= tiles.take(n));
    }
}

/// The tiles of a path of positions.
pub open spec fn tiles_of(path: Seq<Position>) -> Seq<(u8, u8)> {
    Seq::new(path.len(), |i: int| tile_of(path[i]))
}

/// The fatigue cost of a path of positions, without its start.
pub fn path_fatigue_cost(terrain: &SimTerrain, path: &[Position]) -> (r: u32)
    requires
        fatigue_of(*terrain, tiles_of(path@)) <= u32::MAX,
    ensures
        r == fatigue_of(*terrain, tiles_of(path@)),
{
    let ghost tiles = tiles_of(path@);
    let mut sum: u32 = 0;
    let mut i: usize = 0;
    while i < path.len()
        invariant
            i <= path@.len(),
            fatigue_of(*terrain, tiles) <= u32::MAX,
            tiles == tiles_of(path@),
            sum == fatigue_of(*terrain, tiles.take(i as int)),
        decreases path@.len() - i,
    {
        assert(tiles.take(i + 1).drop_last() =~= tiles.take(i as int));
        proof {
            lemma_fatigue_grows(*terrain, tiles, i + 1);
        }
        let p = path[i];
        sum += fatigue_rate(terrain, p.x, p.y);
        i += 1;
    }
    assert(tiles.take(i as int) =~= tiles);
    sum
}

/// The fatigue cost of a path of tiles, without its start.
pub fn coords_fatigue_cost(terrain: &SimTerrain, path: &[(u8, u8)]) -> (r: u32)
    requires
        fatigue_of(*terrain, path@) <= u32::MAX,
    ensures
        r == fatigue_of(*terrain, path@),
{
    let mut sum: u32 = 0;
    let mut i: usize = 0;
    while i < path.len()
        invariant
            i <= path@.len(),
            fatigue_of(*terrain, path@) <= u32::MAX,
            sum == fatigue_of(*terrain, path@.take(i as int)),
        decreases path@.len() - i,
    {
        assert(path@.take(i + 1).drop_last() =~= path@.take(i as int));
        proof {
            lemma_fatigue_grows(*terrain, path@, i + 1);
        }
        let (x, y) = path[i];
        sum += fatigue_rate(terrain, x, y);
        i += 1;
    }
    assert(path@.take(i as int) =~= path@);
    sum
}

/// A cost over the cost of the optimum; one where the optimum costs nothing.
pub open spec fn s_ratio<S: Numbers>(cost: u64, optimum: u64) -> S {
    if optimum == 0 {
        S::s_of(1)
    } else {
        S::s_of(cost).s_over(S::s_of(optimum))
    }
}

/// Route optimality: the fatigue cost of the mover's route over that of the optimum. `None`
/// where the mover's search was incomplete or there is no optimum, the goal being out of reach;
/// one where the start is already in range.
pub fn r_fatigue<S: Scalar>(
    terrain: &SimTerrain,
    rover: &[Position],
    incomplete: bool,
    optimum: Option<&[(u8, u8)]>,
) -> (r: Option<S>)
    requires
        !incomplete && optimum is Some ==> fatigue_of(*terrain, tiles_of(rover@)) <= u32::MAX
            && fatigue_of(*terrain, optimum.unwrap()@) <= u32::MAX,
    ensures
        r is None <==> incomplete || optimum is None,
        r matches Some(ratio) ==> ratio == s_ratio::<S>(
            fatigue_of(*terrain, tiles_of(rover@)) as u64,
            fatigue_of(*terrain, optimum.unwrap()@) as u64,
        ),
{
    if incomplete {
        return None;
    }
    match optimum {
        None => None,
        Some(path) => {
            let rover_cost: u32 = path_fatigue_cost(terrain, rover);
            let optimum_cost: u32 = coords_fatigue_cost(terrain, path);
            if optimum_cost == 0 {
                Some(S::of(1))
            } else {
                Some(S::of(rover_cost as u64).over(S::of(optimum_cost as u64)))
            }
        },
    }
}

/// A route that costs as much as the optimum is optimal: its ratio is one.
pub proof fn law_optimal_route_has_ratio_one<S: Scalar>(cost: u64)
    requires
        cost <= u32::MAX,
    ensures
        s_ratio::<S>(cost, cost) == S::s_of(1),
{
    if cost > 0 {
        S::lemma_share(cost, cost);
    }
}

/// A route that costs no less than the optimum has a ratio of no less than one.
pub proof fn law_no_route_beats_the_optimum<S: Scalar>(cost: u64, optimum: u64)
    requires
        optimum <= cost <= u32::MAX,
    ensures
        !s_ratio::<S>(cost, optimum).s_below(S::s_of(1)),
{
    S::lemma_counts(1, 1);
    if optimum > 0 {
        S::lemma_multiple(cost, optimum);
    }
}

/// In exact arithmetic a ratio of one means equal costs, but for an optimum that costs nothing.
pub proof fn law_ratio_one_means_equal_costs(cost: u64, optimum: u64)
    ensures
        s_ratio::<Exact>(cost, optimum) == Exact::s_of(1) <==> optimum == 0 || cost == optimum,
{
    if optimum > 0 {
        let (c, o) = (cost as real, optimum as real);
        assert(c / o == 1real <==> c == o) by (nonlinear_arith)
            requires
                o > 0real,
        ;
    }
}

/// In exact arithmetic the ratio of a route to an optimum that costs no more is at least one, and
/// one exactly if the two cost the same: a cost of nothing is that of the empty path alone.
pub proof fn law_ratio_tells_the_optimum(
    terrain: SimTerrain,
    rover: Seq<Position>,
    optimum: Seq<(u8, u8)>,
)
    requires
        fatigue_of(terrain, optimum) <= fatigue_of(terrain, tiles_of(rover)) <= u32::MAX,
    ensures
        ({
            let (c, o) = (fatigue_of(terrain, tiles_of(rover)), fatigue_of(terrain, optimum));
            let r = s_ratio::<Exact>(c as u64, o as u64);
            &&& r.v >= 1real
            &&& o > 0 ==> (r.v == 1real <==> c == o)
            &&& o == 0 <==> optimum.len() == 0
            &&& o == 0 ==> r.v == 1real
        }),
{
    let (c, o) = (fatigue_of(terrain, tiles_of(rover)), fatigue_of(terrain, optimum));
    law_ratio_one_means_equal_costs(c as u64, o as u64);
    if optimum.len() > 0 {
        assert(terrain.rate(optimum.last()) >= 1);
    }
    if o > 0 {
        let (x, y) = (c as real, o as real);
        assert(x / y >= 1real) by (nonlinear_arith)
            requires
                x >= y,
                y > 0real,
        ;
    }
}

/// Travel time: the ticks that the creep needs on the mover's route over those it needs on the
/// optimal route. `None` where a route is missing or was not completed; one where the start is
/// already in range.
pub fn r_ticks<S: Scalar>(rover: Option<&Traversal>, optimum: Option<&Traversal>) -> (r: Option<S>)
    ensures
        r is Some <==> (rover matches Some(a) && a.reached) && (optimum matches Some(b)
            && b.reached),
        r matches Some(ratio) ==> ratio == s_ratio::<S>(
            rover.unwrap().ticks as u64,
            optimum.unwrap().ticks as u64,
        ),
{
    match (rover, optimum) {
        (Some(a), Some(b)) => {
            if !a.reached || !b.reached {
                None
            } else if b.ticks == 0 {
                Some(S::of(1))
            } else {
                Some(S::of(a.ticks as u64).over(S::of(b.ticks as u64)))
            }
        },
        _ => None,
    }
}

/// The share of `part` in the ticks; one where there are none.
pub open spec fn s_tick_share<S: Numbers>(part: u64, ticks: u64) -> S {
    if ticks == 0 {
        S::s_of(1)
    } else {
        S::s_of(part).s_over(S::s_of(ticks))
    }
}

/// The share of ticks on which the creep stepped; one means that it never stalled.
pub fn movement_eff<S: Scalar>(t: &Traversal) -> (r: S)
    ensures
        r == s_tick_share::<S>(t.moves as u64, t.ticks as u64),
{
    if t.ticks == 0 {
        return S::of(1);
    }
    S::of(t.moves as u64).over(S::of(t.ticks as u64))
}

/// The share of ticks that were productive or forced by fatigue; below one the creep idled with
/// a step available.
pub fn fatigue_util<S: Scalar>(t: &Traversal) -> (r: S)
    requires
        t.moves + t.idle_fatigued <= u32::MAX,
    ensures
        r == s_tick_share::<S>((t.moves + t.idle_fatigued) as u64, t.ticks as u64),
{
    if t.ticks == 0 {
        return S::of(1);
    }
    S::of((t.moves + t.idle_fatigued) as u64).over(S::of(t.ticks as u64))
}

/// A creep that never idles with a step available is blameless, however slow: its utilization is
/// one.
pub proof fn law_forced_idling_is_blameless<S: Scalar>(t: Traversal)
    requires
        t.accounted(),
        t.idle_free == 0,
    ensures
        s_tick_share::<S>((t.moves + t.idle_fatigued) as u64, t.ticks as u64) == S::s_of(1),
{
    if t.ticks > 0 {
        S::lemma_share(t.ticks as u64, t.ticks as u64);
    }
}

/// Both shares lie between zero and one.
pub proof fn law_tick_shares_are_fractions<S: Scalar>(t: Traversal)
    requires
        t.accounted(),
    ensures
        s_tick_share::<S>(t.moves as u64, t.ticks as u64).amount(),
        !S::s_of(1).s_below(s_tick_share::<S>(t.moves as u64, t.ticks as u64)),
        s_tick_share::<S>((t.moves + t.idle_fatigued) as u64, t.ticks as u64).amount(),
        !S::s_of(1).s_below(
            s_tick_share::<S>((t.moves + t.idle_fatigued) as u64, t.ticks as u64),
        ),
{
    S::lemma_counts(1, 1);
    if t.ticks > 0 {
        S::lemma_share(t.moves as u64, t.ticks as u64);
        S::lemma_share((t.moves + t.idle_fatigued) as u64, t.ticks as u64);
    }
}

/// The fatigue of a path is that of its tiles, each as often as it is entered: one for a road, ten
/// for swamp without a road, two for a plain.
pub proof fn law_path_costs_what_its_tiles_cost(terrain: SimTerrain, tiles: Seq<(u8, u8)>)
    ensures
        fatigue_of(terrain, tiles) == tiles.fold_left(
            0int,
            |t: int, p: (u8, u8)|
                t + if terrain.roads@.contains(p) {
                    1int
                } else if terrain.swamps@.contains(p) {
                    10int
                } else {
                    2int
                },
        ),
    decreases tiles.len(),
{
    if tiles.len() > 0 {
        law_path_costs_what_its_tiles_cost(terrain, tiles.drop_last());
    }
}

/// In exact arithmetic a ratio times the cost of the optimum is the cost; where the optimum costs
/// nothing the ratio is one.
pub proof fn law_ratio_scales_the_optimum(cost: u64, optimum: u64)
    ensures
        optimum > 0 ==> s_ratio::<Exact>(cost, optimum).v * optimum as real == cost as real,
        optimum == 0 ==> s_ratio::<Exact>(cost, optimum).v == 1real,
{
    if optimum > 0 {
        let (c, o) = (cost as real, optimum as real);
        assert(c / o * o == c) by (nonlinear_arith)
            requires
                o > 0real,
        ;
    }
}

/// In exact arithmetic a share of ticks times the ticks is the part; of no ticks it is one.
pub proof fn law_share_scales_the_ticks(part: u64, ticks: u64)
    ensures
        ticks > 0 ==> s_tick_share::<Exact>(part, ticks).v * ticks as real == part as real,
        ticks == 0 ==> s_tick_share::<Exact>(part, ticks).v == 1real,
{
    if ticks > 0 {
        let (c, o) = (part as real, ticks as real);
        assert(c / o * o == c) by (nonlinear_arith)
            requires
                o > 0real,
        ;
    }
}

/// Route optimality is measured exactly if the search was complete and there is an optimum, and
/// then compares the fatigue of the route with that of the optimum.
pub proof fn law_route_optimality_compares_fatigue<S: Scalar>(
    terrain: &SimTerrain,
    rover: &[Position],
    incomplete: bool,
    optimum: Option<&[(u8, u8)]>,
    r: Option<S>,
)
    requires
        call_ensures(r_fatigue::<S>, (terrain, rover, incomplete, optimum), r),
    ensures
        r is Some <==> !incomplete && optimum is Some,
        r matches Some(ratio) ==> ratio == s_ratio::<S>(
            fatigue_of(*terrain, rover@.map_values(|p: Position| (p.x, p.y))) as u64,
            fatigue_of(*terrain, optimum.unwrap()@) as u64,
        ),
{
    assert(tiles_of(rover@) =~= rover@.map_values(|p: Position| (p.x, p.y)));
}

/// Travel time is measured exactly if both walks were completed, and then compares their ticks.
pub proof fn law_travel_time_compares_ticks<S: Scalar>(
    rover: Option<&Traversal>,
    optimum: Option<&Traversal>,
    r: Option<S>,
)
    requires
        call_ensures(r_ticks::<S>, (rover, optimum), r),
    ensures
        r is Some <==> rover is Some && optimum is Some && rover.unwrap().reached
            && optimum.unwrap().reached,
        r matches Some(ratio) ==> ratio == s_ratio::<S>(
            rover.unwrap().ticks as u64,
            optimum.unwrap().ticks as u64,
        ),
{
}

/// Movement efficiency is the share of ticks that were steps; utilization is the share of those and
/// of the ticks rested by fatigue.
pub proof fn law_shares_of_a_walk<S: Scalar>(t: &Traversal, eff: S, util: S)
    requires
        t.accounted(),
        call_ensures(movement_eff::<S>, (t,), eff),
        call_ensures(fatigue_util::<S>, (t,), util),
    ensures
        eff == s_tick_share::<S>(t.moves as u64, t.ticks as u64),
        util == s_tick_share::<S>((t.ticks - t.idle_free) as u64, t.ticks as u64),
{
}

} // verus!
