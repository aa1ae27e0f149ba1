//! The cost field of the ground-truth optimum.

use crate::terrain::SimTerrain;
use vstd::prelude::*;

verus! {

/// The cost of entering a tile: its fatigue rate, or `None` for a wall.
pub open spec fn s_enter_cost(terrain: SimTerrain, t: (u8, u8)) -> Option<u64> {
    if terrain.walls@.contains(t) {
        None
    } else {
        Some(terrain.rate(t) as u64)
    }
}

/// The cost of entering a tile, as the optimum is searched by: its fatigue rate, or `None` where
/// it is impassable.
pub fn enter_cost(terrain: &SimTerrain, x: u8, y: u8) -> (r: Option<u64>)
    ensures
        r == s_enter_cost(*terrain, (x, y)),
{
    if terrain.is_wall(x, y) {
        None
    } else {
        Some(terrain.fatigue_rate(x, y) as u64)
    }
}

/// Walls cannot be entered; every other tile costs what the mover's matrix charges for it, roads
/// one, swamp without a road ten, and plains two.
pub proof fn law_only_walls_cannot_be_entered(terrain: SimTerrain, t: (u8, u8))
    ensures
        s_enter_cost(terrain, t) is None <==> terrain.walls@.contains(t),
        s_enter_cost(terrain, t) matches Some(c) ==> c == if terrain.roads@.contains(t) {
            1u64
        } else if terrain.swamps@.contains(t) {
            10u64
        } else {
            2u64
        },
{
}

} // verus!
