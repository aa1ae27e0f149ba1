//! Terrain pricing for the mover's pathfinder: the engine's fatigue field, as the ordered writes
//! that build a cost matrix.

use crate::grid::{Position, FATIGUE_RATE_ROAD, FATIGUE_RATE_SWAMP};
use crate::list::copied;
use crate::terrain::{in_order, SimTerrain};
use vstd::prelude::*;

verus! {

/// The fatigue rate of a tile: road 1, plain 2, swamp 10. The same field prices the mover's
/// search and the optimum's edges.
pub fn fatigue_rate(terrain: &SimTerrain, x: u8, y: u8) -> (r: u32)
    ensures
        r == terrain.rate((x, y)),
        1 <= r <= 10,
{
    terrain.fatigue_rate(x, y)
}

/// The ceiling on the operations of one path search.
pub const MAX_OPS: u32 = 20_000;

/// The cost of an impassable tile.
pub const IMPASSABLE: u8 = 255;

/// One write of a cost to a tile.
#[derive(Clone, Copy, Debug, PartialEq, Eq, Structural)]
pub struct TileCost {
    pub x: u8,
    pub y: u8,
    pub cost: u8,
}

/// The writes that price a room's terrain: `roads` are applied first, and `other` over them.
#[derive(Debug)]
pub struct StructureCosts {
    pub roads: Vec<TileCost>,
    pub other: Vec<TileCost>,
}

/// A terrain taken down tile by tile, for pricing. It prices every room alike.
#[derive(Debug)]
pub struct TerrainCostSource {
    pub walls: Vec<(u8, u8)>,
    pub swamps: Vec<(u8, u8)>,
    pub roads: Vec<(u8, u8)>,
}

/// The two sources list the same tiles.
pub open spec fn same_source(a: TerrainCostSource, b: TerrainCostSource) -> bool {
    a.walls@ == b.walls@ && a.swamps@ == b.swamps@ && a.roads@ == b.roads@
}

impl Clone for TerrainCostSource {
    fn clone(&self) -> (r: TerrainCostSource)
        ensures
            same_source(r, *self),
    {
        TerrainCostSource {
            walls: copied(self.walls.as_slice()),
            swamps: copied(self.swamps.as_slice()),
            roads: copied(self.roads.as_slice()),
        }
    }
}

/// `tiles` lists a set of tiles in column-major order.
pub open spec fn lists(tiles: Seq<(u8, u8)>, set: Set<(u8, u8)>) -> bool {
    in_order(tiles) && forall|t: (u8, u8)| tiles.contains(t) == set.contains(t)
}

/// The writes of one cost to each of the tiles.
pub open spec fn stamped(tiles: Seq<(u8, u8)>, cost: u8) -> Seq<TileCost> {
    Seq::new(tiles.len(), |i: int| TileCost { x: tiles[i].0, y: tiles[i].1, cost })
}

/// The tiles that are not among `roads`.
pub open spec fn off_road(tiles: Seq<(u8, u8)>, roads: Seq<(u8, u8)>) -> Seq<(u8, u8)>
    decreases tiles.len(),
{
    if tiles.len() == 0 {
        Seq::empty()
    } else {
        let before = off_road(tiles.drop_last(), roads);
        if roads.contains(tiles.last()) {
            before
        } else {
            before.push(tiles.last())
        }
    }
}

/// What the last write to a tile says.
pub open spec fn written(writes: Seq<TileCost>, t: (u8, u8)) -> Option<u8>
    decreases writes.len(),
{
    if writes.len() == 0 {
        None
    } else if (writes.last().x, writes.last().y) == t {
        Some(writes.last().cost)
    } else {
        written(writes.drop_last(), t)
    }
}

/// The cost of a tile in the matrix: what `other` says, and where it says nothing what `roads`
/// says. `None` leaves the tile a plain.
pub open spec fn matrix_cost(roads: Seq<TileCost>, other: Seq<TileCost>, t: (u8, u8)) -> Option<u8> {
    match written(other, t) {
        Some(c) => Some(c),
        None => written(roads, t),
    }
}

impl TerrainCostSource {
    /// The source lists the terrain's tiles.
    pub open spec fn of_terrain(self, terrain: SimTerrain) -> bool {
        &&& lists(self.walls@, terrain.walls@)
        &&& lists(self.swamps@, terrain.swamps@)
        &&& lists(self.roads@, terrain.roads@)
    }

    /// Takes a terrain down.
    pub fn new(terrain: &SimTerrain) -> (r: TerrainCostSource)
        ensures
            r.of_terrain(*terrain),
    {
        TerrainCostSource {
            walls: terrain.walls.to_vec(),
            swamps: terrain.swamps.to_vec(),
            roads: terrain.roads.to_vec(),
        }
    }

    /// The road writes that price the terrain.
    pub open spec fn s_roads(self) -> Seq<TileCost> {
        stamped(self.roads@, FATIGUE_RATE_ROAD as u8)
    }

    /// The other writes that price the terrain: swamps off the road, then walls.
    pub open spec fn s_other(self) -> Seq<TileCost> {
        stamped(off_road(self.swamps@, self.roads@), FATIGUE_RATE_SWAMP as u8) + stamped(
            self.walls@,
            IMPASSABLE,
        )
    }

    /// The writes that price the terrain. A road over a swamp is left out of `other`, which
    /// would overwrite the road's cost.
    pub fn get_structure_costs(&self) -> (r: StructureCosts)
        ensures
            r.roads@ == self.s_roads(),
            r.other@ == self.s_other(),
    {
        let mut other: Vec<TileCost> = Vec::new();
        let mut i: usize = 0;
        while i < self.swamps.len()
            invariant
                i <= self.swamps@.len(),
                other@ == stamped(
                    off_road(self.swamps@.take(i as int), self.roads@),
                    FATIGUE_RATE_SWAMP as u8,
                ),
            decreases self.swamps@.len() - i,
        {
            assert(self.swamps@.take(i + 1).drop_last() =~= self.swamps@.take(i as int));
            let t = self.swamps[i];
            if !listed(&self.roads, t) {
                other.push(TileCost { x: t.0, y: t.1, cost: FATIGUE_RATE_SWAMP as u8 });
            }
            i += 1;
            assert(other@ =~= stamped(
                off_road(self.swamps@.take(i as int), self.roads@),
                FATIGUE_RATE_SWAMP as u8,
            ));
        }
        assert(self.swamps@.take(i as int) =~= self.swamps@);
        let ghost swampy = other@;
        let mut j: usize = 0;
        while j < self.walls.len()
            invariant
                j <= self.walls@.len(),
                other@ == swampy + stamped(self.walls@.take(j as int), IMPASSABLE),
            decreases self.walls@.len() - j,
        {
            let t = self.walls[j];
            other.push(TileCost { x: t.0, y: t.1, cost: IMPASSABLE });
            j += 1;
            assert(other@ =~= swampy + stamped(self.walls@.take(j as int), IMPASSABLE));
        }
        assert(self.walls@.take(j as int) =~= self.walls@);
        let mut roads: Vec<TileCost> = Vec::new();
        let mut k: usize = 0;
        while k < self.roads.len()
            invariant
                k <= self.roads@.len(),
                roads@ == stamped(self.roads@.take(k as int), FATIGUE_RATE_ROAD as u8),
            decreases self.roads@.len() - k,
        {
            let t = self.roads[k];
            roads.push(TileCost { x: t.0, y: t.1, cost: FATIGUE_RATE_ROAD as u8 });
            k += 1;
            assert(roads@ =~= stamped(self.roads@.take(k as int), FATIGUE_RATE_ROAD as u8));
        }
        assert(self.roads@.take(k as int) =~= self.roads@);
        StructureCosts { roads, other }
    }
}

/// Membership in a list of tiles.
fn listed(tiles: &Vec<(u8, u8)>, t: (u8, u8)) -> (r: bool)
    ensures
        r == tiles@.contains(t),
{
    let mut i: usize = 0;
    while i < tiles.len()
        invariant
            i <= tiles@.len(),
            forall|k: int| 0 <= k < i ==> tiles@[k] != t,
        decreases tiles@.len() - i,
    {
        let u = tiles[i];
        if u.0 == t.0 && u.1 == t.1 {
            assert(tiles@[i as int] == t);
            return true;
        }
        i += 1;
    }
    false
}

proof fn lemma_written_stamp(tiles: Seq<(u8, u8)>, cost: u8, t: (u8, u8))
    ensures
        written(stamped(tiles, cost), t) == if tiles.contains(t) {
            Some(cost)
        } else {
            None
        },
    decreases tiles.len(),
{
    if tiles.len() > 0 {
        let front = tiles.drop_last();
        lemma_written_stamp(front, cost, t);
        assert(stamped(tiles, cost).drop_last() =~= stamped(front, cost));
        if front.contains(t) {
            let k = choose|k: int| 0 <= k < front.len() && front[k] == t;
            assert(tiles[k] == t);
        }
        if tiles.contains(t) && tiles.last() != t {
            let k = choose|k: int| 0 <= k < tiles.len() && tiles[k] == t;
            assert(front[k] == t);
        }
        if tiles.last() == t {
            assert(tiles[tiles.len() - 1] == t);
        }
    }
}

proof fn lemma_written_over(a: Seq<TileCost>, b: Seq<TileCost>, t: (u8, u8))
    ensures
        written(a + b, t) == match written(b, t) {
            Some(c) => Some(c),
            None => written(a, t),
        },
    decreases b.len(),
{
    if b.len() == 0 {
        assert(a + b =~= a);
    } else {
        assert((a + b).drop_last() =~= a + b.drop_last());
        lemma_written_over(a, b.drop_last(), t);
    }
}

proof fn lemma_off_road(tiles: Seq<(u8, u8)>, roads: Seq<(u8, u8)>, t: (u8, u8))
    ensures
        off_road(tiles, roads).contains(t) == (tiles.contains(t) && !roads.contains(t)),
    decreases tiles.len(),
{
    if tiles.len() > 0 {
        let front = tiles.drop_last();
        let kept = off_road(tiles, roads);
        let before = off_road(front, roads);
        lemma_off_road(front, roads, t);
        if tiles.contains(t) && tiles.last() != t {
            let k = choose|k: int| 0 <= k < tiles.len() && tiles[k] == t;
            assert(front[k] == t);
        }
        if front.contains(t) {
            let k = choose|k: int| 0 <= k < front.len() && front[k] == t;
            assert(tiles[k] == t);
        }
        if before.contains(t) {
            let k = choose|k: int| 0 <= k < before.len() && before[k] == t;
            assert(kept[k] == t);
        }
        if kept.contains(t) && !before.contains(t) {
            let k = choose|k: int| 0 <= k < kept.len() && kept[k] == t;
            assert(k == before.len());
        }
        if tiles.last() == t {
            assert(tiles[tiles.len() - 1] == t);
            if !roads.contains(t) {
                assert(kept[before.len() as int] == t);
            }
        }
    }
}

/// The matrix is the fatigue field of the terrain: walls are impassable, and every other tile
/// costs its fatigue rate, a road winning over the swamp beneath it. Tiles that the matrix leaves
/// out are plains.
pub proof fn law_matrix_is_the_fatigue_field(source: TerrainCostSource, terrain: SimTerrain, t: (u8, u8))
    requires
        source.of_terrain(terrain),
    ensures
        matrix_cost(source.s_roads(), source.s_other(), t) == if terrain.walls@.contains(t) {
            Some(IMPASSABLE)
        } else if terrain.roads@.contains(t) || terrain.swamps@.contains(t) {
            Some(terrain.rate(t) as u8)
        } else {
            None
        },
{
    let swampy = off_road(source.swamps@, source.roads@);
    lemma_written_stamp(source.roads@, FATIGUE_RATE_ROAD as u8, t);
    lemma_written_stamp(swampy, FATIGUE_RATE_SWAMP as u8, t);
    lemma_written_stamp(source.walls@, IMPASSABLE, t);
    lemma_written_over(
        stamped(swampy, FATIGUE_RATE_SWAMP as u8),
        stamped(source.walls@, IMPASSABLE),
        t,
    );
    lemma_off_road(source.swamps@, source.roads@, t);
}

/// The terrain of one room, where it is not the common one.
#[derive(Debug)]
pub struct RoomTerrain {
    pub room: u16,
    pub terrain: SimTerrain,
}

/// A room's own terrain source.
#[derive(Debug)]
pub struct RoomCostSource {
    pub room: u16,
    pub source: TerrainCostSource,
}

/// The pricing of a whole world: a common terrain, the rooms that have their own, and the tile of
/// every living creep by the room that it is in.
#[derive(Debug)]
pub struct WorldCostSource {
    pub terrain: TerrainCostSource,
    pub rooms: Vec<RoomCostSource>,
    pub friendly: Vec<Position>,
}

impl Clone for WorldCostSource {
    fn clone(&self) -> (r: WorldCostSource)
        ensures
            same_source(r.terrain, self.terrain),
            r.rooms@.len() == self.rooms@.len(),
            forall|i: int|
                0 <= i < self.rooms@.len() ==> (#[trigger] r.rooms@[i]).room == self.rooms@[i].room
                    && same_source(r.rooms@[i].source, self.rooms@[i].source),
            r.friendly@ == self.friendly@,
    {
        let mut rooms: Vec<RoomCostSource> = Vec::new();
        let mut i: usize = 0;
        while i < self.rooms.len()
            invariant
                i <= self.rooms@.len(),
                rooms@.len() == i,
                forall|k: int|
                    0 <= k < i ==> (#[trigger] rooms@[k]).room == self.rooms@[k].room
                        && same_source(rooms@[k].source, self.rooms@[k].source),
            decreases self.rooms@.len() - i,
        {
            let own = &self.rooms[i];
            rooms.push(RoomCostSource { room: own.room, source: own.source.clone() });
            i += 1;
        }
        WorldCostSource {
            terrain: self.terrain.clone(),
            rooms,
            friendly: copied(self.friendly.as_slice()),
        }
    }
}

/// The place of a room among those with their own terrain, from `k` on.
pub open spec fn room_at(rooms: Seq<RoomCostSource>, room: u16, k: int) -> Option<int>
    decreases rooms.len() - k,
{
    if k >= rooms.len() {
        None
    } else if rooms[k].room == room {
        Some(k)
    } else {
        room_at(rooms, room, k + 1)
    }
}

/// The writes for the creeps in one room.
pub open spec fn occupied(friendly: Seq<Position>, room: u16) -> Seq<TileCost>
    decreases friendly.len(),
{
    if friendly.len() == 0 {
        Seq::empty()
    } else {
        let before = occupied(friendly.drop_last(), room);
        let p = friendly.last();
        if p.room == room {
            before.push(TileCost { x: p.x, y: p.y, cost: IMPASSABLE })
        } else {
            before
        }
    }
}

impl WorldCostSource {
    /// The source that answers for a room: its own, or the common one.
    pub open spec fn s_terrain_for(self, room: u16) -> TerrainCostSource {
        match room_at(self.rooms@, room, 0) {
            Some(k) => self.rooms@[k].source,
            None => self.terrain,
        }
    }

    /// Takes a world down: the common terrain, the rooms with their own, and the positions of the
    /// living creeps.
    pub fn new(terrain: &SimTerrain, rooms: &[RoomTerrain], living: &[Position]) -> (r: WorldCostSource)
        ensures
            r.terrain.of_terrain(*terrain),
            r.rooms@.len() == rooms@.len(),
            forall|i: int|
                0 <= i < rooms@.len() ==> (#[trigger] r.rooms@[i]).room == rooms@[i].room
                    && r.rooms@[i].source.of_terrain(rooms@[i].terrain),
            r.friendly@ == living@,
    {
        let mut own: Vec<RoomCostSource> = Vec::new();
        let mut i: usize = 0;
        while i < rooms.len()
            invariant
                i <= rooms@.len(),
                own@.len() == i,
                forall|k: int|
                    0 <= k < i ==> (#[trigger] own@[k]).room == rooms@[k].room
                        && own@[k].source.of_terrain(rooms@[k].terrain),
            decreases rooms@.len() - i,
        {
            own.push(
                RoomCostSource {
                    room: rooms[i].room,
                    source: TerrainCostSource::new(&rooms[i].terrain),
                },
            );
            i += 1;
        }
        let mut friendly: Vec<Position> = Vec::new();
        let mut j: usize = 0;
        while j < living.len()
            invariant
                j <= living@.len(),
                friendly@ == living@.take(j as int),
            decreases living@.len() - j,
        {
            friendly.push(living[j]);
            j += 1;
            assert(friendly@ =~= living@.take(j as int));
        }
        assert(living@.take(j as int) =~= living@);
        WorldCostSource { terrain: TerrainCostSource::new(terrain), rooms: own, friendly }
    }

    /// The source that answers for a room: its own, or the common one.
    pub fn terrain_for(&self, room: u16) -> (r: &TerrainCostSource)
        ensures
            *r == self.s_terrain_for(room),
    {
        let mut i: usize = 0;
        while i < self.rooms.len()
            invariant
                i <= self.rooms@.len(),
                room_at(self.rooms@, room, 0) == room_at(self.rooms@, room, i as int),
            decreases self.rooms@.len() - i,
        {
            if self.rooms[i].room == room {
                return &self.rooms[i].source;
            }
            i += 1;
        }
        &self.terrain
    }

    /// The writes that price a room's terrain.
    pub fn get_structure_costs(&self, room: u16) -> (r: StructureCosts)
        ensures
            r.roads@ == self.s_terrain_for(room).s_roads(),
            r.other@ == self.s_terrain_for(room).s_other(),
    {
        self.terrain_for(room).get_structure_costs()
    }

    /// The writes that make the tiles of a room's creeps impassable.
    pub fn get_creep_costs(&self, room: u16) -> (r: Vec<TileCost>)
        ensures
            r@ == occupied(self.friendly@, room),
    {
        let mut r: Vec<TileCost> = Vec::new();
        let mut i: usize = 0;
        while i < self.friendly.len()
            invariant
                i <= self.friendly@.len(),
                r@ == occupied(self.friendly@.take(i as int), room),
            decreases self.friendly@.len() - i,
        {
            assert(self.friendly@.take(i + 1).drop_last() =~= self.friendly@.take(i as int));
            let p = self.friendly[i];
            if p.room == room {
                r.push(TileCost { x: p.x, y: p.y, cost: IMPASSABLE });
            }
            i += 1;
        }
        assert(self.friendly@.take(i as int) =~= self.friendly@);
        r
    }
}

/// A room's creep costs name exactly the tiles of the creeps in that room: no creep of another
/// room leaks in, and none of its own is missing.
pub proof fn law_creep_costs_never_leak(friendly: Seq<Position>, room: u16, t: (u8, u8))
    ensures
        written(occupied(friendly, room), t) == if friendly.contains(
            Position { room, x: t.0, y: t.1 },
        ) {
            Some(IMPASSABLE)
        } else {
            None
        },
    decreases friendly.len(),
{
    if friendly.len() > 0 {
        let front = friendly.drop_last();
        let here = Position { room, x: t.0, y: t.1 };
        law_creep_costs_never_leak(front, room, t);
        let p = friendly.last();
        if p.room == room {
            assert(occupied(friendly, room).drop_last() =~= occupied(front, room));
        }
        if front.contains(here) {
            let k = choose|k: int| 0 <= k < front.len() && front[k] == here;
            assert(friendly[k] == here);
        }
        if friendly.contains(here) && p != here {
            let k = choose|k: int| 0 <= k < friendly.len() && friendly[k] == here;
            assert(front[k] == here);
        }
        if p == here {
            assert(friendly[friendly.len() - 1] == here);
        }
    }
}

/// A room without its own terrain is priced by the common one, and a room with its own is priced
/// by nothing else.
pub proof fn law_rooms_price_their_own_terrain(world: WorldCostSource, room: u16)
    ensures
        (forall|i: int| 0 <= i < world.rooms@.len() ==> (#[trigger] world.rooms@[i]).room != room)
            ==> world.s_terrain_for(room) == world.terrain,
        forall|i: int|
            0 <= i < world.rooms@.len() && (#[trigger] world.rooms@[i]).room == room && (forall|
                j: int,
            |
                0 <= j < i ==> (#[trigger] world.rooms@[j]).room != room) ==> world.s_terrain_for(
                room,
            ) == world.rooms@[i].source,
{
    assert forall|i: int|
        0 <= i < world.rooms@.len() && (#[trigger] world.rooms@[i]).room == room && (forall|j: int|
            0 <= j < i ==> (#[trigger] world.rooms@[j]).room
                != room) implies world.s_terrain_for(room) == world.rooms@[i].source by {
        lemma_room_at(world.rooms@, room, 0, i);
    }
    if forall|i: int| 0 <= i < world.rooms@.len() ==> (#[trigger] world.rooms@[i]).room != room {
        lemma_no_room(world.rooms@, room, 0);
    }
}

proof fn lemma_room_at(rooms: Seq<RoomCostSource>, room: u16, k: int, i: int)
    requires
        0 <= k <= i < rooms.len(),
        rooms[i].room == room,
        forall|j: int| k <= j < i ==> (#[trigger] rooms[j]).room != room,
    ensures
        room_at(rooms, room, k) == Some(i),
    decreases i - k,
{
    if k < i {
        assert(rooms[k].room != room);
        lemma_room_at(rooms, room, k + 1, i);
    }
}

proof fn lemma_no_room(rooms: Seq<RoomCostSource>, room: u16, k: int)
    requires
        0 <= k,
        forall|i: int| 0 <= i < rooms.len() ==> (#[trigger] rooms[i]).room != room,
    ensures
        room_at(rooms, room, k) is None,
    decreases rooms.len() - k,
{
    if k < rooms.len() {
        assert(rooms[k].room != room);
        lemma_no_room(rooms, room, k + 1);
    }
}

} // verus!
