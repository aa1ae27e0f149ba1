//! Base-traffic scenarios: a captured room layout realized into terrain, and the hauler cycles
//! that its economy drives from source containers to storage.

use crate::body::{hauler_body, hauler_parts};
use crate::grid::{chebyshev, is_safe_name, named_room, parse_room, pos_in, safe_name, Position, ROOM_SIZE};
use crate::haul::HaulAssignment;
use crate::list::copied;
use crate::terrain::SimTerrain;
use crate::text::{comes_before, law_text_order_is_total, law_text_order_is_transitive, same_text, text_before};
use vstd::prelude::*;

verus! {

/// One structure of a base plan. `kind` is the structure's lower-case name (`"road"`,
/// `"container"`, `"storage"`, `"spawn"`, and so on).
#[derive(Debug)]
pub struct PlannedStructure {
    pub kind: String,
    pub x: u8,
    pub y: u8,
    /// The controller level at which the structure exists; `None` where the plan left it open.
    pub required_rcl: Option<u8>,
}

/// A captured base layout: the room's encoded terrain, its objects, and every planned structure.
#[derive(Debug)]
pub struct CapturedLayout {
    pub room: String,
    pub terrain: String,
    pub controller: (u8, u8),
    pub sources: Vec<(u8, u8)>,
    pub mineral: Option<(u8, u8)>,
    pub structures: Vec<PlannedStructure>,
}

impl Clone for PlannedStructure {
    fn clone(&self) -> (r: PlannedStructure)
        ensures
            r == *self,
    {
        PlannedStructure {
            kind: self.kind.clone(),
            x: self.x,
            y: self.y,
            required_rcl: self.required_rcl,
        }
    }
}

/// The two layouts hold the same.
pub open spec fn same_layout(a: CapturedLayout, b: CapturedLayout) -> bool {
    &&& a.room == b.room
    &&& a.terrain == b.terrain
    &&& a.controller == b.controller
    &&& a.sources@ == b.sources@
    &&& a.mineral == b.mineral
    &&& a.structures@ == b.structures@
}

impl Clone for CapturedLayout {
    fn clone(&self) -> (r: CapturedLayout)
        ensures
            same_layout(r, *self),
    {
        let mut structures: Vec<PlannedStructure> = Vec::new();
        let mut i: usize = 0;
        while i < self.structures.len()
            invariant
                i <= self.structures@.len(),
                structures@ == self.structures@.take(i as int),
            decreases self.structures@.len() - i,
        {
            structures.push(self.structures[i].clone());
            i += 1;
            assert(structures@ =~= self.structures@.take(i as int));
        }
        assert(self.structures@.take(i as int) =~= self.structures@);
        CapturedLayout {
            room: self.room.clone(),
            terrain: self.terrain.clone(),
            controller: self.controller,
            sources: copied(self.sources.as_slice()),
            mineral: self.mineral,
            structures,
        }
    }
}

/// The captured layouts that are kept.
#[derive(Debug)]
pub struct LayoutCache {
    pub layouts: Vec<CapturedLayout>,
}

impl Default for LayoutCache {
    fn default() -> (r: LayoutCache)
        ensures
            r.layouts@.len() == 0,
    {
        LayoutCache { layouts: Vec::new() }
    }
}

/// A structure of this kind is an obstacle: anything but a road, a container, a rampart or an
/// extractor.
pub open spec fn obstructs(kind: Seq<char>) -> bool {
    kind != "road"@ && kind != "container"@ && kind != "rampart"@ && kind != "extractor"@
}

/// Whether a planned structure of `kind` blocks movement. Roads and containers are walkable, own
/// ramparts are walkable, and the extractor sits on the mineral; everything else is an obstacle.
pub fn blocks_movement(kind: &str) -> (r: bool)
    ensures
        r == obstructs(kind@),
{
    !(same_text(kind, "road") || same_text(kind, "container") || same_text(kind, "rampart")
        || same_text(kind, "extractor"))
}

/// Some road of the plan lies on the tile.
pub open spec fn road_on(structures: Seq<PlannedStructure>, t: (u8, u8)) -> bool {
    exists|i: int|
        0 <= i < structures.len() && (#[trigger] structures[i]).kind@ == "road"@ && t == (
            structures[i].x,
            structures[i].y,
        )
}

/// Some obstacle of the plan lies on the tile.
pub open spec fn obstacle_on(structures: Seq<PlannedStructure>, t: (u8, u8)) -> bool {
    exists|i: int|
        0 <= i < structures.len() && obstructs((#[trigger] structures[i]).kind@) && t == (
            structures[i].x,
            structures[i].y,
        )
}

/// The terrain is the decoded one with the plan's roads and obstacles on it.
pub open spec fn realizes(r: SimTerrain, layout: CapturedLayout, decoded: SimTerrain) -> bool {
    &&& r.swamps@ == decoded.swamps@
    &&& forall|t: (u8, u8)| #[trigger]
        r.roads@.contains(t) <==> decoded.roads@.contains(t) || road_on(layout.structures@, t)
    &&& forall|t: (u8, u8)| #[trigger]
        r.walls@.contains(t) <==> decoded.walls@.contains(t) || obstacle_on(layout.structures@, t)
}

/// Realizes a captured layout on its decoded terrain: the plan's roads become roads, and every
/// structure that blocks movement becomes a wall, so that mover, pathfinder and optimum agree.
pub fn base_scenario(layout: &CapturedLayout, decoded: &SimTerrain) -> (r: SimTerrain)
    ensures
        realizes(r, *layout, *decoded),
{
    let mut terrain = decoded.clone();
    let structures = &layout.structures;
    let ghost all = structures@;
    assert(all.take(0).len() == 0);
    let mut i: usize = 0;
    while i < structures.len()
        invariant
            i <= structures@.len(),
            structures@ == all,
            terrain.swamps@ == decoded.swamps@,
            forall|t: (u8, u8)| #[trigger]
                terrain.roads@.contains(t) <==> decoded.roads@.contains(t) || road_on(
                    all.take(i as int),
                    t,
                ),
            forall|t: (u8, u8)| #[trigger]
                terrain.walls@.contains(t) <==> decoded.walls@.contains(t) || obstacle_on(
                    all.take(i as int),
                    t,
                ),
        decreases structures@.len() - i,
    {
        let s = &structures[i];
        let ghost tile = (s.x, s.y);
        let ghost before = all.take(i as int);
        let ghost after = all.take(i + 1);
        proof {
            assert(after =~= before.push(all[i as int]));
            assert forall|t: (u8, u8)| road_on(after, t) <==> road_on(before, t) || (s.kind@
                == "road"@ && t == tile) by {
                if road_on(before, t) {
                    let k = choose|k: int|
                        0 <= k < before.len() && (#[trigger] before[k]).kind@ == "road"@ && t == (
                            before[k].x,
                            before[k].y,
                        );
                    assert(after[k] == before[k]);
                }
                if s.kind@ == "road"@ && t == tile {
                    assert(after[i as int].kind@ == "road"@);
                }
                if road_on(after, t) {
                    let k = choose|k: int|
                        0 <= k < after.len() && (#[trigger] after[k]).kind@ == "road"@ && t == (
                            after[k].x,
                            after[k].y,
                        );
                    if k < i {
                        assert(before[k] == after[k]);
                    }
                }
            }
            assert forall|t: (u8, u8)|
                obstacle_on(after, t) <==> obstacle_on(before, t) || (obstructs(s.kind@) && t
                    == tile) by {
                if obstacle_on(before, t) {
                    let k = choose|k: int|
                        0 <= k < before.len() && obstructs((#[trigger] before[k]).kind@) && t == (
                            before[k].x,
                            before[k].y,
                        );
                    assert(after[k] == before[k]);
                }
                if obstructs(s.kind@) && t == tile {
                    assert(obstructs(after[i as int].kind@));
                }
                if obstacle_on(after, t) {
                    let k = choose|k: int|
                        0 <= k < after.len() && obstructs((#[trigger] after[k]).kind@) && t == (
                            after[k].x,
                            after[k].y,
                        );
                    if k < i {
                        assert(before[k] == after[k]);
                    }
                }
            }
        }
        if same_text(s.kind.as_str(), "road") {
            terrain.roads.insert((s.x, s.y));
        } else if blocks_movement(s.kind.as_str()) {
            terrain.walls.insert((s.x, s.y));
        }
        i += 1;
    }
    assert(all.take(i as int) =~= all);
    terrain
}

/// No kind of structure is both a road and an obstacle, so realizing a layout never walls off a
/// tile on account of its road.
pub proof fn law_roads_are_walkable(kind: Seq<char>)
    ensures
        !(kind == "road"@ && obstructs(kind)),
{
}

/// Cargo per loaded leg: the capacity of the balanced hauler.
pub const HAUL_Q: u32 = 400;

/// Round trips per hauler.
pub const HAUL_TRIPS: u32 = 3;

/// The tiles of the structures of one kind, in plan order.
pub open spec fn tiles_of_kind(structures: Seq<PlannedStructure>, kind: Seq<char>) -> Seq<(u8, u8)>
    decreases structures.len(),
{
    if structures.len() == 0 {
        Seq::empty()
    } else {
        let before = tiles_of_kind(structures.drop_last(), kind);
        let s = structures.last();
        if s.kind@ == kind {
            before.push((s.x, s.y))
        } else {
            before
        }
    }
}

/// The tiles of the structures of one kind, in plan order.
fn of_kind(structures: &Vec<PlannedStructure>, kind: &str) -> (r: Vec<(u8, u8)>)
    ensures
        r@ == tiles_of_kind(structures@, kind@),
{
    let mut r: Vec<(u8, u8)> = Vec::new();
    let mut i: usize = 0;
    while i < structures.len()
        invariant
            i <= structures@.len(),
            r@ == tiles_of_kind(structures@.take(i as int), kind@),
        decreases structures@.len() - i,
    {
        assert(structures@.take(i + 1).drop_last() =~= structures@.take(i as int));
        let s = &structures[i];
        if same_text(s.kind.as_str(), kind) {
            r.push((s.x, s.y));
        }
        i += 1;
    }
    assert(structures@.take(i as int) =~= structures@);
    r
}

/// The traffic hub: the first storage, or for want of one the first spawn.
pub open spec fn hub(structures: Seq<PlannedStructure>) -> Option<(u8, u8)> {
    let storages = tiles_of_kind(structures, "storage"@);
    let spawns = tiles_of_kind(structures, "spawn"@);
    if storages.len() > 0 {
        Some(storages[0])
    } else if spawns.len() > 0 {
        Some(spawns[0])
    } else {
        None
    }
}

/// Lexicographic order of `(range, row, column)`.
pub open spec fn key_before(a: (int, int, int), b: (int, int, int)) -> bool {
    a.0 < b.0 || (a.0 == b.0 && (a.1 < b.1 || (a.1 == b.1 && a.2 < b.2)))
}

/// By what a container is chosen for a source: the nearer, then the more northern, then the more
/// western.
pub open spec fn near_key(c: (u8, u8), src: (u8, u8)) -> (int, int, int) {
    (chebyshev(c, src), c.1 as int, c.0 as int)
}

/// By what containers are ranked for want of a source's own: the further from the hub, then the
/// more northern, then the more western.
pub open spec fn far_key(c: (u8, u8), sink: (u8, u8)) -> (int, int, int) {
    (-chebyshev(c, sink), c.1 as int, c.0 as int)
}

/// The container that serves a source: the first by [`near_key`].
pub open spec fn nearest(containers: Seq<(u8, u8)>, src: (u8, u8)) -> Option<(u8, u8)>
    decreases containers.len(),
{
    if containers.len() == 0 {
        None
    } else {
        let c = containers.last();
        match nearest(containers.drop_last(), src) {
            Some(best) if !key_before(near_key(c, src), near_key(best, src)) => Some(best),
            _ => Some(c),
        }
    }
}

/// The container that serves a source is one of them, and none comes before it.
pub proof fn law_nearest_is_first(containers: Seq<(u8, u8)>, src: (u8, u8))
    ensures
        nearest(containers, src) is None <==> containers.len() == 0,
        nearest(containers, src) matches Some(best) ==> {
            &&& containers.contains(best)
            &&& forall|i: int|
                0 <= i < containers.len() ==> !key_before(
                    near_key(#[trigger] containers[i], src),
                    near_key(best, src),
                )
        },
    decreases containers.len(),
{
    if containers.len() > 0 {
        let front = containers.drop_last();
        law_nearest_is_first(front, src);
        let best = nearest(containers, src).unwrap();
        assert(containers[containers.len() - 1] == containers.last());
        if front.len() > 0 {
            let old_best = nearest(front, src).unwrap();
            let k = choose|k: int| 0 <= k < front.len() && front[k] == old_best;
            assert(containers[k] == old_best);
        }
        assert forall|i: int| 0 <= i < containers.len() implies !key_before(
            near_key(#[trigger] containers[i], src),
            near_key(best, src),
        ) by {
            if i < front.len() {
                assert(front[i] == containers[i]);
            }
        }
    }
}

/// The range between two tiles.
fn tile_range(a: (u8, u8), b: (u8, u8)) -> (r: i32)
    ensures
        r == chebyshev(a, b),
{
    let dx: i32 = if a.0 < b.0 {
        b.0 as i32 - a.0 as i32
    } else {
        a.0 as i32 - b.0 as i32
    };
    let dy: i32 = if a.1 < b.1 {
        b.1 as i32 - a.1 as i32
    } else {
        a.1 as i32 - b.1 as i32
    };
    if dx < dy {
        dy
    } else {
        dx
    }
}

/// Compares `(range, row, column)` keys.
fn before_key(a: (i32, u8, u8), b: (i32, u8, u8)) -> (r: bool)
    ensures
        r == key_before((a.0 as int, a.1 as int, a.2 as int), (b.0 as int, b.1 as int, b.2 as int)),
{
    a.0 < b.0 || (a.0 == b.0 && (a.1 < b.1 || (a.1 == b.1 && a.2 < b.2)))
}

/// Finds the container that serves a source.
fn find_nearest(containers: &Vec<(u8, u8)>, src: (u8, u8)) -> (r: Option<(u8, u8)>)
    ensures
        r == nearest(containers@, src),
{
    let mut r: Option<(u8, u8)> = None;
    let mut i: usize = 0;
    while i < containers.len()
        invariant
            i <= containers@.len(),
            r == nearest(containers@.take(i as int), src),
        decreases containers@.len() - i,
    {
        assert(containers@.take(i + 1).drop_last() =~= containers@.take(i as int));
        let c = containers[i];
        r = match r {
            Some(best) if !before_key(
                (tile_range(c, src), c.1, c.0),
                (tile_range(best, src), best.1, best.0),
            ) => Some(best),
            _ => Some(c),
        };
        i += 1;
    }
    assert(containers@.take(i as int) =~= containers@);
    r
}

/// The pickup points: of each source the container that serves it, where that is within two
/// tiles; a container that serves two sources counts once.
pub open spec fn pickups(sources: Seq<(u8, u8)>, containers: Seq<(u8, u8)>) -> Seq<(u8, u8)>
    decreases sources.len(),
{
    if sources.len() == 0 {
        Seq::empty()
    } else {
        let before = pickups(sources.drop_last(), containers);
        let src = sources.last();
        match nearest(containers, src) {
            Some(c) if chebyshev(c, src) <= 2 && !before.contains(c) => before.push(c),
            _ => before,
        }
    }
}

/// The place of the container ranked first by [`far_key`].
pub open spec fn furthest_at(containers: Seq<(u8, u8)>, sink: (u8, u8)) -> int
    decreases containers.len(),
{
    if containers.len() <= 1 {
        0
    } else {
        let best = furthest_at(containers.drop_last(), sink);
        if key_before(far_key(containers.last(), sink), far_key(containers[best], sink)) {
            containers.len() - 1
        } else {
            best
        }
    }
}

/// The first `n` containers by [`far_key`].
pub open spec fn furthest(containers: Seq<(u8, u8)>, sink: (u8, u8), n: nat) -> Seq<(u8, u8)>
    decreases n,
{
    if n == 0 || containers.len() == 0 {
        Seq::empty()
    } else {
        let k = furthest_at(containers, sink);
        seq![containers[k]] + furthest(containers.remove(k), sink, (n - 1) as nat)
    }
}

/// The container ranked first is one of them, and none comes before it.
pub proof fn law_furthest_is_first(containers: Seq<(u8, u8)>, sink: (u8, u8))
    requires
        containers.len() > 0,
    ensures
        0 <= furthest_at(containers, sink) < containers.len(),
        forall|i: int|
            0 <= i < containers.len() ==> !key_before(
                far_key(#[trigger] containers[i], sink),
                far_key(containers[furthest_at(containers, sink)], sink),
            ),
    decreases containers.len(),
{
    if containers.len() > 1 {
        let front = containers.drop_last();
        law_furthest_is_first(front, sink);
        let best = furthest_at(front, sink);
        assert(containers[best] == front[best]);
        let k = furthest_at(containers, sink);
        assert forall|i: int| 0 <= i < containers.len() implies !key_before(
            far_key(#[trigger] containers[i], sink),
            far_key(containers[k], sink),
        ) by {
            if i < front.len() {
                assert(front[i] == containers[i]);
            }
        }
    }
}

/// Takes the first containers by rank.
fn take_furthest(containers: &Vec<(u8, u8)>, sink: (u8, u8), n: usize) -> (r: Vec<(u8, u8)>)
    ensures
        r@ == furthest(containers@, sink, n as nat),
{
    let mut rest: Vec<(u8, u8)> = copied(containers.as_slice());
    let mut r: Vec<(u8, u8)> = Vec::new();
    let mut left: usize = n;
    while left > 0 && rest.len() > 0
        invariant
            left <= n,
            furthest(containers@, sink, n as nat) == r@ + furthest(rest@, sink, left as nat),
        decreases left,
    {
        let mut best: usize = 0;
        let mut i: usize = 1;
        while i < rest.len()
            invariant
                1 <= i <= rest@.len(),
                best < i,
                best == furthest_at(rest@.take(i as int), sink),
            decreases rest@.len() - i,
        {
            assert(rest@.take(i + 1).drop_last() =~= rest@.take(i as int));
            let c = rest[i];
            let b = rest[best];
            if before_key((-tile_range(c, sink), c.1, c.0), (-tile_range(b, sink), b.1, b.0)) {
                best = i;
            }
            i += 1;
        }
        assert(rest@.take(i as int) =~= rest@);
        let ghost before = r@;
        let ghost pool = rest@;
        let c = rest.remove(best);
        r.push(c);
        left -= 1;
        proof {
            assert(r@ + furthest(rest@, sink, left as nat) =~= before + (seq![c] + furthest(
                pool.remove(best as int),
                sink,
                left as nat,
            )));
        }
    }
    assert(furthest(rest@, sink, left as nat) =~= Seq::empty());
    assert(r@ + Seq::<(u8, u8)>::empty() =~= r@);
    r
}

/// Membership in a list of tiles.
fn has_tile(tiles: &[(u8, u8)], t: (u8, u8)) -> (r: bool)
    ensures
        r == tiles@.contains(t),
{
    let mut i: usize = 0;
    while i < tiles.len()
        invariant
            i <= tiles@.len(),
            forall|k: int| 0 <= k < i ==> tiles@[k] != t,
        decreases tiles@.len() - i,
    {
        let u = tiles[i];
        if u.0 == t.0 && u.1 == t.1 {
            assert(tiles@[i as int] == t);
            return true;
        }
        i += 1;
    }
    false
}

/// The order in which the neighbours of a tile are tried.
pub open spec fn offset(k: int) -> (int, int) {
    if k == 0 {
        (0, 1)
    } else if k == 1 {
        (1, 0)
    } else if k == 2 {
        (0, -1)
    } else if k == 3 {
        (-1, 0)
    } else if k == 4 {
        (1, 1)
    } else if k == 5 {
        (1, -1)
    } else if k == 6 {
        (-1, 1)
    } else {
        (-1, -1)
    }
}

/// The neighbour at an offset can be stood on: inside the room's border, no wall, not taken.
pub open spec fn open_at(
    walls: Set<(u8, u8)>,
    tile: (u8, u8),
    taken: Seq<(u8, u8)>,
    k: int,
) -> bool {
    let (nx, ny) = (tile.0 + offset(k).0, tile.1 + offset(k).1);
    &&& 1 <= nx <= 48
    &&& 1 <= ny <= 48
    &&& !walls.contains((nx as u8, ny as u8))
    &&& !taken.contains((nx as u8, ny as u8))
}

/// The first neighbour from offset `k` on that can be stood on.
pub open spec fn first_open(
    walls: Set<(u8, u8)>,
    tile: (u8, u8),
    taken: Seq<(u8, u8)>,
    k: int,
) -> Option<(u8, u8)>
    decreases 8 - k,
{
    if k >= 8 {
        None
    } else if open_at(walls, tile, taken, k) {
        Some(((tile.0 + offset(k).0) as u8, (tile.1 + offset(k).1) as u8))
    } else {
        first_open(walls, tile, taken, k + 1)
    }
}

/// The offset at a place in the order of trial.
fn offset_at(k: u8) -> (r: (i16, i16))
    requires
        k < 8,
    ensures
        (r.0 as int, r.1 as int) == offset(k as int),
{
    match k {
        0 => (0, 1),
        1 => (1, 0),
        2 => (0, -1),
        3 => (-1, 0),
        4 => (1, 1),
        5 => (1, -1),
        6 => (-1, 1),
        _ => (-1, -1),
    }
}

/// The first walkable tile next to `(x, y)` that is not in `taken`, in a fixed order of trial and
/// never on the room's border. Places the second hauler of a route.
pub fn open_neighbor(terrain: &SimTerrain, x: u8, y: u8, taken: &[(u8, u8)]) -> (r: Option<(u8, u8)>)
    ensures
        r == first_open(terrain.walls@, (x, y), taken@, 0),
        r matches Some(t) ==> {
            &&& 1 <= t.0 <= 48
            &&& 1 <= t.1 <= 48
            &&& chebyshev(t, (x, y)) == 1
            &&& !terrain.walls@.contains(t)
            &&& !taken@.contains(t)
        },
{
    let mut k: u8 = 0;
    while k < 8
        invariant
            k <= 8,
            first_open(terrain.walls@, (x, y), taken@, 0) == first_open(
                terrain.walls@,
                (x, y),
                taken@,
                k as int,
            ),
        decreases 8 - k,
    {
        let (dx, dy) = offset_at(k);
        let nx: i16 = x as i16 + dx;
        let ny: i16 = y as i16 + dy;
        if 1 <= nx && nx <= 48 && 1 <= ny && ny <= 48 {
            let t = (nx as u8, ny as u8);
            if !terrain.is_wall(t.0, t.1) && !has_tile(taken, t) {
                return Some(t);
            }
        }
        k += 1;
    }
    None
}

/// What staffing the routes has settled: the tiles that are taken, and the haulers' starts.
pub struct Staffing {
    pub taken: Seq<(u8, u8)>,
    pub starts: Seq<(u8, u8)>,
}

/// The starts of the haulers of the first `k` routes. Of each route the first hauler starts on
/// the pickup point and the second on an open tile next to it, where there is one.
pub open spec fn staffing(walls: Set<(u8, u8)>, endpoints: Seq<(u8, u8)>, k: nat) -> Staffing
    decreases k,
{
    if k == 0 {
        Staffing { taken: endpoints, starts: Seq::empty() }
    } else {
        let before = staffing(walls, endpoints, (k - 1) as nat);
        let ep = endpoints[k - 1];
        match first_open(walls, ep, before.taken, 0) {
            Some(n) => Staffing {
                taken: before.taken.push(n),
                starts: before.starts.push(ep).push(n),
            },
            None => Staffing { taken: before.taken, starts: before.starts.push(ep) },
        }
    }
}

/// The pickup points of a layout whose hub is `sink`: those of its sources, or for want of any
/// the two containers furthest from the hub.
pub open spec fn endpoints_of(layout: CapturedLayout, sink: (u8, u8)) -> Seq<(u8, u8)> {
    let containers = tiles_of_kind(layout.structures@, "container"@);
    let own = pickups(layout.sources@, containers);
    if own.len() > 0 {
        own
    } else {
        furthest(containers, sink, 2)
    }
}

/// The starts of the haulers of a layout, in fleet order; none without a hub.
pub open spec fn hauler_starts(layout: CapturedLayout, terrain: SimTerrain) -> Seq<(u8, u8)> {
    match hub(layout.structures@) {
        Some(sink) => {
            let endpoints = endpoints_of(layout, sink);
            staffing(terrain.walls@, endpoints, endpoints.len()).starts
        },
        None => Seq::empty(),
    }
}

/// The assignment of a hauler that starts on a tile of `room`.
pub open spec fn is_route(a: HaulAssignment, room: u16, start: (u8, u8), sink: (u8, u8)) -> bool {
    &&& a.body.is_unboosted(hauler_parts(8, 8))
    &&& a.q == HAUL_Q
    &&& a.source == (Position { room, x: start.0, y: start.1 })
    &&& a.sink == (Position { room, x: sink.0, y: sink.1 })
    &&& a.trips == HAUL_TRIPS
}

/// The fleet has one hauler per start, each of them bound for the hub.
pub open spec fn is_traffic(
    fleet: Seq<HaulAssignment>,
    room: u16,
    layout: CapturedLayout,
    terrain: SimTerrain,
) -> bool {
    &&& fleet.len() == hauler_starts(layout, terrain).len()
    &&& forall|i: int|
        0 <= i < fleet.len() ==> hub(layout.structures@) is Some && is_route(
            #[trigger] fleet[i],
            room,
            hauler_starts(layout, terrain)[i],
            hub(layout.structures@).unwrap(),
        )
}

/// The tile lies on the grid of a room.
pub open spec fn inside(t: (u8, u8)) -> bool {
    t.0 < ROOM_SIZE && t.1 < ROOM_SIZE
}

/// The tiles that traffic starts from and runs to lie on the grid of the room.
pub open spec fn ends_on_grid(layout: CapturedLayout) -> bool {
    match hub(layout.structures@) {
        Some(sink) => {
            let endpoints = endpoints_of(layout, sink);
            &&& endpoints.len() > 0 ==> inside(sink)
            &&& forall|i: int| 0 <= i < endpoints.len() ==> inside(#[trigger] endpoints[i])
        },
        None => true,
    }
}

proof fn lemma_pickups(sources: Seq<(u8, u8)>, containers: Seq<(u8, u8)>)
    ensures
        pickups(sources, containers).no_duplicates(),
        forall|i: int|
            0 <= i < pickups(sources, containers).len() ==> containers.contains(
                #[trigger] pickups(sources, containers)[i],
            ),
    decreases sources.len(),
{
    if sources.len() > 0 {
        lemma_pickups(sources.drop_last(), containers);
        law_nearest_is_first(containers, sources.last());
    }
}

proof fn lemma_furthest(containers: Seq<(u8, u8)>, sink: (u8, u8), n: nat)
    ensures
        forall|i: int|
            0 <= i < furthest(containers, sink, n).len() ==> containers.contains(
                #[trigger] furthest(containers, sink, n)[i],
            ),
        containers.no_duplicates() ==> furthest(containers, sink, n).no_duplicates(),
        furthest(containers, sink, n).len() == if containers.len() < n {
            containers.len()
        } else {
            n
        },
    decreases n,
{
    if n > 0 && containers.len() > 0 {
        law_furthest_is_first(containers, sink);
        let k = furthest_at(containers, sink);
        let rest = containers.remove(k);
        let tail = furthest(rest, sink, (n - 1) as nat);
        let all = furthest(containers, sink, n);
        lemma_furthest(rest, sink, (n - 1) as nat);
        assert forall|i: int| 0 <= i < all.len() implies containers.contains(#[trigger] all[i]) by {
            if i == 0 {
                assert(containers[k] == all[i]);
            } else {
                assert(all[i] == tail[i - 1]);
                assert(rest.contains(tail[i - 1]));
                let j = choose|j: int| 0 <= j < rest.len() && rest[j] == tail[i - 1];
                if j < k {
                    assert(containers[j] == rest[j]);
                } else {
                    assert(containers[j + 1] == rest[j]);
                }
            }
        }
        if containers.no_duplicates() {
            assert(rest.no_duplicates());
            assert forall|i: int, j: int| 0 <= i < j < all.len() implies all[i] != all[j] by {
                assert(all[j] == tail[j - 1]);
                if i == 0 {
                    assert(rest.contains(tail[j - 1]));
                    let m = choose|m: int| 0 <= m < rest.len() && rest[m] == tail[j - 1];
                    if m < k {
                        assert(containers[m] == rest[m]);
                    } else {
                        assert(containers[m + 1] == rest[m]);
                    }
                } else {
                    assert(all[i] == tail[i - 1]);
                }
            }
        }
    }
}

proof fn lemma_first_open(walls: Set<(u8, u8)>, tile: (u8, u8), taken: Seq<(u8, u8)>, k: int)
    requires
        0 <= k,
    ensures
        first_open(walls, tile, taken, k) matches Some(t) ==> {
            &&& inside(t)
            &&& !walls.contains(t)
            &&& !taken.contains(t)
        },
    decreases 8 - k,
{
    if k < 8 && !open_at(walls, tile, taken, k) {
        lemma_first_open(walls, tile, taken, k + 1);
    }
}

/// What staffing keeps: the starts are taken tiles, each of them a pickup point of a staffed
/// route or an open tile, and distinct pickup points lead to distinct starts.
proof fn lemma_staffing(walls: Set<(u8, u8)>, endpoints: Seq<(u8, u8)>, k: nat)
    requires
        k <= endpoints.len(),
    ensures
        ({
            let s = staffing(walls, endpoints, k);
            &&& endpoints.len() <= s.taken.len()
            &&& forall|i: int| 0 <= i < endpoints.len() ==> s.taken[i] == endpoints[i]
            &&& forall|i: int|
                endpoints.len() <= i < s.taken.len() ==> inside(#[trigger] s.taken[i])
                    && !walls.contains(s.taken[i])
            &&& forall|i: int|
                0 <= i < s.starts.len() ==> (exists|j: int|
                    0 <= j < s.taken.len() && (j < k || j >= endpoints.len()) && s.taken[j]
                        == #[trigger] s.starts[i])
            &&& endpoints.no_duplicates() ==> s.taken.no_duplicates() && s.starts.no_duplicates()
            &&& s.starts.len() <= 2 * k
            &&& s.starts.len() >= k
        }),
    decreases k,
{
    if k > 0 {
        lemma_staffing(walls, endpoints, (k - 1) as nat);
        let before = staffing(walls, endpoints, (k - 1) as nat);
        let now = staffing(walls, endpoints, k);
        let ep = endpoints[k - 1];
        lemma_first_open(walls, ep, before.taken, 0);
        assert forall|i: int| 0 <= i < now.starts.len() implies (exists|j: int|
            0 <= j < now.taken.len() && (j < k || j >= endpoints.len()) && now.taken[j]
                == #[trigger] now.starts[i]) by {
            if i < before.starts.len() {
                assert(before.starts[i] == now.starts[i]);
                let j = choose|j: int|
                    0 <= j < before.taken.len() && (j < k - 1 || j >= endpoints.len())
                        && before.taken[j] == before.starts[i];
                assert(now.taken[j] == now.starts[i]);
            } else if i == before.starts.len() {
                assert(now.taken[k - 1] == now.starts[i]);
            } else {
                assert(now.taken[now.taken.len() - 1] == now.starts[i]);
            }
        }
        if endpoints.no_duplicates() {
            assert(now.taken.no_duplicates()) by {
                match first_open(walls, ep, before.taken, 0) {
                    Some(n) => {
                        assert forall|i: int, j: int|
                            0 <= i < now.taken.len() && 0 <= j < now.taken.len() && i
                                != j implies now.taken[i] != now.taken[j] by {
                            if i == before.taken.len() {
                                assert(before.taken.contains(before.taken[j]));
                            } else if j == before.taken.len() {
                                assert(before.taken.contains(before.taken[i]));
                            }
                        }
                    },
                    None => {},
                }
            }
            assert forall|i: int, j: int| 0 <= i < j < now.starts.len() implies now.starts[i]
                != now.starts[j] by {
                if i < before.starts.len() {
                    let a = choose|a: int|
                        0 <= a < before.taken.len() && (a < k - 1 || a >= endpoints.len())
                            && before.taken[a] == #[trigger] before.starts[i];
                    assert(now.taken[a] == now.starts[i]);
                    if j == before.starts.len() {
                        assert(now.taken[k - 1] == now.starts[j]);
                    } else if j > before.starts.len() {
                        assert(now.taken[now.taken.len() - 1] == now.starts[j]);
                    }
                } else {
                    assert(before.taken.contains(before.taken[k - 1]));
                }
            }
        }
    }
}

/// Starts are kept distinct, so that no two haulers are spawned on one tile: whenever the pickup
/// points come from sources, and for want of those wherever no two containers share a tile.
pub proof fn law_starts_are_distinct(layout: CapturedLayout, terrain: SimTerrain)
    requires
        pickups(
            layout.sources@,
            tiles_of_kind(layout.structures@, "container"@),
        ).len() > 0 || tiles_of_kind(layout.structures@, "container"@).no_duplicates(),
    ensures
        hauler_starts(layout, terrain).no_duplicates(),
{
    let containers = tiles_of_kind(layout.structures@, "container"@);
    match hub(layout.structures@) {
        Some(sink) => {
            lemma_pickups(layout.sources@, containers);
            lemma_furthest(containers, sink, 2);
            let endpoints = endpoints_of(layout, sink);
            lemma_staffing(terrain.walls@, endpoints, endpoints.len());
        },
        None => {},
    }
}

/// Every start is a planned container or a walkable tile.
pub proof fn law_starts_are_containers_or_open(layout: CapturedLayout, terrain: SimTerrain, i: int)
    requires
        0 <= i < hauler_starts(layout, terrain).len(),
    ensures
        tiles_of_kind(layout.structures@, "container"@).contains(hauler_starts(layout, terrain)[i])
            || !terrain.walls@.contains(hauler_starts(layout, terrain)[i]),
{
    let containers = tiles_of_kind(layout.structures@, "container"@);
    let sink = hub(layout.structures@).unwrap();
    lemma_pickups(layout.sources@, containers);
    lemma_furthest(containers, sink, 2);
    let endpoints = endpoints_of(layout, sink);
    lemma_staffing(terrain.walls@, endpoints, endpoints.len());
    let s = staffing(terrain.walls@, endpoints, endpoints.len());
    let j = choose|j: int| 0 <= j < s.taken.len() && s.taken[j] == #[trigger] s.starts[i];
    if j < endpoints.len() {
        assert(containers.contains(endpoints[j]));
    }
}

/// A planned container within two tiles of a source.
pub open spec fn serves(containers: Seq<(u8, u8)>, sources: Seq<(u8, u8)>, c: (u8, u8)) -> bool {
    containers.contains(c) && exists|j: int|
        0 <= j < sources.len() && chebyshev(c, #[trigger] sources[j]) <= 2
}

/// Every pickup point of the sources is a planned container within two tiles of one of them, and
/// no container is staffed twice.
pub proof fn law_pickups_serve_sources(sources: Seq<(u8, u8)>, containers: Seq<(u8, u8)>, i: int)
    requires
        0 <= i < pickups(sources, containers).len(),
    ensures
        serves(containers, sources, pickups(sources, containers)[i]),
        pickups(sources, containers).no_duplicates(),
    decreases sources.len(),
{
    lemma_pickups(sources, containers);
    let front = sources.drop_last();
    let before = pickups(front, containers);
    let c = pickups(sources, containers)[i];
    if i < before.len() {
        law_pickups_serve_sources(front, containers, i);
        let j = choose|j: int| 0 <= j < front.len() && chebyshev(c, #[trigger] front[j]) <= 2;
        assert(sources[j] == front[j]);
        assert(chebyshev(c, sources[j]) <= 2);
    } else {
        let j = sources.len() - 1;
        assert(chebyshev(c, sources[j]) <= 2);
    }
}

/// Some pickup point of the first `k` is within one tile.
pub open spec fn near_pickup(endpoints: Seq<(u8, u8)>, k: int, t: (u8, u8)) -> bool {
    exists|j: int| 0 <= j < k && chebyshev(t, #[trigger] endpoints[j]) <= 1
}

proof fn lemma_first_open_near(walls: Set<(u8, u8)>, tile: (u8, u8), taken: Seq<(u8, u8)>, k: int)
    requires
        0 <= k,
    ensures
        first_open(walls, tile, taken, k) matches Some(t) ==> chebyshev(t, tile) <= 1,
    decreases 8 - k,
{
    if k < 8 && !open_at(walls, tile, taken, k) {
        lemma_first_open_near(walls, tile, taken, k + 1);
    }
}

proof fn lemma_starts_near(walls: Set<(u8, u8)>, endpoints: Seq<(u8, u8)>, k: nat, i: int)
    requires
        k <= endpoints.len(),
        0 <= i < staffing(walls, endpoints, k).starts.len(),
    ensures
        near_pickup(endpoints, k as int, staffing(walls, endpoints, k).starts[i]),
    decreases k,
{
    if k > 0 {
        let before = staffing(walls, endpoints, (k - 1) as nat);
        let now = staffing(walls, endpoints, k);
        let ep = endpoints[k - 1];
        if i < before.starts.len() {
            lemma_starts_near(walls, endpoints, (k - 1) as nat, i);
            assert(now.starts[i] == before.starts[i]);
            let j = choose|j: int|
                0 <= j < k - 1 && chebyshev(now.starts[i], #[trigger] endpoints[j]) <= 1;
            assert(chebyshev(now.starts[i], endpoints[j]) <= 1);
        } else {
            lemma_first_open_near(walls, ep, before.taken, 0);
            assert(chebyshev(now.starts[i], endpoints[k - 1]) <= 1);
        }
    }
}

/// Every hauler starts within reach of a pickup point: on it, or on a tile next to it.
pub proof fn law_starts_reach_their_pickup(layout: CapturedLayout, terrain: SimTerrain, i: int)
    requires
        0 <= i < hauler_starts(layout, terrain).len(),
    ensures
        hub(layout.structures@) matches Some(sink) && near_pickup(
            endpoints_of(layout, sink),
            endpoints_of(layout, sink).len() as int,
            hauler_starts(layout, terrain)[i],
        ),
{
    let sink = hub(layout.structures@).unwrap();
    let endpoints = endpoints_of(layout, sink);
    lemma_starts_near(terrain.walls@, endpoints, endpoints.len(), i);
}

/// The pickup points of a layout, with the hub already found.
fn find_endpoints(layout: &CapturedLayout, sink: (u8, u8)) -> (r: Vec<(u8, u8)>)
    ensures
        r@ == endpoints_of(*layout, sink),
{
    let containers = of_kind(&layout.structures, "container");
    let mut endpoints: Vec<(u8, u8)> = Vec::new();
    let mut i: usize = 0;
    while i < layout.sources.len()
        invariant
            i <= layout.sources@.len(),
            endpoints@ == pickups(layout.sources@.take(i as int), containers@),
        decreases layout.sources@.len() - i,
    {
        assert(layout.sources@.take(i + 1).drop_last() =~= layout.sources@.take(i as int));
        let src = layout.sources[i];
        if let Some(c) = find_nearest(&containers, src) {
            if tile_range(c, src) <= 2 && !has_tile(endpoints.as_slice(), c) {
                endpoints.push(c);
            }
        }
        i += 1;
    }
    assert(layout.sources@.take(i as int) =~= layout.sources@);
    if endpoints.len() == 0 {
        take_furthest(&containers, sink, 2)
    } else {
        endpoints
    }
}

/// The traffic that drives the economy of a layout: haulers that cycle from source containers to
/// the hub, two per pickup point where there is room, in the room with packed name `room`.
/// `terrain` is the realized terrain of the layout. Without a hub there is no fleet.
pub fn route_fleet(room: u16, layout: &CapturedLayout, terrain: &SimTerrain) -> (r: Vec<
    HaulAssignment,
>)
    requires
        ends_on_grid(*layout),
    ensures
        is_traffic(r@, room, *layout, *terrain),
{
    let storages = of_kind(&layout.structures, "storage");
    let spawns = of_kind(&layout.structures, "spawn");
    let mut fleet: Vec<HaulAssignment> = Vec::new();
    let sink: (u8, u8) = if storages.len() > 0 {
        storages[0]
    } else if spawns.len() > 0 {
        spawns[0]
    } else {
        return fleet;
    };
    let endpoints = find_endpoints(layout, sink);
    let mut taken: Vec<(u8, u8)> = copied(endpoints.as_slice());
    let mut i: usize = 0;
    while i < endpoints.len()
        invariant
            i <= endpoints@.len(),
            endpoints@ == endpoints_of(*layout, sink),
            hub(layout.structures@) == Some(sink),
            ends_on_grid(*layout),
            taken@ == staffing(terrain.walls@, endpoints@, i as nat).taken,
            fleet@.len() == staffing(terrain.walls@, endpoints@, i as nat).starts.len(),
            forall|k: int|
                0 <= k < fleet@.len() ==> is_route(
                    #[trigger] fleet@[k],
                    room,
                    staffing(terrain.walls@, endpoints@, i as nat).starts[k],
                    sink,
                ),
        decreases endpoints@.len() - i,
    {
        let ep = endpoints[i];
        assert(inside(endpoints@[i as int]));
        let ghost before = staffing(terrain.walls@, endpoints@, i as nat);
        let ghost now = staffing(terrain.walls@, endpoints@, (i + 1) as nat);
        let second = open_neighbor(terrain, ep.0, ep.1, taken.as_slice());
        fleet.push(route(room, ep, sink));
        if let Some(n) = second {
            taken.push(n);
            fleet.push(route(room, n, sink));
        }
        proof {
            assert forall|k: int| 0 <= k < fleet@.len() implies is_route(
                #[trigger] fleet@[k],
                room,
                now.starts[k],
                sink,
            ) by {
                if k < before.starts.len() {
                    assert(now.starts[k] == before.starts[k]);
                }
            }
        }
        i += 1;
    }
    fleet
}

/// The assignment of a hauler that starts on a tile.
fn route(room: u16, start: (u8, u8), sink: (u8, u8)) -> (r: HaulAssignment)
    requires
        inside(start),
        inside(sink),
    ensures
        is_route(r, room, start, sink),
{
    HaulAssignment {
        body: hauler_body(8, 8),
        q: HAUL_Q,
        source: pos_in(room, start.0, start.1),
        sink: pos_in(room, sink.0, sink.1),
        trips: HAUL_TRIPS,
    }
}

/// The fleet of a layout, in the room that its name stands for.
pub fn energy_traffic_fleet(layout: &CapturedLayout, terrain: &SimTerrain) -> (r: Vec<
    HaulAssignment,
>)
    requires
        safe_name(layout.room@),
        named_room(layout.room@) is Some,
        ends_on_grid(*layout),
    ensures
        is_traffic(r@, named_room(layout.room@).unwrap(), *layout, *terrain),
{
    match parse_room(layout.room.as_str()) {
        Some(room) => route_fleet(room, layout, terrain),
        None => Vec::new(),
    }
}

/// The fleet of a layout, or `None` where the layout's room has no name that can be parsed.
pub fn checked_traffic_fleet(layout: &CapturedLayout, terrain: &SimTerrain) -> (r: Option<
    Vec<HaulAssignment>,
>)
    requires
        ends_on_grid(*layout),
    ensures
        r is Some <==> safe_name(layout.room@) && named_room(layout.room@) is Some,
        r matches Some(fleet) ==> is_traffic(
            fleet@,
            named_room(layout.room@).unwrap(),
            *layout,
            *terrain,
        ),
{
    if !is_safe_name(layout.room.as_str()) {
        return None;
    }
    if parse_room(layout.room.as_str()).is_none() {
        return None;
    }
    Some(energy_traffic_fleet(layout, terrain))
}

/// Optional levels in order, an open one first.
pub open spec fn level_before(a: Option<u8>, b: Option<u8>) -> bool {
    match (a, b) {
        (Some(i), Some(j)) => i < j,
        (None, Some(_)) => true,
        _ => false,
    }
}

/// The order in which structures are kept: by kind, column, row and level.
pub open spec fn structure_before(a: PlannedStructure, b: PlannedStructure) -> bool {
    text_before(a.kind@, b.kind@) || (a.kind@ == b.kind@ && (a.x < b.x || (a.x == b.x && (a.y < b.y
        || (a.y == b.y && level_before(a.required_rcl, b.required_rcl))))))
}

/// No structure stands before one that comes first in order.
pub open spec fn structures_sorted(s: Seq<PlannedStructure>) -> bool {
    forall|i: int, j: int|
        0 <= i <= j < s.len() ==> !structure_before(#[trigger] s[j], #[trigger] s[i])
}

/// Whether one structure comes before another.
fn precedes(a: &PlannedStructure, b: &PlannedStructure) -> (r: bool)
    ensures
        r == structure_before(*a, *b),
{
    if comes_before(a.kind.as_str(), b.kind.as_str()) {
        return true;
    }
    if !same_text(a.kind.as_str(), b.kind.as_str()) {
        return false;
    }
    let lower = match (a.required_rcl, b.required_rcl) {
        (Some(i), Some(j)) => i < j,
        (None, Some(_)) => true,
        _ => false,
    };
    a.x < b.x || (a.x == b.x && (a.y < b.y || (a.y == b.y && lower)))
}

/// The order of structures is a strict order in which unordered structures are alike.
proof fn lemma_structure_order(a: PlannedStructure, b: PlannedStructure, c: PlannedStructure)
    ensures
        !structure_before(a, a),
        structure_before(a, b) ==> !structure_before(b, a),
        !structure_before(a, b) && !structure_before(b, c) ==> !structure_before(a, c),
{
    law_text_order_is_total(a.kind@, a.kind@);
    law_text_order_is_total(a.kind@, b.kind@);
    law_text_order_is_total(b.kind@, c.kind@);
    law_text_order_is_total(a.kind@, c.kind@);
    if text_before(c.kind@, b.kind@) && text_before(b.kind@, a.kind@) {
        law_text_order_is_transitive(c.kind@, b.kind@, a.kind@);
    }
    if text_before(a.kind@, c.kind@) && text_before(c.kind@, b.kind@) {
        law_text_order_is_transitive(a.kind@, c.kind@, b.kind@);
    }
    if text_before(b.kind@, a.kind@) && text_before(a.kind@, c.kind@) {
        law_text_order_is_transitive(b.kind@, a.kind@, c.kind@);
    }
}

/// Brings planned structures into the order in which they are kept, so that a plan is written
/// alike whatever order its planner lists it in.
pub fn sort_structures(structures: Vec<PlannedStructure>) -> (r: Vec<PlannedStructure>)
    ensures
        structures_sorted(r@),
        r@.to_multiset() == structures@.to_multiset(),
        r@.len() == structures@.len(),
{
    broadcast use vstd::seq_lib::group_to_multiset_ensures;

    let ghost all = structures@;
    let mut rest = structures;
    let mut r: Vec<PlannedStructure> = Vec::new();
    assert(r@.to_multiset().add(rest@.to_multiset()) =~= all.to_multiset());
    while rest.len() > 0
        invariant
            structures_sorted(r@),
            r@.to_multiset().add(rest@.to_multiset()) == all.to_multiset(),
            r@.len() + rest@.len() == all.len(),
        decreases rest@.len(),
    {
        let ghost pool = rest@;
        let ghost before = r@;
        match rest.pop() {
            None => {},
            Some(s) => {
                let mut p: usize = 0;
                while p < r.len() && precedes(&r[p], &s)
                    invariant
                        p <= r@.len(),
                        r@ == before,
                        forall|k: int| 0 <= k < p ==> structure_before(#[trigger] r@[k], s),
                    decreases r@.len() - p,
                {
                    p += 1;
                }
                r.insert(p, s);
                proof {
                    assert(pool =~= rest@.push(s));
                    assert(r@ =~= before.insert(p as int, s));
                    vstd::seq_lib::to_multiset_insert(before, p as int, s);
                    vstd::seq_lib::to_multiset_build(rest@, s);
                    assert(before.to_multiset().insert(s).add(rest@.to_multiset())
                        =~= before.to_multiset().add(rest@.to_multiset().insert(s)));
                    assert(r@.to_multiset().add(rest@.to_multiset()) =~= all.to_multiset());
                    lemma_sorted_insert(before, s, p as int);
                }
            },
        }
    }
    assert(rest@ =~= Seq::empty());
    assert(r@.to_multiset() =~= all.to_multiset());
    r
}

/// Putting a structure behind all that come before it keeps the order.
proof fn lemma_sorted_insert(before: Seq<PlannedStructure>, s: PlannedStructure, p: int)
    requires
        structures_sorted(before),
        0 <= p <= before.len(),
        forall|k: int| 0 <= k < p ==> structure_before(#[trigger] before[k], s),
        p < before.len() ==> !structure_before(before[p], s),
    ensures
        structures_sorted(before.insert(p, s)),
{
    let after = before.insert(p, s);
    assert forall|i: int, j: int| 0 <= i <= j < after.len() implies !structure_before(
        #[trigger] after[j],
        #[trigger] after[i],
    ) by {
        lemma_structure_order(s, s, s);
        if i == p && j > p {
            assert(after[j] == before[j - 1]);
            assert(!structure_before(before[j - 1], before[p]));
            lemma_structure_order(before[j - 1], before[p], s);
        } else if j == p && i < p {
            assert(after[i] == before[i]);
            lemma_structure_order(before[i], s, s);
        } else if i != p && j != p {
            let a: int = if i < p {
                i
            } else {
                i - 1
            };
            let b: int = if j < p {
                j
            } else {
                j - 1
            };
            assert(after[i] == before[a] && after[j] == before[b]);
            assert(!structure_before(before[b], before[a]));
        }
    }
}

/// How many structures of a plan are of one kind.
pub fn count_of_kind(structures: &Vec<PlannedStructure>, kind: &str) -> (r: usize)
    ensures
        r == tiles_of_kind(structures@, kind@).len(),
{
    of_kind(structures, kind).len()
}

/// Some kept layout is of this room.
pub open spec fn is_cached(cache: LayoutCache, room: Seq<char>) -> bool {
    exists|i: int| 0 <= i < cache.layouts@.len() && (#[trigger] cache.layouts@[i]).room@ == room
}

/// The places of the rooms of which no layout is kept.
pub open spec fn uncached(rooms: Seq<String>, cache: LayoutCache) -> Seq<usize>
    decreases rooms.len(),
{
    if rooms.len() == 0 {
        Seq::empty()
    } else {
        let before = uncached(rooms.drop_last(), cache);
        if is_cached(cache, rooms.last()@) {
            before
        } else {
            before.push((rooms.len() - 1) as usize)
        }
    }
}

/// Whether a layout of this room is kept.
fn cached(cache: &LayoutCache, room: &str) -> (r: bool)
    ensures
        r == is_cached(*cache, room@),
{
    let mut i: usize = 0;
    while i < cache.layouts.len()
        invariant
            i <= cache.layouts@.len(),
            forall|k: int| 0 <= k < i ==> (#[trigger] cache.layouts@[k]).room@ != room@,
        decreases cache.layouts@.len() - i,
    {
        if same_text(cache.layouts[i].room.as_str(), room) {
            assert(cache.layouts@[i as int].room@ == room@);
            return true;
        }
        i += 1;
    }
    false
}

/// The rooms that are left to plan, at most `limit` of them: the places of those of which no
/// layout is kept, in order.
pub fn rooms_to_plan(rooms: &[String], cache: &LayoutCache, limit: usize) -> (r: Vec<usize>)
    ensures
        r@ == uncached(rooms@, *cache).take(
            if uncached(rooms@, *cache).len() < limit {
                uncached(rooms@, *cache).len() as int
            } else {
                limit as int
            },
        ),
{
    let mut r: Vec<usize> = Vec::new();
    let mut i: usize = 0;
    while i < rooms.len()
        invariant
            i <= rooms@.len(),
            r@ == uncached(rooms@.take(i as int), *cache),
        decreases rooms@.len() - i,
    {
        assert(rooms@.take(i + 1).drop_last() =~= rooms@.take(i as int));
        if !cached(cache, rooms[i].as_str()) {
            r.push(i);
        }
        i += 1;
    }
    assert(rooms@.take(i as int) =~= rooms@);
    if r.len() > limit {
        r.truncate(limit);
    }
    assert(r@ =~= uncached(rooms@, *cache).take(r@.len() as int));
    r
}

/// Planning twice plans nothing new: a room that is kept is never planned again.
pub proof fn law_cached_rooms_are_not_planned(rooms: Seq<String>, cache: LayoutCache, k: int)
    requires
        0 <= k < uncached(rooms, cache).len(),
        rooms.len() <= usize::MAX,
    ensures
        uncached(rooms, cache)[k] < rooms.len(),
        !is_cached(cache, rooms[uncached(rooms, cache)[k] as int]@),
    decreases rooms.len(),
{
    if rooms.len() > 0 {
        let front = rooms.drop_last();
        if k < uncached(front, cache).len() {
            law_cached_rooms_are_not_planned(front, cache, k);
            assert(uncached(rooms, cache)[k] == uncached(front, cache)[k]);
        }
    }
}

/// The tiles of a kind are those of its structures, in plan order.
pub proof fn law_tiles_of_a_kind(structures: Seq<PlannedStructure>, kind: Seq<char>)
    ensures
        tiles_of_kind(structures, kind) == structures.filter(
            |s: PlannedStructure| s.kind@ == kind,
        ).map_values(|s: PlannedStructure| (s.x, s.y)),
    decreases structures.len(),
{
    reveal(Seq::filter);
    let own = |s: PlannedStructure| s.kind@ == kind;
    let tile = |s: PlannedStructure| (s.x, s.y);
    if structures.len() > 0 {
        let front = structures.drop_last();
        law_tiles_of_a_kind(front, kind);
        assert(tiles_of_kind(structures, kind) =~= structures.filter(own).map_values(tile));
    } else {
        assert(tiles_of_kind(structures, kind) =~= structures.filter(own).map_values(tile));
    }
}

/// Traffic runs to the first storage of the plan; a plan without storage has its traffic run to the
/// first spawn, and a plan with neither has none.
pub proof fn law_hub_is_storage_before_spawn(structures: Seq<PlannedStructure>)
    ensures
        ({
            let storages = structures.filter(
                |s: PlannedStructure| s.kind@ == "storage"@,
            ).map_values(|s: PlannedStructure| (s.x, s.y));
            let spawns = structures.filter(|s: PlannedStructure| s.kind@ == "spawn"@).map_values(
                |s: PlannedStructure| (s.x, s.y),
            );
            &&& storages.len() > 0 ==> hub(structures) == Some(storages.first())
            &&& storages.len() == 0 && spawns.len() > 0 ==> hub(structures) == Some(spawns.first())
            &&& storages.len() == 0 && spawns.len() == 0 ==> hub(structures) is None
        }),
{
    law_tiles_of_a_kind(structures, "storage"@);
    law_tiles_of_a_kind(structures, "spawn"@);
    let (storage, spawn) = ("storage"@, "spawn"@);
    assert((|s: PlannedStructure| s.kind@ == storage) =~= (|s: PlannedStructure|
        s.kind@ == "storage"@));
    assert((|s: PlannedStructure| s.kind@ == spawn) =~= (|s: PlannedStructure| s.kind@ == "spawn"@));
}

/// A source is served by the nearest container; of several as near by the most northern, and of
/// those by the most western.
pub proof fn law_nearest_container_serves(containers: Seq<(u8, u8)>, src: (u8, u8), i: int)
    requires
        0 <= i < containers.len(),
    ensures
        ({
            let c = nearest(containers, src).unwrap();
            let d = containers[i];
            let (near, far) = (chebyshev(c, src), chebyshev(d, src));
            &&& nearest(containers, src) is Some
            &&& containers.contains(c)
            &&& near <= far
            &&& near == far ==> c.1 <= d.1
            &&& near == far && c.1 == d.1 ==> c.0 <= d.0
        }),
{
    law_nearest_is_first(containers, src);
    assert(!key_before(
        near_key(containers[i], src),
        near_key(nearest(containers, src).unwrap(), src),
    ));
}

/// Every source with a container within two tiles is picked up from: the container that serves it
/// is among the pickup points. A source without one adds none.
pub proof fn law_every_served_source_has_its_pickup(
    sources: Seq<(u8, u8)>,
    containers: Seq<(u8, u8)>,
    i: int,
)
    requires
        0 <= i < sources.len(),
        containers.len() > 0,
    ensures
        chebyshev(nearest(containers, sources[i]).unwrap(), sources[i]) <= 2 ==> pickups(
            sources,
            containers,
        ).contains(nearest(containers, sources[i]).unwrap()),
        (forall|k: int|
            0 <= k < sources.len() ==> chebyshev(
                nearest(containers, #[trigger] sources[k]).unwrap(),
                sources[k],
            ) > 2) ==> pickups(sources, containers).len() == 0,
    decreases sources.len(),
{
    let front = sources.drop_last();
    let before = pickups(front, containers);
    let now = pickups(sources, containers);
    let last = sources.last();
    law_nearest_is_first(containers, last);
    let c = nearest(containers, sources[i]).unwrap();
    if i < front.len() {
        law_every_served_source_has_its_pickup(front, containers, i);
        assert(front[i] == sources[i]);
        if before.contains(c) {
            let k = choose|k: int| 0 <= k < before.len() && before[k] == c;
            assert(now[k] == c);
        }
    } else if chebyshev(c, last) <= 2 && !before.contains(c) {
        assert(now[before.len() as int] == c);
    }
    if forall|k: int|
        0 <= k < sources.len() ==> chebyshev(
            nearest(containers, #[trigger] sources[k]).unwrap(),
            sources[k],
        ) > 2 {
        assert(chebyshev(nearest(containers, sources[sources.len() - 1]).unwrap(), last) > 2);
        if front.len() > 0 {
            assert forall|k: int| 0 <= k < front.len() implies chebyshev(
                nearest(containers, #[trigger] front[k]).unwrap(),
                front[k],
            ) > 2 by {
                assert(front[k] == sources[k]);
            }
            law_every_served_source_has_its_pickup(front, containers, 0);
        }
    }
}

/// For want of source containers the containers furthest from the hub stand in, two at most: none
/// that is left out is further than either.
pub proof fn law_furthest_containers_stand_in(containers: Seq<(u8, u8)>, sink: (u8, u8), i: int)
    requires
        0 <= i < containers.len(),
    ensures
        ({
            let two = furthest(containers, sink, 2);
            let k = furthest_at(containers, sink);
            let rest = containers.remove(k);
            &&& two.len() == if containers.len() < 2 {
                containers.len() as int
            } else {
                2
            }
            &&& 0 <= k < containers.len()
            &&& two[0] == containers[k]
            &&& chebyshev(containers[i], sink) <= chebyshev(two[0], sink)
            &&& two.len() == 2 ==> rest.contains(two[1]) && (i != k ==> chebyshev(containers[i], sink)
                <= chebyshev(two[1], sink))
        }),
{
    law_furthest_is_first(containers, sink);
    let k = furthest_at(containers, sink);
    let rest = containers.remove(k);
    reveal_with_fuel(furthest, 3);
    assert(!key_before(far_key(containers[i], sink), far_key(containers[k], sink)));
    if rest.len() > 0 {
        law_furthest_is_first(rest, sink);
        let j = furthest_at(rest, sink);
        assert(furthest(rest, sink, 1)[0] == rest[j]);
        if i != k {
            let at = if i < k {
                i
            } else {
                i - 1
            };
            assert(rest[at] == containers[i]);
            assert(!key_before(far_key(rest[at], sink), far_key(rest[j], sink)));
        }
    }
}

/// The neighbours of a tile are tried south, east, north and west, then on the diagonals; the first
/// that can be stood on is taken, and none only if all eight cannot.
pub proof fn law_first_open_neighbour_is_taken(
    walls: Set<(u8, u8)>,
    tile: (u8, u8),
    taken: Seq<(u8, u8)>,
    k: int,
)
    requires
        0 <= k < 8,
        open_at(walls, tile, taken, k),
        forall|j: int| 0 <= j < k ==> !#[trigger] open_at(walls, tile, taken, j),
    ensures
        ({
            let around = seq![
                (0int, 1int),
                (1int, 0int),
                (0int, -1int),
                (-1int, 0int),
                (1int, 1int),
                (1int, -1int),
                (-1int, 1int),
                (-1int, -1int),
            ];
            first_open(walls, tile, taken, 0) == Some(
                ((tile.0 + around[k].0) as u8, (tile.1 + around[k].1) as u8),
            )
        }),
{
    lemma_skips(walls, tile, taken, 0, k);
}

proof fn lemma_skips(
    walls: Set<(u8, u8)>,
    tile: (u8, u8),
    taken: Seq<(u8, u8)>,
    from: int,
    k: int,
)
    requires
        0 <= from <= k < 8,
        forall|j: int| 0 <= j < k ==> !#[trigger] open_at(walls, tile, taken, j),
    ensures
        first_open(walls, tile, taken, from) == first_open(walls, tile, taken, k),
    decreases k - from,
{
    if from < k {
        assert(!open_at(walls, tile, taken, from));
        lemma_skips(walls, tile, taken, from + 1, k);
    }
}

/// A tile can be stood on exactly if it lies off the border, is no wall and is not taken; a tile
/// with none such around it has no open neighbour.
pub proof fn law_open_tiles(walls: Set<(u8, u8)>, tile: (u8, u8), taken: Seq<(u8, u8)>)
    ensures
        first_open(walls, tile, taken, 0) matches Some(t) ==> 1 <= t.0 <= 48 && 1 <= t.1 <= 48
            && !walls.contains(t) && !taken.contains(t) && chebyshev(t, tile) == 1,
        first_open(walls, tile, taken, 0) is None ==> forall|t: (u8, u8)|
            1 <= t.0 <= 48 && 1 <= t.1 <= 48 && #[trigger] chebyshev(t, tile) == 1 ==> walls.contains(t)
                || taken.contains(t),
{
    reveal_with_fuel(first_open, 9);
    if first_open(walls, tile, taken, 0) is None {
        assert forall|t: (u8, u8)|
            1 <= t.0 <= 48 && 1 <= t.1 <= 48 && #[trigger] chebyshev(t, tile) == 1 implies walls.contains(t)
            || taken.contains(t) by {
            let (dx, dy) = (t.0 - tile.0, t.1 - tile.1);
            let k: int = if (dx, dy) == (0int, 1int) {
                0
            } else if (dx, dy) == (1int, 0int) {
                1
            } else if (dx, dy) == (0int, -1int) {
                2
            } else if (dx, dy) == (-1int, 0int) {
                3
            } else if (dx, dy) == (1int, 1int) {
                4
            } else if (dx, dy) == (1int, -1int) {
                5
            } else if (dx, dy) == (-1int, 1int) {
                6
            } else {
                7
            };
            assert(offset(k) == (dx, dy));
            assert(!open_at(walls, tile, taken, k));
        }
    }
}

/// Every pickup point is staffed: a hauler starts on it, and a second one next to it wherever a tile
/// there can be stood on.
pub proof fn law_every_pickup_is_staffed(walls: Set<(u8, u8)>, endpoints: Seq<(u8, u8)>, k: nat)
    requires
        0 < k <= endpoints.len(),
    ensures
        ({
            let (before, now) = (
                staffing(walls, endpoints, (k - 1) as nat),
                staffing(walls, endpoints, k),
            );
            let ep = endpoints[k - 1];
            let n = before.starts.len() as int;
            &&& staffing(walls, endpoints, 0).starts.len() == 0
            &&& staffing(walls, endpoints, 0).taken == endpoints
            &&& now.starts.take(n) == before.starts
            &&& now.starts[n] == ep
            &&& first_open(walls, ep, before.taken, 0) is None ==> now.starts.len() == n + 1
            &&& first_open(walls, ep, before.taken, 0) matches Some(t) ==> now.starts.len() == n + 2
                && now.starts[n + 1] == t && now.taken == before.taken.push(t)
        }),
{
    let (before, now) = (
        staffing(walls, endpoints, (k - 1) as nat),
        staffing(walls, endpoints, k),
    );
    assert(now.starts.take(before.starts.len() as int) =~= before.starts);
}

/// The rooms that are left to plan are all those without a kept layout, in their order, as many as
/// the limit allows.
pub proof fn law_missing_rooms_are_planned(rooms: Seq<String>, cache: LayoutCache, i: int)
    requires
        rooms.len() <= usize::MAX,
    ensures
        0 <= i < rooms.len() && !is_cached(cache, rooms[i]@) ==> uncached(rooms, cache).contains(
            i as usize,
        ),
        forall|j: int, k: int|
            0 <= j < k < uncached(rooms, cache).len() ==> #[trigger] uncached(rooms, cache)[j]
                < #[trigger] uncached(rooms, cache)[k],
    decreases rooms.len(),
{
    if rooms.len() > 0 {
        let front = rooms.drop_last();
        law_missing_rooms_are_planned(front, cache, i);
        let (before, now) = (uncached(front, cache), uncached(rooms, cache));
        if 0 <= i < front.len() && !is_cached(cache, rooms[i]@) {
            assert(front[i] == rooms[i]);
            let k = choose|k: int| 0 <= k < before.len() && before[k] == i as usize;
            assert(now[k] == i as usize);
        } else if i == front.len() && !is_cached(cache, rooms[i]@) {
            assert(now[before.len() as int] == i as usize);
        }
        assert forall|j: int, k: int| 0 <= j < k < now.len() implies #[trigger] now[j]
            < #[trigger] now[k] by {
            assert(now[j] == before[j]);
            law_cached_rooms_are_not_planned(front, cache, j);
            if k < before.len() {
                assert(now[k] == before[k]);
            }
        }
    }
}

/// Haulers of a base carry a full load, fifty units for each of eight carry parts, from their start
/// to the hub and back, three times.
pub proof fn law_base_haulers_carry_a_full_load(
    a: HaulAssignment,
    room: u16,
    start: (u8, u8),
    sink: (u8, u8),
)
    requires
        is_route(a, room, start, sink),
    ensures
        a.body.parts@.len() == 16,
        2 * a.q == 50 * a.body.parts@.len(),
        a.trips == 3,
        (a.source.x, a.source.y) == start,
        (a.sink.x, a.sink.y) == sink,
        a.source.room == room && a.sink.room == room,
{
}

/// A realized layout keeps its terrain's swamps, walls and roads and adds the plan to them: every
/// planned road is a road, and every structure but a road, a container, a rampart or an extractor is
/// a wall. No other tile becomes a road or a wall.
pub proof fn law_plans_are_realized(
    layout: &CapturedLayout,
    decoded: &SimTerrain,
    r: SimTerrain,
    i: int,
    t: (u8, u8),
)
    requires
        call_ensures(base_scenario, (layout, decoded), r),
        0 <= i < layout.structures@.len(),
    ensures
        ({
            let s = layout.structures@[i];
            let walkable = |kind: Seq<char>|
                kind == "road"@ || kind == "container"@ || kind == "rampart"@ || kind == "extractor"@;
            let off_plan = forall|k: int|
                0 <= k < layout.structures@.len() ==> (
                #[trigger] layout.structures@[k].x,
                layout.structures@[k].y,
                ) != t;
            &&& r.swamps@ == decoded.swamps@
            &&& decoded.walls@.contains(t) ==> r.walls@.contains(t)
            &&& decoded.roads@.contains(t) ==> r.roads@.contains(t)
            &&& s.kind@ == "road"@ ==> r.roads@.contains((s.x, s.y))
            &&& !walkable(s.kind@) ==> r.walls@.contains((s.x, s.y))
            &&& off_plan && r.walls@.contains(t) ==> decoded.walls@.contains(t)
            &&& off_plan && r.roads@.contains(t) ==> decoded.roads@.contains(t)
        }),
{
    let s = layout.structures@[i];
    assert(r.roads@.contains((s.x, s.y)) <==> decoded.roads@.contains((s.x, s.y)) || road_on(
        layout.structures@,
        (s.x, s.y),
    ));
    assert(r.walls@.contains((s.x, s.y)) <==> decoded.walls@.contains((s.x, s.y)) || obstacle_on(
        layout.structures@,
        (s.x, s.y),
    ));
    assert(r.roads@.contains(t) <==> decoded.roads@.contains(t) || road_on(layout.structures@, t));
    assert(r.walls@.contains(t) <==> decoded.walls@.contains(t) || obstacle_on(
        layout.structures@,
        t,
    ));
}

/// Kept structures stand by kind; those of a kind by column, then by row, then by level, an open
/// level first.
pub proof fn law_what_is_kept_first(a: PlannedStructure, b: PlannedStructure)
    ensures
        text_before(a.kind@, b.kind@) ==> structure_before(a, b),
        a.kind@ == b.kind@ && a.x < b.x ==> structure_before(a, b),
        a.kind@ == b.kind@ && a.x == b.x && a.y < b.y ==> structure_before(a, b),
        a.kind@ == b.kind@ && a.x == b.x && a.y == b.y && a.required_rcl is None && b.required_rcl is Some
            ==> structure_before(a, b),
        a.kind@ == b.kind@ && a.x == b.x && a.y == b.y && a.required_rcl is Some && b.required_rcl is Some
            && a.required_rcl.unwrap() < b.required_rcl.unwrap() ==> structure_before(a, b),
{
}

} // verus!
