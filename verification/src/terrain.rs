//! Tile sets and the fatigue field of a room.

use crate::grid::{FATIGUE_RATE_PLAIN, FATIGUE_RATE_ROAD, FATIGUE_RATE_SWAMP};
use vstd::prelude::*;

verus! {

/// The place of a tile in column-major order.
pub open spec fn code(t: (u8, u8)) -> u16 {
    (t.0 * 256 + t.1) as u16
}

/// The tile at a place in column-major order.
pub open spec fn tile_at(c: u16) -> (u8, u8) {
    ((c / 256) as u8, (c % 256) as u8)
}

/// The tiles of `s` stand in column-major order, none of them twice.
pub open spec fn in_order(s: Seq<(u8, u8)>) -> bool {
    forall|i: int, j: int| 0 <= i < j < s.len() ==> code(#[trigger] s[i]) < code(#[trigger] s[j])
}

/// A set of tiles.
#[derive(Debug)]
pub struct TileSet {
    codes: Vec<u16>,
}

impl View for TileSet {
    type V = Set<(u8, u8)>;

    closed spec fn view(&self) -> Set<(u8, u8)> {
        Set::new(|t: (u8, u8)| self.codes@.contains(code(t)))
    }
}

/// The places grow strictly.
spec fn growing(codes: Seq<u16>) -> bool {
    forall|i: int, j: int| 0 <= i < j < codes.len() ==> codes[i] < codes[j]
}

/// Tile and place determine each other.
proof fn lemma_code(t: (u8, u8), c: u16)
    ensures
        tile_at(code(t)) == t,
        code(tile_at(c)) == c,
{
}

impl TileSet {
    #[verifier::type_invariant]
    spec fn ordered(self) -> bool {
        growing(self.codes@)
    }

    /// The empty set.
    pub fn new() -> (r: TileSet)
        ensures
            r@ == Set::<(u8, u8)>::empty(),
    {
        let r = TileSet { codes: Vec::new() };
        assert(r@ =~= Set::<(u8, u8)>::empty());
        r
    }

    /// The number of places before `c`.
    fn rank(&self, c: u16) -> (r: usize)
        ensures
            r <= self.codes@.len(),
            forall|i: int| 0 <= i < r ==> self.codes@[i] < c,
            forall|i: int| r <= i < self.codes@.len() ==> self.codes@[i] >= c,
    {
        proof {
            use_type_invariant(self);
        }
        let mut lo: usize = 0;
        let mut hi: usize = self.codes.len();
        while lo < hi
            invariant
                lo <= hi <= self.codes@.len(),
                growing(self.codes@),
                forall|i: int| 0 <= i < lo ==> self.codes@[i] < c,
                forall|i: int| hi <= i < self.codes@.len() ==> self.codes@[i] >= c,
            decreases hi - lo,
        {
            let mid: usize = lo + (hi - lo) / 2;
            if self.codes[mid] < c {
                lo = mid + 1;
            } else {
                hi = mid;
            }
        }
        lo
    }

    /// Membership.
    pub fn contains(&self, t: (u8, u8)) -> (r: bool)
        ensures
            r == self@.contains(t),
    {
        let c: u16 = t.0 as u16 * 256 + t.1 as u16;
        let i: usize = self.rank(c);
        let found = i < self.codes.len() && self.codes[i] == c;
        proof {
            if self.codes@.contains(c) {
                let k = choose|k: int| 0 <= k < self.codes@.len() && self.codes@[k] == c;
                use_type_invariant(self);
                assert(k >= i);
                if i < k {
                    assert(self.codes@[i as int] < self.codes@[k]);
                }
            }
        }
        found
    }

    /// Adds a tile.
    pub fn insert(&mut self, t: (u8, u8))
        ensures
            final(self)@ == old(self)@.insert(t),
    {
        let c: u16 = t.0 as u16 * 256 + t.1 as u16;
        let i: usize = self.rank(c);
        let ghost before = self.codes@;
        proof {
            use_type_invariant(&*self);
        }
        if i < self.codes.len() && self.codes[i] == c {
            assert(self@ =~= old(self)@.insert(t));
            return;
        }
        let mut codes: Vec<u16> = Vec::new();
        std::mem::swap(&mut codes, &mut self.codes);
        codes.insert(i, c);
        proof {
            let after = codes@;
            assert(after =~= before.insert(i as int, c));
            assert(growing(after));
            assert forall|u: (u8, u8)| #[trigger] after.contains(code(u)) == (before.contains(code(u)) || u == t) by {
                lemma_code(u, c);
                lemma_code(t, c);
                if before.contains(code(u)) {
                    let k = choose|k: int| 0 <= k < before.len() && before[k] == code(u);
                    if k < i {
                        assert(after[k] == code(u));
                    } else {
                        assert(after[k + 1] == code(u));
                    }
                }
                if u == t {
                    assert(after[i as int] == c);
                }
                if after.contains(code(u)) {
                    let k = choose|k: int| 0 <= k < after.len() && after[k] == code(u);
                    if k < i {
                        assert(before[k] == code(u));
                    } else if k > i {
                        assert(before[k - 1] == code(u));
                    }
                }
            }
        }
        self.codes = codes;
        assert(self@ =~= old(self)@.insert(t));
    }

    /// The tiles in column-major order.
    pub fn to_vec(&self) -> (r: Vec<(u8, u8)>)
        ensures
            in_order(r@),
            r@.no_duplicates(),
            forall|t: (u8, u8)| r@.contains(t) == self@.contains(t),
            r@.len() == self@.len(),
    {
        proof {
            use_type_invariant(self);
        }
        let mut r: Vec<(u8, u8)> = Vec::new();
        let mut i: usize = 0;
        while i < self.codes.len()
            invariant
                i <= self.codes@.len(),
                r@.len() == i,
                forall|k: int| 0 <= k < i ==> #[trigger] r@[k] == tile_at(self.codes@[k]),
            decreases self.codes@.len() - i,
        {
            let c: u16 = self.codes[i];
            r.push(((c / 256) as u8, (c % 256) as u8));
            i += 1;
        }
        proof {
            lemma_listing(self.codes@, r@);
            assert(r@.to_set() =~= self@);
            r@.unique_seq_to_set();
        }
        r
    }

    /// The number of tiles.
    pub fn len(&self) -> (r: usize)
        ensures
            r == self@.len(),
    {
        proof {
            use_type_invariant(self);
            let tiles = Seq::new(self.codes@.len(), |k: int| tile_at(self.codes@[k]));
            lemma_listing(self.codes@, tiles);
            assert(tiles.to_set() =~= self@);
            tiles.unique_seq_to_set();
        }
        self.codes.len()
    }

    /// No tile is in the set.
    pub fn is_empty(&self) -> (r: bool)
        ensures
            r == (self@.len() == 0),
    {
        self.len() == 0
    }
}

/// The tiles of a rectangle, its borders among them.
pub open spec fn rect(x0: int, x1: int, y0: int, y1: int) -> Set<(u8, u8)> {
    Set::new(|t: (u8, u8)| x0 <= t.0 <= x1 && y0 <= t.1 <= y1)
}

/// Adds the tiles of a rectangle, its borders among them.
pub fn insert_rect(set: &mut TileSet, x0: u8, x1: u8, y0: u8, y1: u8)
    requires
        x1 < 255,
        y1 < 255,
    ensures
        final(set)@ == old(set)@.union(rect(x0 as int, x1 as int, y0 as int, y1 as int)),
{
    let ghost start = set@;
    let mut x: u8 = x0;
    assert(set@ =~= start.union(rect(x0 as int, x - 1, y0 as int, y1 as int)));
    while x <= x1
        invariant
            x0 <= x,
            x1 < 255,
            y1 < 255,
            x <= x1 + 1 || x == x0,
            set@ == start.union(rect(x0 as int, x - 1, y0 as int, y1 as int)),
        decreases x1 + 1 - x,
    {
        let ghost left = set@;
        let mut y: u8 = y0;
        assert(set@ =~= left.union(rect(x as int, x as int, y0 as int, y - 1)));
        while y <= y1
            invariant
                y0 <= y,
                y1 < 255,
                y <= y1 + 1 || y == y0,
                set@ == left.union(rect(x as int, x as int, y0 as int, y - 1)),
            decreases y1 + 1 - y,
        {
            set.insert((x, y));
            y += 1;
            assert(set@ =~= left.union(rect(x as int, x as int, y0 as int, y - 1)));
        }
        assert(rect(x as int, x as int, y0 as int, y - 1) =~= rect(
            x as int,
            x as int,
            y0 as int,
            y1 as int,
        ));
        x += 1;
        assert(set@ =~= start.union(rect(x0 as int, x - 1, y0 as int, y1 as int)));
    }
    assert(rect(x0 as int, x - 1, y0 as int, y1 as int) =~= rect(
        x0 as int,
        x1 as int,
        y0 as int,
        y1 as int,
    ));
}

impl Clone for TileSet {
    fn clone(&self) -> (r: TileSet)
        ensures
            r@ == self@,
    {
        proof {
            use_type_invariant(self);
        }
        let codes = self.codes.clone();
        assert(codes@ =~= self.codes@);
        let r = TileSet { codes };
        assert(r@ =~= self@);
        r
    }
}

/// Listing the places of a growing sequence as tiles keeps members and order.
proof fn lemma_listing(codes: Seq<u16>, tiles: Seq<(u8, u8)>)
    requires
        growing(codes),
        tiles.len() == codes.len(),
        forall|k: int| 0 <= k < codes.len() ==> #[trigger] tiles[k] == tile_at(codes[k]),
    ensures
        in_order(tiles),
        tiles.no_duplicates(),
        forall|t: (u8, u8)| #[trigger] tiles.contains(t) == codes.contains(code(t)),
{
    assert forall|k: int| 0 <= k < codes.len() implies code(#[trigger] tiles[k]) == codes[k] by {
        lemma_code((0, 0), codes[k]);
    }
    assert forall|t: (u8, u8)| #[trigger] tiles.contains(t) == codes.contains(code(t)) by {
        lemma_code(t, 0);
        if codes.contains(code(t)) {
            let k = choose|k: int| 0 <= k < codes.len() && codes[k] == code(t);
            assert(tiles[k] == t);
        }
        if tiles.contains(t) {
            let k = choose|k: int| 0 <= k < tiles.len() && tiles[k] == t;
            assert(codes[k] == code(t));
        }
    }
}

/// A room's terrain: impassable tiles, swamp tiles and road tiles.
#[derive(Debug)]
pub struct SimTerrain {
    pub walls: TileSet,
    pub swamps: TileSet,
    pub roads: TileSet,
}

impl SimTerrain {
    /// The fatigue that entering a tile accrues: a road wins over the swamp beneath it.
    pub open spec fn rate(self, t: (u8, u8)) -> u32 {
        if self.roads@.contains(t) {
            FATIGUE_RATE_ROAD
        } else if self.swamps@.contains(t) {
            FATIGUE_RATE_SWAMP
        } else {
            FATIGUE_RATE_PLAIN
        }
    }

    /// The tile is impassable.
    pub fn is_wall(&self, x: u8, y: u8) -> (r: bool)
        ensures
            r == self.walls@.contains((x, y)),
    {
        self.walls.contains((x, y))
    }

    /// The fatigue rate of a tile: road 1, plain 2, swamp 10.
    pub fn fatigue_rate(&self, x: u8, y: u8) -> (r: u32)
        ensures
            r == self.rate((x, y)),
            1 <= r <= 10,
    {
        if self.roads.contains((x, y)) {
            FATIGUE_RATE_ROAD
        } else if self.swamps.contains((x, y)) {
            FATIGUE_RATE_SWAMP
        } else {
            FATIGUE_RATE_PLAIN
        }
    }
}

/// The two terrains have the same tiles.
pub open spec fn same_terrain(a: SimTerrain, b: SimTerrain) -> bool {
    a.walls@ == b.walls@ && a.swamps@ == b.swamps@ && a.roads@ == b.roads@
}

impl SimTerrain {
    /// The terrain has exactly these walls, swamps and roads.
    pub open spec fn made_of(
        self,
        walls: Set<(u8, u8)>,
        swamps: Set<(u8, u8)>,
        roads: Set<(u8, u8)>,
    ) -> bool {
        self.walls@ == walls && self.swamps@ == swamps && self.roads@ == roads
    }
}

/// The tiles of a column-spanning wall at column 15 with one gap, at row 25.
pub open spec fn gapped_wall() -> Set<(u8, u8)> {
    Set::new(|t: (u8, u8)| t.0 == 15 && t.1 <= 49 && t.1 != 25)
}

/// A room split by a wall at column 15 that has one gap, at row 25.
pub fn one_gap_room() -> (r: SimTerrain)
    ensures
        r.made_of(gapped_wall(), Set::empty(), Set::empty()),
{
    let mut r = SimTerrain::default();
    insert_rect(&mut r.walls, 15, 15, 0, 24);
    insert_rect(&mut r.walls, 15, 15, 26, 49);
    assert(r.walls@ =~= gapped_wall());
    r
}

/// A plain room with a full-height swamp band at columns 13 to 17 and a road through it at row
/// 25.
pub fn road_through_swamp() -> (r: SimTerrain)
    ensures
        r.made_of(Set::empty(), rect(13, 17, 0, 49), rect(13, 17, 25, 25)),
{
    let mut r = SimTerrain::default();
    insert_rect(&mut r.swamps, 13, 17, 0, 49);
    insert_rect(&mut r.roads, 13, 17, 25, 25);
    assert(r.swamps@ =~= rect(13, 17, 0, 49));
    assert(r.roads@ =~= rect(13, 17, 25, 25));
    r
}

impl Clone for SimTerrain {
    fn clone(&self) -> (r: SimTerrain)
        ensures
            same_terrain(r, *self),
    {
        SimTerrain { walls: self.walls.clone(), swamps: self.swamps.clone(), roads: self.roads.clone() }
    }
}

impl Default for SimTerrain {
    /// All plain.
    fn default() -> (r: SimTerrain)
        ensures
            r.walls@ == Set::<(u8, u8)>::empty(),
            r.swamps@ == Set::<(u8, u8)>::empty(),
            r.roads@ == Set::<(u8, u8)>::empty(),
    {
        SimTerrain { walls: TileSet::new(), swamps: TileSet::new(), roads: TileSet::new() }
    }
}

/// Entering a road accrues one, whatever lies beneath it; swamp without a road accrues ten, and any
/// other tile two.
pub proof fn law_a_road_wins_over_swamp(terrain: SimTerrain, t: (u8, u8))
    ensures
        terrain.roads@.contains(t) ==> terrain.rate(t) == 1,
        !terrain.roads@.contains(t) && terrain.swamps@.contains(t) ==> terrain.rate(t) == 10,
        !terrain.roads@.contains(t) && !terrain.swamps@.contains(t) ==> terrain.rate(t) == 2,
{
}

} // verus!
