//! Positions, rooms and directions.

use vstd::prelude::*;
use vstd::string::StrSliceExecFns;

verus! {

/// Tiles per side of a room.
pub const ROOM_SIZE: u8 = 50;

/// Fatigue that a step onto a road tile accrues per unit of weight.
pub const FATIGUE_RATE_ROAD: u32 = 1;

/// Fatigue that a step onto a plain tile accrues per unit of weight.
pub const FATIGUE_RATE_PLAIN: u32 = 2;

/// Fatigue that a step onto a swamp tile accrues per unit of weight.
pub const FATIGUE_RATE_SWAMP: u32 = 10;

/// A tile of a room. The room is held packed: its column in the high byte and its row in the
/// low byte, each counted from the north-west corner of the map.
#[derive(Clone, Copy, Debug, PartialEq, Eq, Structural)]
pub struct Position {
    pub room: u16,
    pub x: u8,
    pub y: u8,
}

/// The column of a packed room, with the first room east of the meridian at zero.
pub open spec fn room_column(room: u16) -> int {
    room as int / 256 - 128
}

/// The row of a packed room, with the first room south of the equator at zero.
pub open spec fn room_row(room: u16) -> int {
    room as int % 256 - 128
}

/// The absolute difference.
pub open spec fn distance(a: int, b: int) -> int {
    if a < b {
        b - a
    } else {
        a - b
    }
}

/// The greater of two lengths.
pub open spec fn greater(a: int, b: int) -> int {
    if a < b {
        b
    } else {
        a
    }
}

/// The Chebyshev range between two tiles given by their coordinates.
pub open spec fn chebyshev(a: (u8, u8), b: (u8, u8)) -> int {
    greater(distance(a.0 as int, b.0 as int), distance(a.1 as int, b.1 as int))
}

impl Position {
    /// The coordinates lie on the grid of a room.
    pub open spec fn on_grid(self) -> bool {
        self.x < ROOM_SIZE && self.y < ROOM_SIZE
    }

    /// The column of the tile on the map of all rooms.
    pub open spec fn world_x(self) -> int {
        room_column(self.room) * 50 + self.x
    }

    /// The row of the tile on the map of all rooms.
    pub open spec fn world_y(self) -> int {
        room_row(self.room) * 50 + self.y
    }

    /// The Chebyshev range between two tiles on the map of all rooms.
    pub open spec fn range_to(self, target: Position) -> int {
        greater(
            distance(self.world_x(), target.world_x()),
            distance(self.world_y(), target.world_y()),
        )
    }

    /// The linear range to `target`, across room borders.
    pub fn get_range_to(self, target: Position) -> (r: u32)
        requires
            self.on_grid(),
            target.on_grid(),
        ensures
            r == self.range_to(target),
    {
        linear_range(self, target)
    }
}

/// Calls `screeps::Position::get_range_to` on the two tiles. The range is the greater of the
/// distances along the two axes of the map of all rooms, on which the tile `(x, y)` of a room
/// lies fifty columns (rows) further per room column (row).
#[verifier::external_body]
fn linear_range(a: Position, b: Position) -> (r: u32)
    requires
        a.on_grid(),
        b.on_grid(),
    ensures
        r == a.range_to(b),
{
    let ax = screeps::RoomCoordinate::new(a.x).unwrap();
    let ay = screeps::RoomCoordinate::new(a.y).unwrap();
    let bx = screeps::RoomCoordinate::new(b.x).unwrap();
    let by = screeps::RoomCoordinate::new(b.y).unwrap();
    let from = screeps::Position::new(ax, ay, screeps::RoomName::from_packed(a.room));
    let to = screeps::Position::new(bx, by, screeps::RoomName::from_packed(b.room));
    from.get_range_to(to)
}

/// The packed room that a name stands for, or `None` where it is no room name.
pub uninterp spec fn named_room(name: Seq<char>) -> Option<u16>;

/// A decimal digit as it is written.
pub open spec fn digit(n: int) -> char {
    (48 + n) as char
}

/// The digits of the least coordinate, on which the parser overflows.
pub const LEAST_DIGITS: &'static str = "2147483648";

/// The digits of the least coordinate stand at `i`.
pub open spec fn least_at(name: Seq<char>, i: int) -> bool {
    &&& 0 <= i
    &&& i + LEAST_DIGITS@.len() <= name.len()
    &&& name.subrange(i, i + LEAST_DIGITS@.len()) == LEAST_DIGITS@
}

/// The name can be handed to the parser. A name with those digits is the name of no room: no
/// coordinate as large is.
pub open spec fn safe_name(name: Seq<char>) -> bool {
    forall|i: int| !#[trigger] least_at(name, i)
}

/// Calls the parser of `screeps::RoomName`. What it makes of a name is [`named_room`]; of it
/// only this is stated, that west and north rooms with one digit each are packed as the
/// distances of their column and row from the north-west corner.
#[verifier::external_body]
pub(crate) fn parse_room(name: &str) -> (r: Option<u16>)
    requires
        safe_name(name@),
    ensures
        r == named_room(name@),
        forall|west: int, north: int|
            0 <= west <= 9 && 0 <= north <= 9 && name@ == #[trigger] west_north(west, north)
                ==> r == Some(west_north_room(west, north)),
{
    name.parse::<screeps::RoomName>().ok().map(|room| room.packed_repr())
}

/// The name of a room by its distances west and north, each of one digit.
pub open spec fn west_north(west: int, north: int) -> Seq<char> {
    seq!['W', digit(west), 'N', digit(north)]
}

/// The packed form of a room by its distances west and north.
pub open spec fn west_north_room(west: int, north: int) -> u16 {
    ((127 - west) * 256 + (127 - north)) as u16
}

/// The packed form of the room `W1N1`, in which single-room scenarios play.
pub fn home_room() -> (r: u16)
    ensures
        r == west_north_room(1, 1),
{
    proof {
        reveal_strlit("W1N1");
        reveal_strlit("2147483648");
        assert("W1N1"@ =~= west_north(1, 1));
    }
    parse_room("W1N1").unwrap()
}

/// The packed form of the room `W2N1`, the western neighbour of the home room.
pub fn western_room() -> (r: u16)
    ensures
        r == west_north_room(2, 1),
{
    proof {
        reveal_strlit("W2N1");
        reveal_strlit("2147483648");
        assert("W2N1"@ =~= west_north(2, 1));
    }
    parse_room("W2N1").unwrap()
}

/// A tile of `room`.
pub fn pos_in(room: u16, x: u8, y: u8) -> (r: Position)
    requires
        x < ROOM_SIZE,
        y < ROOM_SIZE,
    ensures
        r == (Position { room, x, y }),
        r.on_grid(),
{
    Position { room, x, y }
}

/// The eight ways to step.
#[derive(Clone, Copy, Debug, PartialEq, Eq, Structural)]
pub enum Direction {
    Top,
    TopRight,
    Right,
    BottomRight,
    Bottom,
    BottomLeft,
    Left,
    TopLeft,
}

impl Direction {
    /// The columns that a step in this direction moves.
    pub open spec fn dx(self) -> int {
        match self {
            Direction::TopRight | Direction::Right | Direction::BottomRight => 1,
            Direction::TopLeft | Direction::Left | Direction::BottomLeft => -1,
            Direction::Top | Direction::Bottom => 0,
        }
    }

    /// The rows that a step in this direction moves.
    pub open spec fn dy(self) -> int {
        match self {
            Direction::BottomLeft | Direction::Bottom | Direction::BottomRight => 1,
            Direction::TopLeft | Direction::Top | Direction::TopRight => -1,
            Direction::Left | Direction::Right => 0,
        }
    }
}

/// `b` is the tile that a step from `a` in direction `d` enters, inside one room.
pub open spec fn steps_to(a: Position, d: Direction, b: Position) -> bool {
    a.room == b.room && b.x == a.x + d.dx() && b.y == a.y + d.dy()
}

/// The direction from `a` to an adjacent tile `b` of the same room; `None` for any other tile.
pub fn direction_between(a: Position, b: Position) -> (r: Option<Direction>)
    ensures
        r matches Some(d) ==> steps_to(a, d, b),
        r is None ==> forall|d: Direction| !steps_to(a, d, b),
{
    if a.room != b.room {
        return None;
    }
    let dx: i32 = b.x as i32 - a.x as i32;
    let dy: i32 = b.y as i32 - a.y as i32;
    if dx == 0 && dy == -1 {
        Some(Direction::Top)
    } else if dx == 1 && dy == -1 {
        Some(Direction::TopRight)
    } else if dx == 1 && dy == 0 {
        Some(Direction::Right)
    } else if dx == 1 && dy == 1 {
        Some(Direction::BottomRight)
    } else if dx == 0 && dy == 1 {
        Some(Direction::Bottom)
    } else if dx == -1 && dy == 1 {
        Some(Direction::BottomLeft)
    } else if dx == -1 && dy == 0 {
        Some(Direction::Left)
    } else if dx == -1 && dy == -1 {
        Some(Direction::TopLeft)
    } else {
        None
    }
}

/// A direction is determined by the step it makes.
pub proof fn law_direction_is_unique(a: Position, d: Direction, e: Direction, b: Position)
    requires
        steps_to(a, d, b),
        steps_to(a, e, b),
    ensures
        d == e,
{
}

/// Whether the digits of the least coordinate stand at `i`.
fn finds_least(name: &str, i: usize) -> (r: bool)
    requires
        i + LEAST_DIGITS@.len() <= name@.len(),
    ensures
        r == least_at(name@, i as int),
{
    let n: usize = LEAST_DIGITS.unicode_len();
    let len: usize = name.unicode_len();
    let mut j: usize = 0;
    while j < n
        invariant
            j <= n == LEAST_DIGITS@.len(),
            i + n <= len == name@.len(),
            forall|k: int| 0 <= k < j ==> name@[i + k] == #[trigger] LEAST_DIGITS@[k],
        decreases n - j,
    {
        if name.get_char(i + j) != LEAST_DIGITS.get_char(j) {
            assert(name@.subrange(i as int, i + n)[j as int] != LEAST_DIGITS@[j as int]);
            return false;
        }
        j += 1;
    }
    assert(name@.subrange(i as int, i + n) =~= LEAST_DIGITS@);
    true
}

/// Whether the name can be handed to the parser.
pub fn is_safe_name(name: &str) -> (r: bool)
    ensures
        r == safe_name(name@),
{
    proof {
        reveal_strlit("2147483648");
    }
    let n: usize = name.unicode_len();
    let mut i: usize = 0;
    while i < n && n - i >= 10
        invariant
            i <= n == name@.len(),
            LEAST_DIGITS@.len() == 10,
            forall|k: int| 0 <= k < i ==> !#[trigger] least_at(name@, k),
        decreases n - i,
    {
        if finds_least(name, i) {
            return false;
        }
        i += 1;
    }
    true
}

} // verus!
