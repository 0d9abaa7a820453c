//! Map export: the ASCII map of a dungeon, with its bounds, as saved to the
//! `maps/` directory.
use crate::dungeon::room::{rooms_view, Exit, Room, RoomType, RoomView, Wall};
use crate::text::push_char;
use vstd::prelude::*;

verus! {

/// Saves dungeon maps for a seed into a directory.
pub struct MapExporter {
    seed: u64,
    maps_dir: String,
}

/// The smallest x, smallest y, largest right edge and largest bottom edge of
/// the rooms (`u32::MAX`, `u32::MAX`, 0, 0 when there are none).
pub open spec fn spec_bounds(rooms: Seq<RoomView>) -> (u32, u32, u32, u32)
    decreases rooms.len(),
{
    if rooms.len() == 0 {
        (u32::MAX, u32::MAX, 0, 0)
    } else {
        let (a, b, c, d) = spec_bounds(rooms.drop_last());
        let r = rooms.last();
        (
            if r.x < a { r.x } else { a },
            if r.y < b { r.y } else { b },
            if (r.x + r.width) as u32 > c { (r.x + r.width) as u32 } else { c },
            if (r.y + r.height) as u32 > d { (r.y + r.height) as u32 } else { d },
        )
    }
}

/// Where an exit is in the grid of a room placed at `(bx, by)`.
pub open spec fn grid_door(r: RoomView, e: Exit, bx: int, by: int) -> (int, int) {
    match e.wall {
        Wall::North => (bx + e.position, by),
        Wall::South => (bx + e.position, by + r.height - 1),
        Wall::West => (bx, by + e.position),
        Wall::East => (bx + r.width - 1, by + e.position),
    }
}

/// A door is drawn on the wall its exit names, at the exit's position along
/// that wall: in the top row for North, the bottom row for South, the
/// leftmost column for West, the rightmost column for East; the cell lies on
/// the room's border and is drawn as `▢`.
pub proof fn lemma_door_on_named_wall(c: char, r: RoomView, idx: int, bx: int, by: int, j: int)
    requires
        0 <= j < r.exits.len(),
        r.width >= 1,
        r.height >= 1,
        r.exits[j].wall == Wall::North || r.exits[j].wall == Wall::South ==> r.exits[j].position < r.width,
        r.exits[j].wall == Wall::East || r.exits[j].wall == Wall::West ==> r.exits[j].position < r.height,
    ensures
        ({
            let e = r.exits[j];
            let (gx, gy) = grid_door(r, e, bx, by);
            &&& 0 <= gx - bx < r.width
            &&& 0 <= gy - by < r.height
            &&& (e.wall == Wall::North ==> gy == by && gx - bx == e.position)
            &&& (e.wall == Wall::South ==> gy == by + r.height - 1 && gx - bx == e.position)
            &&& (e.wall == Wall::West ==> gx == bx && gy - by == e.position)
            &&& (e.wall == Wall::East ==> gx == bx + r.width - 1 && gy - by == e.position)
            &&& grid_room(c, r, idx, bx, by, gx, gy) == '▢'
        }),
{
    let e = r.exits[j];
    let (gx, gy) = grid_door(r, e, bx, by);
    assert forall|c0: char| #[trigger] grid_doors(c0, r, r.exits, bx, by, gx, gy) == '▢' by {
        lemma_door_drawn(c0, r, r.exits, bx, by, gx, gy, j);
    }
}

/// Once one of `exits` has its door at `(gx, gy)`, the cell shows a door.
proof fn lemma_door_drawn(c: char, r: RoomView, exits: Seq<Exit>, bx: int, by: int, gx: int, gy: int, j: int)
    requires
        0 <= j < exits.len(),
        grid_door(r, exits[j], bx, by) == (gx, gy),
    ensures
        grid_doors(c, r, exits, bx, by, gx, gy) == '▢',
    decreases exits.len(),
{
    if j < exits.len() - 1 {
        let d = exits.drop_last();
        assert(d[j] == exits[j]);
        lemma_door_drawn(c, r, d, bx, by, gx, gy, j);
    }
}

/// Cell `(gx, gy)` after the doors among `exits` are drawn, as `▢`.
pub open spec fn grid_doors(c: char, r: RoomView, exits: Seq<Exit>, bx: int, by: int, gx: int, gy: int) -> char
    decreases exits.len(),
{
    if exits.len() == 0 {
        c
    } else {
        let prev = grid_doors(c, r, exits.drop_last(), bx, by, gx, gy);
        if grid_door(r, exits.last(), bx, by) == (gx, gy) {
            '▢'
        } else {
            prev
        }
    }
}

/// Cell `(gx, gy)` after room `r` (the `idx`-th) is drawn with its corner at
/// `(bx, by)`: `+` corners, `-` top and bottom walls, `|` side walls, `.`
/// floor; `E` at the center of the first room; then its doors.
pub open spec fn grid_room(c: char, r: RoomView, idx: int, bx: int, by: int, gx: int, gy: int) -> char {
    let dx = gx - bx;
    let dy = gy - by;
    let c1 = if 0 <= dx < r.width && 0 <= dy < r.height {
        if (dy == 0 || dy == r.height - 1) && (dx == 0 || dx == r.width - 1) {
            '+'
        } else if dy == 0 || dy == r.height - 1 {
            '-'
        } else if dx == 0 || dx == r.width - 1 {
            '|'
        } else {
            '.'
        }
    } else {
        c
    };
    let c2 = if idx == 0 && gx == bx + r.width / 2 && gy == by + r.height / 2 {
        'E'
    } else {
        c1
    };
    grid_doors(c2, r, r.exits, bx, by, gx, gy)
}

/// Cell `(gx, gy)` of the map after the rooms are drawn in order, offset by
/// `(ox, oy)`.
pub open spec fn grid_cell(rooms: Seq<RoomView>, ox: int, oy: int, gx: int, gy: int) -> char
    decreases rooms.len(),
{
    if rooms.len() == 0 {
        ' '
    } else {
        let prev = grid_cell(rooms.drop_last(), ox, oy, gx, gy);
        let r = rooms.last();
        grid_room(prev, r, rooms.len() - 1, r.x - ox, r.y - oy, gx, gy)
    }
}

/// Edges can be computed without overflow, and the doors on the bottom and
/// right walls lie inside the rooms.
pub open spec fn rooms_exportable(rooms: Seq<RoomView>) -> bool {
    forall|i: int|
        0 <= i < rooms.len() ==> {
            &&& (#[trigger] rooms[i]).x + rooms[i].width <= u32::MAX
            &&& rooms[i].y + rooms[i].height <= u32::MAX
            &&& forall|j: int|
                0 <= j < rooms[i].exits.len() ==> {
                    &&& rooms[i].x + (#[trigger] rooms[i].exits[j]).position <= u32::MAX
                    &&& rooms[i].y + rooms[i].exits[j].position <= u32::MAX
                    &&& (rooms[i].exits[j].wall == Wall::South ==> rooms[i].height >= 1)
                    &&& (rooms[i].exits[j].wall == Wall::East ==> rooms[i].width >= 1)
                }
        }
}

/// The map of the rooms can be laid out: there is a room, their edges and
/// doors can be computed, and the map is at most `u32::MAX` cells each way.
pub open spec fn map_exportable(rooms: Seq<RoomView>) -> bool {
    &&& rooms.len() > 0
    &&& rooms_exportable(rooms)
    &&& spec_bounds(rooms).2 - spec_bounds(rooms).0 < u32::MAX
    &&& spec_bounds(rooms).3 - spec_bounds(rooms).1 < u32::MAX
}

/// Whether the edges and doors of `r` can be computed.
fn room_exportable(r: &Room) -> (b: bool)
    ensures
        b == ({
            &&& r.x + r.width <= u32::MAX
            &&& r.y + r.height <= u32::MAX
            &&& forall|j: int|
                0 <= j < r@.exits.len() ==> {
                    &&& r.x + (#[trigger] r@.exits[j]).position <= u32::MAX
                    &&& r.y + r@.exits[j].position <= u32::MAX
                    &&& (r@.exits[j].wall == Wall::South ==> r.height >= 1)
                    &&& (r@.exits[j].wall == Wall::East ==> r.width >= 1)
                }
        }),
{
    if r.x > u32::MAX - r.width || r.y > u32::MAX - r.height {
        return false;
    }
    let mut j: usize = 0;
    while j < r.exits.len()
        invariant
            j <= r@.exits.len(),
            forall|k: int|
                0 <= k < j ==> {
                    &&& r.x + (#[trigger] r@.exits[k]).position <= u32::MAX
                    &&& r.y + r@.exits[k].position <= u32::MAX
                    &&& (r@.exits[k].wall == Wall::South ==> r.height >= 1)
                    &&& (r@.exits[k].wall == Wall::East ==> r.width >= 1)
                },
        decreases r.exits.len() - j,
    {
        let e = r.exits[j];
        let ok = e.position <= u32::MAX - r.x && e.position <= u32::MAX - r.y && (e.wall != Wall::South || r.height
            >= 1) && (e.wall != Wall::East || r.width >= 1);
        if !ok {
            assert(r@.exits[j as int] == e);
            return false;
        }
        j = j + 1;
    }
    true
}

proof fn lemma_bounds(rooms: Seq<RoomView>)
    requires
        rooms_exportable(rooms),
    ensures
        forall|i: int|
            0 <= i < rooms.len() ==> {
                &&& spec_bounds(rooms).0 <= (#[trigger] rooms[i]).x
                &&& spec_bounds(rooms).1 <= rooms[i].y
                &&& rooms[i].x + rooms[i].width <= spec_bounds(rooms).2
                &&& rooms[i].y + rooms[i].height <= spec_bounds(rooms).3
            },
        rooms.len() > 0 ==> spec_bounds(rooms).0 <= spec_bounds(rooms).2 && spec_bounds(rooms).1
            <= spec_bounds(rooms).3,
    decreases rooms.len(),
{
    if rooms.len() > 0 {
        let d = rooms.drop_last();
        assert forall|i: int| 0 <= i < d.len() implies {
            &&& (#[trigger] d[i]).x + d[i].width <= u32::MAX
            &&& d[i].y + d[i].height <= u32::MAX
            &&& forall|j: int|
                0 <= j < d[i].exits.len() ==> {
                    &&& d[i].x + (#[trigger] d[i].exits[j]).position <= u32::MAX
                    &&& d[i].y + d[i].exits[j].position <= u32::MAX
                    &&& (d[i].exits[j].wall == Wall::South ==> d[i].height >= 1)
                    &&& (d[i].exits[j].wall == Wall::East ==> d[i].width >= 1)
                }
        } by {
            assert(d[i] == rooms[i]);
        }
        lemma_bounds(d);
        assert(rooms.last() == rooms[rooms.len() - 1]);
        assert forall|i: int| 0 <= i < rooms.len() implies {
            &&& spec_bounds(rooms).0 <= (#[trigger] rooms[i]).x
            &&& spec_bounds(rooms).1 <= rooms[i].y
            &&& rooms[i].x + rooms[i].width <= spec_bounds(rooms).2
            &&& rooms[i].y + rooms[i].height <= spec_bounds(rooms).3
        } by {
            if i < d.len() {
                assert(d[i] == rooms[i]);
            }
        }
    }
}

/// A decimal digit as a character.
pub open spec fn digit_char(d: nat) -> char {
    if d == 0 {
        '0'
    } else if d == 1 {
        '1'
    } else if d == 2 {
        '2'
    } else if d == 3 {
        '3'
    } else if d == 4 {
        '4'
    } else if d == 5 {
        '5'
    } else if d == 6 {
        '6'
    } else if d == 7 {
        '7'
    } else if d == 8 {
        '8'
    } else {
        '9'
    }
}

/// The decimal representation of `n`, without leading zeros.
pub open spec fn decimal(n: nat) -> Seq<char>
    decreases n,
{
    if n < 10 {
        seq![digit_char(n)]
    } else {
        decimal(n / 10).push(digit_char(n % 10))
    }
}

/// The name a room type is printed with.
pub open spec fn room_type_label(t: RoomType) -> Seq<char> {
    match t {
        RoomType::Entrance => "Entrance"@,
        RoomType::Normal => "Normal"@,
        RoomType::Small => "Small"@,
        RoomType::Large => "Large"@,
        RoomType::Corridor => "Corridor"@,
    }
}

/// Lines, each followed by a newline.
pub open spec fn lines_text(rows: Seq<Seq<char>>) -> Seq<char>
    decreases rows.len(),
{
    if rows.len() == 0 {
        Seq::empty()
    } else {
        lines_text(rows.drop_last()) + rows.last() + seq!['\n']
    }
}

/// The detail line of the `idx`-th room.
pub open spec fn room_detail(idx: nat, r: RoomView) -> Seq<char> {
    "# Room "@ + decimal(idx) + ": "@ + decimal(r.width as nat) + "x"@ + decimal(r.height as nat) + " @ ("@
        + decimal(r.x as nat) + ","@ + decimal(r.y as nat) + "), Type: "@ + room_type_label(r.room_type)
        + ", Exits: "@ + decimal(r.exits.len()) + "\n"@
}

/// The detail lines of the rooms.
pub open spec fn room_details(rooms: Seq<RoomView>) -> Seq<char>
    decreases rooms.len(),
{
    if rooms.len() == 0 {
        Seq::empty()
    } else {
        room_details(rooms.drop_last()) + room_detail((rooms.len() - 1) as nat, rooms.last())
    }
}

/// The rows of the map of a dungeon.
pub open spec fn map_rows(rooms: Seq<RoomView>) -> Seq<Seq<char>> {
    let (min_x, min_y, max_x, max_y) = spec_bounds(rooms);
    Seq::new(
        (max_y - min_y + 1) as nat,
        |y: int| Seq::new((max_x - min_x + 1) as nat, |x: int| grid_cell(rooms, min_x as int, min_y as int, x, y)),
    )
}

/// The saved map file: a header with the seed, the time stamp, the room
/// count and the map's dimensions, the map, and one line per room.
pub open spec fn spec_document(seed: u64, stamp: Seq<char>, rooms: Seq<RoomView>) -> Seq<char> {
    let (min_x, min_y, max_x, max_y) = spec_bounds(rooms);
    "# Dungeon Saver — Generated Map\n"@ + "# Seed: "@ + decimal(seed as nat) + "\n"@ + "# Timestamp: "@ + stamp
        + "\n"@ + "# Room Count: "@ + decimal(rooms.len()) + "\n"@ + "\n"@ + "# Dimensions: "@ + decimal(
        (max_x - min_x + 1) as nat,
    ) + "x"@ + decimal((max_y - min_y + 1) as nat) + "\n"@ + "\n"@ + lines_text(map_rows(rooms)) + "\n"@
        + "# Room Details:\n"@ + room_details(rooms)
}

/// The name of the saved map file: the time stamp and `.txt` (maps of the
/// growing dungeon are not tied to their seed).
pub open spec fn spec_file_name(stamp: Seq<char>) -> Seq<char> {
    stamp + ".txt"@
}

/// The time stamp pattern of map file names (`2024-05-01_1330`).
pub open spec fn file_stamp_pattern() -> Seq<char> {
    "%Y-%m-%d_%H%M"@
}

/// The time stamp pattern of the map file header (`2024-05-01 13:30:05`).
pub open spec fn header_stamp_pattern() -> Seq<char> {
    "%Y-%m-%d %H:%M:%S"@
}

/// A decimal digit.
pub open spec fn is_decimal_digit(c: char) -> bool {
    '0' <= c <= '9'
}

/// chrono's `%Y`: the year in at least four digits, with a sign before years
/// outside 0 to 9999.
pub open spec fn year_text(y: Seq<char>) -> bool {
    let d = if y.len() > 0 && (y[0] == '+' || y[0] == '-') {
        y.drop_first()
    } else {
        y
    };
    d.len() >= 4 && forall|i: int| 0 <= i < d.len() ==> is_decimal_digit(#[trigger] d[i])
}

/// Characters `at` and `at + 1` of `t` are digits.
pub open spec fn two_digits_at(t: Seq<char>, at: int) -> bool {
    is_decimal_digit(t[at]) && is_decimal_digit(t[at + 1])
}

/// The shape of a file-name stamp, `%Y-%m-%d_%H%M`: the year, then
/// `-MM-dd_HHmm` in digits (`2024-05-01_1330`).
pub open spec fn file_stamp_shape(t: Seq<char>) -> bool {
    let n = t.len() as int;
    &&& n >= 15
    &&& year_text(t.take(n - 11))
    &&& t[n - 11] == '-'
    &&& two_digits_at(t, n - 10)
    &&& t[n - 8] == '-'
    &&& two_digits_at(t, n - 7)
    &&& t[n - 5] == '_'
    &&& two_digits_at(t, n - 4)
    &&& two_digits_at(t, n - 2)
}

/// The shape of a header stamp, `%Y-%m-%d %H:%M:%S`: the year, then
/// `-MM-dd HH:mm:ss` in digits (`2024-05-01 13:30:05`).
pub open spec fn header_stamp_shape(t: Seq<char>) -> bool {
    let n = t.len() as int;
    &&& n >= 19
    &&& year_text(t.take(n - 15))
    &&& t[n - 15] == '-'
    &&& two_digits_at(t, n - 14)
    &&& t[n - 12] == '-'
    &&& two_digits_at(t, n - 11)
    &&& t[n - 9] == ' '
    &&& two_digits_at(t, n - 8)
    &&& t[n - 6] == ':'
    &&& two_digits_at(t, n - 5)
    &&& t[n - 3] == ':'
    &&& two_digits_at(t, n - 2)
}

/// Calls chrono's `Local::now().format(pattern)` and collects the text.
/// The pattern is one of the two this library formats with, both valid
/// strftime patterns (an invalid one would make the collecting panic).
/// Claimed, as chrono's strftime table documents its fields (`%Y` the year
/// zero-padded to four digits, with a sign outside 0 to 9999; `%m`, `%d`,
/// `%H`, `%M`, `%S` two digits each): the text has the pattern's shape.
/// Which date and time it shows depends on the clock and the machine's time
/// zone and is not stated.
#[verifier::external_body]
fn local_time_text(pattern: &str) -> (t: String)
    requires
        pattern@ == file_stamp_pattern() || pattern@ == header_stamp_pattern(),
    ensures
        pattern@ == file_stamp_pattern() ==> file_stamp_shape(t@),
        pattern@ == header_stamp_pattern() ==> header_stamp_shape(t@),
{
    chrono::Local::now().format(pattern).to_string()
}

/// Appends the decimal representation of `n`.
pub fn append_decimal(s: &mut String, n: u64)
    ensures
        final(s)@ == old(s)@ + decimal(n as nat),
    decreases n,
{
    if n >= 10 {
        append_decimal(s, n / 10);
    }
    let d = n % 10;
    let c = if d == 0 {
        '0'
    } else if d == 1 {
        '1'
    } else if d == 2 {
        '2'
    } else if d == 3 {
        '3'
    } else if d == 4 {
        '4'
    } else if d == 5 {
        '5'
    } else if d == 6 {
        '6'
    } else if d == 7 {
        '7'
    } else if d == 8 {
        '8'
    } else {
        '9'
    };
    push_char(s, c);
    proof {
        if n < 10 {
            assert(decimal(n as nat) == seq![digit_char(n as nat)]);
        }
    }
}

/// Appends the detail line of the `idx`-th room.
#[verifier::spinoff_prover]
#[verifier::rlimit(40)]
fn append_room_detail(d: &mut String, i: usize, room: &Room)
    ensures
        final(d)@ == old(d)@ + room_detail(i as nat, room@),
{
    let ghost mark = d@;
    d.append("# Room ");
    append_decimal(d, i as u64);
    d.append(": ");
    append_decimal(d, room.width as u64);
    d.append("x");
    append_decimal(d, room.height as u64);
    d.append(" @ (");
    append_decimal(d, room.x as u64);
    d.append(",");
    append_decimal(d, room.y as u64);
    d.append("), Type: ");
    let label = match room.room_type {
        RoomType::Entrance => "Entrance",
        RoomType::Normal => "Normal",
        RoomType::Small => "Small",
        RoomType::Large => "Large",
        RoomType::Corridor => "Corridor",
    };
    d.append(label);
    d.append(", Exits: ");
    append_decimal(d, room.exits.len() as u64);
    d.append("\n");
    proof {
        assert(d@ =~= mark + room_detail(i as nat, room@));
    }
}

impl MapExporter {
    pub closed spec fn spec_seed(&self) -> u64 {
        self.seed
    }

    pub closed spec fn spec_maps_dir(&self) -> Seq<char> {
        self.maps_dir@
    }

    /// An exporter for maps of the given seed, saving into `maps`.
    pub fn new(seed: u64) -> (e: Self)
        ensures
            e.spec_seed() == seed,
            e.spec_maps_dir() == "maps"@,
    {
        MapExporter { seed, maps_dir: String::from_str("maps") }
    }

    /// The seed.
    pub fn seed(&self) -> (s: u64)
        ensures
            s == self.spec_seed(),
    {
        self.seed
    }

    /// The directory maps are saved into.
    pub fn maps_dir(&self) -> (d: &str)
        ensures
            d@ == self.spec_maps_dir(),
    {
        self.maps_dir.as_str()
    }

    /// The smallest x and y and the largest right and bottom edges of the rooms.
    pub fn calculate_bounds(&self, dungeon: &[Room]) -> (b: (u32, u32, u32, u32))
        requires
            rooms_exportable(rooms_view(dungeon@)),
        ensures
            b == spec_bounds(rooms_view(dungeon@)),
    {
        let ghost rooms = rooms_view(dungeon@);
        let mut min_x = u32::MAX;
        let mut min_y = u32::MAX;
        let mut max_x = 0u32;
        let mut max_y = 0u32;
        let mut i: usize = 0;
        while i < dungeon.len()
            invariant
                rooms == rooms_view(dungeon@),
                rooms_exportable(rooms),
                i <= dungeon.len(),
                (min_x, min_y, max_x, max_y) == spec_bounds(rooms.take(i as int)),
            decreases dungeon.len() - i,
        {
            let room = &dungeon[i];
            proof {
                assert(rooms[i as int] == room@);
                assert(rooms.take(i + 1).drop_last() =~= rooms.take(i as int));
                assert(rooms.take(i + 1).last() == room@);
            }
            if room.x < min_x {
                min_x = room.x;
            }
            if room.y < min_y {
                min_y = room.y;
            }
            if room.x + room.width > max_x {
                max_x = room.x + room.width;
            }
            if room.y + room.height > max_y {
                max_y = room.y + room.height;
            }
            i = i + 1;
        }
        proof {
            assert(rooms.take(i as int) =~= rooms);
        }
        (min_x, min_y, max_x, max_y)
    }

    /// Whether the map of `dungeon` can be laid out (see `map_exportable`),
    /// which `document` and `prepare_export` need.
    pub fn can_export(&self, dungeon: &[Room]) -> (b: bool)
        ensures
            b == map_exportable(rooms_view(dungeon@)),
    {
        let ghost rooms = rooms_view(dungeon@);
        if dungeon.len() == 0 {
            return false;
        }
        let mut i: usize = 0;
        while i < dungeon.len()
            invariant
                rooms == rooms_view(dungeon@),
                i <= dungeon.len(),
                forall|k: int|
                    0 <= k < i ==> {
                        &&& (#[trigger] rooms[k]).x + rooms[k].width <= u32::MAX
                        &&& rooms[k].y + rooms[k].height <= u32::MAX
                        &&& forall|j: int|
                            0 <= j < rooms[k].exits.len() ==> {
                                &&& rooms[k].x + (#[trigger] rooms[k].exits[j]).position <= u32::MAX
                                &&& rooms[k].y + rooms[k].exits[j].position <= u32::MAX
                                &&& (rooms[k].exits[j].wall == Wall::South ==> rooms[k].height >= 1)
                                &&& (rooms[k].exits[j].wall == Wall::East ==> rooms[k].width >= 1)
                            }
                    },
            decreases dungeon.len() - i,
        {
            proof {
                assert(rooms[i as int] == dungeon@[i as int]@);
            }
            if !room_exportable(&dungeon[i]) {
                return false;
            }
            i = i + 1;
        }
        assert(rooms_exportable(rooms));
        let (min_x, min_y, max_x, max_y) = self.calculate_bounds(dungeon);
        max_x - min_x < u32::MAX && max_y - min_y < u32::MAX
    }

    /// Cell `(gx, gy)` of the map (see `grid_cell`).
    fn map_cell(&self, dungeon: &[Room], min_x: u32, min_y: u32, gx: usize, gy: usize) -> (c: char)
        requires
            rooms_exportable(rooms_view(dungeon@)),
            forall|i: int| 0 <= i < dungeon@.len() ==> min_x <= (#[trigger] dungeon@[i]).x && min_y <= dungeon@[i].y,
        ensures
            c == grid_cell(rooms_view(dungeon@), min_x as int, min_y as int, gx as int, gy as int),
    {
        let ghost rooms = rooms_view(dungeon@);
        let mut c = ' ';
        let mut i: usize = 0;
        while i < dungeon.len()
            invariant
                rooms == rooms_view(dungeon@),
                rooms_exportable(rooms),
                forall|k: int| 0 <= k < dungeon@.len() ==> min_x <= (#[trigger] dungeon@[k]).x && min_y <= dungeon@[k].y,
                i <= dungeon.len(),
                c == grid_cell(rooms.take(i as int), min_x as int, min_y as int, gx as int, gy as int),
            decreases dungeon.len() - i,
        {
            let room = &dungeon[i];
            proof {
                assert(rooms[i as int] == room@);
                assert(rooms.take(i + 1).drop_last() =~= rooms.take(i as int));
                assert(rooms.take(i + 1).last() == room@);
                assert(min_x <= dungeon@[i as int].x);
            }
            let base_x = (room.x - min_x) as usize;
            let base_y = (room.y - min_y) as usize;
            if base_x <= gx && gx - base_x < room.width as usize && base_y <= gy && gy - base_y < room.height as usize {
                let dx = gx - base_x;
                let dy = gy - base_y;
                let top_or_bottom = dy == 0 || dy == room.height as usize - 1;
                let left_or_right = dx == 0 || dx == room.width as usize - 1;
                c = if top_or_bottom && left_or_right {
                    '+'
                } else if top_or_bottom {
                    '-'
                } else if left_or_right {
                    '|'
                } else {
                    '.'
                };
            }
            if i == 0 && gx == base_x + (room.width / 2) as usize && gy == base_y + (room.height / 2) as usize {
                c = 'E';
            }
            let ghost c_before_doors = c;
            let mut j: usize = 0;
            while j < room.exits.len()
                invariant
                    rooms == rooms_view(dungeon@),
                    rooms_exportable(rooms),
                    i < dungeon.len(),
                    rooms[i as int] == room@,
                    base_x == room.x - min_x,
                    base_y == room.y - min_y,
                    j <= room.exits.len(),
                    c == grid_doors(c_before_doors, room@, room@.exits.take(j as int), base_x as int, base_y as int, gx as int, gy as int),
                decreases room.exits.len() - j,
            {
                let exit = room.exits[j];
                proof {
                    assert(room@.exits.take(j + 1).drop_last() =~= room@.exits.take(j as int));
                    assert(room@.exits.take(j + 1).last() == exit);
                    assert(rooms[i as int].exits[j as int] == exit);
                }
                let (ex, ey) = match exit.wall {
                    Wall::North => (base_x + exit.position as usize, base_y),
                    Wall::South => (base_x + exit.position as usize, base_y + room.height as usize - 1),
                    Wall::West => (base_x, base_y + exit.position as usize),
                    Wall::East => (base_x + room.width as usize - 1, base_y + exit.position as usize),
                };
                if ex == gx && ey == gy {
                    c = '▢';
                }
                j = j + 1;
            }
            proof {
                assert(room@.exits.take(j as int) =~= room@.exits);
            }
            i = i + 1;
        }
        proof {
            assert(rooms.take(i as int) =~= rooms);
        }
        c
    }

    /// The ASCII map of a non-empty dungeon: one row per cell from the
    /// smallest y to the largest bottom edge, one column per cell from the
    /// smallest x to the largest right edge (see `grid_cell`).
    pub fn map_grid(&self, dungeon: &[Room]) -> (rows: Vec<Vec<char>>)
        requires
            dungeon@.len() > 0,
            rooms_exportable(rooms_view(dungeon@)),
            spec_bounds(rooms_view(dungeon@)).2 - spec_bounds(rooms_view(dungeon@)).0 < u32::MAX,
            spec_bounds(rooms_view(dungeon@)).3 - spec_bounds(rooms_view(dungeon@)).1 < u32::MAX,
        ensures
            ({
                let (min_x, min_y, max_x, max_y) = spec_bounds(rooms_view(dungeon@));
                &&& rows@.len() == max_y - min_y + 1
                &&& forall|y: int| 0 <= y < rows@.len() ==> (#[trigger] rows@[y])@.len() == max_x - min_x + 1
                &&& forall|y: int, x: int|
                    0 <= y < rows@.len() && 0 <= x < max_x - min_x + 1 ==> #[trigger] rows@[y]@[x] == grid_cell(
                        rooms_view(dungeon@),
                        min_x as int,
                        min_y as int,
                        x,
                        y,
                    )
            }),
    {
        let ghost rooms = rooms_view(dungeon@);
        let (min_x, min_y, max_x, max_y) = self.calculate_bounds(dungeon);
        proof {
            lemma_bounds(rooms);
            assert forall|i: int| 0 <= i < dungeon@.len() implies min_x <= (#[trigger] dungeon@[i]).x && min_y <= dungeon@[i].y by {
                assert(rooms[i] == dungeon@[i]@);
            }
        }
        let width = (max_x - min_x + 1) as usize;
        let height = (max_y - min_y + 1) as usize;
        let mut rows: Vec<Vec<char>> = Vec::new();
        let mut y: usize = 0;
        while y < height
            invariant
                rooms == rooms_view(dungeon@),
                rooms_exportable(rooms),
                forall|i: int| 0 <= i < dungeon@.len() ==> min_x <= (#[trigger] dungeon@[i]).x && min_y <= dungeon@[i].y,
                y <= height,
                rows@.len() == y,
                forall|r: int| 0 <= r < y ==> (#[trigger] rows@[r])@.len() == width,
                forall|r: int, x: int| 0 <= r < y && 0 <= x < width ==> #[trigger] rows@[r]@[x] == grid_cell(rooms, min_x as int, min_y as int, x, r),
            decreases height - y,
        {
            let mut row: Vec<char> = Vec::new();
            let mut x: usize = 0;
            while x < width
                invariant
                    rooms == rooms_view(dungeon@),
                    rooms_exportable(rooms),
                    forall|i: int| 0 <= i < dungeon@.len() ==> min_x <= (#[trigger] dungeon@[i]).x && min_y <= dungeon@[i].y,
                    x <= width,
                    row@.len() == x,
                    forall|k: int| 0 <= k < x ==> #[trigger] row@[k] == grid_cell(rooms, min_x as int, min_y as int, k, y as int),
                decreases width - x,
            {
                let c = self.map_cell(dungeon, min_x, min_y, x, y);
                row.push(c);
                x = x + 1;
            }
            rows.push(row);
            y = y + 1;
        }
        rows
    }

    /// The name of the map file for a time stamp: `<stamp>.txt`.
    pub fn file_name(&self, stamp: &str) -> (f: String)
        ensures
            f@ == spec_file_name(stamp@),
    {
        let mut f = String::from_str(stamp);
        f.append(".txt");
        f
    }

    /// The text of the map file of a non-empty dungeon for a time stamp
    /// (see `spec_document`).
    pub fn document(&self, dungeon: &[Room], stamp: &str) -> (d: String)
        requires
            dungeon@.len() > 0,
            rooms_exportable(rooms_view(dungeon@)),
            spec_bounds(rooms_view(dungeon@)).2 - spec_bounds(rooms_view(dungeon@)).0 < u32::MAX,
            spec_bounds(rooms_view(dungeon@)).3 - spec_bounds(rooms_view(dungeon@)).1 < u32::MAX,
        ensures
            d@ == spec_document(self.spec_seed(), stamp@, rooms_view(dungeon@)),
    {
        let ghost rooms = rooms_view(dungeon@);
        let mut d = String::new();
        d.append("# Dungeon Saver — Generated Map\n");
        d.append("# Seed: ");
        append_decimal(&mut d, self.seed);
        d.append("\n");
        d.append("# Timestamp: ");
        d.append(stamp);
        d.append("\n");
        d.append("# Room Count: ");
        append_decimal(&mut d, dungeon.len() as u64);
        d.append("\n");
        d.append("\n");
        let (min_x, min_y, max_x, max_y) = self.calculate_bounds(dungeon);
        let grid = self.map_grid(dungeon);
        d.append("# Dimensions: ");
        append_decimal(&mut d, (max_x - min_x + 1) as u64);
        d.append("x");
        append_decimal(&mut d, (max_y - min_y + 1) as u64);
        d.append("\n");
        d.append("\n");
        let ghost header = d@;
        let ghost rows = map_rows(rooms);
        let mut y: usize = 0;
        while y < grid.len()
            invariant
                rows == map_rows(rooms),
                grid@.len() == rows.len(),
                forall|r: int| 0 <= r < grid@.len() ==> (#[trigger] grid@[r])@ == rows[r],
                y <= grid@.len(),
                d@ == header + lines_text(rows.take(y as int)),
            decreases grid.len() - y,
        {
            let row = &grid[y];
            let mut x: usize = 0;
            let ghost before = d@;
            while x < row.len()
                invariant
                    x <= row@.len(),
                    d@ == before + row@.take(x as int),
                decreases row.len() - x,
            {
                push_char(&mut d, row[x]);
                x = x + 1;
                proof {
                    assert(row@.take(x as int) =~= row@.take(x - 1).push(row@[x - 1]));
                }
            }
            push_char(&mut d, '\n');
            proof {
                assert(row@.take(x as int) =~= row@);
                assert(rows.take(y + 1).drop_last() =~= rows.take(y as int));
                assert(rows.take(y + 1).last() == rows[y as int]);
                assert(d@ =~= header + lines_text(rows.take(y + 1)));
            }
            y = y + 1;
        }
        proof {
            assert(rows.take(y as int) =~= rows);
        }
        d.append("\n");
        d.append("# Room Details:\n");
        let ghost before_details = d@;
        let mut i: usize = 0;
        while i < dungeon.len()
            invariant
                rooms == rooms_view(dungeon@),
                i <= dungeon.len(),
                d@ == before_details + room_details(rooms.take(i as int)),
            decreases dungeon.len() - i,
        {
            let room = &dungeon[i];
            let ghost mark = d@;
            append_room_detail(&mut d, i, room);
            proof {
                assert(rooms[i as int] == room@);
                assert(rooms.take(i + 1).drop_last() =~= rooms.take(i as int));
                assert(rooms.take(i + 1).last() == room@);
            }
            i = i + 1;
        }
        proof {
            assert(rooms.take(i as int) =~= rooms);
            assert(d@ =~= spec_document(self.seed, stamp@, rooms));
        }
        d
    }

    /// The name and the text of the map file of a non-empty dungeon, stamped
    /// with the local time: the name with the minute, the header with the second.
    pub fn prepare_export(&self, dungeon: &[Room]) -> (r: (String, String))
        requires
            dungeon@.len() > 0,
            rooms_exportable(rooms_view(dungeon@)),
            spec_bounds(rooms_view(dungeon@)).2 - spec_bounds(rooms_view(dungeon@)).0 < u32::MAX,
            spec_bounds(rooms_view(dungeon@)).3 - spec_bounds(rooms_view(dungeon@)).1 < u32::MAX,
        ensures
            exists|name_stamp: Seq<char>, header_stamp: Seq<char>|
                file_stamp_shape(name_stamp) && header_stamp_shape(header_stamp) && r.0@ == spec_file_name(name_stamp)
                    && r.1@ == spec_document(
                    self.spec_seed(),
                    header_stamp,
                    rooms_view(dungeon@),
                ),
    {
        let name_stamp = local_time_text("%Y-%m-%d_%H%M");
        let name = self.file_name(name_stamp.as_str());
        let header_stamp = local_time_text("%Y-%m-%d %H:%M:%S");
        let text = self.document(dungeon, header_stamp.as_str());
        (name, text)
    }
}

} // verus!
