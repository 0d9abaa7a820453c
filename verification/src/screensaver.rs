//! The screensaver's decisions: each tick the explorer acts, and stepping on
//! an unexplored exit generates the room behind it. Also the command line and
//! the quit keys.
use crate::dungeon::generator::{
    dungeon_valid, is_rolled_room, lemma_free_exit_index_bounds, lemma_room_index_bounds,
    lemma_room_index_by_id, spec_add_room, spec_connect, spec_entrance_room, spec_free_exit_index, spec_mark_connected,
    spec_room_index, valid_entrance, valid_room, wall_length, DungeonGenerator, MAX_ROOMS,
};
use crate::dungeon::room::{rooms_view, Exit, Room, RoomView, Wall};
use crate::explorer::behavior::{
    at_most_one_step, dungeon_searchable, exit_target_ok, explorer_on_tiles, path_follows, spec_exit_position, spec_update,
    spec_update_dice, Explorer,
    ExplorerView,
};
use crate::explorer::pathfinder::{
    corridor_tile, dungeon_walkable, in_room, in_search_area, is_shortest_walk, is_walk,
    path_result, room_fits_u32, room_walkable, astar_result, tile_budget, Pathfinder, SEARCH_LIMIT, TILE_LIMIT,
};
use crate::renderer::camera::spec_saturating_sub;
use crate::renderer::simple_room::{has_exit_on, placements_fit, MultiRoomRenderer, SimpleRoom};
use crate::rng::{roll_range, seeded, RngView, SeededRng};
use vstd::prelude::*;

verus! {

/// Frames per second of the animation.
pub const TARGET_FPS: u64 = 10;

/// Milliseconds per frame.
pub const FRAME_DURATION_MS: u64 = 100;

// ----------------------------------------------------------------------
// Exits the explorer steps on.
// ----------------------------------------------------------------------
/// The wall of the first exit among `exits` of room `r` that lies at `(x, y)`
/// and leads nowhere yet.
pub open spec fn exit_hit(r: RoomView, exits: Seq<Exit>, x: u32, y: u32) -> Option<Wall>
    decreases exits.len(),
{
    if exits.len() == 0 {
        None
    } else {
        match exit_hit(r, exits.drop_last(), x, y) {
            Some(w) => Some(w),
            None => {
                let e = exits.last();
                if spec_exit_position(r, e) == (x, y) && e.connected_room_id is None {
                    Some(e.wall)
                } else {
                    None
                }
            },
        }
    }
}

/// The room id and wall of the first unexplored exit at `(x, y)`, room by room.
pub open spec fn spec_detect_unexplored_exit(dungeon: Seq<RoomView>, x: u32, y: u32) -> Option<(usize, Wall)>
    decreases dungeon.len(),
{
    if dungeon.len() == 0 {
        None
    } else {
        match spec_detect_unexplored_exit(dungeon.drop_last(), x, y) {
            Some(found) => Some(found),
            None => match exit_hit(dungeon.last(), dungeon.last().exits, x, y) {
                Some(w) => Some((dungeon.last().id, w)),
                None => None,
            },
        }
    }
}

/// The position of every exit can be computed without overflow.
pub open spec fn exit_positions_defined(dungeon: Seq<RoomView>) -> bool {
    forall|i: int, j: int|
        0 <= i < dungeon.len() && 0 <= j < dungeon[i].exits.len() ==> {
            let r = dungeon[i];
            let e = #[trigger] dungeon[i].exits[j];
            &&& r.x + e.position <= u32::MAX
            &&& r.y + e.position <= u32::MAX
            &&& r.x + r.width <= u32::MAX
            &&& r.y + r.height <= u32::MAX
            &&& (e.wall == Wall::South ==> r.y + r.height >= 1)
            &&& (e.wall == Wall::East ==> r.x + r.width >= 1)
        }
}

/// The room and wall of the first unexplored exit the explorer at `(x, y)`
/// stands on, if any.
pub fn detect_unexplored_exit(explorer_x: u32, explorer_y: u32, dungeon: &[Room]) -> (r: Option<(usize, Wall)>)
    requires
        exit_positions_defined(rooms_view(dungeon@)),
    ensures
        r == spec_detect_unexplored_exit(rooms_view(dungeon@), explorer_x, explorer_y),
{
    let ghost rooms = rooms_view(dungeon@);
    let mut i: usize = 0;
    while i < dungeon.len()
        invariant
            rooms == rooms_view(dungeon@),
            exit_positions_defined(rooms),
            i <= dungeon.len(),
            spec_detect_unexplored_exit(rooms.take(i as int), explorer_x, explorer_y) is None,
        decreases dungeon.len() - i,
    {
        let room = &dungeon[i];
        let ghost r = room@;
        proof {
            assert(rooms[i as int] == r);
            assert(rooms.take(i + 1).drop_last() =~= rooms.take(i as int));
            assert(rooms.take(i + 1).last() == r);
        }
        let mut j: usize = 0;
        while j < room.exits.len()
            invariant
                rooms == rooms_view(dungeon@),
                exit_positions_defined(rooms),
                i < dungeon.len(),
                r == room@,
                r == rooms[i as int],
                j <= room.exits.len(),
                spec_detect_unexplored_exit(rooms.take(i as int), explorer_x, explorer_y) is None,
                exit_hit(r, r.exits.take(j as int), explorer_x, explorer_y) is None,
            decreases room.exits.len() - j,
        {
            let exit = room.exits[j];
            proof {
                assert(r.exits.take(j + 1).drop_last() =~= r.exits.take(j as int));
                assert(r.exits.take(j + 1).last() == exit);
                assert(rooms[i as int].exits[j as int] == exit);
            }
            let exit_pos = match exit.wall {
                Wall::North => (room.x + exit.position, room.y),
                Wall::South => (room.x + exit.position, room.y + room.height - 1),
                Wall::East => (room.x + room.width - 1, room.y + exit.position),
                Wall::West => (room.x, room.y + exit.position),
            };
            assert(exit_pos == spec_exit_position(r, exit));
            let on_exit = explorer_x == exit_pos.0 && explorer_y == exit_pos.1;
            if on_exit && exit.connected_room_id.is_none() {
                proof {
                    assert(exit_hit(r, r.exits.take(j + 1), explorer_x, explorer_y) == Some(exit.wall));
                    lemma_exit_hit_prefix(r, r.exits, j + 1, explorer_x, explorer_y);
                    assert(rooms.take(i + 1).drop_last() =~= rooms.take(i as int));
                    assert(rooms.take(i + 1).last() == r);
                    assert(spec_detect_unexplored_exit(rooms.take(i + 1), explorer_x, explorer_y) == Some((room.id, exit.wall)));
                    lemma_detect_prefix(rooms, i + 1, explorer_x, explorer_y);
                }
                return Some((room.id, exit.wall));
            }
            j = j + 1;
        }
        proof {
            assert(r.exits.take(j as int) =~= r.exits);
        }
        i = i + 1;
    }
    proof {
        assert(rooms.take(i as int) =~= rooms);
    }
    None
}

proof fn lemma_exit_hit_prefix(r: RoomView, exits: Seq<Exit>, n: int, x: u32, y: u32)
    requires
        0 <= n <= exits.len(),
        exit_hit(r, exits.take(n), x, y) is Some,
    ensures
        exit_hit(r, exits, x, y) == exit_hit(r, exits.take(n), x, y),
    decreases exits.len() - n,
{
    if n < exits.len() {
        assert(exits.take(n + 1).drop_last() =~= exits.take(n));
        lemma_exit_hit_prefix(r, exits, n + 1, x, y);
    } else {
        assert(exits.take(n) =~= exits);
    }
}

proof fn lemma_detect_prefix(rooms: Seq<RoomView>, n: int, x: u32, y: u32)
    requires
        0 <= n <= rooms.len(),
        spec_detect_unexplored_exit(rooms.take(n), x, y) is Some,
    ensures
        spec_detect_unexplored_exit(rooms, x, y) == spec_detect_unexplored_exit(rooms.take(n), x, y),
    decreases rooms.len() - n,
{
    if n < rooms.len() {
        assert(rooms.take(n + 1).drop_last() =~= rooms.take(n));
        lemma_detect_prefix(rooms, n + 1, x, y);
    } else {
        assert(rooms.take(n) =~= rooms);
    }
}

// ----------------------------------------------------------------------
// The command line.
// ----------------------------------------------------------------------
/// The flag that precedes a seed.
pub open spec fn seed_flag() -> Seq<char> {
    seq!['-', '-', 's', 'e', 'e', 'd']
}

/// The value of a decimal digit.
pub open spec fn digit_value(c: char) -> int {
    c as int - '0' as int
}

pub open spec fn is_digit(c: char) -> bool {
    '0' <= c <= '9'
}

/// The number written by the digits `d`.
pub open spec fn decimal_value(d: Seq<char>) -> int
    decreases d.len(),
{
    if d.len() == 0 {
        0
    } else {
        decimal_value(d.drop_last()) * 10 + digit_value(d.last())
    }
}

/// What `str::parse::<u64>` gives: an optional `+` followed by at least one
/// decimal digit, with a value that fits in `u64`; anything else is an error.
pub open spec fn spec_parse_u64(s: Seq<char>) -> Option<u64> {
    let d = digits_part(s);
    if d.len() > 0 && all_digits(d) && decimal_value(d) <= u64::MAX {
        Some(decimal_value(d) as u64)
    } else {
        None
    }
}

/// The text after an optional leading `+`.
pub open spec fn digits_part(s: Seq<char>) -> Seq<char> {
    if s.len() > 0 && s[0] == '+' {
        s.drop_first()
    } else {
        s
    }
}

/// Every character is a decimal digit.
pub open spec fn all_digits(d: Seq<char>) -> bool {
    forall|k: int| 0 <= k < d.len() ==> is_digit(#[trigger] d[k])
}

/// The seed given by the first `--seed` whose next argument is a number, or
/// `fallback`.
pub open spec fn spec_parse_seed(args: Seq<Seq<char>>, fallback: u64) -> u64
    decreases args.len(),
{
    if args.len() == 0 {
        fallback
    } else if args[0] == seed_flag() && args.len() > 1 && spec_parse_u64(args[1]) is Some {
        spec_parse_u64(args[1]).unwrap()
    } else {
        spec_parse_seed(args.drop_first(), fallback)
    }
}

proof fn lemma_decimal_value_nonneg(d: Seq<char>)
    requires
        forall|k: int| 0 <= k < d.len() ==> is_digit(#[trigger] d[k]),
    ensures
        decimal_value(d) >= 0,
    decreases d.len(),
{
    if d.len() > 0 {
        let p = d.drop_last();
        assert forall|k: int| 0 <= k < p.len() implies is_digit(#[trigger] p[k]) by {
            assert(p[k] == d[k]);
        }
        lemma_decimal_value_nonneg(p);
        assert(is_digit(d[d.len() - 1]));
    }
}

/// Parses a decimal `u64` the way `str::parse::<u64>` does.
pub fn parse_u64(s: &str) -> (r: Option<u64>)
    ensures
        r == spec_parse_u64(s@),
{
    let len = s.unicode_len();
    let mut start: usize = 0;
    if len > 0 && s.get_char(0) == '+' {
        start = 1;
    }
    let ghost d = digits_part(s@);
    proof {
        assert(d =~= s@.subrange(start as int, len as int));
    }
    if start >= len {
        return None;
    }
    let mut value: u64 = 0;
    let mut i: usize = start;
    while i < len
        invariant
            len == s@.len(),
            start <= i <= len,
            d =~= s@.subrange(start as int, len as int),
            d == digits_part(s@),
            forall|k: int| 0 <= k < i - start ==> is_digit(#[trigger] d[k]),
            value == decimal_value(d.take(i - start)),
        decreases len - i,
    {
        let c = s.get_char(i);
        let ghost pre = d.take(i - start);
        proof {
            assert(d[i - start] == c);
            assert(d.take(i - start + 1).drop_last() =~= pre);
            assert(d.take(i - start + 1).last() == c);
        }
        if !('0' <= c && c <= '9') {
            proof {
                assert(!is_digit(d[i - start]));
                assert(!all_digits(d));
                assert(spec_parse_u64(s@) is None);
            }
            return None;
        }
        let digit = (c as u32 - '0' as u32) as u64;
        if value > (u64::MAX - digit) / 10 {
            proof {
                assert forall|k: int| 0 <= k < i - start + 1 implies is_digit(#[trigger] d[k]) by {}
                assert(decimal_value(d.take(i - start + 1)) == value * 10 + digit);
                assert(value * 10 + digit > u64::MAX) by (nonlinear_arith)
                    requires
                        value > (u64::MAX - digit) / 10,
                        0 <= digit <= 9,
                ;
                lemma_decimal_suffix_grows(d, i - start + 1);
                if all_digits(d) {
                    assert(decimal_value(d) > u64::MAX);
                }
                assert(spec_parse_u64(s@) is None);
            }
            return None;
        }
        assert(value * 10 + digit <= u64::MAX) by (nonlinear_arith)
            requires
                value <= (u64::MAX - digit) / 10,
                0 <= digit <= 9,
        ;
        value = value * 10 + digit;
        i = i + 1;
    }
    proof {
        assert(d.take(i - start) =~= d);
    }
    Some(value)
}

/// Appending digits never makes a number smaller.
proof fn lemma_decimal_suffix_grows(d: Seq<char>, n: int)
    requires
        0 <= n <= d.len(),
        forall|k: int| 0 <= k < n ==> is_digit(#[trigger] d[k]),
    ensures
        (forall|k: int| 0 <= k < d.len() ==> is_digit(#[trigger] d[k])) ==> decimal_value(d) >= decimal_value(d.take(n)),
    decreases d.len() - n,
{
    if n < d.len() && (forall|k: int| 0 <= k < d.len() ==> is_digit(#[trigger] d[k])) {
        lemma_decimal_suffix_grows(d, n + 1);
        assert(d.take(n + 1).drop_last() =~= d.take(n));
        let p = d.take(n);
        assert forall|k: int| 0 <= k < p.len() implies is_digit(#[trigger] p[k]) by {}
        lemma_decimal_value_nonneg(p);
        assert(is_digit(d.take(n + 1).last()));
        assert(decimal_value(d.take(n + 1)) >= decimal_value(p)) by (nonlinear_arith)
            requires
                decimal_value(d.take(n + 1)) == decimal_value(p) * 10 + digit_value(d.take(n + 1).last()),
                decimal_value(p) >= 0,
                digit_value(d.take(n + 1).last()) >= 0,
        ;
    } else if n == d.len() {
        assert(d.take(n) =~= d);
    }
}

/// Whether `s` is exactly `--seed`.
fn is_seed_flag(s: &str) -> (b: bool)
    ensures
        b == (s@ == seed_flag()),
{
    let len = s.unicode_len();
    if len != 6 {
        return false;
    }
    let b = s.get_char(0) == '-' && s.get_char(1) == '-' && s.get_char(2) == 's' && s.get_char(3) == 'e'
        && s.get_char(4) == 'e' && s.get_char(5) == 'd';
    proof {
        if b {
            assert(s@ =~= seed_flag());
        }
    }
    b
}

/// The seed given on the command line as `--seed N`, or `fallback`.
pub fn parse_seed(args: &[String], fallback: u64) -> (seed: u64)
    ensures
        seed == spec_parse_seed(args@.map_values(|a: String| a@), fallback),
{
    let ghost all = args@.map_values(|a: String| a@);
    proof {
        assert(all.skip(0) =~= all);
    }
    let mut i: usize = 0;
    while i < args.len()
        invariant
            all == args@.map_values(|a: String| a@),
            i <= args.len(),
            spec_parse_seed(all, fallback) == spec_parse_seed(all.skip(i as int), fallback),
        decreases args.len() - i,
    {
        let ghost rest = all.skip(i as int);
        proof {
            assert(rest[0] == args@[i as int]@);
            assert(rest.drop_first() =~= all.skip(i + 1));
            if i + 1 < args.len() {
                assert(rest[1] == args@[i + 1]@);
            }
        }
        if is_seed_flag(args[i].as_str()) && i + 1 < args.len() {
            if let Some(seed) = parse_u64(args[i + 1].as_str()) {
                return seed;
            }
        }
        i = i + 1;
    }
    proof {
        assert(all.skip(i as int) =~= Seq::<Seq<char>>::empty());
    }
    fallback
}

// ----------------------------------------------------------------------
// Quit keys.
// ----------------------------------------------------------------------
/// The key of a key press, as far as quitting goes.
#[derive(Debug, Clone, Copy, PartialEq, Eq, Structural)]
pub enum KeyCode {
    Char(char),
    Other,
}

/// A key press: the key and whether Control was held.
#[derive(Debug, Clone, Copy, PartialEq, Eq, Structural)]
pub struct KeyPress {
    pub code: KeyCode,
    pub control: bool,
}

/// `q`, `Q` and Control-C quit.
pub open spec fn spec_should_quit(key: KeyPress) -> bool {
    match key.code {
        KeyCode::Char(c) => c == 'q' || c == 'Q' || (c == 'c' && key.control),
        KeyCode::Other => false,
    }
}

/// Whether the key press quits the screensaver.
pub fn should_quit(key: &KeyPress) -> (b: bool)
    ensures
        b == spec_should_quit(*key),
{
    match key.code {
        KeyCode::Char(c) => if c == 'q' || c == 'Q' {
            true
        } else if c == 'c' && key.control {
            true
        } else {
            false
        },
        KeyCode::Other => false,
    }
}


// ----------------------------------------------------------------------
// Drawing the dungeon.
// ----------------------------------------------------------------------
/// Placed room `p` draws dungeon room `r`.
pub open spec fn draws_room(p: (SimpleRoom, usize, usize), r: RoomView) -> bool {
    &&& p.1 == r.x as usize
    &&& p.2 == r.y as usize
    &&& p.0.has_layout(
        spec_saturating_sub(r.width, 2) as usize,
        spec_saturating_sub(r.height, 2) as usize,
        has_exit_on(r.exits, Wall::North),
        has_exit_on(r.exits, Wall::South),
        has_exit_on(r.exits, Wall::East),
        has_exit_on(r.exits, Wall::West),
    )
}

/// The drawing of a dungeon: every room at its position, and the explorer.
pub fn dungeon_renderer(dungeon: &[Room], explorer_pos: (u32, u32)) -> (r: MultiRoomRenderer)
    ensures
        r.spec_placed().len() == dungeon@.len(),
        forall|k: int| 0 <= k < dungeon@.len() ==> draws_room(#[trigger] r.spec_placed()[k], dungeon@[k]@),
        r.spec_explorer() == Some((explorer_pos.0 as usize, explorer_pos.1 as usize)),
{
    let mut renderer = MultiRoomRenderer::new();
    let mut i: usize = 0;
    while i < dungeon.len()
        invariant
            i <= dungeon.len(),
            renderer.spec_placed().len() == i,
            forall|k: int| 0 <= k < i ==> draws_room(#[trigger] renderer.spec_placed()[k], dungeon@[k]@),
        decreases dungeon.len() - i,
    {
        let room = &dungeon[i];
        let simple_room = SimpleRoom::from_dungeon_room(room);
        renderer.add_room(simple_room, room.x as usize, room.y as usize);
        i = i + 1;
    }
    renderer.set_explorer_pos(explorer_pos.0 as usize, explorer_pos.1 as usize);
    renderer
}

/// A dungeon whose rooms lie within `0x1000` cells of the origin can be drawn.
pub proof fn lemma_drawable(r: MultiRoomRenderer, dungeon: Seq<RoomView>)
    requires
        r.spec_placed().len() == dungeon.len(),
        forall|k: int| 0 <= k < dungeon.len() ==> draws_room(#[trigger] r.spec_placed()[k], dungeon[k]),
        forall|k: int| 0 <= k < dungeon.len() ==> (#[trigger] dungeon[k]).x + dungeon[k].width <= 0x1000 && dungeon[k].y + dungeon[k].height <= 0x1000,
    ensures
        placements_fit(r.spec_placed()),
{
    assert forall|k: int| 0 <= k < r.spec_placed().len() implies {
        &&& (#[trigger] r.spec_placed()[k]).0.fits()
        &&& r.spec_placed()[k].1 + r.spec_placed()[k].0.spec_width() <= usize::MAX
        &&& r.spec_placed()[k].2 + r.spec_placed()[k].0.spec_height() <= usize::MAX
    } by {
        assert(draws_room(r.spec_placed()[k], dungeon[k]));
    }
}

// ----------------------------------------------------------------------
// The screensaver's state and one tick of it.
// ----------------------------------------------------------------------
/// The dungeon after the explorer ends a tick at `(x, y)` in dungeon `d0`:
/// when it stands on an unexplored exit and the dungeon is not full, a room
/// is rolled behind that exit and the exit leads to it; otherwise nothing changes.
pub open spec fn spec_tick_dungeon(d0: Seq<RoomView>, d1: Seq<RoomView>, x: u32, y: u32) -> bool {
    let hit = spec_detect_unexplored_exit(d0, x, y);
    if hit is Some && d0.len() < MAX_ROOMS {
        let (pid, wall) = hit->0;
        exists|r: RoomView|
            #[trigger] is_rolled_room(r, d0, d0.len() as usize, pid, wall) && d1 == spec_mark_connected(
                d0,
                pid,
                wall,
                d0.len() as usize,
            ).push(r)
    } else {
        d1 == d0
    }
}

/// The dungeon and the generator's dice after a tick in which the explorer
/// ends at `(x, y)`: stepping on an unexplored exit asks the generator for the
/// room behind it (see `spec_add_room`); otherwise nothing changes.
pub open spec fn spec_tick_generation(d0: Seq<RoomView>, g0: RngView, x: u32, y: u32) -> (Seq<RoomView>, RngView) {
    match spec_detect_unexplored_exit(d0, x, y) {
        Some((pid, wall)) => {
            let (_r, rooms, g1) = spec_add_room(d0, g0, pid, wall);
            (rooms, g1)
        },
        None => (d0, g0),
    }
}

/// Rooms of at most 11 x 11 squares with at most 3 exits make at most 124
/// tiles each walkable.
proof fn lemma_small_rooms_budget(rooms: Seq<RoomView>)
    requires
        forall|i: int|
            0 <= i < rooms.len() ==> (#[trigger] rooms[i]).width <= 11 && rooms[i].height <= 11
                && rooms[i].exits.len() <= 3,
    ensures
        tile_budget(rooms) <= 124 * rooms.len(),
    decreases rooms.len(),
{
    if rooms.len() > 0 {
        let d = rooms.drop_last();
        assert forall|i: int| 0 <= i < d.len() implies (#[trigger] d[i]).width <= 11 && d[i].height <= 11
            && d[i].exits.len() <= 3 by {
            assert(d[i] == rooms[i]);
        }
        lemma_small_rooms_budget(d);
        let r = rooms.last();
        assert(r == rooms[rooms.len() - 1]);
        assert(r.height * r.width <= 121) by (nonlinear_arith)
            requires
                r.height <= 11,
                r.width <= 11,
        ;
    }
}

/// A generated dungeon makes fewer than `TILE_LIMIT` tiles walkable.
pub proof fn lemma_valid_dungeon_tiles(rooms: Seq<RoomView>)
    requires
        dungeon_valid(rooms),
    ensures
        tile_budget(rooms) < TILE_LIMIT,
{
    assert forall|i: int| 0 <= i < rooms.len() implies (#[trigger] rooms[i]).width <= 11 && rooms[i].height <= 11
        && rooms[i].exits.len() <= 3 by {
        if i > 0 || !valid_entrance(rooms[i]) {
            assert(valid_room(rooms[i]));
        }
    }
    lemma_small_rooms_budget(rooms);
}

/// A generated dungeon lies well within the search area and its positions
/// can all be computed.
pub proof fn lemma_valid_dungeon_searchable(rooms: Seq<RoomView>)
    requires
        dungeon_valid(rooms),
    ensures
        dungeon_searchable(rooms),
        exit_positions_defined(rooms),
        forall|k: int| 0 <= k < rooms.len() ==> room_fits_u32(#[trigger] rooms[k]),
        forall|t: (u32, u32)| #[trigger] dungeon_walkable(rooms).contains(t) ==> in_search_area(t),
{
    assert forall|i: int| 0 <= i < rooms.len() implies {
        &&& (#[trigger] rooms[i]).x + rooms[i].width <= 300
        &&& rooms[i].y + rooms[i].height <= 300
        &&& rooms[i].width >= 1
        &&& rooms[i].height >= 1
        &&& forall|j: int| 0 <= j < rooms[i].exits.len() ==> (#[trigger] rooms[i].exits[j]).position < 12
    } by {
        assert(rooms[i].x <= 10 + 14 * i);
        if i > 0 || !valid_entrance(rooms[i]) {
            assert(valid_room(rooms[i]));
        }
        assert forall|j: int| 0 <= j < rooms[i].exits.len() implies (#[trigger] rooms[i].exits[j]).position < 12 by {
            assert(rooms[i].exits[j].position < wall_length(rooms[i].width, rooms[i].height, rooms[i].exits[j].wall));
        }
    }
    assert forall|t: (u32, u32)| #[trigger] dungeon_walkable(rooms).contains(t) implies in_search_area(t) by {
        let k = choose|k: int| 0 <= k < rooms.len() && room_walkable(#[trigger] rooms[k], t);
        if !in_room(rooms[k], t) {
            let j = choose|j: int| 0 <= j < rooms[k].exits.len() && corridor_tile(rooms[k], #[trigger] rooms[k].exits[j]) == t;
            assert(rooms[k].exits[j].position < 12);
        }
    }
}

/// Linking an exit and adding a room only adds walkable tiles.
pub proof fn lemma_walkable_grows(rooms: Seq<RoomView>, pid: usize, wall: Wall, n: usize, r: RoomView)
    ensures
        dungeon_walkable(rooms).subset_of(dungeon_walkable(spec_mark_connected(rooms, pid, wall, n).push(r))),
{
    let mid = spec_mark_connected(rooms, pid, wall, n);
    let res = mid.push(r);
    let i = spec_room_index(rooms, pid);
    lemma_room_index_bounds(rooms, pid);
    if i >= 0 {
        lemma_free_exit_index_bounds(rooms[i].exits, wall);
    }
    assert forall|t: (u32, u32)| #[trigger] dungeon_walkable(rooms).contains(t) implies dungeon_walkable(res).contains(t) by {
        let k = choose|k: int| 0 <= k < rooms.len() && room_walkable(#[trigger] rooms[k], t);
        assert(res[k] == mid[k]);
        assert(mid[k].x == rooms[k].x && mid[k].y == rooms[k].y);
        assert(mid[k].width == rooms[k].width && mid[k].height == rooms[k].height);
        assert(mid[k].exits.len() == rooms[k].exits.len());
        if !in_room(rooms[k], t) {
            let j = choose|j: int| 0 <= j < rooms[k].exits.len() && corridor_tile(rooms[k], #[trigger] rooms[k].exits[j]) == t;
            assert(mid[k].exits[j].wall == rooms[k].exits[j].wall);
            assert(mid[k].exits[j].position == rooms[k].exits[j].position);
            assert(corridor_tile(res[k], res[k].exits[j]) == t);
        }
        assert(room_walkable(res[k], t));
    }
}

/// The screensaver: the generator, the dungeon on screen, the explorer and
/// what it walks on, and the dice of its behavior.
pub struct Session {
    generator: DungeonGenerator,
    dungeon: Vec<Room>,
    pathfinder: Pathfinder,
    rng: SeededRng,
    explorer: Explorer,
}

impl Session {
    pub closed spec fn spec_dungeon(&self) -> Seq<RoomView> {
        rooms_view(self.dungeon@)
    }

    pub closed spec fn spec_explorer(&self) -> ExplorerView {
        self.explorer@
    }

    /// The generator's dice: the seed and the rolls made for rooms so far.
    pub closed spec fn spec_room_dice(&self) -> RngView {
        self.generator.spec_rng()
    }

    /// The explorer's dice: the seed and the rolls made for pauses and
    /// wandering so far.
    pub closed spec fn spec_explorer_dice(&self) -> RngView {
        self.rng@
    }

    /// The session's invariant: the dungeon on screen is the generator's, it
    /// starts with the entrance, the explorer walks on its walkable tiles
    /// (which are few enough to search) along its path.
    pub closed spec fn wf(&self) -> bool {
        &&& self.generator.wf()
        &&& self.spec_dungeon() == self.generator.spec_rooms()
        &&& self.spec_dungeon().len() >= 1
        &&& valid_entrance(self.spec_dungeon()[0])
        &&& self.pathfinder@ == dungeon_walkable(self.spec_dungeon())
        &&& self.pathfinder.finitely_many()
        &&& self.pathfinder.tile_count() <= tile_budget(self.spec_dungeon())
        &&& explorer_on_tiles(self.explorer@, self.pathfinder@)
        &&& path_follows(self.explorer@)
    }

    /// What the invariant promises: a valid dungeon that starts with the
    /// entrance, and an explorer standing on a walkable tile of it, on its
    /// path, which runs over walkable tiles one step at a time.
    pub proof fn lemma_wf(&self)
        requires
            self.wf(),
        ensures
            dungeon_valid(self.spec_dungeon()),
            self.spec_dungeon().len() >= 1,
            valid_entrance(self.spec_dungeon()[0]),
            explorer_on_tiles(self.spec_explorer(), dungeon_walkable(self.spec_dungeon())),
            path_follows(self.spec_explorer()),
    {
        self.generator.lemma_wf();
    }

    /// Starts the screensaver: the entrance alone, the explorer at its center.
    pub fn new(seed: u64) -> (s: Self)
        ensures
            s.wf(),
            s.spec_dungeon().len() == 1,
            s.spec_explorer().x == s.spec_dungeon()[0].x + s.spec_dungeon()[0].width / 2,
            s.spec_explorer().y == s.spec_dungeon()[0].y + s.spec_dungeon()[0].height / 2,
            s.spec_explorer().state == crate::explorer::behavior::ExplorerState::Exploring,
            (s.spec_dungeon()[0], s.spec_room_dice()) == spec_entrance_room(seeded(seed), 0),
            s.spec_explorer_dice() == seeded(seed),
    {
        let mut generator = DungeonGenerator::new(seed);
        let entrance = generator.generate_entrance();
        let start_x = entrance.x + entrance.width / 2;
        let start_y = entrance.y + entrance.height / 2;
        let mut dungeon: Vec<Room> = Vec::new();
        dungeon.push(entrance);
        proof {
            generator.lemma_wf();
            assert(rooms_view(dungeon@) =~= generator.spec_rooms());
            lemma_valid_dungeon_searchable(rooms_view(dungeon@));
            assert(rooms_view(dungeon@)[0] == dungeon@[0]@);
        }
        let pathfinder = Pathfinder::new(&dungeon);
        let rng = SeededRng::new(seed);
        let explorer = Explorer::new(start_x, start_y);
        let s = Session { generator, dungeon, pathfinder, rng, explorer };
        proof {
            let rooms = s.spec_dungeon();
            assert(in_room(rooms[0], (start_x, start_y)));
            assert(room_walkable(rooms[0], (start_x, start_y)));
            assert(s.pathfinder@.contains((start_x, start_y)));
        }
        s
    }

    /// The rooms on screen.
    pub fn dungeon(&self) -> (d: &Vec<Room>)
        ensures
            rooms_view(d@) == self.spec_dungeon(),
    {
        &self.dungeon
    }

    /// The explorer.
    pub fn explorer(&self) -> (e: &Explorer)
        ensures
            e@ == self.spec_explorer(),
    {
        &self.explorer
    }

    /// The ASCII drawing of the dungeon with the explorer.
    pub fn render_text(&self) -> (s: String)
        requires
            self.wf(),
        ensures
            exists|r: MultiRoomRenderer|
                {
                    &&& r.spec_placed().len() == self.spec_dungeon().len()
                    &&& forall|k: int| 0 <= k < self.spec_dungeon().len() ==> draws_room(#[trigger] r.spec_placed()[k], self.spec_dungeon()[k])
                    &&& r.spec_explorer() == Some((self.spec_explorer().x as usize, self.spec_explorer().y as usize))
                    &&& s@ == r.spec_render()
                },
    {
        let pos = self.explorer.position();
        let renderer = dungeon_renderer(&self.dungeon, pos);
        proof {
            self.generator.lemma_wf();
            let d = self.spec_dungeon();
            assert forall|k: int| 0 <= k < d.len() implies (#[trigger] d[k]).x + d[k].width <= 0x1000 && d[k].y + d[k].height <= 0x1000 by {
                assert(d[k].x <= 10 + 14 * k);
                assert(d[k].y <= 10 + 14 * k);
                if k > 0 || !valid_entrance(d[k]) {
                    assert(valid_room(d[k]));
                }
            }
            assert forall|k: int| 0 <= k < d.len() implies draws_room(#[trigger] renderer.spec_placed()[k], d[k]) by {
                assert(d[k] == self.dungeon@[k]@);
            }
            lemma_drawable(renderer, d);
        }
        let s = renderer.render();
        s
    }

    /// One tick: the explorer acts; if it then stands on an unexplored exit,
    /// the room behind it is generated (unless the dungeon is full), the exit
    /// leads to it, and the walkable tiles are rebuilt.
    pub fn tick(&mut self)
        requires
            old(self).wf(),
        ensures
            final(self).wf(),
            exists|pause: u32, pick: int|
                10 <= pause <= 30 && 0 <= pick < old(self).spec_dungeon().len() && final(self).spec_explorer()
                    == spec_update(
                    old(self).spec_explorer(),
                    old(self).spec_dungeon(),
                    dungeon_walkable(old(self).spec_dungeon()),
                    pause,
                    pick,
                ),
            spec_tick_dungeon(
                old(self).spec_dungeon(),
                final(self).spec_dungeon(),
                final(self).spec_explorer().x,
                final(self).spec_explorer().y,
            ),
            final(self).spec_explorer() == spec_update(
                old(self).spec_explorer(),
                old(self).spec_dungeon(),
                dungeon_walkable(old(self).spec_dungeon()),
                roll_range(old(self).spec_explorer_dice(), 10, 31) as u32,
                roll_range(old(self).spec_explorer_dice(), 0, old(self).spec_dungeon().len() as usize) as int,
            ),
            at_most_one_step(old(self).spec_explorer(), final(self).spec_explorer()),
            final(self).spec_explorer_dice() == spec_update_dice(
                old(self).spec_explorer(),
                old(self).spec_dungeon(),
                old(self).spec_explorer_dice(),
            ),
            (final(self).spec_dungeon(), final(self).spec_room_dice()) == spec_tick_generation(
                old(self).spec_dungeon(),
                old(self).spec_room_dice(),
                final(self).spec_explorer().x,
                final(self).spec_explorer().y,
            ),
    {
        let ghost d0 = self.spec_dungeon();
        proof {
            self.generator.lemma_wf();
            lemma_valid_dungeon_searchable(d0);
            lemma_valid_dungeon_tiles(d0);
            assert forall|k: int| 0 <= k < self.explorer@.path.len() implies in_search_area(#[trigger] self.explorer@.path[k]) by {
                assert(self.pathfinder@.contains(self.explorer@.path[k]));
            }
        }
        self.explorer.update(&self.dungeon, &self.pathfinder, &mut self.rng);
        let (ex, ey) = self.explorer.position();
        let found = detect_unexplored_exit(ex, ey, &self.dungeon);
        if let Some((parent_room_id, exit_wall)) = found {
            let new_room = self.generator.add_room(parent_room_id, exit_wall);
            if new_room.id != usize::MAX {
                let ghost n = d0.len();
                proof {
                    lemma_room_index_bounds(d0, parent_room_id);
                }
                if let Some(pi) = crate::dungeon::generator::room_index_in(&self.dungeon, parent_room_id) {
                    proof {
                        assert(d0[pi as int] == self.dungeon@[pi as int]@);
                        lemma_free_exit_index_bounds(d0[pi as int].exits, exit_wall);
                    }
                    if let Some(idx) = DungeonGenerator::find_free_exit(&self.dungeon[pi].exits, exit_wall) {
                        let mut parent = self.dungeon[pi].copy();
                        let e = parent.exits[idx];
                        parent.exits.set(idx, Exit { connected_room_id: Some(new_room.id), ..e });
                        self.dungeon.set(pi, parent);
                        proof {
                            assert(self.spec_dungeon() =~= spec_connect(d0, pi as int, idx as int, n as usize));
                        }
                    }
                }
                proof {
                    assert(self.spec_dungeon() =~= spec_mark_connected(d0, parent_room_id, exit_wall, n as usize));
                }
                let ghost mid = self.spec_dungeon();
                let ghost r = new_room@;
                self.dungeon.push(new_room);
                proof {
                    assert(self.spec_dungeon() =~= mid.push(r));
                    self.generator.lemma_wf();
                    lemma_valid_dungeon_searchable(self.spec_dungeon());
                    lemma_walkable_grows(d0, parent_room_id, exit_wall, n as usize, r);
                    assert(self.spec_dungeon()[0].parent_id == d0[0].parent_id);
                    assert(self.spec_dungeon()[0].parent_id is None);
                    assert forall|k: int| 0 <= k < self.dungeon@.len() implies room_fits_u32(#[trigger] self.dungeon@[k]@) by {
                        assert(self.spec_dungeon()[k] == self.dungeon@[k]@);
                    }
                }
                self.pathfinder = Pathfinder::new(&self.dungeon);
                proof {
                    assert(is_rolled_room(r, d0, d0.len() as usize, parent_room_id, exit_wall));
                }
            }
        }
    }
}

} // verus!
