//! DungeonGenerator: the 2D6 rules for procedural room generation.
use super::room::{rooms_view, Exit, Room, RoomType, RoomView, Wall};
use crate::rng::{after_d6, roll_d6, seeded, RngView, SeededRng};
use vstd::prelude::*;

verus! {

/// Generation stops once the dungeon holds this many rooms.
pub const MAX_ROOMS: usize = 20;

/// Gap, in dungeon cells, between a room and the room generated from it.
pub const ROOM_SPACING: u32 = 3;

/// Where the entrance room is placed.
pub const ENTRANCE_X: u32 = 10;

pub const ENTRANCE_Y: u32 = 10;

// ----------------------------------------------------------------------
// The rules, as functions of the dice.
// ----------------------------------------------------------------------
/// The wall a room is entered through when it was reached through `w` of its parent.
pub open spec fn spec_opposite_wall(w: Wall) -> Wall {
    match w {
        Wall::North => Wall::South,
        Wall::South => Wall::North,
        Wall::East => Wall::West,
        Wall::West => Wall::East,
    }
}

/// The walls in clockwise order from the top.
pub open spec fn wall_at(i: int) -> Wall {
    if i == 0 {
        Wall::North
    } else if i == 1 {
        Wall::East
    } else if i == 2 {
        Wall::South
    } else {
        Wall::West
    }
}

/// Entrance dimensions from a D66 roll: clamped to 6-12 squares.
pub open spec fn spec_entrance_dimensions(w: u32, h: u32) -> (u32, u32) {
    if w * h < 6 {
        (3, 2)
    } else if w * h > 12 {
        (3, 4)
    } else {
        (w, h)
    }
}

/// Number of exits of a room from a D6 roll: 1 gives none, 2-3 one, 4-5 two, 6 three.
pub open spec fn spec_exit_count(roll: u32) -> u32 {
    if roll <= 1 {
        0
    } else if roll <= 3 {
        1
    } else if roll <= 5 {
        2
    } else {
        3
    }
}

/// Room dimensions from the first D66 roll `(a, b)` and the second `(c, d)`:
/// a double other than double 6 is expanded by the second roll.
pub open spec fn spec_expanded_dimensions(a: u32, b: u32, c: u32, d: u32) -> (u32, u32) {
    if a == b && a != 6 {
        ((a + c) as u32, (b + d) as u32)
    } else {
        (a, b)
    }
}

/// Room type from its dimensions and whether they came from a double.
pub open spec fn spec_room_type(w: u32, h: u32, is_double: bool) -> RoomType {
    if w == 1 || h == 1 {
        RoomType::Corridor
    } else if w * h <= 6 {
        RoomType::Small
    } else if is_double && w * h >= 32 {
        RoomType::Large
    } else {
        RoomType::Normal
    }
}

/// Room type by area alone; equal to `spec_room_type` on every pair of rolls.
pub open spec fn spec_area_type(w: u32, h: u32) -> RoomType {
    if w == 1 || h == 1 {
        RoomType::Corridor
    } else if w * h <= 6 {
        RoomType::Small
    } else if w * h >= 32 {
        RoomType::Large
    } else {
        RoomType::Normal
    }
}

/// The number of squares along a wall of a `w` x `h` room.
pub open spec fn wall_length(w: u32, h: u32, wall: Wall) -> u32 {
    match wall {
        Wall::North | Wall::South => w,
        Wall::East | Wall::West => h,
    }
}

/// Exit position from a D6 roll on a wall of the given length.
pub open spec fn spec_exit_position(roll: u32, len: u32) -> u32 {
    if len > 2 {
        roll % len
    } else {
        0
    }
}

/// `pos` is what some D6 roll gives on a wall of length `len`.
pub open spec fn position_from_some_roll(pos: u32, len: u32) -> bool {
    exists|r: u32| 1 <= r <= 6 && pos == #[trigger] spec_exit_position(r, len)
}

/// The walls that receive exits among the first `k` attempts, going clockwise
/// from wall `start`, skipping the entrance wall and walls that already have
/// one, until `count` exits are placed.
pub open spec fn chosen_walls(start: int, count: nat, entrance_wall: Option<Wall>, k: nat) -> Seq<Wall>
    decreases k,
{
    if k == 0 {
        Seq::empty()
    } else {
        let prev = chosen_walls(start, count, entrance_wall, (k - 1) as nat);
        let w = wall_at((start + k - 1) % 4);
        if prev.len() < count && entrance_wall != Some(w) && !prev.contains(w) {
            prev.push(w)
        } else {
            prev
        }
    }
}

/// The walls that receive exits (at most 16 attempts).
pub open spec fn exit_walls(start: int, count: nat, entrance_wall: Option<Wall>) -> Seq<Wall> {
    chosen_walls(start, count, entrance_wall, 16)
}

/// `exits` are fresh exits on `walls`, in order, each at a position some roll gives.
pub open spec fn exits_placed(exits: Seq<Exit>, walls: Seq<Wall>, w: u32, h: u32) -> bool {
    &&& exits.len() == walls.len()
    &&& forall|i: int|
        0 <= i < exits.len() ==> {
            &&& (#[trigger] exits[i]).wall == walls[i]
            &&& exits[i].connected_room_id is None
            &&& position_from_some_roll(exits[i].position, wall_length(w, h, walls[i]))
        }
}

/// Index of the first room with the given id, or -1.
pub open spec fn spec_room_index(rooms: Seq<RoomView>, id: usize) -> int
    decreases rooms.len(),
{
    if rooms.len() == 0 {
        -1
    } else {
        let i = spec_room_index(rooms.drop_last(), id);
        if i >= 0 {
            i
        } else if rooms.last().id == id {
            rooms.len() - 1
        } else {
            -1
        }
    }
}

/// Index of the first exit on `wall` that leads nowhere yet, or -1.
pub open spec fn spec_free_exit_index(exits: Seq<Exit>, wall: Wall) -> int
    decreases exits.len(),
{
    if exits.len() == 0 {
        -1
    } else {
        let i = spec_free_exit_index(exits.drop_last(), wall);
        if i >= 0 {
            i
        } else if exits.last().wall == wall && exits.last().connected_room_id is None {
            exits.len() - 1
        } else {
            -1
        }
    }
}

/// `a - b`, or 0 when `b > a`.
pub open spec fn sat_sub(a: u32, b: u32) -> u32 {
    if a >= b {
        (a - b) as u32
    } else {
        0
    }
}

/// Where a `w` x `h` room reached through `wall` of room `parent_id` is placed:
/// beside the parent with `ROOM_SPACING` cells between them, or at the
/// entrance position when there is no such parent.
pub open spec fn spec_room_position(
    rooms: Seq<RoomView>,
    parent_id: usize,
    wall: Wall,
    w: u32,
    h: u32,
) -> (u32, u32) {
    let i = spec_room_index(rooms, parent_id);
    if i < 0 {
        (ENTRANCE_X, ENTRANCE_Y)
    } else {
        let p = rooms[i];
        match wall {
            Wall::North => (p.x, sat_sub(p.y, (h + ROOM_SPACING) as u32)),
            Wall::South => (p.x, (p.y + p.height + ROOM_SPACING) as u32),
            Wall::East => ((p.x + p.width + ROOM_SPACING) as u32, p.y),
            Wall::West => (sat_sub(p.x, (w + ROOM_SPACING) as u32), p.y),
        }
    }
}

/// A room reached through a wall of its parent lies beyond that wall, level
/// with the parent, with `ROOM_SPACING` free cells between the two, so the
/// two do not overlap. (Beyond a North or West wall near the dungeon's edge
/// there is no such room: the position is clamped to 0; those cases are left
/// out.)
pub proof fn lemma_room_beside_parent(rooms: Seq<RoomView>, parent_id: usize, wall: Wall, w: u32, h: u32)
    requires
        spec_room_index(rooms, parent_id) >= 0,
        wall == Wall::North ==> rooms[spec_room_index(rooms, parent_id)].y >= h + ROOM_SPACING,
        wall == Wall::West ==> rooms[spec_room_index(rooms, parent_id)].x >= w + ROOM_SPACING,
        rooms[spec_room_index(rooms, parent_id)].x + rooms[spec_room_index(rooms, parent_id)].width + ROOM_SPACING
            <= u32::MAX,
        rooms[spec_room_index(rooms, parent_id)].y + rooms[spec_room_index(rooms, parent_id)].height + ROOM_SPACING
            <= u32::MAX,
    ensures
        ({
            let p = rooms[spec_room_index(rooms, parent_id)];
            let (x, y) = spec_room_position(rooms, parent_id, wall, w, h);
            &&& (wall == Wall::North ==> x == p.x && y + h + ROOM_SPACING == p.y)
            &&& (wall == Wall::South ==> x == p.x && y - (p.y + p.height) == ROOM_SPACING)
            &&& (wall == Wall::West ==> y == p.y && x + w + ROOM_SPACING == p.x)
            &&& (wall == Wall::East ==> y == p.y && x - (p.x + p.width) == ROOM_SPACING)
            &&& (x + w <= p.x || p.x + p.width <= x || y + h <= p.y || p.y + p.height <= y)
        }),
{
    lemma_room_index_bounds(rooms, parent_id);
}

/// A generated room lies beyond the wall of its parent it was reached
/// through, with `ROOM_SPACING` free cells between them, and does not overlap
/// the parent (see `lemma_room_beside_parent`).
pub proof fn lemma_rolled_room_beside_parent(r: RoomView, rooms: Seq<RoomView>, id: usize, parent_id: usize, wall: Wall)
    requires
        is_rolled_room(r, rooms, id, parent_id, wall),
        spec_room_index(rooms, parent_id) >= 0,
        wall == Wall::North ==> rooms[spec_room_index(rooms, parent_id)].y >= r.height + ROOM_SPACING,
        wall == Wall::West ==> rooms[spec_room_index(rooms, parent_id)].x >= r.width + ROOM_SPACING,
        rooms[spec_room_index(rooms, parent_id)].x + rooms[spec_room_index(rooms, parent_id)].width + ROOM_SPACING
            <= u32::MAX,
        rooms[spec_room_index(rooms, parent_id)].y + rooms[spec_room_index(rooms, parent_id)].height + ROOM_SPACING
            <= u32::MAX,
    ensures
        ({
            let p = rooms[spec_room_index(rooms, parent_id)];
            &&& (wall == Wall::North ==> r.x == p.x && r.y + r.height + ROOM_SPACING == p.y)
            &&& (wall == Wall::South ==> r.x == p.x && r.y - (p.y + p.height) == ROOM_SPACING)
            &&& (wall == Wall::West ==> r.y == p.y && r.x + r.width + ROOM_SPACING == p.x)
            &&& (wall == Wall::East ==> r.y == p.y && r.x - (p.x + p.width) == ROOM_SPACING)
            &&& (r.x + r.width <= p.x || p.x + p.width <= r.x || r.y + r.height <= p.y || p.y + p.height <= r.y)
        }),
{
    lemma_room_beside_parent(rooms, parent_id, wall, r.width, r.height);
}

/// The entrance room with the given id as the rules build it from its dice.
pub open spec fn is_rolled_entrance(r: RoomView, id: usize) -> bool {
    &&& r.id == id
    &&& r.x == ENTRANCE_X
    &&& r.y == ENTRANCE_Y
    &&& r.room_type == RoomType::Entrance
    &&& r.parent_id is None
    &&& r.parent_wall is None
    &&& exists|a: u32, b: u32|
        1 <= a <= 6 && 1 <= b <= 6 && #[trigger] spec_entrance_dimensions(a, b) == (
            r.width,
            r.height,
        )
    &&& exits_placed(r.exits, exit_walls(0, 3, None), r.width, r.height)
}

/// A room reached through `wall` of room `parent_id`, generated with id `id`
/// while the dungeon held `rooms`, as the rules build it from its dice.
pub open spec fn is_rolled_room(
    r: RoomView,
    rooms: Seq<RoomView>,
    id: usize,
    parent_id: usize,
    wall: Wall,
) -> bool {
    &&& r.id == id
    &&& r.parent_id == Some(parent_id)
    &&& r.parent_wall == Some(wall)
    &&& exists|a: u32, b: u32, c: u32, d: u32|
        1 <= a <= 6 && 1 <= b <= 6 && 1 <= c <= 6 && 1 <= d <= 6
            && #[trigger] spec_expanded_dimensions(a, b, c, d) == (r.width, r.height)
            && r.room_type == spec_room_type(r.width, r.height, a == b)
    &&& (r.x, r.y) == spec_room_position(rooms, parent_id, wall, r.width, r.height)
    &&& exists|s: int, e: u32|
        0 <= s < 4 && 1 <= e <= 6 && exits_placed(
            r.exits,
            #[trigger] exit_walls(s, spec_exit_count(e) as nat, Some(spec_opposite_wall(wall))),
            r.width,
            r.height,
        )
}

// ----------------------------------------------------------------------
// What every room of a generated dungeon satisfies.
// ----------------------------------------------------------------------
/// Every exit lies within its wall, and no two exits share a wall.
pub open spec fn exits_valid(r: RoomView) -> bool {
    &&& forall|i: int|
        0 <= i < r.exits.len() ==> (#[trigger] r.exits[i]).position < wall_length(
            r.width,
            r.height,
            r.exits[i].wall,
        )
    &&& forall|i: int, j: int|
        0 <= i < j < r.exits.len() ==> (#[trigger] r.exits[i]).wall != (#[trigger] r.exits[j]).wall
}

/// The entrance: 6 to 12 squares, exactly 3 exits, at the entrance position.
pub open spec fn valid_entrance(r: RoomView) -> bool {
    &&& r.room_type == RoomType::Entrance
    &&& 1 <= r.width <= 6
    &&& 1 <= r.height <= 6
    &&& 6 <= r.width * r.height <= 12
    &&& r.x == ENTRANCE_X
    &&& r.y == ENTRANCE_Y
    &&& r.exits.len() == 3
    &&& exits_valid(r)
    &&& r.parent_id is None
    &&& r.parent_wall is None
}

/// A generated room: 1 to 11 squares each way, typed by its area, at most 3
/// exits, none on the wall it is entered through.
pub open spec fn valid_room(r: RoomView) -> bool {
    &&& 1 <= r.width <= 11
    &&& 1 <= r.height <= 11
    &&& r.room_type == spec_area_type(r.width, r.height)
    &&& r.exits.len() <= 3
    &&& exits_valid(r)
    &&& r.parent_id is Some
    &&& r.parent_wall is Some
    &&& forall|i: int|
        0 <= i < r.exits.len() ==> (#[trigger] r.exits[i]).wall != spec_opposite_wall(
            r.parent_wall.unwrap(),
        )
}

/// Exit `j` of room `i` leads to a later room that was generated from it.
pub open spec fn connection_ok(rooms: Seq<RoomView>, i: int, j: int) -> bool {
    match rooms[i].exits[j].connected_room_id {
        Some(k) => i < k < rooms.len() && rooms[k as int].parent_id == Some(i as usize)
            && rooms[k as int].parent_wall == Some(rooms[i].exits[j].wall),
        None => true,
    }
}

/// The rooms of a generated dungeon, in order of generation.
pub open spec fn dungeon_valid(rooms: Seq<RoomView>) -> bool {
    &&& rooms.len() <= MAX_ROOMS
    &&& forall|i: int|
        0 <= i < rooms.len() ==> {
            &&& (#[trigger] rooms[i]).id == i
            &&& rooms[i].x <= 10 + 14 * i
            &&& rooms[i].y <= 10 + 14 * i
        }
    &&& rooms.len() > 0 ==> valid_entrance(rooms[0]) || valid_room(rooms[0])
    &&& forall|i: int| 1 <= i < rooms.len() ==> valid_room(#[trigger] rooms[i])
    &&& forall|i: int, j: int|
        0 <= i < rooms.len() && 0 <= j < rooms[i].exits.len() ==> #[trigger] connection_ok(
            rooms,
            i,
            j,
        )
}

// ----------------------------------------------------------------------
// Lemmas about the rules.
// ----------------------------------------------------------------------
/// Chosen walls are distinct, avoid the entrance wall, and number at most `count`.
pub proof fn lemma_chosen_walls_shape(start: int, count: nat, ew: Option<Wall>, k: nat)
    ensures
        chosen_walls(start, count, ew, k).len() <= count,
        forall|i: int|
            0 <= i < chosen_walls(start, count, ew, k).len() ==> Some(
                #[trigger] chosen_walls(start, count, ew, k)[i],
            ) != ew,
        forall|i: int, j: int|
            0 <= i < j < chosen_walls(start, count, ew, k).len() ==> #[trigger] chosen_walls(
                start,
                count,
                ew,
                k,
            )[i] != #[trigger] chosen_walls(start, count, ew, k)[j],
    decreases k,
{
    if k > 0 {
        lemma_chosen_walls_shape(start, count, ew, (k - 1) as nat);
        let prev = chosen_walls(start, count, ew, (k - 1) as nat);
        let cur = chosen_walls(start, count, ew, k);
        let w = wall_at((start + k - 1) % 4);
        if prev.len() < count && ew != Some(w) && !prev.contains(w) {
            assert(cur == prev.push(w));
            assert forall|i: int, j: int| 0 <= i < j < cur.len() implies cur[i] != cur[j] by {
                if j == cur.len() - 1 {
                    assert(prev[i] == cur[i]);
                    if cur[i] == cur[j] {
                        assert(prev.contains(w));
                    }
                }
            }
        }
    }
}

/// Once `count` walls are chosen, later attempts choose no more.
pub proof fn lemma_chosen_walls_stable(start: int, count: nat, ew: Option<Wall>, k: nat, k2: nat)
    requires
        k <= k2,
        chosen_walls(start, count, ew, k).len() == count,
    ensures
        chosen_walls(start, count, ew, k2) == chosen_walls(start, count, ew, k),
    decreases k2 - k,
{
    if k < k2 {
        lemma_chosen_walls_stable(start, count, ew, k, (k2 - 1) as nat);
    }
}

/// Four attempts reach every wall, so `count` walls are chosen when at most
/// three are asked for.
pub proof fn lemma_exit_walls_count(start: int, count: nat, ew: Option<Wall>)
    requires
        0 <= start < 4,
        count <= 3,
    ensures
        exit_walls(start, count, ew).len() == count,
{
    reveal_with_fuel(chosen_walls, 5);
    let c4 = chosen_walls(start, count, ew, 4);
    assert(c4.len() == count) by {
        lemma_chosen_walls_shape(start, count, ew, 0);
        lemma_chosen_walls_shape(start, count, ew, 1);
        lemma_chosen_walls_shape(start, count, ew, 2);
        lemma_chosen_walls_shape(start, count, ew, 3);
        let c0 = chosen_walls(start, count, ew, 0);
        let c1 = chosen_walls(start, count, ew, 1);
        let c2 = chosen_walls(start, count, ew, 2);
        let c3 = chosen_walls(start, count, ew, 3);
        assert(c0.len() == 0);
        if start == 0 {
            assert(wall_at((start + 0) % 4) == Wall::North);
            assert(wall_at((start + 1) % 4) == Wall::East);
            assert(wall_at((start + 2) % 4) == Wall::South);
            assert(wall_at((start + 3) % 4) == Wall::West);
        } else if start == 1 {
            assert(wall_at((start + 0) % 4) == Wall::East);
            assert(wall_at((start + 1) % 4) == Wall::South);
            assert(wall_at((start + 2) % 4) == Wall::West);
            assert(wall_at((start + 3) % 4) == Wall::North);
        } else if start == 2 {
            assert(wall_at((start + 0) % 4) == Wall::South);
            assert(wall_at((start + 1) % 4) == Wall::West);
            assert(wall_at((start + 2) % 4) == Wall::North);
            assert(wall_at((start + 3) % 4) == Wall::East);
        } else {
            assert(wall_at((start + 0) % 4) == Wall::West);
            assert(wall_at((start + 1) % 4) == Wall::North);
            assert(wall_at((start + 2) % 4) == Wall::East);
            assert(wall_at((start + 3) % 4) == Wall::South);
        }
    }
    lemma_chosen_walls_stable(start, count, ew, 4, 16);
}

/// Two of four consecutive walls clockwise from `start` differ.
pub proof fn lemma_wall_at_distinct(start: int, i: int, j: int)
    requires
        0 <= start < 4,
        0 <= i < j < 4,
    ensures
        wall_at((start + i) % 4) != wall_at((start + j) % 4),
{
}

/// Without an entrance wall, the first `k` attempts (at most four) choose the
/// walls clockwise from `start`, until `count` are chosen.
pub proof fn lemma_walls_without_entrance(start: int, count: nat, k: nat)
    requires
        0 <= start < 4,
        k <= 4,
    ensures
        chosen_walls(start, count, None, k) =~= Seq::new(
            if k <= count {
                k
            } else {
                count
            },
            |i: int| wall_at((start + i) % 4),
        ),
    decreases k,
{
    if k > 0 {
        lemma_walls_without_entrance(start, count, (k - 1) as nat);
        let prev = chosen_walls(start, count, None, (k - 1) as nat);
        let w = wall_at((start + k - 1) % 4);
        if prev.len() < count {
            assert(!prev.contains(w)) by {
                if prev.contains(w) {
                    let i = choose|i: int| 0 <= i < prev.len() && prev[i] == w;
                    lemma_wall_at_distinct(start, i, k - 1);
                }
            }
        }
    }
}

/// Without an entrance wall, up to four exits are placed on the walls
/// clockwise from `start`.
pub proof fn lemma_exit_walls_without_entrance(start: int, count: nat)
    requires
        0 <= start < 4,
        count <= 4,
    ensures
        exit_walls(start, count, None) =~= Seq::new(count, |i: int| wall_at((start + i) % 4)),
{
    lemma_walls_without_entrance(start, count, 4);
    lemma_chosen_walls_stable(start, count, None, 4, 16);
}

/// What placed exits are: at most `count` of them, all of them when there
/// are walls enough (at most three beside an entrance wall, four without
/// one), on distinct walls other than the entrance wall, leading nowhere,
/// each within its wall; without an entrance wall, on the walls clockwise
/// from the start.
pub proof fn lemma_placed_exits_facts(exits: Seq<Exit>, start: int, count: nat, ew: Option<Wall>, w: u32, h: u32)
    requires
        0 <= start < 4,
        exits_placed(exits, exit_walls(start, count, ew), w, h),
    ensures
        exits.len() <= count,
        count <= 3 ==> exits.len() == count,
        ew is None && count <= 4 ==> exits.len() == count && forall|i: int|
            0 <= i < count ==> (#[trigger] exits[i]).wall == wall_at((start + i) % 4),
        forall|i: int|
            0 <= i < exits.len() ==> Some((#[trigger] exits[i]).wall) != ew && exits[i].connected_room_id is None,
        forall|i: int, j: int| 0 <= i < j < exits.len() ==> (#[trigger] exits[i]).wall != (#[trigger] exits[j]).wall,
        w >= 1 && h >= 1 ==> forall|i: int|
            0 <= i < exits.len() ==> (#[trigger] exits[i]).position < wall_length(w, h, exits[i].wall),
{
    let walls = exit_walls(start, count, ew);
    lemma_chosen_walls_shape(start, count, ew, 16);
    if count <= 3 {
        lemma_exit_walls_count(start, count, ew);
    }
    if ew is None && count <= 4 {
        lemma_exit_walls_without_entrance(start, count);
        assert forall|i: int| 0 <= i < count implies (#[trigger] exits[i]).wall == wall_at((start + i) % 4) by {
            assert(exits[i].wall == walls[i]);
        }
    }
    assert forall|i: int| 0 <= i < exits.len() implies Some((#[trigger] exits[i]).wall) != ew
        && exits[i].connected_room_id is None by {
        assert(Some(walls[i]) != ew);
    }
    assert forall|i: int, j: int| 0 <= i < j < exits.len() implies (#[trigger] exits[i]).wall
        != (#[trigger] exits[j]).wall by {
        assert(walls[i] != walls[j]);
    }
    if w >= 1 && h >= 1 {
        assert forall|i: int| 0 <= i < exits.len() implies (#[trigger] exits[i]).position < wall_length(
            w,
            h,
            exits[i].wall,
        ) by {
            lemma_position_in_wall(exits[i].position, wall_length(w, h, walls[i]));
        }
    }
}

/// A position some roll gives lies within its wall.
pub proof fn lemma_position_in_wall(pos: u32, len: u32)
    requires
        len >= 1,
        position_from_some_roll(pos, len),
    ensures
        pos < len,
{
    let r = choose|r: u32| 1 <= r <= 6 && pos == #[trigger] spec_exit_position(r, len);
    if len > 2 {
        assert(r % len < len);
    }
}

/// Placed exits are valid exits of the room.
pub proof fn lemma_exits_placed_valid(r: RoomView, walls: Seq<Wall>, start: int, count: nat, ew: Option<Wall>)
    requires
        walls == exit_walls(start, count, ew),
        exits_placed(r.exits, walls, r.width, r.height),
        r.width >= 1,
        r.height >= 1,
    ensures
        exits_valid(r),
        forall|i: int| 0 <= i < r.exits.len() ==> Some((#[trigger] r.exits[i]).wall) != ew,
        r.exits.len() <= count,
{
    lemma_chosen_walls_shape(start, count, ew, 16);
    assert forall|i: int| 0 <= i < r.exits.len() implies (#[trigger] r.exits[i]).position
        < wall_length(r.width, r.height, r.exits[i].wall) by {
        lemma_position_in_wall(r.exits[i].position, wall_length(r.width, r.height, walls[i]));
    }
    assert forall|i: int, j: int| 0 <= i < j < r.exits.len() implies (#[trigger] r.exits[i]).wall
        != (#[trigger] r.exits[j]).wall by {
        assert(walls[i] != walls[j]);
    }
    assert forall|i: int| 0 <= i < r.exits.len() implies Some((#[trigger] r.exits[i]).wall) != ew by {
        assert(Some(walls[i]) != ew);
    }
}


// ----------------------------------------------------------------------
// What the dice give: each roll is the seed's next one, so the rooms are a
// function of the seed and the requests made so far.
// ----------------------------------------------------------------------
/// The entrance dimensions the generator in state `s` rolls (D66, clamped),
/// and its state after.
pub open spec fn spec_roll_entrance_dims(s: RngView) -> ((u32, u32), RngView) {
    (spec_entrance_dimensions(roll_d6(s), roll_d6(after_d6(s))), after_d6(after_d6(s)))
}

/// The exit count rolled in state `s`, and the state after.
pub open spec fn spec_roll_exit_count(s: RngView) -> (u32, RngView) {
    (spec_exit_count(roll_d6(s)), after_d6(s))
}

/// The exit position rolled in state `s` on a wall of length `len` (no roll
/// on walls of at most 2 squares), and the state after.
pub open spec fn spec_roll_exit_position(s: RngView, len: u32) -> (u32, RngView) {
    if len > 2 {
        (spec_exit_position(roll_d6(s), len), after_d6(s))
    } else {
        (0, s)
    }
}

/// The exits placed in the first `k` attempts clockwise from wall `start`
/// (see `chosen_walls`), each at a rolled position, starting in state `s`.
pub open spec fn spec_placed_exits(
    s: RngView,
    w: u32,
    h: u32,
    start: int,
    count: nat,
    entrance_wall: Option<Wall>,
    k: nat,
) -> (Seq<Exit>, RngView)
    decreases k,
{
    if k == 0 {
        (Seq::empty(), s)
    } else {
        let (prev, s1) = spec_placed_exits(s, w, h, start, count, entrance_wall, (k - 1) as nat);
        let wall = wall_at((start + k - 1) % 4);
        if chosen_walls(start, count, entrance_wall, k).len() > chosen_walls(
            start,
            count,
            entrance_wall,
            (k - 1) as nat,
        ).len() {
            let (pos, s2) = spec_roll_exit_position(s1, wall_length(w, h, wall));
            (prev.push(Exit { wall, position: pos, connected_room_id: None }), s2)
        } else {
            (prev, s1)
        }
    }
}

/// The exits of a `w` x `h` room with `count` exits, rolled in state `s`: the
/// start wall is North for the entrance and rolled otherwise; and the state after.
pub open spec fn spec_place_exits(
    s: RngView,
    w: u32,
    h: u32,
    is_entrance: bool,
    count: u32,
    entrance_wall: Option<Wall>,
) -> (Seq<Exit>, RngView) {
    if count == 0 {
        (Seq::empty(), s)
    } else if is_entrance {
        spec_placed_exits(s, w, h, 0, count as nat, entrance_wall, 16)
    } else {
        spec_placed_exits(after_d6(s), w, h, (roll_d6(s) % 4) as int, count as nat, entrance_wall, 16)
    }
}

/// The entrance with id `id` rolled in state `s`, and the state after.
pub open spec fn spec_entrance_room(s: RngView, id: usize) -> (RoomView, RngView) {
    let (dims, s1) = spec_roll_entrance_dims(s);
    let (exits, s2) = spec_place_exits(s1, dims.0, dims.1, true, 3, None);
    (
        RoomView {
            id,
            x: ENTRANCE_X,
            y: ENTRANCE_Y,
            width: dims.0,
            height: dims.1,
            room_type: RoomType::Entrance,
            exits,
            parent_id: None,
            parent_wall: None,
        },
        s2,
    )
}

/// The room with id `id` reached through `wall` of room `parent_id`, rolled
/// in state `s` while the dungeon holds `rooms`, and the state after.
pub open spec fn spec_connected_room(rooms: Seq<RoomView>, s: RngView, id: usize, parent_id: usize, wall: Wall) -> (
    RoomView,
    RngView,
) {
    let a = roll_d6(s);
    let b = roll_d6(after_d6(s));
    let s1 = after_d6(after_d6(s));
    let expand = a == b && a != 6;
    let c = if expand { roll_d6(s1) } else { 1 };
    let d = if expand { roll_d6(after_d6(s1)) } else { 1 };
    let s2 = if expand { after_d6(after_d6(s1)) } else { s1 };
    let (w, h) = spec_expanded_dimensions(a, b, c, d);
    let (x, y) = spec_room_position(rooms, parent_id, wall, w, h);
    let (count, s3) = spec_roll_exit_count(s2);
    let (exits, s4) = spec_place_exits(s3, w, h, false, count, Some(spec_opposite_wall(wall)));
    (
        RoomView {
            id,
            x,
            y,
            width: w,
            height: h,
            room_type: spec_room_type(w, h, a == b),
            exits,
            parent_id: Some(parent_id),
            parent_wall: Some(wall),
        },
        s4,
    )
}

/// The dungeon `generate` builds with the dice in state `s`, and the dice
/// state after: the entrance, then rooms behind free exits picked by a D6,
/// until the dungeon is full or no free exit is left.
pub closed spec fn spec_generate(s: RngView) -> (Seq<RoomView>, RngView) {
    let (e, s1) = spec_entrance_room(s, 0);
    gen_loop(seq![e], spec_all_free_exits(seq![e], 1), s1)
}

/// The room returned once the dungeon is full.
pub open spec fn limit_marker() -> RoomView {
    RoomView {
        id: usize::MAX,
        x: 0,
        y: 0,
        width: 1,
        height: 1,
        room_type: RoomType::Normal,
        exits: Seq::empty(),
        parent_id: None,
        parent_wall: None,
    }
}

/// What `add_room` gives for rooms `rooms` and dice state `s`: the room, the
/// rooms after and the dice state after. A full dungeon rolls nothing.
pub open spec fn spec_add_room(rooms: Seq<RoomView>, s: RngView, parent_id: usize, wall: Wall) -> (
    RoomView,
    Seq<RoomView>,
    RngView,
) {
    if rooms.len() >= MAX_ROOMS {
        (limit_marker(), rooms, s)
    } else {
        let (r, s1) = spec_connected_room(rooms, s, rooms.len() as usize, parent_id, wall);
        (r, spec_mark_connected(rooms, parent_id, wall, r.id).push(r), s1)
    }
}

/// Exit `j` of room `i` now leads to room `new_id`; nothing else changes.
pub open spec fn spec_connect(rooms: Seq<RoomView>, i: int, j: int, new_id: usize) -> Seq<RoomView> {
    rooms.update(
        i,
        RoomView {
            exits: rooms[i].exits.update(
                j,
                Exit { connected_room_id: Some(new_id), ..rooms[i].exits[j] },
            ),
            ..rooms[i]
        },
    )
}

/// The rooms after a room with id `new_id` is reached through `wall` of room
/// `parent_id`: the first free exit on that wall of the parent, if there is
/// one, leads to the new room.
pub open spec fn spec_mark_connected(rooms: Seq<RoomView>, parent_id: usize, wall: Wall, new_id: usize) -> Seq<RoomView> {
    let i = spec_room_index(rooms, parent_id);
    if i >= 0 {
        let j = spec_free_exit_index(rooms[i].exits, wall);
        if j >= 0 {
            spec_connect(rooms, i, j, new_id)
        } else {
            rooms
        }
    } else {
        rooms
    }
}

/// The room `add_room` returns once the dungeon is full: it has no exits.
pub open spec fn is_limit_marker(r: RoomView) -> bool {
    &&& r.id == usize::MAX
    &&& r.x == 0
    &&& r.y == 0
    &&& r.width == 1
    &&& r.height == 1
    &&& r.room_type == RoomType::Normal
    &&& r.exits.len() == 0
    &&& r.parent_id is None
    &&& r.parent_wall is None
}

/// Some earlier room has an exit that leads to room `k`.
pub open spec fn is_reached(rooms: Seq<RoomView>, k: int) -> bool {
    exists|i: int, j: int|
        0 <= i < k && 0 <= j < rooms[i].exits.len() && (#[trigger] rooms[i].exits[j]).connected_room_id
            == Some(k as usize)
}

/// Every exit of every room leads somewhere.
pub open spec fn all_exits_connected(rooms: Seq<RoomView>) -> bool {
    forall|i: int, j: int|
        0 <= i < rooms.len() && 0 <= j < rooms[i].exits.len() ==> (
        #[trigger] rooms[i].exits[j]).connected_room_id is Some
}

pub proof fn lemma_room_index_bounds(rooms: Seq<RoomView>, id: usize)
    ensures
        -1 <= spec_room_index(rooms, id) < rooms.len(),
        spec_room_index(rooms, id) >= 0 ==> rooms[spec_room_index(rooms, id)].id == id,
    decreases rooms.len(),
{
    if rooms.len() > 0 {
        lemma_room_index_bounds(rooms.drop_last(), id);
    }
}

/// In a dungeon whose ids are the room indices, the room with id `id` is at index `id`.
pub proof fn lemma_room_index_by_id(rooms: Seq<RoomView>, id: usize)
    requires
        forall|i: int| 0 <= i < rooms.len() ==> (#[trigger] rooms[i]).id == i,
    ensures
        spec_room_index(rooms, id) == if id < rooms.len() {
            id as int
        } else {
            -1
        },
    decreases rooms.len(),
{
    if rooms.len() > 0 {
        let d = rooms.drop_last();
        assert forall|i: int| 0 <= i < d.len() implies (#[trigger] d[i]).id == i by {
            assert(d[i] == rooms[i]);
        }
        lemma_room_index_by_id(d, id);
        assert(rooms.last() == rooms[rooms.len() - 1]);
    }
}

pub proof fn lemma_free_exit_index_bounds(exits: Seq<Exit>, wall: Wall)
    ensures
        -1 <= spec_free_exit_index(exits, wall) < exits.len(),
        spec_free_exit_index(exits, wall) >= 0 ==> exits[spec_free_exit_index(exits, wall)].wall == wall
            && exits[spec_free_exit_index(exits, wall)].connected_room_id is None,
    decreases exits.len(),
{
    if exits.len() > 0 {
        lemma_free_exit_index_bounds(exits.drop_last(), wall);
    }
}

/// A room built by the rules from its dice is a valid room.
pub proof fn lemma_rolled_room_valid(r: RoomView, rooms: Seq<RoomView>, id: usize, parent_id: usize, wall: Wall)
    requires
        is_rolled_room(r, rooms, id, parent_id, wall),
    ensures
        valid_room(r),
        forall|j: int| 0 <= j < r.exits.len() ==> (#[trigger] r.exits[j]).connected_room_id is None,
{
    let (a, b, c, d) = choose|a: u32, b: u32, c: u32, d: u32|
        1 <= a <= 6 && 1 <= b <= 6 && 1 <= c <= 6 && 1 <= d <= 6
            && #[trigger] spec_expanded_dimensions(a, b, c, d) == (r.width, r.height)
            && r.room_type == spec_room_type(r.width, r.height, a == b);
    if a != b {
        assert(a * b <= 30) by (nonlinear_arith)
            requires
                a != b,
                1 <= a <= 6,
                1 <= b <= 6,
        ;
    }
    let (s, e) = choose|s: int, e: u32|
        0 <= s < 4 && 1 <= e <= 6 && exits_placed(
            r.exits,
            #[trigger] exit_walls(s, spec_exit_count(e) as nat, Some(spec_opposite_wall(wall))),
            r.width,
            r.height,
        );
    lemma_exits_placed_valid(
        r,
        exit_walls(s, spec_exit_count(e) as nat, Some(spec_opposite_wall(wall))),
        s,
        spec_exit_count(e) as nat,
        Some(spec_opposite_wall(wall)),
    );
}

/// The entrance built by the rules from its dice is a valid entrance.
pub proof fn lemma_rolled_entrance_valid(r: RoomView, id: usize)
    requires
        is_rolled_entrance(r, id),
    ensures
        valid_entrance(r),
{
    let (a, b) = choose|a: u32, b: u32|
        1 <= a <= 6 && 1 <= b <= 6 && #[trigger] spec_entrance_dimensions(a, b) == (
            r.width,
            r.height,
        );
    assert(a * b <= 36) by (nonlinear_arith)
        requires
            1 <= a <= 6,
            1 <= b <= 6,
    ;
    lemma_exit_walls_count(0, 3, None);
    lemma_exits_placed_valid(r, exit_walls(0, 3, None), 0, 3, None);
}

/// A dice roller together with the rooms generated so far.
pub struct DungeonGenerator {
    rng: SeededRng,
    rooms: Vec<Room>,
    next_id: usize,
}

/// An exit that leads nowhere yet: exit `exit_index` (on `wall`) of room `room_id`.
#[derive(Debug, Clone, Copy)]
struct AvailableExit {
    room_id: usize,
    wall: Wall,
    exit_index: usize,
}

impl DungeonGenerator {
    /// The rooms generated so far.
    pub closed spec fn spec_rooms(&self) -> Seq<RoomView> {
        rooms_view(self.rooms@)
    }

    /// The state of the dice: the seed and the rolls made so far.
    pub closed spec fn spec_rng(&self) -> RngView {
        self.rng@
    }

    /// The generator's invariant: the ids to come continue the rooms, which
    /// form a valid dungeon.
    pub closed spec fn wf(&self) -> bool {
        &&& self.next_id == self.rooms.len()
        &&& dungeon_valid(self.spec_rooms())
    }

    /// What the invariant promises of the rooms.
    pub proof fn lemma_wf(&self)
        requires
            self.wf(),
        ensures
            dungeon_valid(self.spec_rooms()),
    {
    }

    closed spec fn keeps_rooms(&self, other: &Self) -> bool {
        &&& self.rooms@ == other.rooms@
        &&& self.next_id == other.next_id
    }

    pub fn new(seed: u64) -> (g: Self)
        ensures
            g.wf(),
            g.spec_rooms() == Seq::<RoomView>::empty(),
            g.spec_rng() == seeded(seed),
    {
        let g = DungeonGenerator { rng: SeededRng::new(seed), rooms: Vec::new(), next_id: 0 };
        proof {
            assert(g.spec_rooms() =~= Seq::<RoomView>::empty());
        }
        g
    }

    /// The rooms generated so far.
    pub fn rooms(&self) -> (r: &Vec<Room>)
        ensures
            rooms_view(r@) == self.spec_rooms(),
    {
        &self.rooms
    }

    /// Index of the first room with the given id.
    fn find_room_index(&self, id: usize) -> (r: Option<usize>)
        ensures
            match r {
                Some(i) => i as int == spec_room_index(self.spec_rooms(), id),
                None => spec_room_index(self.spec_rooms(), id) == -1,
            },
    {
        room_index_in(&self.rooms, id)
    }

    /// Index of the first exit on `wall` of `exits` that leads nowhere yet.
    pub(crate) fn find_free_exit(exits: &Vec<Exit>, wall: Wall) -> (r: Option<usize>)
        ensures
            match r {
                Some(j) => j as int == spec_free_exit_index(exits@, wall),
                None => spec_free_exit_index(exits@, wall) == -1,
            },
    {
        let mut j: usize = 0;
        while j < exits.len()
            invariant
                j <= exits.len(),
                spec_free_exit_index(exits@.take(j as int), wall) == -1,
            decreases exits.len() - j,
        {
            proof {
                assert(exits@.take(j + 1).drop_last() =~= exits@.take(j as int));
            }
            if exits[j].wall == wall && exits[j].connected_room_id.is_none() {
                proof {
                    assert(exits@.take(j + 1).last() == exits@[j as int]);
                    assert(spec_free_exit_index(exits@.take(j + 1), wall) == j);
                    lemma_prefix_free_exit_index(exits@, (j + 1) as int, wall);
                }
                return Some(j);
            }
            j = j + 1;
        }
        proof {
            assert(exits@.take(j as int) =~= exits@);
        }
        None
    }

    fn opposite_wall(wall: Wall) -> (w: Wall)
        ensures
            w == spec_opposite_wall(wall),
    {
        match wall {
            Wall::North => Wall::South,
            Wall::South => Wall::North,
            Wall::East => Wall::West,
            Wall::West => Wall::East,
        }
    }

    fn wall_at_index(i: usize) -> (w: Wall)
        ensures
            w == wall_at((i % 4) as int),
    {
        let k = i % 4;
        if k == 0 {
            Wall::North
        } else if k == 1 {
            Wall::East
        } else if k == 2 {
            Wall::South
        } else {
            Wall::West
        }
    }

    fn roll_entrance_dimensions(&mut self) -> (d: (u32, u32))
        ensures
            final(self).keeps_rooms(old(self)),
            (d, final(self).rng@) == spec_roll_entrance_dims(old(self).rng@),
            exists|a: u32, b: u32|
                1 <= a <= 6 && 1 <= b <= 6 && #[trigger] spec_entrance_dimensions(a, b) == d,
    {
        let (width, height) = self.rng.d66();
        assert(width * height <= 36) by (nonlinear_arith)
            requires
                1 <= width <= 6,
                1 <= height <= 6,
        ;
        let area = width * height;
        let d = if area < 6 {
            (3u32, 2u32)
        } else if area > 12 {
            (3u32, 4u32)
        } else {
            (width, height)
        };
        assert(spec_entrance_dimensions(width, height) == d);
        d
    }

    fn roll_exit_count(&mut self) -> (c: u32)
        ensures
            final(self).keeps_rooms(old(self)),
            (c, final(self).rng@) == spec_roll_exit_count(old(self).rng@),
            exists|e: u32| 1 <= e <= 6 && c == #[trigger] spec_exit_count(e),
    {
        let roll = self.rng.d6();
        let c = if roll == 1 {
            0
        } else if roll <= 3 {
            1
        } else if roll <= 5 {
            2
        } else {
            3
        };
        assert(c == spec_exit_count(roll));
        c
    }

    fn calculate_exit_position(&mut self, room: &Room, wall: Wall) -> (p: u32)
        ensures
            final(self).keeps_rooms(old(self)),
            (p, final(self).rng@) == spec_roll_exit_position(old(self).rng@, wall_length(room.width, room.height, wall)),
            position_from_some_roll(p, wall_length(room.width, room.height, wall)),
    {
        let len = match wall {
            Wall::North | Wall::South => room.width,
            Wall::East | Wall::West => room.height,
        };
        if len > 2 {
            let roll = self.rng.d6();
            let p = roll % len;
            assert(p == spec_exit_position(roll, len));
            p
        } else {
            assert(0 == spec_exit_position(1, len));
            0
        }
    }

    /// Whether one of `exits` is on `wall`.
    fn has_exit_on(exits: &Vec<Exit>, wall: Wall) -> (b: bool)
        ensures
            b == exists|i: int| 0 <= i < exits.len() && (#[trigger] exits@[i]).wall == wall,
    {
        let mut i: usize = 0;
        while i < exits.len()
            invariant
                i <= exits.len(),
                forall|k: int| 0 <= k < i ==> (#[trigger] exits@[k]).wall != wall,
            decreases exits.len() - i,
        {
            if exits[i].wall == wall {
                return true;
            }
            i = i + 1;
        }
        false
    }

    /// Places `count` exits clockwise from a starting wall (North for the
    /// entrance, rolled otherwise), skipping the entrance wall and walls that
    /// already have one; a wall gets at most one exit, so at most four (three
    /// beside an entrance wall) are placed.
    fn place_exits(&mut self, room: &Room, count: u32, entrance_wall: Option<Wall>) -> (exits: Vec<Exit>)
        ensures
            exits@.len() <= count,
            count <= 3 ==> exits@.len() == count,
            entrance_wall is None && count <= 4 ==> exits@.len() == count,
            room.room_type == RoomType::Entrance && entrance_wall is None && count <= 4 ==> forall|i: int|
                0 <= i < count ==> (#[trigger] exits@[i]).wall == wall_at(i),
            forall|i: int|
                0 <= i < exits@.len() ==> Some((#[trigger] exits@[i]).wall) != entrance_wall
                    && exits@[i].connected_room_id is None,
            forall|i: int, j: int| 0 <= i < j < exits@.len() ==> (#[trigger] exits@[i]).wall != (#[trigger] exits@[j]).wall,
            room.width >= 1 && room.height >= 1 ==> forall|i: int|
                0 <= i < exits@.len() ==> (#[trigger] exits@[i]).position < wall_length(
                    room.width,
                    room.height,
                    exits@[i].wall,
                ),
            final(self).keeps_rooms(old(self)),
            (exits@, final(self).rng@) == spec_place_exits(
                old(self).rng@,
                room.width,
                room.height,
                room.room_type == RoomType::Entrance,
                count,
                entrance_wall,
            ),
            exists|s: int|
                (if room.room_type == RoomType::Entrance {
                    s == 0
                } else {
                    0 <= s < 4
                }) && exits_placed(
                    exits@,
                    #[trigger] exit_walls(s, count as nat, entrance_wall),
                    room.width,
                    room.height,
                ),
    {
        if count == 0 {
            let exits: Vec<Exit> = Vec::new();
            proof {
                lemma_chosen_walls_shape(0, 0, entrance_wall, 16);
                assert(exits_placed(exits@, exit_walls(0, 0, entrance_wall), room.width, room.height));
                lemma_placed_exits_facts(exits@, 0, 0, entrance_wall, room.width, room.height);
            }
            return exits;
        }
        let mut exits: Vec<Exit> = Vec::new();
        let start_index: usize = if room.room_type == RoomType::Entrance {
            0
        } else {
            (self.rng.d6() % 4) as usize
        };
        let ghost s = start_index as int;
        let ghost s1 = self.rng@;
        let mut placed: u32 = 0;
        let mut wall_index: usize = start_index;
        let mut attempts: u32 = 0;
        while placed < count && attempts < 16
            invariant
                0 <= s < 4,
                wall_index == s + attempts,
                attempts <= 16,
                placed == exits.len(),
                placed <= count,
                self.keeps_rooms(old(self)),
                exits_placed(exits@, chosen_walls(s, count as nat, entrance_wall, attempts as nat), room.width, room.height),
                (exits@, self.rng@) == spec_placed_exits(s1, room.width, room.height, s, count as nat, entrance_wall, attempts as nat),
            decreases 16 - attempts,
        {
            let wall = Self::wall_at_index(wall_index);
            let can_place = match entrance_wall {
                Some(ew) => ew != wall,
                None => true,
            } && !Self::has_exit_on(&exits, wall);
            let ghost prev = chosen_walls(s, count as nat, entrance_wall, attempts as nat);
            proof {
                assert((s + (attempts + 1) - 1) % 4 == (wall_index % 4) as int);
                assert(prev.contains(wall) == exists|i: int| 0 <= i < exits.len() && (#[trigger] exits@[i]).wall == wall) by {
                    if prev.contains(wall) {
                        let i = choose|i: int| 0 <= i < prev.len() && prev[i] == wall;
                        assert(exits@[i].wall == wall);
                    }
                }
            }
            if can_place {
                let position = self.calculate_exit_position(room, wall);
                exits.push(Exit { wall, position, connected_room_id: None });
                placed = placed + 1;
                proof {
                    let cur = chosen_walls(s, count as nat, entrance_wall, (attempts + 1) as nat);
                    assert(cur == prev.push(wall));
                    assert forall|i: int| 0 <= i < exits@.len() implies {
                        &&& (#[trigger] exits@[i]).wall == cur[i]
                        &&& exits@[i].connected_room_id is None
                        &&& position_from_some_roll(exits@[i].position, wall_length(room.width, room.height, cur[i]))
                    } by {
                        if i < exits@.len() - 1 {
                            assert(cur[i] == prev[i]);
                        }
                    }
                }
            } else {
                proof {
                    assert(chosen_walls(s, count as nat, entrance_wall, (attempts + 1) as nat) == prev);
                }
            }
            wall_index = wall_index + 1;
            attempts = attempts + 1;
        }
        proof {
            if attempts < 16 {
                lemma_chosen_walls_stable(s, count as nat, entrance_wall, attempts as nat, 16);
                lemma_placed_exits_stable(s1, room.width, room.height, s, count as nat, entrance_wall, attempts as nat, 16);
            }
            assert(exits_placed(exits@, exit_walls(s, count as nat, entrance_wall), room.width, room.height));
            lemma_placed_exits_facts(exits@, s, count as nat, entrance_wall, room.width, room.height);
            if room.room_type == RoomType::Entrance && entrance_wall is None && count <= 4 {
                assert forall|i: int| 0 <= i < count implies (#[trigger] exits@[i]).wall == wall_at(i) by {
                    assert((s + i) % 4 == i);
                }
            }
        }
        exits
    }

    /// Rolls the entrance room: D66 dimensions clamped to 6-12 squares, at
    /// the entrance position, with exactly 3 exits.
    fn generate_entrance_room(&mut self) -> (room: Room)
        requires
            old(self).next_id < usize::MAX,
        ensures
            final(self).rooms@ == old(self).rooms@,
            final(self).next_id == old(self).next_id + 1,
            is_rolled_entrance(room@, old(self).next_id),
            (room@, final(self).rng@) == spec_entrance_room(old(self).rng@, old(self).next_id),
    {
        let (width, height) = self.roll_entrance_dimensions();
        let id = self.next_id;
        self.next_id = self.next_id + 1;
        let mut room = Room {
            id,
            x: ENTRANCE_X,
            y: ENTRANCE_Y,
            width,
            height,
            room_type: RoomType::Entrance,
            exits: Vec::new(),
            parent_id: None,
            parent_wall: None,
        };
        let exits = self.place_exits(&room, 3, None);
        room.exits = exits;
        room
    }

    /// Where a `width` x `height` room reached through `parent_wall` of room
    /// `parent_id` goes.
    fn calculate_room_position(&self, parent_id: usize, parent_wall: Wall, width: u32, height: u32) -> (p: (u32, u32))
        requires
            dungeon_valid(self.spec_rooms()),
            self.rooms.len() < MAX_ROOMS,
            1 <= width <= 11,
            1 <= height <= 11,
        ensures
            p == spec_room_position(self.spec_rooms(), parent_id, parent_wall, width, height),
    {
        match self.find_room_index(parent_id) {
            Some(i) => {
                proof {
                    lemma_room_index_bounds(self.spec_rooms(), parent_id);
                    let r = self.spec_rooms()[i as int];
                    assert(self.spec_rooms()[i as int] == self.rooms@[i as int]@);
                    if i > 0 {
                        assert(valid_room(r));
                    }
                }
                let parent = &self.rooms[i];
                match parent_wall {
                    Wall::North => (parent.x, parent.y.saturating_sub(height + ROOM_SPACING)),
                    Wall::South => (parent.x, parent.y + parent.height + ROOM_SPACING),
                    Wall::East => (parent.x + parent.width + ROOM_SPACING, parent.y),
                    Wall::West => (parent.x.saturating_sub(width + ROOM_SPACING), parent.y),
                }
            },
            None => (ENTRANCE_X, ENTRANCE_Y),
        }
    }

    /// Rolls a room reached through `parent_wall` of room `parent_id`: D66
    /// dimensions (a double other than double 6 is expanded by a second
    /// D66), typed by area, placed beside its parent, with a rolled number of
    /// exits, none on the wall it is entered through.
    fn generate_connected_room(&mut self, parent_id: usize, parent_wall: Wall) -> (room: Room)
        requires
            old(self).wf(),
            old(self).rooms.len() < MAX_ROOMS,
        ensures
            final(self).rooms@ == old(self).rooms@,
            final(self).next_id == old(self).next_id + 1,
            is_rolled_room(room@, old(self).spec_rooms(), old(self).next_id, parent_id, parent_wall),
            (room@, final(self).rng@) == spec_connected_room(
                old(self).spec_rooms(),
                old(self).rng@,
                old(self).next_id,
                parent_id,
                parent_wall,
            ),
    {
        let (a, b) = self.rng.d66();
        let mut width = a;
        let mut height = b;
        let id = self.next_id;
        self.next_id = self.next_id + 1;
        let is_double = width == height;
        let ghost mut c: u32 = 1;
        let ghost mut d: u32 = 1;
        if is_double && width != 6 {
            let (add_x, add_y) = self.rng.d66();
            width = width + add_x;
            height = height + add_y;
            proof {
                c = add_x;
                d = add_y;
            }
        }
        assert(spec_expanded_dimensions(a, b, c, d) == (width, height));
        assert(width * height <= 121) by (nonlinear_arith)
            requires
                1 <= width <= 11,
                1 <= height <= 11,
        ;
        let area = width * height;
        let is_corridor = width == 1 || height == 1;
        let room_type = if is_corridor {
            RoomType::Corridor
        } else if area <= 6 {
            RoomType::Small
        } else if is_double && area >= 32 {
            RoomType::Large
        } else {
            RoomType::Normal
        };
        let ghost snapshot = *self;
        let (x, y) = self.calculate_room_position(parent_id, parent_wall, width, height);
        let mut room = Room {
            id,
            x,
            y,
            width,
            height,
            room_type,
            exits: Vec::new(),
            parent_id: Some(parent_id),
            parent_wall: Some(parent_wall),
        };
        let exit_count = self.roll_exit_count();
        let entrance_wall = Self::opposite_wall(parent_wall);
        let exits = self.place_exits(&room, exit_count, Some(entrance_wall));
        room.exits = exits;
        room
    }

    /// Starts a dungeon: forgets every room and rolls the entrance.
    pub fn generate_entrance(&mut self) -> (entrance: Room)
        ensures
            final(self).wf(),
            final(self).spec_rooms() == seq![entrance@],
            is_rolled_entrance(entrance@, 0),
            (entrance@, final(self).spec_rng()) == spec_entrance_room(old(self).spec_rng(), 0),
    {
        self.rooms.clear();
        self.next_id = 0;
        let entrance = self.generate_entrance_room();
        self.rooms.push(entrance.copy());
        proof {
            lemma_rolled_entrance_valid(entrance@, 0);
            assert(self.spec_rooms() =~= seq![entrance@]);
            assert(self.spec_rooms()[0] == entrance@);
        }
        entrance
    }

    /// Generates the room behind exit `wall` of room `parent_id`, links the
    /// first free exit on that wall of the parent to it, and returns it. Once
    /// the dungeon holds `MAX_ROOMS` rooms nothing is generated and a room
    /// with id `usize::MAX` and no exits is returned.
    pub fn add_room(&mut self, parent_id: usize, wall: Wall) -> (room: Room)
        requires
            old(self).wf(),
        ensures
            final(self).wf(),
            old(self).spec_rooms().len() >= MAX_ROOMS ==> {
                &&& is_limit_marker(room@)
                &&& final(self).spec_rooms() == old(self).spec_rooms()
            },
            old(self).spec_rooms().len() < MAX_ROOMS ==> {
                &&& is_rolled_room(room@, old(self).spec_rooms(), old(self).spec_rooms().len() as usize, parent_id, wall)
                &&& final(self).spec_rooms() == spec_mark_connected(
                    old(self).spec_rooms(),
                    parent_id,
                    wall,
                    room.id,
                ).push(room@)
            },
            (room@, final(self).spec_rooms(), final(self).spec_rng()) == spec_add_room(
                old(self).spec_rooms(),
                old(self).spec_rng(),
                parent_id,
                wall,
            ),
    {
        if self.rooms.len() >= MAX_ROOMS {
            let room = Room {
                id: usize::MAX,
                x: 0,
                y: 0,
                width: 1,
                height: 1,
                room_type: RoomType::Normal,
                exits: Vec::new(),
                parent_id: None,
                parent_wall: None,
            };
            return room;
        }
        let ghost old_rooms = self.spec_rooms();
        let exit_index = match self.find_room_index(parent_id) {
            Some(pi) => {
                proof {
                    lemma_room_index_bounds(old_rooms, parent_id);
                }
                Self::find_free_exit(&self.rooms[pi].exits, wall)
            },
            None => None,
        };
        let new_room = self.generate_connected_room(parent_id, wall);
        let new_room_id = new_room.id;
        proof {
            lemma_room_index_by_id(old_rooms, parent_id);
            lemma_rolled_room_valid(new_room@, old_rooms, old_rooms.len() as usize, parent_id, wall);
        }
        let ghost pi_s = spec_room_index(old_rooms, parent_id);
        proof {
            lemma_room_index_bounds(old_rooms, parent_id);
            if pi_s >= 0 {
                assert(old_rooms[pi_s] == self.rooms@[pi_s]@);
                lemma_free_exit_index_bounds(old_rooms[pi_s].exits, wall);
            }
        }
        if let Some(idx) = exit_index {
            if let Some(pi) = self.find_room_index(parent_id) {
                if idx < self.rooms[pi].exits.len() {
                    let mut parent = self.rooms[pi].copy();
                    let e = parent.exits[idx];
                    parent.exits.set(idx, Exit { connected_room_id: Some(new_room_id), ..e });
                    self.rooms.set(pi, parent);
                    proof {
                        lemma_free_exit_index_bounds(old_rooms[pi as int].exits, wall);
                        assert(self.spec_rooms() =~= spec_connect(old_rooms, pi as int, idx as int, new_room_id));
                    }
                }
            }
        }
        proof {
            assert(self.spec_rooms() =~= spec_mark_connected(old_rooms, parent_id, wall, new_room_id));
        }
        let ghost mid = self.spec_rooms();
        self.rooms.push(new_room.copy());
        proof {
            assert(self.spec_rooms() =~= mid.push(new_room@));
            lemma_mark_connected_valid(old_rooms, parent_id, wall, new_room@);
        }
        new_room
    }

    /// The free exits of room `room_id`, in order.
    fn collect_room_exits(&self, room_id: usize) -> (r: Vec<AvailableExit>)
        requires
            self.wf(),
        ensures
            forall|k: int| 0 <= k < r@.len() ==> (#[trigger] r@[k]).room_id == room_id && avail_ok(self.spec_rooms(), r@[k]),
            forall|k: int, l: int| 0 <= k < l < r@.len() ==> (#[trigger] r@[k]).exit_index < (#[trigger] r@[l]).exit_index,
            room_id < self.spec_rooms().len() ==> forall|j: int|
                0 <= j < self.spec_rooms()[room_id as int].exits.len()
                    && (#[trigger] self.spec_rooms()[room_id as int].exits[j]).connected_room_id is None
                    ==> exists|k: int| 0 <= k < r@.len() && (#[trigger] r@[k]).exit_index == j,
            r@ == spec_room_exits(self.spec_rooms(), room_id),
    {
        let ghost rooms = self.spec_rooms();
        let mut available: Vec<AvailableExit> = Vec::new();
        proof {
            lemma_room_index_by_id(rooms, room_id);
        }
        if let Some(ri) = self.find_room_index(room_id) {
            assert(rooms[ri as int] == self.rooms@[ri as int]@);
            let room = &self.rooms[ri];
            let mut idx: usize = 0;
            while idx < room.exits.len()
                invariant
                    ri == room_id,
                    room_id < rooms.len(),
                    rooms == self.spec_rooms(),
                    rooms[ri as int] == room@,
                    idx <= room.exits.len(),
                    forall|k: int| 0 <= k < available@.len() ==> (#[trigger] available@[k]).room_id == room_id
                        && avail_ok(rooms, available@[k]) && available@[k].exit_index < idx,
                    forall|k: int, l: int| 0 <= k < l < available@.len() ==> (#[trigger] available@[k]).exit_index
                        < (#[trigger] available@[l]).exit_index,
                    forall|j: int| 0 <= j < idx && (#[trigger] rooms[room_id as int].exits[j]).connected_room_id is None
                        ==> exists|k: int| 0 <= k < available@.len() && (#[trigger] available@[k]).exit_index == j,
                    available@ == free_exits_of(room_id, room@.exits.take(idx as int)),
                decreases room.exits.len() - idx,
            {
                let exit = room.exits[idx];
                proof {
                    assert(room@.exits.take(idx + 1).drop_last() =~= room@.exits.take(idx as int));
                    assert(room@.exits.take(idx + 1).last() == exit);
                }
                if exit.connected_room_id.is_none() {
                    let ghost before = available@;
                    available.push(AvailableExit { room_id, wall: exit.wall, exit_index: idx });
                    proof {
                        assert forall|j: int| 0 <= j < idx + 1 && (#[trigger] rooms[room_id as int].exits[j]).connected_room_id is None
                            implies exists|k: int| 0 <= k < available@.len() && (#[trigger] available@[k]).exit_index == j by {
                            if j < idx {
                                let k = choose|k: int| 0 <= k < before.len() && (#[trigger] before[k]).exit_index == j;
                                assert(available@[k] == before[k]);
                            } else {
                                assert(available@[available@.len() - 1].exit_index == j);
                            }
                        }
                    }
                }
                idx = idx + 1;
            }
            proof {
                assert(room@.exits.take(idx as int) =~= room@.exits);
            }
        }
        available
    }

    /// The free exits of every room, room by room.
    fn collect_available_exits(&self) -> (r: Vec<AvailableExit>)
        requires
            self.wf(),
        ensures
            avail_inv(self.spec_rooms(), r@),
            r@ == spec_all_free_exits(self.spec_rooms(), self.spec_rooms().len()),
    {
        let ghost rooms = self.spec_rooms();
        let mut available: Vec<AvailableExit> = Vec::new();
        let mut i: usize = 0;
        while i < self.rooms.len()
            invariant
                self.wf(),
                rooms == self.spec_rooms(),
                i <= self.rooms.len(),
                forall|k: int| 0 <= k < available@.len() ==> avail_ok(rooms, #[trigger] available@[k])
                    && available@[k].room_id < i,
                avail_distinct(available@),
                forall|a: int, j: int| 0 <= a < i && 0 <= j < rooms[a].exits.len()
                    && (#[trigger] rooms[a].exits[j]).connected_room_id is None ==> exists|k: int|
                    0 <= k < available@.len() && (#[trigger] available@[k]).room_id == a && available@[k].exit_index == j,
                available@ == spec_all_free_exits(rooms, i as nat),
            decreases self.rooms.len() - i,
        {
            assert(rooms[i as int] == self.rooms@[i as int]@);
            assert(rooms[i as int].id == i);
            let mut more = self.collect_room_exits(self.rooms[i].id);
            let ghost before = available@;
            let ghost added = more@;
            available.append(&mut more);
            proof {
                assert(available@ == before + added);
                assert forall|k: int, l: int| 0 <= k < l < available@.len() implies !((#[trigger] available@[k]).room_id
                    == (#[trigger] available@[l]).room_id && available@[k].exit_index == available@[l].exit_index) by {
                    if l < before.len() {
                        assert(available@[k] == before[k]);
                        assert(available@[l] == before[l]);
                    } else if k >= before.len() {
                        assert(available@[k] == added[k - before.len()]);
                        assert(available@[l] == added[l - before.len()]);
                    } else {
                        assert(available@[k] == before[k]);
                        assert(available@[l] == added[l - before.len()]);
                    }
                }
                assert forall|a: int, j: int| 0 <= a < i + 1 && 0 <= j < rooms[a].exits.len()
                    && (#[trigger] rooms[a].exits[j]).connected_room_id is None implies exists|k: int|
                    0 <= k < available@.len() && (#[trigger] available@[k]).room_id == a && available@[k].exit_index == j by {
                    if a < i {
                        let k = choose|k: int| 0 <= k < before.len() && (#[trigger] before[k]).room_id == a && before[k].exit_index == j;
                        assert(available@[k] == before[k]);
                    } else {
                        let k = choose|k: int| 0 <= k < added.len() && (#[trigger] added[k]).exit_index == j;
                        assert(available@[before.len() + k] == added[k]);
                    }
                }
                assert forall|k: int| 0 <= k < available@.len() implies avail_ok(rooms, #[trigger] available@[k])
                    && available@[k].room_id < i + 1 by {
                    if k < before.len() {
                        assert(available@[k] == before[k]);
                    } else {
                        assert(available@[k] == added[k - before.len()]);
                    }
                }
            }
            i = i + 1;
        }
        available
    }

    /// Generates a whole dungeon at once: the entrance, then rooms behind
    /// randomly chosen free exits until there are `MAX_ROOMS` rooms or no
    /// free exit is left. Returns a copy of the rooms.
    #[verifier::rlimit(50)]
    pub fn generate(&mut self) -> (rooms: Vec<Room>)
        ensures
            final(self).wf(),
            rooms_view(rooms@) == final(self).spec_rooms(),
            rooms@.len() >= 1,
            valid_entrance(final(self).spec_rooms()[0]),
            final(self).spec_rooms().len() == MAX_ROOMS || all_exits_connected(final(self).spec_rooms()),
            forall|k: int| 1 <= k < rooms@.len() ==> is_reached(final(self).spec_rooms(), k),
            (final(self).spec_rooms(), final(self).spec_rng()) == spec_generate(old(self).spec_rng()),
    {
        let ghost s0 = self.rng@;
        self.rooms.clear();
        self.next_id = 0;
        let entrance = self.generate_entrance_room();
        let ghost e = entrance@;
        self.rooms.push(entrance);
        proof {
            lemma_rolled_entrance_valid(self.spec_rooms()[0], 0);
            assert(self.spec_rooms().len() == 1);
            assert(self.spec_rooms() =~= seq![e]);
        }
        let mut available = self.collect_available_exits();
        while self.rooms.len() < MAX_ROOMS && available.len() > 0
            invariant
                self.wf(),
                self.rooms.len() >= 1,
                valid_entrance(self.spec_rooms()[0]),
                avail_inv(self.spec_rooms(), available@),
                forall|k: int| 1 <= k < self.spec_rooms().len() ==> is_reached(self.spec_rooms(), k),
                spec_generate(s0) == gen_loop(self.spec_rooms(), available@, self.rng@),
            decreases MAX_ROOMS - self.rooms.len(),
        {
            let ghost rooms0 = self.spec_rooms();
            let ghost n = rooms0.len();
            let ghost rng0 = self.rng@;
            let roll = self.rng.d6();
            let exit_idx = ((roll as usize) - 1) % available.len();
            let ghost avail0 = available@;
            let chosen = available.remove(exit_idx);
            proof {
                assert(avail_ok(rooms0, avail0[exit_idx as int]));
            }
            let new_room = self.generate_connected_room(chosen.room_id, chosen.wall);
            let new_room_id = new_room.id;
            proof {
                lemma_rolled_room_valid(new_room@, rooms0, n as usize, chosen.room_id, chosen.wall);
                lemma_rolled_room_position(new_room@, rooms0, chosen.room_id, chosen.wall);
                lemma_room_index_by_id(rooms0, chosen.room_id);
            }
            if let Some(pi) = self.find_room_index(chosen.room_id) {
                if chosen.exit_index < self.rooms[pi].exits.len() {
                    let mut parent = self.rooms[pi].copy();
                    let e = parent.exits[chosen.exit_index];
                    parent.exits.set(chosen.exit_index, Exit { connected_room_id: Some(new_room_id), ..e });
                    self.rooms.set(pi, parent);
                }
            }
            proof {
                assert(self.spec_rooms() =~= spec_connect(rooms0, chosen.room_id as int, chosen.exit_index as int, n as usize));
                lemma_add_room_valid(rooms0, chosen.room_id as int, chosen.exit_index as int, new_room@);
            }
            let ghost mid = self.spec_rooms();
            self.rooms.push(new_room);
            proof {
                assert(self.spec_rooms() =~= mid.push(new_room@));
            }
            let mut more = self.collect_room_exits(new_room_id);
            let ghost added = more@;
            let ghost avail1 = available@;
            available.append(&mut more);
            proof {
                lemma_generate_step(rooms0, avail0, exit_idx as int, new_room@, added, available@);
                assert(spec_link(rooms0, chosen, n as usize) == spec_connect(rooms0, chosen.room_id as int, chosen.exit_index as int, n as usize));
                assert(available@ =~= avail0.remove(exit_idx as int) + added);
                assert(gen_step(rooms0, avail0, rng0) == (self.spec_rooms(), available@, self.rng@));
            }
        }
        proof {
            if self.spec_rooms().len() < MAX_ROOMS {
                assert(available@.len() == 0);
                assert forall|i: int, j: int| 0 <= i < self.spec_rooms().len() && 0 <= j < self.spec_rooms()[i].exits.len()
                    implies (#[trigger] self.spec_rooms()[i].exits[j]).connected_room_id is Some by {
                    if self.spec_rooms()[i].exits[j].connected_room_id is None {
                        let k = choose|k: int| 0 <= k < available@.len() && (#[trigger] available@[k]).room_id == i
                            && available@[k].exit_index == j;
                    }
                }
            }
        }
        copy_rooms(&self.rooms)
    }
}

/// Index of the first room with the given id.
pub(crate) fn room_index_in(rooms: &Vec<Room>, id: usize) -> (r: Option<usize>)
    ensures
        match r {
            Some(i) => i as int == spec_room_index(rooms_view(rooms@), id),
            None => spec_room_index(rooms_view(rooms@), id) == -1,
        },
{
    let ghost all = rooms_view(rooms@);
    let mut i: usize = 0;
    while i < rooms.len()
        invariant
            i <= rooms.len(),
            all == rooms_view(rooms@),
            all.len() == rooms.len(),
            spec_room_index(all.take(i as int), id) == -1,
        decreases rooms.len() - i,
    {
        proof {
            assert(all.take(i + 1).drop_last() =~= all.take(i as int));
        }
        if rooms[i].id == id {
            proof {
                assert(all.take(i + 1).last() == all[i as int]);
                assert(spec_room_index(all.take(i + 1), id) == i);
                lemma_prefix_room_index(all, (i + 1) as int, id);
            }
            return Some(i);
        }
        i = i + 1;
    }
    proof {
        assert(all.take(i as int) =~= all);
    }
    None
}

/// A copy of a room list.
pub fn copy_rooms(rooms: &Vec<Room>) -> (c: Vec<Room>)
    ensures
        rooms_view(c@) == rooms_view(rooms@),
{
    let mut c: Vec<Room> = Vec::new();
    let mut i: usize = 0;
    while i < rooms.len()
        invariant
            i <= rooms.len(),
            c@.len() == i,
            forall|j: int| 0 <= j < i ==> (#[trigger] c@[j])@ == rooms@[j]@,
        decreases rooms.len() - i,
    {
        let r = rooms[i].copy();
        c.push(r);
        i = i + 1;
    }
    proof {
        assert(rooms_view(c@) =~= rooms_view(rooms@));
    }
    c
}

/// Entry `a` names exit `a.exit_index` of room `a.room_id`, which is free and on `a.wall`.
spec fn avail_ok(rooms: Seq<RoomView>, a: AvailableExit) -> bool {
    &&& a.room_id < rooms.len()
    &&& a.exit_index < rooms[a.room_id as int].exits.len()
    &&& rooms[a.room_id as int].exits[a.exit_index as int].wall == a.wall
    &&& rooms[a.room_id as int].exits[a.exit_index as int].connected_room_id is None
}

/// The free exits among `exits` of room `room_id`, in order.
spec fn free_exits_of(room_id: usize, exits: Seq<Exit>) -> Seq<AvailableExit>
    decreases exits.len(),
{
    if exits.len() == 0 {
        Seq::empty()
    } else {
        let prev = free_exits_of(room_id, exits.drop_last());
        if exits.last().connected_room_id is None {
            prev.push(AvailableExit { room_id, wall: exits.last().wall, exit_index: (exits.len() - 1) as usize })
        } else {
            prev
        }
    }
}

/// The free exits of room `room_id`, in order.
spec fn spec_room_exits(rooms: Seq<RoomView>, room_id: usize) -> Seq<AvailableExit> {
    let i = spec_room_index(rooms, room_id);
    if i >= 0 {
        free_exits_of(room_id, rooms[i].exits)
    } else {
        Seq::empty()
    }
}

/// The free exits of the first `n` rooms, room by room.
spec fn spec_all_free_exits(rooms: Seq<RoomView>, n: nat) -> Seq<AvailableExit>
    decreases n,
{
    if n == 0 {
        Seq::empty()
    } else {
        spec_all_free_exits(rooms, (n - 1) as nat) + spec_room_exits(rooms, rooms[n - 1].id)
    }
}

/// Links exit `a` to room `new_id`, when it names an exit of the dungeon.
spec fn spec_link(rooms: Seq<RoomView>, a: AvailableExit, new_id: usize) -> Seq<RoomView> {
    if a.room_id < rooms.len() && a.exit_index < rooms[a.room_id as int].exits.len() {
        spec_connect(rooms, a.room_id as int, a.exit_index as int, new_id)
    } else {
        rooms
    }
}

/// One step of whole-dungeon generation: a D6 picks a free exit, the room
/// behind it is rolled and linked, and its free exits join the list.
spec fn gen_step(rooms: Seq<RoomView>, avail: Seq<AvailableExit>, s: RngView) -> (Seq<RoomView>, Seq<AvailableExit>, RngView) {
    let idx = ((roll_d6(s) - 1) as int) % (avail.len() as int);
    let chosen = avail[idx];
    let n = rooms.len() as usize;
    let (r, s2) = spec_connected_room(rooms, after_d6(s), n, chosen.room_id, chosen.wall);
    let rooms2 = spec_link(rooms, chosen, n).push(r);
    (rooms2, avail.remove(idx) + spec_room_exits(rooms2, n), s2)
}

/// Generation steps until the dungeon is full or no free exit is left.
spec fn gen_loop(rooms: Seq<RoomView>, avail: Seq<AvailableExit>, s: RngView) -> (Seq<RoomView>, RngView)
    decreases MAX_ROOMS - rooms.len(),
{
    if rooms.len() >= MAX_ROOMS || avail.len() == 0 {
        (rooms, s)
    } else {
        let (rooms2, avail2, s2) = gen_step(rooms, avail, s);
        gen_loop(rooms2, avail2, s2)
    }
}

/// No exit is named twice.
spec fn avail_distinct(s: Seq<AvailableExit>) -> bool {
    forall|k: int, l: int|
        0 <= k < l < s.len() ==> !((#[trigger] s[k]).room_id == (#[trigger] s[l]).room_id && s[k].exit_index
            == s[l].exit_index)
}

/// `s` names exactly the free exits of the dungeon, each once.
spec fn avail_inv(rooms: Seq<RoomView>, s: Seq<AvailableExit>) -> bool {
    &&& forall|k: int| 0 <= k < s.len() ==> avail_ok(rooms, #[trigger] s[k])
    &&& avail_distinct(s)
    &&& forall|i: int, j: int|
        0 <= i < rooms.len() && 0 <= j < rooms[i].exits.len() && (
        #[trigger] rooms[i].exits[j]).connected_room_id is None ==> exists|k: int|
            0 <= k < s.len() && (#[trigger] s[k]).room_id == i && s[k].exit_index == j
}

/// One step of whole-dungeon generation keeps the list of free exits exact
/// and every room reached.
proof fn lemma_generate_step(
    rooms0: Seq<RoomView>,
    avail0: Seq<AvailableExit>,
    idx: int,
    r: RoomView,
    added: Seq<AvailableExit>,
    avail2: Seq<AvailableExit>,
)
    requires
        dungeon_valid(rooms0),
        avail_inv(rooms0, avail0),
        0 <= idx < avail0.len(),
        forall|k: int| 1 <= k < rooms0.len() ==> is_reached(rooms0, k),
        r.id == rooms0.len(),
        forall|j: int| 0 <= j < r.exits.len() ==> (#[trigger] r.exits[j]).connected_room_id is None,
        ({
            let rooms2 = spec_connect(rooms0, avail0[idx].room_id as int, avail0[idx].exit_index as int, rooms0.len() as usize).push(r);
            &&& forall|k: int| 0 <= k < added.len() ==> (#[trigger] added[k]).room_id == rooms0.len() && avail_ok(rooms2, added[k])
            &&& forall|k: int, l: int| 0 <= k < l < added.len() ==> (#[trigger] added[k]).exit_index < (#[trigger] added[l]).exit_index
            &&& forall|j: int| 0 <= j < rooms2[rooms0.len() as int].exits.len()
                    && (#[trigger] rooms2[rooms0.len() as int].exits[j]).connected_room_id is None
                    ==> exists|k: int| 0 <= k < added.len() && (#[trigger] added[k]).exit_index == j
        }),
        avail2 == avail0.remove(idx) + added,
    ensures
        ({
            let rooms2 = spec_connect(rooms0, avail0[idx].room_id as int, avail0[idx].exit_index as int, rooms0.len() as usize).push(r);
            &&& avail_inv(rooms2, avail2)
            &&& forall|k: int| 1 <= k < rooms2.len() ==> is_reached(rooms2, k)
        }),
{
    let n = rooms0.len();
    let a = avail0[idx];
    let pi = a.room_id as int;
    let pj = a.exit_index as int;
    let mid = spec_connect(rooms0, pi, pj, n as usize);
    let rooms2 = mid.push(r);
    let avail1 = avail0.remove(idx);
    assert(avail_ok(rooms0, a));
    assert forall|i: int| 0 <= i < n implies (#[trigger] rooms2[i]).exits.len() == rooms0[i].exits.len() by {
        assert(rooms2[i] == mid[i]);
    }
    assert forall|i: int, j: int| 0 <= i < n && 0 <= j < rooms0[i].exits.len() && (i != pi || j != pj)
        implies #[trigger] rooms2[i].exits[j] == rooms0[i].exits[j] by {
        assert(rooms2[i] == mid[i]);
    }
    assert(rooms2[pi].exits[pj].connected_room_id == Some(n as usize)) by {
        assert(rooms2[pi] == mid[pi]);
    }
    assert(rooms2[n as int] == r);
    // Entries that remain name free exits.
    assert forall|k: int| 0 <= k < avail2.len() implies avail_ok(rooms2, #[trigger] avail2[k]) by {
        if k < avail1.len() {
            let k0 = if k < idx { k } else { k + 1 };
            assert(avail2[k] == avail0[k0]);
            assert(avail_ok(rooms0, avail0[k0]));
            assert(!(avail0[k0].room_id == a.room_id && avail0[k0].exit_index == a.exit_index)) by {
                if k0 < idx {
                    assert(!(avail0[k0].room_id == avail0[idx].room_id && avail0[k0].exit_index == avail0[idx].exit_index));
                } else {
                    assert(!(avail0[idx].room_id == avail0[k0].room_id && avail0[idx].exit_index == avail0[k0].exit_index));
                }
            }
            let e = avail2[k];
            assert(rooms2[e.room_id as int].exits[e.exit_index as int] == rooms0[e.room_id as int].exits[e.exit_index as int]);
        } else {
            assert(avail2[k] == added[k - avail1.len()]);
        }
    }
    assert forall|k: int, l: int| 0 <= k < l < avail2.len() implies !((#[trigger] avail2[k]).room_id
        == (#[trigger] avail2[l]).room_id && avail2[k].exit_index == avail2[l].exit_index) by {
        if l < avail1.len() {
            let k0 = if k < idx { k } else { k + 1 };
            let l0 = if l < idx { l } else { l + 1 };
            assert(avail2[k] == avail0[k0]);
            assert(avail2[l] == avail0[l0]);
            assert(!(avail0[k0].room_id == avail0[l0].room_id && avail0[k0].exit_index == avail0[l0].exit_index));
        } else if k >= avail1.len() {
            assert(avail2[k] == added[k - avail1.len()]);
            assert(avail2[l] == added[l - avail1.len()]);
        } else {
            let k0 = if k < idx { k } else { k + 1 };
            assert(avail2[k] == avail0[k0]);
            assert(avail_ok(rooms0, avail0[k0]));
            assert(avail2[l] == added[l - avail1.len()]);
        }
    }
    assert forall|i: int, j: int| 0 <= i < rooms2.len() && 0 <= j < rooms2[i].exits.len() && (
        #[trigger] rooms2[i].exits[j]).connected_room_id is None implies exists|k: int|
        0 <= k < avail2.len() && (#[trigger] avail2[k]).room_id == i && avail2[k].exit_index == j by {
        if i < n {
            assert(rooms2[i].exits[j] == rooms0[i].exits[j]);
            let k0 = choose|k: int| 0 <= k < avail0.len() && (#[trigger] avail0[k]).room_id == i && avail0[k].exit_index == j;
            assert(k0 != idx);
            let k = if k0 < idx { k0 } else { k0 - 1 };
            assert(avail2[k] == avail0[k0]);
        } else {
            let k1 = choose|k: int| 0 <= k < added.len() && (#[trigger] added[k]).exit_index == j;
            assert(avail2[avail1.len() + k1] == added[k1]);
        }
    }
    // Every room is still reached; the new one through the exit just linked.
    assert forall|k: int| 1 <= k < rooms2.len() implies is_reached(rooms2, k) by {
        if k < n {
            assert(is_reached(rooms0, k));
            let (i, j) = choose|i: int, j: int|
                0 <= i < k && 0 <= j < rooms0[i].exits.len() && (#[trigger] rooms0[i].exits[j]).connected_room_id
                    == Some(k as usize);
            assert(rooms0[i].exits[j].connected_room_id is Some);
            if i == pi && j == pj {
                assert(false);
            }
            assert(rooms2[i].exits[j] == rooms0[i].exits[j]);
        } else {
            assert(rooms2[pi].exits[pj].connected_room_id == Some(k as usize));
            assert(pi < k);
        }
    }
}

/// Once `count` walls are chosen, later attempts place nothing and roll nothing.
proof fn lemma_placed_exits_stable(
    s: RngView,
    w: u32,
    h: u32,
    start: int,
    count: nat,
    ew: Option<Wall>,
    k: nat,
    k2: nat,
)
    requires
        k <= k2,
        chosen_walls(start, count, ew, k).len() == count,
    ensures
        chosen_walls(start, count, ew, k2).len() == count,
        spec_placed_exits(s, w, h, start, count, ew, k2) == spec_placed_exits(s, w, h, start, count, ew, k),
    decreases k2 - k,
{
    if k < k2 {
        lemma_placed_exits_stable(s, w, h, start, count, ew, k, (k2 - 1) as nat);
        assert(chosen_walls(start, count, ew, k2) == chosen_walls(start, count, ew, (k2 - 1) as nat));
    }
}

/// Adding a rolled room behind exit `wall` of room `parent_id` and linking
/// the parent's free exit to it keeps the dungeon valid.
proof fn lemma_mark_connected_valid(rooms: Seq<RoomView>, parent_id: usize, wall: Wall, r: RoomView)
    requires
        dungeon_valid(rooms),
        rooms.len() < MAX_ROOMS,
        is_rolled_room(r, rooms, rooms.len() as usize, parent_id, wall),
    ensures
        dungeon_valid(spec_mark_connected(rooms, parent_id, wall, rooms.len() as usize).push(r)),
{
    let n = rooms.len();
    lemma_room_index_by_id(rooms, parent_id);
    lemma_rolled_room_valid(r, rooms, n as usize, parent_id, wall);
    lemma_rolled_room_position(r, rooms, parent_id, wall);
    let pi = spec_room_index(rooms, parent_id);
    let pj = if pi >= 0 { spec_free_exit_index(rooms[pi].exits, wall) } else { -1 };
    if pi >= 0 {
        lemma_free_exit_index_bounds(rooms[pi].exits, wall);
    }
    lemma_add_room_valid(rooms, pi, pj, r);
}

/// A room generated behind a free exit is reached through it: when room
/// `parent_id` has an exit on `wall` that leads nowhere yet, after the next
/// room is rolled behind that wall and added, an exit on that wall of the
/// parent leads to the new room, the new room names the parent and the wall,
/// no other exit changes, and the dungeon stays valid.
pub proof fn lemma_add_room_links_exit(rooms: Seq<RoomView>, parent_id: usize, wall: Wall, r: RoomView)
    requires
        dungeon_valid(rooms),
        rooms.len() < MAX_ROOMS,
        parent_id < rooms.len(),
        exists|j: int|
            0 <= j < rooms[parent_id as int].exits.len() && (#[trigger] rooms[parent_id as int].exits[j]).wall == wall
                && rooms[parent_id as int].exits[j].connected_room_id is None,
        is_rolled_room(r, rooms, rooms.len() as usize, parent_id, wall),
    ensures
        ({
            let after = spec_mark_connected(rooms, parent_id, wall, r.id).push(r);
            &&& dungeon_valid(after)
            &&& after.len() == rooms.len() + 1
            &&& after[rooms.len() as int] == r
            &&& r.parent_id == Some(parent_id)
            &&& r.parent_wall == Some(wall)
            &&& is_reached(after, rooms.len() as int)
            &&& exists|j: int|
                0 <= j < after[parent_id as int].exits.len() && (#[trigger] after[parent_id as int].exits[j]).wall == wall
                    && after[parent_id as int].exits[j].connected_room_id == Some(r.id)
            &&& forall|i: int, j: int|
                0 <= i < rooms.len() && 0 <= j < rooms[i].exits.len() && after[i].exits[j] != rooms[i].exits[j] ==> i
                    == parent_id && (#[trigger] after[i].exits[j]).connected_room_id == Some(r.id)
                    && rooms[i].exits[j].connected_room_id is None
        }),
{
    let n = rooms.len();
    lemma_mark_connected_valid(rooms, parent_id, wall, r);
    lemma_room_index_by_id(rooms, parent_id);
    let pi = parent_id as int;
    let w = choose|j: int|
        0 <= j < rooms[pi].exits.len() && (#[trigger] rooms[pi].exits[j]).wall == wall
            && rooms[pi].exits[j].connected_room_id is None;
    lemma_free_exit_index_some(rooms[pi].exits, wall, w);
    lemma_free_exit_index_bounds(rooms[pi].exits, wall);
    let pj = spec_free_exit_index(rooms[pi].exits, wall);
    let after = spec_mark_connected(rooms, parent_id, wall, r.id).push(r);
    assert(spec_mark_connected(rooms, parent_id, wall, r.id) == spec_connect(rooms, pi, pj, r.id));
    assert(after[pi].exits[pj].connected_room_id == Some(r.id));
    assert(after[pi].exits[pj].wall == wall);
    assert(after[n as int] == r);
    assert(is_reached(after, n as int)) by {
        assert(pi < n);
        assert(after[pi].exits[pj].connected_room_id == Some(n as usize));
    }
}

/// When some exit on `wall` leads nowhere yet, the first such exit exists.
proof fn lemma_free_exit_index_some(exits: Seq<Exit>, wall: Wall, w: int)
    requires
        0 <= w < exits.len(),
        exits[w].wall == wall,
        exits[w].connected_room_id is None,
    ensures
        0 <= spec_free_exit_index(exits, wall) <= w,
    decreases exits.len(),
{
    lemma_free_exit_index_bounds(exits, wall);
    if w < exits.len() - 1 {
        let d = exits.drop_last();
        assert(d[w] == exits[w]);
        lemma_free_exit_index_some(d, wall, w);
    }
}

/// A room rolled as the next room lies within the dungeon's coordinate bound.
proof fn lemma_rolled_room_position(r: RoomView, rooms: Seq<RoomView>, parent_id: usize, wall: Wall)
    requires
        dungeon_valid(rooms),
        rooms.len() < MAX_ROOMS,
        is_rolled_room(r, rooms, rooms.len() as usize, parent_id, wall),
    ensures
        r.x <= 10 + 14 * rooms.len(),
        r.y <= 10 + 14 * rooms.len(),
{
    lemma_room_index_bounds(rooms, parent_id);
    lemma_room_index_by_id(rooms, parent_id);
    lemma_rolled_room_valid(r, rooms, rooms.len() as usize, parent_id, wall);
    let pi = spec_room_index(rooms, parent_id);
    if pi >= 0 {
        let p = rooms[pi];
        assert(p.x <= 10 + 14 * pi);
        assert(p.y <= 10 + 14 * pi);
        if pi > 0 {
            assert(valid_room(rooms[pi]));
        }
    }
}

/// Adding a valid room as the next room, linked from exit `pj` of room `pi`
/// (when both are non-negative; that exit being free and on the wall the
/// room records), keeps the dungeon valid.
proof fn lemma_add_room_valid(rooms: Seq<RoomView>, pi: int, pj: int, r: RoomView)
    requires
        dungeon_valid(rooms),
        rooms.len() < MAX_ROOMS,
        valid_room(r),
        r.id == rooms.len(),
        forall|j: int| 0 <= j < r.exits.len() ==> (#[trigger] r.exits[j]).connected_room_id is None,
        r.x <= 10 + 14 * rooms.len(),
        r.y <= 10 + 14 * rooms.len(),
        pi >= 0 ==> pi < rooms.len(),
        pi >= 0 && pj >= 0 ==> {
            &&& pj < rooms[pi].exits.len()
            &&& rooms[pi].exits[pj].connected_room_id is None
            &&& r.parent_id == Some(pi as usize)
            &&& r.parent_wall == Some(rooms[pi].exits[pj].wall)
        },
    ensures
        dungeon_valid(
            (if pi >= 0 && pj >= 0 {
                spec_connect(rooms, pi, pj, rooms.len() as usize)
            } else {
                rooms
            }).push(r),
        ),
{
    let n = rooms.len();
    let mid = if pi >= 0 && pj >= 0 {
        spec_connect(rooms, pi, pj, rooms.len() as usize)
    } else {
        rooms
    };
    let res = mid.push(r);
    // The geometry, ids and parents of the old rooms are unchanged; only one
    // exit's link changes.
    assert(mid.len() == n);
    assert forall|i: int| 0 <= i < n implies {
        &&& (#[trigger] mid[i]).id == rooms[i].id
        &&& mid[i].x == rooms[i].x
        &&& mid[i].y == rooms[i].y
        &&& mid[i].width == rooms[i].width
        &&& mid[i].height == rooms[i].height
        &&& mid[i].room_type == rooms[i].room_type
        &&& mid[i].parent_id == rooms[i].parent_id
        &&& mid[i].parent_wall == rooms[i].parent_wall
        &&& mid[i].exits.len() == rooms[i].exits.len()
        &&& forall|j: int| 0 <= j < mid[i].exits.len() ==> {
            &&& (#[trigger] mid[i].exits[j]).wall == rooms[i].exits[j].wall
            &&& mid[i].exits[j].position == rooms[i].exits[j].position
            &&& (i != pi || j != pj) ==> mid[i].exits[j] == rooms[i].exits[j]
            &&& (i == pi && j == pj) ==> mid[i].exits[j].connected_room_id == Some(n as usize)
        }
    } by {
        if pi >= 0 && pj >= 0 && i == pi {
            assert forall|j: int| 0 <= j < mid[i].exits.len() implies {
                &&& (#[trigger] mid[i].exits[j]).wall == rooms[i].exits[j].wall
                &&& mid[i].exits[j].position == rooms[i].exits[j].position
                &&& (i != pi || j != pj) ==> mid[i].exits[j] == rooms[i].exits[j]
                &&& (i == pi && j == pj) ==> mid[i].exits[j].connected_room_id == Some(n as usize)
            } by {
            }
        }
    }
    assert forall|i: int| 0 <= i < res.len() implies {
        &&& (#[trigger] res[i]).id == i
        &&& res[i].x <= 10 + 14 * i
        &&& res[i].y <= 10 + 14 * i
    } by {
        if i == n {
            assert(res[i] == r);
        } else {
            assert(res[i] == mid[i]);
        }
    }
    assert forall|i: int| 0 <= i < res.len() && (i > 0 || !valid_entrance(res[i])) implies valid_room(#[trigger] res[i]) by {
        if i < n {
            assert(valid_room(rooms[i]));
            assert(res[i] == mid[i]);
            assert forall|j: int| 0 <= j < res[i].exits.len() implies (#[trigger] res[i].exits[j]).wall
                != spec_opposite_wall(res[i].parent_wall.unwrap()) by {
                assert(rooms[i].exits[j].wall != spec_opposite_wall(rooms[i].parent_wall.unwrap()));
            }
            assert forall|j: int| 0 <= j < res[i].exits.len() implies (#[trigger] res[i].exits[j]).position
                < wall_length(res[i].width, res[i].height, res[i].exits[j].wall) by {
                assert(rooms[i].exits[j].position < wall_length(rooms[i].width, rooms[i].height, rooms[i].exits[j].wall));
            }
            assert forall|j: int, k: int| 0 <= j < k < res[i].exits.len() implies (#[trigger] res[i].exits[j]).wall
                != (#[trigger] res[i].exits[k]).wall by {
                assert(rooms[i].exits[j].wall != rooms[i].exits[k].wall);
            }
        } else {
            assert(res[i] == r);
        }
    }
    assert forall|i: int, j: int| 0 <= i < res.len() && 0 <= j < res[i].exits.len() implies #[trigger] connection_ok(
        res,
        i,
        j,
    ) by {
        if i < n {
            assert(res[i] == mid[i]);
            assert(connection_ok(rooms, i, j));
            if i == pi && j == pj {
                assert(res[n as int] == r);
            } else {
                match rooms[i].exits[j].connected_room_id {
                    Some(k) => {
                        assert(res[k as int] == mid[k as int]);
                    },
                    None => {},
                }
            }
        } else {
            assert(res[i] == r);
            assert(r.exits[j].connected_room_id is None);
        }
    }
    if !valid_entrance(res[0]) {
        assert(valid_room(res[0]));
    }
}

proof fn lemma_prefix_room_index(all: Seq<RoomView>, n: int, id: usize)
    requires
        0 <= n <= all.len(),
        spec_room_index(all.take(n), id) >= 0,
    ensures
        spec_room_index(all, id) == spec_room_index(all.take(n), id),
    decreases all.len() - n,
{
    if n < all.len() {
        assert(all.take(n + 1).drop_last() =~= all.take(n));
        lemma_prefix_room_index(all, n + 1, id);
    } else {
        assert(all.take(n) =~= all);
    }
}

proof fn lemma_prefix_free_exit_index(all: Seq<Exit>, n: int, wall: Wall)
    requires
        0 <= n <= all.len(),
        spec_free_exit_index(all.take(n), wall) >= 0,
    ensures
        spec_free_exit_index(all, wall) == spec_free_exit_index(all.take(n), wall),
    decreases all.len() - n,
{
    if n < all.len() {
        assert(all.take(n + 1).drop_last() =~= all.take(n));
        lemma_prefix_free_exit_index(all, n + 1, wall);
    } else {
        assert(all.take(n) =~= all);
    }
}

} // verus!
