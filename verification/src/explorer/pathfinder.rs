//! Pathfinding over the walkable tiles of a dungeon with the A* algorithm.
use crate::dungeon::room::{rooms_view, Exit, Room, RoomView, Wall};
use pathfinding::prelude::astar;
use std::collections::HashSet;
use vstd::prelude::*;

verus! {

broadcast use vstd::std_specs::hash::group_hash_axioms;

/// Searches are run on tiles whose coordinates lie below this bound (half
/// of `i32::MAX`, the range the neighbour arithmetic works in): every cost
/// estimate then stays below 2^31, and with fewer than `TILE_LIMIT` tiles every
/// path cost too, so their sums fit in `u32`.
pub const SEARCH_LIMIT: u32 = 0x4000_0000;

/// Searches are run on fewer walkable tiles than this.
pub const TILE_LIMIT: u64 = 0x8000_0000;

/// The most tiles the rooms can make walkable: their areas and one tile per exit.
pub open spec fn tile_budget(rooms: Seq<RoomView>) -> int
    decreases rooms.len(),
{
    if rooms.len() == 0 {
        0
    } else {
        tile_budget(rooms.drop_last()) + rooms.last().height * rooms.last().width + rooms.last().exits.len()
    }
}

/// The tiles the explorer may walk on, built from the dungeon's rooms.
pub struct Pathfinder {
    /// Each tile `(x, y)` is stored as the key `x * 2^32 + y`.
    walkable_tiles: HashSet<u64>,
}

/// The key a tile is stored under.
pub open spec fn tile_key(t: (u32, u32)) -> u64 {
    (t.0 as int * 0x1_0000_0000 + t.1 as int) as u64
}

proof fn lemma_tile_key_injective(a: (u32, u32), b: (u32, u32))
    requires
        tile_key(a) == tile_key(b),
    ensures
        a == b,
{
    let ka = a.0 as int * 0x1_0000_0000 + a.1 as int;
    let kb = b.0 as int * 0x1_0000_0000 + b.1 as int;
    assert(0 <= ka < 0x1_0000_0000_0000_0000) by (nonlinear_arith)
        requires
            ka == a.0 as int * 0x1_0000_0000 + a.1 as int,
            0 <= a.0 < 0x1_0000_0000,
            0 <= a.1 < 0x1_0000_0000,
    ;
    assert(0 <= kb < 0x1_0000_0000_0000_0000) by (nonlinear_arith)
        requires
            kb == b.0 as int * 0x1_0000_0000 + b.1 as int,
            0 <= b.0 < 0x1_0000_0000,
            0 <= b.1 < 0x1_0000_0000,
    ;
    assert(ka == kb);
    assert(a.0 == b.0 && a.1 == b.1) by (nonlinear_arith)
        requires
            a.0 as int * 0x1_0000_0000 + a.1 as int == b.0 as int * 0x1_0000_0000 + b.1 as int,
            0 <= a.0 < 0x1_0000_0000,
            0 <= a.1 < 0x1_0000_0000,
            0 <= b.0 < 0x1_0000_0000,
            0 <= b.1 < 0x1_0000_0000,
    ;
}

fn key_of(x: u32, y: u32) -> (k: u64)
    ensures
        k == tile_key((x, y)),
{
    assert(x as int * 0x1_0000_0000 + y as int <= 0xffff_ffff_ffff_ffff) by (nonlinear_arith)
        requires
            0 <= x < 0x1_0000_0000,
            0 <= y < 0x1_0000_0000,
    ;
    (x as u64) * 0x1_0000_0000u64 + (y as u64)
}

/// `a - b`, or 0 when `b > a`.
pub open spec fn sat_sub(a: u32, b: u32) -> u32 {
    if a >= b {
        (a - b) as u32
    } else {
        0
    }
}

/// Tile `t` lies inside room `r`.
pub open spec fn in_room(r: RoomView, t: (u32, u32)) -> bool {
    r.x <= t.0 < r.x + r.width && r.y <= t.1 < r.y + r.height
}

/// The corridor tile just outside an exit, on the far side of its wall.
pub open spec fn corridor_tile(r: RoomView, e: Exit) -> (u32, u32) {
    match e.wall {
        Wall::North => ((r.x + e.position) as u32, sat_sub(r.y, 1)),
        Wall::South => ((r.x + e.position) as u32, (r.y + r.height) as u32),
        Wall::East => ((r.x + r.width) as u32, (r.y + e.position) as u32),
        Wall::West => (sat_sub(r.x, 1), (r.y + e.position) as u32),
    }
}

/// Tile `t` is inside room `r` or just outside one of its exits.
pub open spec fn room_walkable(r: RoomView, t: (u32, u32)) -> bool {
    in_room(r, t) || exists|j: int| 0 <= j < r.exits.len() && corridor_tile(r, #[trigger] r.exits[j]) == t
}

/// The walkable tiles of a dungeon: its rooms and the tiles outside their exits.
pub open spec fn dungeon_walkable(rooms: Seq<RoomView>) -> Set<(u32, u32)> {
    Set::new(|t: (u32, u32)| exists|k: int| 0 <= k < rooms.len() && room_walkable(#[trigger] rooms[k], t))
}

/// Walkable tiles can be computed for the room without overflow.
pub open spec fn room_fits_u32(r: RoomView) -> bool {
    &&& r.x + r.width <= u32::MAX
    &&& r.y + r.height <= u32::MAX
    &&& forall|j: int|
        0 <= j < r.exits.len() ==> {
            &&& r.x + (#[trigger] r.exits[j]).position <= u32::MAX
            &&& r.y + r.exits[j].position <= u32::MAX
        }
}

/// Two tiles are side by side (4-directional movement).
pub open spec fn adjacent(a: (u32, u32), b: (u32, u32)) -> bool {
    ||| a.0 == b.0 && (a.1 + 1 == b.1 || b.1 + 1 == a.1)
    ||| a.1 == b.1 && (a.0 + 1 == b.0 || b.0 + 1 == a.0)
}

/// `p` walks from `start` to `goal`, one step at a time onto tiles of `tiles`.
pub open spec fn is_walk(tiles: Set<(u32, u32)>, p: Seq<(u32, u32)>, start: (u32, u32), goal: (u32, u32)) -> bool {
    &&& p.len() >= 1
    &&& p[0] == start
    &&& p.last() == goal
    &&& forall|i: int| 1 <= i < p.len() ==> tiles.contains(#[trigger] p[i]) && adjacent(p[i - 1], p[i])
}

/// `p` is a walk and no walk is shorter.
pub open spec fn is_shortest_walk(tiles: Set<(u32, u32)>, p: Seq<(u32, u32)>, start: (u32, u32), goal: (u32, u32)) -> bool {
    &&& is_walk(tiles, p, start, goal)
    &&& forall|q: Seq<(u32, u32)>| #[trigger] is_walk(tiles, q, start, goal) ==> p.len() <= q.len()
}

/// Some walk leads from `start` to `goal`.
pub open spec fn reachable(tiles: Set<(u32, u32)>, start: (u32, u32), goal: (u32, u32)) -> bool {
    exists|q: Seq<(u32, u32)>| #[trigger] is_walk(tiles, q, start, goal)
}

/// The tiles of row `y` from column `x0` to column `x1`, both included.
pub open spec fn row_tiles(x0: u32, x1: u32, y: u32) -> Seq<(u32, u32)> {
    if x0 <= x1 {
        Seq::new((x1 - x0 + 1) as nat, |i: int| ((x0 + i) as u32, y))
    } else {
        Seq::new((x0 - x1 + 1) as nat, |i: int| ((x0 - i) as u32, y))
    }
}

/// The tiles of column `x` from row `y0` to row `y1`, both included.
pub open spec fn column_tiles(x: u32, y0: u32, y1: u32) -> Seq<(u32, u32)> {
    if y0 <= y1 {
        Seq::new((y1 - y0 + 1) as nat, |i: int| (x, (y0 + i) as u32))
    } else {
        Seq::new((y0 - y1 + 1) as nat, |i: int| (x, (y0 - i) as u32))
    }
}

/// A walk from `a` to `b` along `a`'s row, then along `b`'s column.
pub open spec fn corner_walk(a: (u32, u32), b: (u32, u32)) -> Seq<(u32, u32)> {
    row_tiles(a.0, b.0, a.1) + column_tiles(b.0, a.1, b.1).drop_first()
}

/// Any two tiles of one room are joined by a walk over the walkable tiles
/// (along the first one's row, then the second one's column).
pub proof fn lemma_room_tiles_connected(rooms: Seq<RoomView>, k: int, a: (u32, u32), b: (u32, u32))
    requires
        0 <= k < rooms.len(),
        in_room(rooms[k], a),
        in_room(rooms[k], b),
    ensures
        is_walk(dungeon_walkable(rooms), corner_walk(a, b), a, b),
        reachable(dungeon_walkable(rooms), a, b),
{
    let r = rooms[k];
    let tiles = dungeon_walkable(rooms);
    let row = row_tiles(a.0, b.0, a.1);
    let col = column_tiles(b.0, a.1, b.1);
    let p = corner_walk(a, b);
    assert(row.len() >= 1 && col.len() >= 1);
    assert(row[0] == a);
    assert(row.last() == (b.0, a.1));
    assert(col[0] == (b.0, a.1));
    assert(col.last() == b);
    assert forall|t: (u32, u32)| in_room(r, t) implies #[trigger] tiles.contains(t) by {
        assert(room_walkable(rooms[k], t));
    }
    assert forall|i: int| 0 <= i < row.len() implies in_room(r, #[trigger] row[i]) by {}
    assert forall|i: int| 0 <= i < col.len() implies in_room(r, #[trigger] col[i]) by {}
    assert forall|i: int| 1 <= i < row.len() implies adjacent(row[i - 1], #[trigger] row[i]) by {}
    assert forall|i: int| 1 <= i < col.len() implies adjacent(col[i - 1], #[trigger] col[i]) by {}
    assert forall|i: int| 1 <= i < p.len() implies tiles.contains(#[trigger] p[i]) && adjacent(p[i - 1], p[i]) by {
        if i < row.len() {
            assert(p[i] == row[i]);
            assert(p[i - 1] == row[i - 1]);
        } else {
            assert(p[i] == col[i - row.len() + 1]);
            if i == row.len() {
                assert(p[i - 1] == row.last());
                assert(adjacent(col[0], col[1]));
            } else {
                assert(p[i - 1] == col[i - row.len()]);
                assert(adjacent(col[i - row.len()], col[i - row.len() + 1]));
            }
            assert(in_room(r, col[i - row.len() + 1]));
        }
    }
    assert(p[0] == a);
    if col.len() == 1 {
        assert(p.last() == row.last());
    } else {
        assert(p.last() == col.last());
    }
    assert(is_walk(tiles, p, a, b));
}

/// Both coordinates lie below `SEARCH_LIMIT`.
pub open spec fn in_search_area(t: (u32, u32)) -> bool {
    t.0 < SEARCH_LIMIT && t.1 < SEARCH_LIMIT
}

/// What pathfinding's `astar` returns when searching `tiles` from `start` for
/// `goal` with this module's successor, heuristic and goal functions: the path
/// and its cost.
pub uninterp spec fn astar_result(tiles: Set<(u32, u32)>, start: (u32, u32), goal: (u32, u32)) -> Option<(Seq<(u32, u32)>, u32)>;

impl View for Pathfinder {
    type V = Set<(u32, u32)>;

    closed spec fn view(&self) -> Set<(u32, u32)> {
        Set::new(|t: (u32, u32)| self.walkable_tiles@.contains(tile_key(t)))
    }
}

impl Pathfinder {
    /// How many tiles are walkable (when finitely many).
    pub closed spec fn tile_count(&self) -> nat {
        self.walkable_tiles@.len()
    }

    /// There are finitely many walkable tiles.
    pub closed spec fn finitely_many(&self) -> bool {
        self.walkable_tiles@.finite()
    }

    /// Every walkable tile lies in the search area, and there are fewer than
    /// `TILE_LIMIT` of them.
    pub open spec fn fits(&self) -> bool {
        &&& forall|t: (u32, u32)| #[trigger] self@.contains(t) ==> in_search_area(t)
        &&& self.finitely_many()
        &&& self.tile_count() < TILE_LIMIT
    }

    /// Collects the walkable tiles of `dungeon`: every tile of every room, and
    /// the tile just outside each exit.
    pub fn new(dungeon: &[Room]) -> (p: Self)
        requires
            forall|k: int| 0 <= k < dungeon@.len() ==> room_fits_u32(#[trigger] dungeon@[k]@),
        ensures
            p@ == dungeon_walkable(rooms_view(dungeon@)),
            p.finitely_many(),
            p.tile_count() <= tile_budget(rooms_view(dungeon@)),
    {
        let ghost rooms = rooms_view(dungeon@);
        let mut walkable_tiles: HashSet<u64> = HashSet::new();
        let mut i: usize = 0;
        while i < dungeon.len()
            invariant
                rooms == rooms_view(dungeon@),
                forall|k: int| 0 <= k < dungeon@.len() ==> room_fits_u32(#[trigger] dungeon@[k]@),
                i <= dungeon.len(),
                forall|t: (u32, u32)|
                    walkable_tiles@.contains(#[trigger] tile_key(t)) <==> exists|k: int|
                        0 <= k < i && room_walkable(#[trigger] rooms[k], t),
                walkable_tiles@.finite(),
                walkable_tiles@.len() <= tile_budget(rooms.take(i as int)),
            decreases dungeon.len() - i,
        {
            let room = &dungeon[i];
            let ghost r = room@;
            let ghost before = walkable_tiles@;
            proof {
                assert(rooms[i as int] == r);
                assert(room_fits_u32(dungeon@[i as int]@));
            }
            let mut y = room.y;
            while y < room.y + room.height
                invariant
                    room_fits_u32(r),
                    r == room@,
                    room.y <= y <= room.y + room.height,
                    forall|t: (u32, u32)|
                        walkable_tiles@.contains(#[trigger] tile_key(t)) <==> (before.contains(tile_key(t))
                            || (r.x <= t.0 < r.x + r.width && r.y <= t.1 < y)),
                    walkable_tiles@.finite(),
                    walkable_tiles@.len() <= before.len() + (y - r.y) * r.width,
                decreases room.y + room.height - y,
            {
                let ghost before_row = walkable_tiles@;
                let mut x = room.x;
                while x < room.x + room.width
                    invariant
                        room_fits_u32(r),
                        r == room@,
                        room.y <= y < room.y + room.height,
                        room.x <= x <= room.x + room.width,
                        forall|t: (u32, u32)|
                            walkable_tiles@.contains(#[trigger] tile_key(t)) <==> (before_row.contains(tile_key(t))
                                || (t.1 == y && r.x <= t.0 < x)),
                        walkable_tiles@.finite(),
                        walkable_tiles@.len() <= before_row.len() + (x - r.x),
                    decreases room.x + room.width - x,
                {
                    let key = key_of(x, y);
                    walkable_tiles.insert(key);
                    proof {
                        assert forall|t: (u32, u32)|
                            walkable_tiles@.contains(#[trigger] tile_key(t)) <==> (before_row.contains(tile_key(t))
                                || (t.1 == y && r.x <= t.0 < x + 1)) by {
                            if tile_key(t) == key {
                                lemma_tile_key_injective(t, (x, y));
                            }
                        }
                    }
                    x = x + 1;
                }
                proof {
                    assert((y - r.y) * r.width + r.width == (y + 1 - r.y) * r.width) by (nonlinear_arith);
                }
                y = y + 1;
            }
            let ghost after_rooms = walkable_tiles@;
            let mut j: usize = 0;
            while j < room.exits.len()
                invariant
                    room_fits_u32(r),
                    r == room@,
                    j <= room.exits.len(),
                    forall|t: (u32, u32)|
                        walkable_tiles@.contains(#[trigger] tile_key(t)) <==> (after_rooms.contains(tile_key(t))
                            || exists|k: int| 0 <= k < j && corridor_tile(r, #[trigger] r.exits[k]) == t),
                    walkable_tiles@.finite(),
                    walkable_tiles@.len() <= after_rooms.len() + j,
                decreases room.exits.len() - j,
            {
                let exit = room.exits[j];
                let corridor = Self::get_exit_corridor_tiles(room, &exit.wall, exit.position);
                let mut c: usize = 0;
                while c < corridor.len()
                    invariant
                        room_fits_u32(r),
                        r == room@,
                        j < room.exits.len(),
                        exit == r.exits[j as int],
                        corridor@ == seq![corridor_tile(r, exit)],
                        c <= corridor.len(),
                        forall|t: (u32, u32)|
                            walkable_tiles@.contains(#[trigger] tile_key(t)) <==> (after_rooms.contains(tile_key(t))
                                || exists|k: int| 0 <= k < j && corridor_tile(r, #[trigger] r.exits[k]) == t
                                || (c == 1 && t == corridor_tile(r, exit))),
                        walkable_tiles@.finite(),
                        walkable_tiles@.len() <= after_rooms.len() + j + c,
                    decreases corridor.len() - c,
                {
                    let tile = corridor[c];
                    let key = key_of(tile.0, tile.1);
                    let ghost before_c = walkable_tiles@;
                    walkable_tiles.insert(key);
                    proof {
                        assert forall|t: (u32, u32)|
                            walkable_tiles@.contains(#[trigger] tile_key(t)) <==> (after_rooms.contains(tile_key(t))
                                || exists|k: int| 0 <= k < j && corridor_tile(r, #[trigger] r.exits[k]) == t
                                || (c + 1 == 1 && t == corridor_tile(r, exit))) by {
                            if tile_key(t) == key {
                                lemma_tile_key_injective(t, tile);
                            }
                        }
                    }
                    c = c + 1;
                }
                proof {
                    assert forall|t: (u32, u32)|
                        walkable_tiles@.contains(#[trigger] tile_key(t)) <==> (after_rooms.contains(tile_key(t))
                            || exists|k: int| 0 <= k < j + 1 && corridor_tile(r, #[trigger] r.exits[k]) == t) by {
                        if t == corridor_tile(r, exit) {
                            assert(corridor_tile(r, r.exits[j as int]) == t);
                        }
                    }
                }
                j = j + 1;
            }
            proof {
                assert forall|t: (u32, u32)|
                    walkable_tiles@.contains(#[trigger] tile_key(t)) <==> exists|k: int|
                        0 <= k < i + 1 && room_walkable(#[trigger] rooms[k], t) by {
                    if walkable_tiles@.contains(tile_key(t)) {
                        if !before.contains(tile_key(t)) {
                            assert(room_walkable(rooms[i as int], t));
                        }
                    }
                    if exists|k: int| 0 <= k < i + 1 && room_walkable(#[trigger] rooms[k], t) {
                        let k = choose|k: int| 0 <= k < i + 1 && room_walkable(#[trigger] rooms[k], t);
                        if k == i {
                            if !in_room(r, t) {
                                let jj = choose|jj: int| 0 <= jj < r.exits.len() && corridor_tile(r, #[trigger] r.exits[jj]) == t;
                            }
                        }
                    }
                }
            }
            proof {
                assert(rooms.take(i + 1).drop_last() =~= rooms.take(i as int));
                assert(rooms.take(i + 1).last() == r);
            }
            i = i + 1;
        }
        proof {
            assert(rooms.take(i as int) =~= rooms);
        }
        let p = Pathfinder { walkable_tiles };
        proof {
            assert(p@ =~= dungeon_walkable(rooms));
        }
        p
    }

    /// The corridor tile outside the exit at `position` on `wall`.
    fn get_exit_corridor_tiles(room: &Room, wall: &Wall, position: u32) -> (tiles: Vec<(u32, u32)>)
        requires
            room.x + room.width <= u32::MAX,
            room.y + room.height <= u32::MAX,
            room.x + position <= u32::MAX,
            room.y + position <= u32::MAX,
        ensures
            tiles@ == seq![corridor_tile(room@, Exit { wall: *wall, position, connected_room_id: None })],
    {
        let mut tiles: Vec<(u32, u32)> = Vec::new();
        match wall {
            Wall::North => {
                let x = room.x + position;
                let y = room.y.saturating_sub(1);
                tiles.push((x, y));
            },
            Wall::South => {
                let x = room.x + position;
                let y = room.y + room.height;
                tiles.push((x, y));
            },
            Wall::East => {
                let x = room.x + room.width;
                let y = room.y + position;
                tiles.push((x, y));
            },
            Wall::West => {
                let x = room.x.saturating_sub(1);
                let y = room.y + position;
                tiles.push((x, y));
            },
        }
        proof {
            assert(tiles@ =~= seq![corridor_tile(room@, Exit { wall: *wall, position, connected_room_id: None })]);
        }
        tiles
    }

    /// Whether the tile is walkable.
    fn is_walkable(&self, x: u32, y: u32) -> (b: bool)
        ensures
            b == self@.contains((x, y)),
    {
        let key = key_of(x, y);
        self.walkable_tiles.contains(&key)
    }

    /// The walkable neighbours of `(x, y)` in the order north, east, south,
    /// west, each with step cost 1.
    fn successors(&self, x: u32, y: u32) -> (neighbors: Vec<((u32, u32), u32)>)
        requires
            x < SEARCH_LIMIT,
            y < SEARCH_LIMIT,
        ensures
            forall|k: int| 0 <= k < neighbors@.len() ==> (#[trigger] neighbors@[k]).1 == 1 && self@.contains(
                neighbors@[k].0,
            ) && adjacent((x, y), neighbors@[k].0),
            forall|t: (u32, u32)| self@.contains(t) && adjacent((x, y), t) ==> exists|k: int|
                0 <= k < neighbors@.len() && (#[trigger] neighbors@[k]).0 == t,
    {
        let mut neighbors: Vec<((u32, u32), u32)> = Vec::new();
        let directions: [(i32, i32); 4] = [(0, -1), (1, 0), (0, 1), (-1, 0)];
        let mut d: usize = 0;
        while d < 4
            invariant
                x < SEARCH_LIMIT,
                y < SEARCH_LIMIT,
                d <= 4,
                directions@ == seq![(0i32, -1i32), (1i32, 0i32), (0i32, 1i32), (-1i32, 0i32)],
                forall|k: int| 0 <= k < neighbors@.len() ==> (#[trigger] neighbors@[k]).1 == 1 && self@.contains(
                    neighbors@[k].0,
                ) && adjacent((x, y), neighbors@[k].0),
                forall|t: (u32, u32)| self@.contains(t) && adjacent((x, y), t) && direction_index((x, y), t) < d
                    ==> exists|k: int| 0 <= k < neighbors@.len() && (#[trigger] neighbors@[k]).0 == t,
            decreases 4 - d,
        {
            let (dx, dy) = directions[d];
            let new_x = x as i32 + dx;
            let new_y = y as i32 + dy;
            let ghost before = neighbors@;
            if new_x >= 0 && new_y >= 0 {
                let new_pos = (new_x as u32, new_y as u32);
                if self.is_walkable(new_pos.0, new_pos.1) {
                    neighbors.push((new_pos, 1));
                    proof {
                        assert(neighbors@[neighbors@.len() - 1].0 == new_pos);
                        assert forall|k: int| 0 <= k < before.len() implies #[trigger] neighbors@[k] == before[k] by {}
                    }
                }
            }
            proof {
                assert forall|t: (u32, u32)| self@.contains(t) && adjacent((x, y), t) && direction_index((x, y), t) < d + 1
                    implies exists|k: int| 0 <= k < neighbors@.len() && (#[trigger] neighbors@[k]).0 == t by {
                    if direction_index((x, y), t) < d {
                        let k = choose|k: int| 0 <= k < before.len() && (#[trigger] before[k]).0 == t;
                        assert(neighbors@[k] == before[k]);
                    } else {
                        assert(neighbors@[neighbors@.len() - 1].0 == t);
                    }
                }
            }
            d = d + 1;
        }
        proof {
            assert forall|t: (u32, u32)| self@.contains(t) && adjacent((x, y), t) implies exists|k: int|
                0 <= k < neighbors@.len() && (#[trigger] neighbors@[k]).0 == t by {
                assert(direction_index((x, y), t) < 4);
            }
        }
        neighbors
    }

    /// Manhattan distance between two tiles.
    fn heuristic(&self, pos: (u32, u32), goal: (u32, u32)) -> (h: u32)
        requires
            in_search_area(pos),
            in_search_area(goal),
        ensures
            h == manhattan(pos, goal),
    {
        let dx = if pos.0 > goal.0 {
            pos.0 - goal.0
        } else {
            goal.0 - pos.0
        };
        let dy = if pos.1 > goal.1 {
            pos.1 - goal.1
        } else {
            goal.1 - pos.1
        };
        dx + dy
    }

    /// Whether the search has reached the goal.
    fn is_goal(pos: (u32, u32), goal: (u32, u32)) -> (b: bool)
        ensures
            b == (pos == goal),
    {
        pos.0 == goal.0 && pos.1 == goal.1
    }

    /// Calls pathfinding's `astar` from `start`, with this module's
    /// successor, heuristic and goal functions, and returns its result.
    /// Claimed, as pathfinding documents it (the Manhattan heuristic never
    /// overestimates with unit steps): the result is the named search result;
    /// it holds a shortest walk from `start` to `goal`, which includes both,
    /// together with its cost, one per step; there is no result exactly when
    /// no walk exists. The search performs no arithmetic beyond `u32` when all
    /// tiles and both ends lie in the search area and there are fewer than
    /// `TILE_LIMIT` tiles: a cost is the length of a path through distinct
    /// tiles, an estimate is below 2^31, and the search adds one to the other.
    #[verifier::external_body]
    fn astar_search(&self, start: (u32, u32), goal: (u32, u32)) -> (r: Option<(Vec<(u32, u32)>, u32)>)
        requires
            self.fits(),
            in_search_area(start),
            in_search_area(goal),
        ensures
            astar_result(self@, start, goal) == match r {
                Some((p, c)) => Some((p@, c)),
                None => None::<(Seq<(u32, u32)>, u32)>,
            },
            match r {
                Some((p, c)) => is_shortest_walk(self@, p@, start, goal) && c == p@.len() - 1,
                None => !reachable(self@, start, goal),
            },
    {
        astar(
            &start,
            |&(x, y)| self.successors(x, y),
            |&(x, y)| self.heuristic((x, y), goal),
            |&pos| Self::is_goal(pos, goal),
        )
    }

    /// A shortest path from `start` to `goal` over walkable tiles, including
    /// both ends, if there is one.
    pub fn find_path(&self, start: (u32, u32), goal: (u32, u32)) -> (path: Option<Vec<(u32, u32)>>)
        requires
            self.fits(),
            in_search_area(start),
            in_search_area(goal),
        ensures
            path_result(astar_result(self@, start, goal)) == match path {
                Some(p) => Some(p@),
                None => None::<Seq<(u32, u32)>>,
            },
            match path {
                Some(p) => is_shortest_walk(self@, p@, start, goal),
                None => !reachable(self@, start, goal),
            },
    {
        let result = self.astar_search(start, goal);
        match result {
            Some((path, _cost)) => Some(path),
            None => None,
        }
    }
}

/// The path of a search result, without its cost.
pub open spec fn path_result(r: Option<(Seq<(u32, u32)>, u32)>) -> Option<Seq<(u32, u32)>> {
    match r {
        Some((p, _c)) => Some(p),
        None => None,
    }
}

/// Manhattan distance.
pub open spec fn manhattan(a: (u32, u32), b: (u32, u32)) -> int {
    (if a.0 > b.0 {
        a.0 - b.0
    } else {
        b.0 - a.0
    }) + (if a.1 > b.1 {
        a.1 - b.1
    } else {
        b.1 - a.1
    })
}

/// Which of the four directions (north, east, south, west) leads from `a` to `t`.
pub open spec fn direction_index(a: (u32, u32), t: (u32, u32)) -> int {
    if t.0 == a.0 && t.1 + 1 == a.1 {
        0
    } else if t.0 == a.0 + 1 && t.1 == a.1 {
        1
    } else if t.0 == a.0 && t.1 == a.1 + 1 {
        2
    } else if t.0 + 1 == a.0 && t.1 == a.1 {
        3
    } else {
        4
    }
}

} // verus!
