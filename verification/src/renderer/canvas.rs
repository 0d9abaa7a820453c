//! Canvas: what each screen cell shows when the dungeon is drawn through the
//! camera's viewport (1:1 with dungeon space), in the theme's colors.
use crate::dungeon::room::{rooms_view, Exit, Room, RoomView, Wall};
use crate::renderer::camera::Camera;
use crate::theme::{Rgb, Theme};
use vstd::prelude::*;

verus! {

/// A screen cell: a character with its foreground and background colors
/// (`None`: left as the terminal has it).
#[derive(Debug, Clone, Copy, PartialEq, Eq, Structural)]
pub struct Cell {
    pub ch: char,
    pub fg: Option<Rgb>,
    pub bg: Option<Rgb>,
}

/// Draws the dungeon in the theme's colors.
pub struct Canvas {
    theme: Theme,
}

/// Coordinates and sizes up to this bound (`i32::MAX`: the screen arithmetic
/// works in `i32`) are drawn exactly.
pub const CANVAS_LIMIT: u32 = 0x7fff_ffff;

/// Writing `ch` with the given colors over `c`: colors that are given replace
/// the cell's, the others stay.
pub open spec fn paint(c: Cell, ch: char, fg: Option<Rgb>, bg: Option<Rgb>) -> Cell {
    Cell {
        ch,
        fg: if fg is Some {
            fg
        } else {
            c.fg
        },
        bg: if bg is Some {
            bg
        } else {
            c.bg
        },
    }
}

/// Where room `r` starts on screen.
pub open spec fn screen_x(r: RoomView, cam: Camera) -> int {
    r.x - cam.x
}

pub open spec fn screen_y(r: RoomView, cam: Camera) -> int {
    r.y - cam.y
}

/// Room `r` is left out: it lies wholly above or left of the screen, or
/// starts at or beyond its right or bottom edge.
pub open spec fn room_skipped(r: RoomView, cam: Camera, w: int, h: int) -> bool {
    ||| screen_x(r, cam) + r.width < 0
    ||| screen_y(r, cam) + r.height < 0
    ||| screen_x(r, cam) >= w
    ||| screen_y(r, cam) >= h
}

/// Where an exit is in dungeon space: on its wall's row or column.
pub open spec fn door_position(r: RoomView, e: Exit) -> (int, int) {
    match e.wall {
        Wall::North => (r.x + e.position, r.y as int),
        Wall::South => (r.x + e.position, r.y + r.height - 1),
        Wall::West => (r.x as int, r.y + e.position),
        Wall::East => (r.x + r.width - 1, r.y + e.position),
    }
}

/// The door character of an exit on `wall`.
pub open spec fn door_char(wall: Wall) -> char {
    match wall {
        Wall::North | Wall::South => '─',
        Wall::East | Wall::West => '│',
    }
}

/// Cell `(sx, sy)` after the doors among `exits` of room `r` are drawn.
pub open spec fn paint_doors(c: Cell, r: RoomView, exits: Seq<Exit>, cam: Camera, t: Theme, sx: int, sy: int) -> Cell
    decreases exits.len(),
{
    if exits.len() == 0 {
        c
    } else {
        let prev = paint_doors(c, r, exits.drop_last(), cam, t, sx, sy);
        let e = exits.last();
        if door_position(r, e).0 - cam.x == sx && door_position(r, e).1 - cam.y == sy {
            paint(prev, door_char(e.wall), Some(t.door), None)
        } else {
            prev
        }
    }
}

/// Cell `(sx, sy)` after room `r` is drawn: walls as `█`, floor as a
/// floor-colored blank, then its doors.
pub open spec fn paint_room(c: Cell, r: RoomView, cam: Camera, t: Theme, sx: int, sy: int) -> Cell {
    let dx = sx - screen_x(r, cam);
    let dy = sy - screen_y(r, cam);
    let c1 = if 0 <= dx < r.width && 0 <= dy < r.height {
        if dy == 0 || dy == r.height - 1 || dx == 0 || dx == r.width - 1 {
            paint(c, '█', Some(t.wall), None)
        } else {
            paint(c, ' ', None, Some(t.floor))
        }
    } else {
        c
    };
    paint_doors(c1, r, r.exits, cam, t, sx, sy)
}

/// Cell `(sx, sy)` after the rooms are drawn in order on a `w` x `h` screen.
pub open spec fn paint_rooms(rooms: Seq<RoomView>, cam: Camera, t: Theme, w: int, h: int, sx: int, sy: int) -> Cell
    decreases rooms.len(),
{
    if rooms.len() == 0 {
        Cell { ch: ' ', fg: None, bg: Some(t.background) }
    } else {
        let prev = paint_rooms(rooms.drop_last(), cam, t, w, h, sx, sy);
        if room_skipped(rooms.last(), cam, w, h) {
            prev
        } else {
            paint_room(prev, rooms.last(), cam, t, sx, sy)
        }
    }
}

/// What cell `(sx, sy)` of a `w` x `h` screen shows: the rooms, then the
/// explorer as `@`.
pub open spec fn spec_screen_cell(
    rooms: Seq<RoomView>,
    explorer: (u32, u32),
    cam: Camera,
    t: Theme,
    w: int,
    h: int,
    sx: int,
    sy: int,
) -> Cell {
    let c = paint_rooms(rooms, cam, t, w, h, sx, sy);
    if explorer.0 - cam.x == sx && explorer.1 - cam.y == sy {
        paint(c, '@', Some(t.explorer), None)
    } else {
        c
    }
}

/// Every coordinate and size is within `CANVAS_LIMIT`, and door positions
/// can be computed.
pub open spec fn canvas_fits(rooms: Seq<RoomView>, explorer: (u32, u32), cam: Camera) -> bool {
    &&& cam.x <= CANVAS_LIMIT
    &&& cam.y <= CANVAS_LIMIT
    &&& explorer.0 <= CANVAS_LIMIT
    &&& explorer.1 <= CANVAS_LIMIT
    &&& forall|i: int|
        0 <= i < rooms.len() ==> {
            &&& (#[trigger] rooms[i]).x <= CANVAS_LIMIT
            &&& rooms[i].y <= CANVAS_LIMIT
            &&& rooms[i].width <= CANVAS_LIMIT
            &&& rooms[i].height <= CANVAS_LIMIT
            &&& forall|j: int|
                0 <= j < rooms[i].exits.len() ==> {
                    &&& (#[trigger] rooms[i].exits[j]).position <= CANVAS_LIMIT
                    &&& (rooms[i].exits[j].wall == Wall::South ==> rooms[i].y + rooms[i].height >= 1)
                    &&& (rooms[i].exits[j].wall == Wall::East ==> rooms[i].x + rooms[i].width >= 1)
                }
        }
}

impl Canvas {
    pub closed spec fn spec_theme(&self) -> Theme {
        self.theme
    }

    /// A canvas in the Catppuccin Mocha theme.
    pub fn new() -> (c: Self)
        ensures
            c.spec_theme() == Theme::spec_catppuccin_mocha(),
    {
        Canvas { theme: Theme::catppuccin_mocha() }
    }

    /// Whether the dungeon, the explorer and the camera can be drawn exactly
    /// (see `canvas_fits`), which `frame_cells` needs.
    pub fn can_draw(&self, dungeon: &[Room], explorer_pos: (u32, u32), camera: &Camera) -> (b: bool)
        ensures
            b == canvas_fits(rooms_view(dungeon@), explorer_pos, *camera),
    {
        let ghost rooms = rooms_view(dungeon@);
        if camera.x > CANVAS_LIMIT || camera.y > CANVAS_LIMIT || explorer_pos.0 > CANVAS_LIMIT || explorer_pos.1
            > CANVAS_LIMIT {
            return false;
        }
        let mut i: usize = 0;
        while i < dungeon.len()
            invariant
                rooms == rooms_view(dungeon@),
                i <= dungeon.len(),
                forall|k: int|
                    0 <= k < i ==> {
                        &&& (#[trigger] rooms[k]).x <= CANVAS_LIMIT
                        &&& rooms[k].y <= CANVAS_LIMIT
                        &&& rooms[k].width <= CANVAS_LIMIT
                        &&& rooms[k].height <= CANVAS_LIMIT
                        &&& forall|j: int|
                            0 <= j < rooms[k].exits.len() ==> {
                                &&& (#[trigger] rooms[k].exits[j]).position <= CANVAS_LIMIT
                                &&& (rooms[k].exits[j].wall == Wall::South ==> rooms[k].y + rooms[k].height >= 1)
                                &&& (rooms[k].exits[j].wall == Wall::East ==> rooms[k].x + rooms[k].width >= 1)
                            }
                    },
            decreases dungeon.len() - i,
        {
            let room = &dungeon[i];
            proof {
                assert(rooms[i as int] == room@);
            }
            if room.x > CANVAS_LIMIT || room.y > CANVAS_LIMIT || room.width > CANVAS_LIMIT || room.height > CANVAS_LIMIT {
                return false;
            }
            let mut j: usize = 0;
            while j < room.exits.len()
                invariant
                    rooms == rooms_view(dungeon@),
                    i < dungeon.len(),
                    rooms[i as int] == room@,
                    room.x <= CANVAS_LIMIT,
                    room.y <= CANVAS_LIMIT,
                    room.width <= CANVAS_LIMIT,
                    room.height <= CANVAS_LIMIT,
                    j <= room@.exits.len(),
                    forall|l: int|
                        0 <= l < j ==> {
                            &&& (#[trigger] room@.exits[l]).position <= CANVAS_LIMIT
                            &&& (room@.exits[l].wall == Wall::South ==> room.y + room.height >= 1)
                            &&& (room@.exits[l].wall == Wall::East ==> room.x + room.width >= 1)
                        },
                decreases room.exits.len() - j,
            {
                let e = room.exits[j];
                proof {
                    assert(room@.exits[j as int] == e);
                }
                let bottom_ok = room.y as u64 + room.height as u64 >= 1;
                let right_ok = room.x as u64 + room.width as u64 >= 1;
                if e.position > CANVAS_LIMIT || (e.wall == Wall::South && !bottom_ok) || (e.wall == Wall::East
                    && !right_ok) {
                    proof {
                        assert(rooms[i as int].exits[j as int] == e);
                    }
                    return false;
                }
                j = j + 1;
            }
            proof {
                assert forall|l: int| 0 <= l < rooms[i as int].exits.len() implies {
                    &&& (#[trigger] rooms[i as int].exits[l]).position <= CANVAS_LIMIT
                    &&& (rooms[i as int].exits[l].wall == Wall::South ==> rooms[i as int].y + rooms[i as int].height >= 1)
                    &&& (rooms[i as int].exits[l].wall == Wall::East ==> rooms[i as int].x + rooms[i as int].width >= 1)
                } by {
                    assert(rooms[i as int].exits[l] == room@.exits[l]);
                }
            }
            i = i + 1;
        }
        true
    }

    /// The theme.
    pub fn theme(&self) -> (t: Theme)
        ensures
            t == self.spec_theme(),
    {
        self.theme
    }

    /// Cell `(sx, sy)` after the doors of `room` are drawn over `c`.
    fn paint_doors_at(&self, c: Cell, room: &Room, camera: &Camera, sx: i64, sy: i64) -> (r: Cell)
        requires
            room.x <= CANVAS_LIMIT,
            room.y <= CANVAS_LIMIT,
            room.width <= CANVAS_LIMIT,
            room.height <= CANVAS_LIMIT,
            camera.x <= CANVAS_LIMIT,
            camera.y <= CANVAS_LIMIT,
            forall|j: int|
                0 <= j < room@.exits.len() ==> {
                    &&& (#[trigger] room@.exits[j]).position <= CANVAS_LIMIT
                    &&& (room@.exits[j].wall == Wall::South ==> room.y + room.height >= 1)
                    &&& (room@.exits[j].wall == Wall::East ==> room.x + room.width >= 1)
                },
        ensures
            r == paint_doors(c, room@, room@.exits, *camera, self.spec_theme(), sx as int, sy as int),
    {
        let mut cell = c;
        let mut j: usize = 0;
        while j < room.exits.len()
            invariant
                room.x <= CANVAS_LIMIT,
                room.y <= CANVAS_LIMIT,
                room.width <= CANVAS_LIMIT,
                room.height <= CANVAS_LIMIT,
                camera.x <= CANVAS_LIMIT,
                camera.y <= CANVAS_LIMIT,
                forall|k: int|
                    0 <= k < room@.exits.len() ==> {
                        &&& (#[trigger] room@.exits[k]).position <= CANVAS_LIMIT
                        &&& (room@.exits[k].wall == Wall::South ==> room.y + room.height >= 1)
                        &&& (room@.exits[k].wall == Wall::East ==> room.x + room.width >= 1)
                    },
                j <= room.exits.len(),
                cell == paint_doors(c, room@, room@.exits.take(j as int), *camera, self.spec_theme(), sx as int, sy as int),
            decreases room.exits.len() - j,
        {
            let exit = room.exits[j];
            proof {
                assert(room@.exits.take(j + 1).drop_last() =~= room@.exits.take(j as int));
                assert(room@.exits.take(j + 1).last() == exit);
                assert(room@.exits[j as int] == exit);
            }
            let (exit_x, exit_y) = match exit.wall {
                Wall::North => (room.x as i64 + exit.position as i64, room.y as i64),
                Wall::South => (room.x as i64 + exit.position as i64, room.y as i64 + room.height as i64 - 1),
                Wall::West => (room.x as i64, room.y as i64 + exit.position as i64),
                Wall::East => (room.x as i64 + room.width as i64 - 1, room.y as i64 + exit.position as i64),
            };
            if exit_x - camera.x as i64 == sx && exit_y - camera.y as i64 == sy {
                let door = match exit.wall {
                    Wall::North | Wall::South => '─',
                    Wall::East | Wall::West => '│',
                };
                cell = Cell { ch: door, fg: Some(self.theme.door), bg: cell.bg };
            }
            j = j + 1;
        }
        proof {
            assert(room@.exits.take(j as int) =~= room@.exits);
        }
        cell
    }

    /// What screen cell `(sx, sy)` shows (see `spec_screen_cell`).
    fn screen_cell(
        &self,
        dungeon: &[Room],
        explorer_pos: (u32, u32),
        camera: &Camera,
        w: u16,
        h: u16,
        px: u16,
        py: u16,
    ) -> (c: Cell)
        requires
            canvas_fits(rooms_view(dungeon@), explorer_pos, *camera),
        ensures
            c == spec_screen_cell(rooms_view(dungeon@), explorer_pos, *camera, self.spec_theme(), w as int, h as int, px as int, py as int),
    {
        let sx = px as i64;
        let sy = py as i64;
        let ghost rooms = rooms_view(dungeon@);
        let ghost t = self.spec_theme();
        let mut cell = Cell { ch: ' ', fg: None, bg: Some(self.theme.background) };
        let cam_x = camera.x as i64;
        let cam_y = camera.y as i64;
        let mut i: usize = 0;
        while i < dungeon.len()
            invariant
                rooms == rooms_view(dungeon@),
                t == self.spec_theme(),
                canvas_fits(rooms, explorer_pos, *camera),
                cam_x == camera.x,
                cam_y == camera.y,
                i <= dungeon.len(),
                sx == px,
                sy == py,
                cell == paint_rooms(rooms.take(i as int), *camera, t, w as int, h as int, sx as int, sy as int),
            decreases dungeon.len() - i,
        {
            let room = &dungeon[i];
            proof {
                assert(rooms[i as int] == room@);
                assert(rooms.take(i + 1).drop_last() =~= rooms.take(i as int));
                assert(rooms.take(i + 1).last() == room@);
            }
            let room_screen_x = room.x as i64 - cam_x;
            let room_screen_y = room.y as i64 - cam_y;
            let skipped = room_screen_x + (room.width as i64) < 0 || room_screen_y + (room.height as i64) < 0
                || room_screen_x >= w as i64 || room_screen_y >= h as i64;
            if !skipped {
                let dx = sx - room_screen_x;
                let dy = sy - room_screen_y;
                if 0 <= dx && dx < room.width as i64 && 0 <= dy && dy < room.height as i64 {
                    let is_wall = dy == 0 || dy == room.height as i64 - 1 || dx == 0 || dx == room.width as i64 - 1;
                    if is_wall {
                        cell = Cell { ch: '█', fg: Some(self.theme.wall), bg: cell.bg };
                    } else {
                        cell = Cell { ch: ' ', fg: cell.fg, bg: Some(self.theme.floor) };
                    }
                }
                proof {
                    assert forall|j: int| 0 <= j < room@.exits.len() implies {
                        &&& (#[trigger] room@.exits[j]).position <= CANVAS_LIMIT
                        &&& (room@.exits[j].wall == Wall::South ==> room.y + room.height >= 1)
                        &&& (room@.exits[j].wall == Wall::East ==> room.x + room.width >= 1)
                    } by {
                        assert(rooms[i as int].exits[j] == room@.exits[j]);
                    }
                }
                cell = self.paint_doors_at(cell, room, camera, sx, sy);
            }
            i = i + 1;
        }
        proof {
            assert(rooms.take(i as int) =~= rooms);
        }
        let ex = explorer_pos.0 as i64 - cam_x;
        let ey = explorer_pos.1 as i64 - cam_y;
        if ex == sx && ey == sy {
            Cell { ch: '@', fg: Some(self.theme.explorer), bg: cell.bg }
        } else {
            cell
        }
    }

    /// The screen, row by row, when the dungeon and the explorer are drawn
    /// through the camera on a `width` x `height` area.
    pub fn frame_cells(&self, dungeon: &[Room], explorer_pos: (u32, u32), camera: &Camera, width: u16, height: u16) -> (rows: Vec<Vec<Cell>>)
        requires
            canvas_fits(rooms_view(dungeon@), explorer_pos, *camera),
        ensures
            rows@.len() == height,
            forall|y: int| 0 <= y < height ==> (#[trigger] rows@[y])@.len() == width,
            forall|y: int, x: int| 0 <= y < height && 0 <= x < width ==> #[trigger] rows@[y]@[x] == spec_screen_cell(
                rooms_view(dungeon@),
                explorer_pos,
                *camera,
                self.spec_theme(),
                width as int,
                height as int,
                x,
                y,
            ),
    {
        let mut rows: Vec<Vec<Cell>> = Vec::new();
        let mut y: u16 = 0;
        while y < height
            invariant
                canvas_fits(rooms_view(dungeon@), explorer_pos, *camera),
                y <= height,
                rows@.len() == y,
                forall|r: int| 0 <= r < y ==> (#[trigger] rows@[r])@.len() == width,
                forall|r: int, x: int| 0 <= r < y && 0 <= x < width ==> #[trigger] rows@[r]@[x] == spec_screen_cell(
                    rooms_view(dungeon@),
                    explorer_pos,
                    *camera,
                    self.spec_theme(),
                    width as int,
                    height as int,
                    x,
                    r,
                ),
            decreases height - y,
        {
            let mut row: Vec<Cell> = Vec::new();
            let mut x: u16 = 0;
            while x < width
                invariant
                    canvas_fits(rooms_view(dungeon@), explorer_pos, *camera),
                    y < height,
                    x <= width,
                    row@.len() == x,
                    forall|k: int| 0 <= k < x ==> #[trigger] row@[k] == spec_screen_cell(
                        rooms_view(dungeon@),
                        explorer_pos,
                        *camera,
                        self.spec_theme(),
                        width as int,
                        height as int,
                        k,
                        y as int,
                    ),
                decreases width - x,
            {
                let c = self.screen_cell(dungeon, explorer_pos, camera, width, height, x, y);
                row.push(c);
                x = x + 1;
            }
            rows.push(row);
            y = y + 1;
        }
        rows
    }
}

} // verus!
