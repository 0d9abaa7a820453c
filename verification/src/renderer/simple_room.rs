//! ASCII room rendering: a single room, and several rooms placed together
//! with an optional explorer.
use crate::dungeon::room::{Room, Wall};
use crate::text::{join_lines, lemma_join_lines_step, push_char};
use vstd::prelude::*;

verus! {

/// A room to draw: its floor size and which walls have a door.
#[derive(Clone, Copy)]
pub struct SimpleRoom {
    floor_width: usize,
    floor_height: usize,
    has_north_door: bool,
    has_south_door: bool,
    has_east_door: bool,
    has_west_door: bool,
}

/// Rooms placed at offsets, and where the explorer is, if shown.
pub struct MultiRoomRenderer {
    rooms: Vec<(SimpleRoom, usize, usize)>,
    explorer_pos: Option<(usize, usize)>,
}

impl SimpleRoom {
    pub closed spec fn spec_floor_width(&self) -> usize {
        self.floor_width
    }

    pub closed spec fn spec_floor_height(&self) -> usize {
        self.floor_height
    }

    pub closed spec fn spec_north_door(&self) -> bool {
        self.has_north_door
    }

    pub closed spec fn spec_south_door(&self) -> bool {
        self.has_south_door
    }

    pub closed spec fn spec_east_door(&self) -> bool {
        self.has_east_door
    }

    pub closed spec fn spec_west_door(&self) -> bool {
        self.has_west_door
    }

    /// Width with walls.
    pub open spec fn spec_width(&self) -> int {
        self.spec_floor_width() + 2
    }

    /// Height with walls.
    pub open spec fn spec_height(&self) -> int {
        self.spec_floor_height() + 2
    }

    /// The room's dimensions fit in `usize` together with its walls.
    pub open spec fn fits(&self) -> bool {
        self.spec_width() <= usize::MAX && self.spec_height() <= usize::MAX
    }

    /// Column of the north and south doors: slightly left of center.
    pub open spec fn spec_door_x(&self) -> int {
        self.spec_width() / 2 - 1
    }

    /// Row of the east and west doors: slightly below center.
    pub open spec fn spec_door_y(&self) -> int {
        if self.spec_height() > 2 {
            self.spec_height() / 2 + 1
        } else {
            1
        }
    }

    /// The character drawn at column `x`, row `y` of the room: walls `#`,
    /// floor `.`, doors `-` (north, south) and `|` (east, west).
    pub open spec fn spec_cell(&self, x: int, y: int) -> char {
        let w = self.spec_width();
        let h = self.spec_height();
        if y == 0 || y == h - 1 || x == 0 || x == w - 1 {
            if self.spec_north_door() && y == 0 && x == self.spec_door_x() {
                '-'
            } else if self.spec_south_door() && y == h - 1 && x == self.spec_door_x() {
                '-'
            } else if self.spec_east_door() && x == w - 1 && y == self.spec_door_y() {
                '|'
            } else if self.spec_west_door() && x == 0 && y == self.spec_door_y() {
                '|'
            } else {
                '#'
            }
        } else {
            '.'
        }
    }

    /// Row `y` of the drawing.
    pub open spec fn spec_row(&self, y: int) -> Seq<char> {
        Seq::new(self.spec_width() as nat, |x: int| self.spec_cell(x, y))
    }

    /// The rows of the drawing.
    pub open spec fn spec_rows(&self) -> Seq<Seq<char>> {
        Seq::new(self.spec_height() as nat, |y: int| self.spec_row(y))
    }

    /// The drawing: rows joined by newlines.
    pub open spec fn spec_render(&self) -> Seq<char> {
        join_lines(self.spec_rows())
    }

    /// A room with the given floor size and doors.
    pub open spec fn has_layout(&self, fw: usize, fh: usize, n: bool, s: bool, e: bool, w: bool) -> bool {
        &&& self.spec_floor_width() == fw
        &&& self.spec_floor_height() == fh
        &&& self.spec_north_door() == n
        &&& self.spec_south_door() == s
        &&& self.spec_east_door() == e
        &&& self.spec_west_door() == w
    }

    /// Draws a dungeon room: its floor is its size less the walls, and a wall
    /// has a door when the room has an exit on it.
    pub fn from_dungeon_room(room: &Room) -> (r: Self)
        ensures
            r.has_layout(
                crate::renderer::camera::spec_saturating_sub(room.width, 2) as usize,
                crate::renderer::camera::spec_saturating_sub(room.height, 2) as usize,
                has_exit_on(room@.exits, Wall::North),
                has_exit_on(room@.exits, Wall::South),
                has_exit_on(room@.exits, Wall::East),
                has_exit_on(room@.exits, Wall::West),
            ),
    {
        let floor_width = room.width.saturating_sub(2) as usize;
        let floor_height = room.height.saturating_sub(2) as usize;
        SimpleRoom {
            floor_width,
            floor_height,
            has_north_door: any_exit_on(&room.exits, Wall::North),
            has_south_door: any_exit_on(&room.exits, Wall::South),
            has_east_door: any_exit_on(&room.exits, Wall::East),
            has_west_door: any_exit_on(&room.exits, Wall::West),
        }
    }

    /// A 4 x 5 floor room without doors.
    pub fn new() -> (r: Self)
        ensures
            r.has_layout(4, 5, false, false, false, false),
    {
        SimpleRoom {
            floor_width: 4,
            floor_height: 5,
            has_north_door: false,
            has_south_door: false,
            has_east_door: false,
            has_west_door: false,
        }
    }

    /// A 6 x 4 floor room with north and east doors.
    pub fn new_with_doors() -> (r: Self)
        ensures
            r.has_layout(6, 4, true, false, true, false),
    {
        SimpleRoom {
            floor_width: 6,
            floor_height: 4,
            has_north_door: true,
            has_south_door: false,
            has_east_door: true,
            has_west_door: false,
        }
    }

    /// An 8 x 10 floor room without doors.
    pub fn new_large() -> (r: Self)
        ensures
            r.has_layout(8, 10, false, false, false, false),
    {
        SimpleRoom {
            floor_width: 8,
            floor_height: 10,
            has_north_door: false,
            has_south_door: false,
            has_east_door: false,
            has_west_door: false,
        }
    }

    /// A room with the given floor size and doors.
    pub fn from_dimensions(
        floor_width: usize,
        floor_height: usize,
        has_north_door: bool,
        has_south_door: bool,
        has_east_door: bool,
        has_west_door: bool,
    ) -> (r: Self)
        ensures
            r.has_layout(
                floor_width,
                floor_height,
                has_north_door,
                has_south_door,
                has_east_door,
                has_west_door,
            ),
    {
        SimpleRoom {
            floor_width,
            floor_height,
            has_north_door,
            has_south_door,
            has_east_door,
            has_west_door,
        }
    }

    /// The character at column `x`, row `y`.
    fn cell(&self, x: usize, y: usize) -> (c: char)
        requires
            self.fits(),
        ensures
            c == self.spec_cell(x as int, y as int),
    {
        let total_width = self.floor_width + 2;
        let total_height = self.floor_height + 2;
        let door_x = total_width / 2 - 1;
        let door_y = if total_height > 2 {
            total_height / 2 + 1
        } else {
            1
        };
        let is_wall = y == 0 || y == total_height - 1 || x == 0 || x == total_width - 1;
        if is_wall {
            if self.has_north_door && y == 0 && x == door_x {
                '-'
            } else if self.has_south_door && y == total_height - 1 && x == door_x {
                '-'
            } else if self.has_east_door && x == total_width - 1 && y == door_y {
                '|'
            } else if self.has_west_door && x == 0 && y == door_y {
                '|'
            } else {
                '#'
            }
        } else {
            '.'
        }
    }

    /// Renders the room: one line per row, walls `#`, floor `.`, doors `-` and `|`.
    pub fn render(&self) -> (s: String)
        requires
            self.fits(),
        ensures
            s@ == self.spec_render(),
    {
        let total_width = self.floor_width + 2;
        let total_height = self.floor_height + 2;
        let ghost rows = self.spec_rows();
        let mut out = String::new();
        let mut y: usize = 0;
        while y < total_height
            invariant
                self.fits(),
                total_width == self.spec_width(),
                total_height == self.spec_height(),
                rows == self.spec_rows(),
                y <= total_height,
                out@ == join_lines(rows.take(y as int)),
            decreases total_height - y,
        {
            let ghost prefix = out@;
            if y > 0 {
                push_char(&mut out, '\n');
            }
            let mut x: usize = 0;
            while x < total_width
                invariant
                    self.fits(),
                    total_width == self.spec_width(),
                    total_height == self.spec_height(),
                    y < total_height,
                    x <= total_width,
                    out@ == (if y == 0 {
                        Seq::<char>::empty()
                    } else {
                        prefix + seq!['\n']
                    }) + self.spec_row(y as int).take(x as int),
                decreases total_width - x,
            {
                let c = self.cell(x, y);
                push_char(&mut out, c);
                x = x + 1;
                proof {
                    assert(self.spec_row(y as int).take(x as int) =~= self.spec_row(y as int).take(x - 1).push(c));
                }
            }
            proof {
                assert(self.spec_row(y as int).take(x as int) =~= self.spec_row(y as int));
                assert(rows[y as int] == self.spec_row(y as int));
                lemma_join_lines_step(rows, y as int);
                if y == 0 {
                    assert(out@ =~= rows[0]);
                } else {
                    assert(out@ =~= join_lines(rows.take(y as int)) + seq!['\n'] + rows[y as int]);
                }
            }
            y = y + 1;
        }
        proof {
            assert(rows.take(y as int) =~= rows);
        }
        out
    }

    /// Width with walls.
    pub fn width(&self) -> (w: usize)
        requires
            self.fits(),
        ensures
            w == self.spec_width(),
    {
        self.floor_width + 2
    }

    /// Height with walls.
    pub fn height(&self) -> (h: usize)
        requires
            self.fits(),
        ensures
            h == self.spec_height(),
    {
        self.floor_height + 2
    }
}

/// Drawing `ch` over `existing`: doors are never drawn over; a door is drawn
/// over anything; anything else only fills empty space.
pub open spec fn overlay(existing: char, ch: char) -> char {
    if existing == '|' || existing == '-' {
        existing
    } else if ch == '|' || ch == '-' {
        ch
    } else if existing == ' ' {
        ch
    } else {
        existing
    }
}

/// Whether cell `(gx, gy)` lies inside the room placed at `(ox, oy)`.
pub open spec fn covers(p: (SimpleRoom, usize, usize), gx: int, gy: int) -> bool {
    p.1 <= gx < p.1 + p.0.spec_width() && p.2 <= gy < p.2 + p.0.spec_height()
}

/// The character at cell `(gx, gy)` after drawing the placed rooms in order.
pub open spec fn layered_cell(rooms: Seq<(SimpleRoom, usize, usize)>, gx: int, gy: int) -> char
    decreases rooms.len(),
{
    if rooms.len() == 0 {
        ' '
    } else {
        let prev = layered_cell(rooms.drop_last(), gx, gy);
        let p = rooms.last();
        if covers(p, gx, gy) {
            overlay(prev, p.0.spec_cell(gx - p.1, gy - p.2))
        } else {
            prev
        }
    }
}

/// Columns needed to draw the placed rooms.
pub open spec fn extent_x(rooms: Seq<(SimpleRoom, usize, usize)>) -> int
    decreases rooms.len(),
{
    if rooms.len() == 0 {
        0
    } else {
        let prev = extent_x(rooms.drop_last());
        let e = rooms.last().1 + rooms.last().0.spec_width();
        if prev >= e {
            prev
        } else {
            e
        }
    }
}

/// Rows needed to draw the placed rooms.
pub open spec fn extent_y(rooms: Seq<(SimpleRoom, usize, usize)>) -> int
    decreases rooms.len(),
{
    if rooms.len() == 0 {
        0
    } else {
        let prev = extent_y(rooms.drop_last());
        let e = rooms.last().2 + rooms.last().0.spec_height();
        if prev >= e {
            prev
        } else {
            e
        }
    }
}

/// Every placed room fits, together with its offset, in `usize`.
pub open spec fn placements_fit(rooms: Seq<(SimpleRoom, usize, usize)>) -> bool {
    forall|k: int|
        0 <= k < rooms.len() ==> {
            &&& (#[trigger] rooms[k]).0.fits()
            &&& rooms[k].1 + rooms[k].0.spec_width() <= usize::MAX
            &&& rooms[k].2 + rooms[k].0.spec_height() <= usize::MAX
        }
}

proof fn lemma_extent_bounds(rooms: Seq<(SimpleRoom, usize, usize)>)
    requires
        placements_fit(rooms),
    ensures
        0 <= extent_x(rooms) <= usize::MAX,
        0 <= extent_y(rooms) <= usize::MAX,
        rooms.len() > 0 ==> extent_y(rooms) >= 2,
    decreases rooms.len(),
{
    if rooms.len() > 0 {
        let d = rooms.drop_last();
        assert forall|k: int| 0 <= k < d.len() implies {
            &&& (#[trigger] d[k]).0.fits()
            &&& d[k].1 + d[k].0.spec_width() <= usize::MAX
            &&& d[k].2 + d[k].0.spec_height() <= usize::MAX
        } by {
            assert(d[k] == rooms[k]);
        }
        lemma_extent_bounds(d);
        assert(rooms.last() == rooms[rooms.len() - 1]);
    }
}

impl MultiRoomRenderer {
    pub closed spec fn spec_placed(&self) -> Seq<(SimpleRoom, usize, usize)> {
        self.rooms@
    }

    pub closed spec fn spec_explorer(&self) -> Option<(usize, usize)> {
        self.explorer_pos
    }

    /// The character at `(gx, gy)`: the layered rooms, with the explorer `@`
    /// drawn over floor and doors only.
    pub open spec fn spec_cell(&self, gx: int, gy: int) -> char {
        let c = layered_cell(self.spec_placed(), gx, gy);
        match self.spec_explorer() {
            Some(p) => if p.0 == gx && p.1 == gy && (c == '.' || c == '-' || c == '|') {
                '@'
            } else {
                c
            },
            None => c,
        }
    }

    /// Row `gy` of the drawing.
    pub open spec fn spec_row(&self, gy: int) -> Seq<char> {
        Seq::new(extent_x(self.spec_placed()) as nat, |gx: int| self.spec_cell(gx, gy))
    }

    /// The rows of the drawing.
    pub open spec fn spec_rows(&self) -> Seq<Seq<char>> {
        Seq::new(extent_y(self.spec_placed()) as nat, |gy: int| self.spec_row(gy))
    }

    /// The drawing: nothing without rooms, else the rows joined by newlines.
    pub open spec fn spec_render(&self) -> Seq<char> {
        if self.spec_placed().len() == 0 {
            Seq::empty()
        } else {
            join_lines(self.spec_rows())
        }
    }

    pub fn new() -> (r: Self)
        ensures
            r.spec_placed() == Seq::<(SimpleRoom, usize, usize)>::empty(),
            r.spec_explorer() is None,
    {
        MultiRoomRenderer { rooms: Vec::new(), explorer_pos: None }
    }

    /// Places `room` with its top-left corner at `(x, y)`, drawn after the
    /// rooms already placed.
    pub fn add_room(&mut self, room: SimpleRoom, x: usize, y: usize)
        ensures
            final(self).spec_placed() == old(self).spec_placed().push((room, x, y)),
            final(self).spec_explorer() == old(self).spec_explorer(),
    {
        self.rooms.push((room, x, y));
    }

    /// Shows the explorer at `(x, y)`.
    pub fn set_explorer_pos(&mut self, x: usize, y: usize)
        ensures
            final(self).spec_placed() == old(self).spec_placed(),
            final(self).spec_explorer() == Some((x, y)),
    {
        self.explorer_pos = Some((x, y));
    }

    /// Hides the explorer.
    pub fn clear_explorer(&mut self)
        ensures
            final(self).spec_placed() == old(self).spec_placed(),
            final(self).spec_explorer() is None,
    {
        self.explorer_pos = None;
    }

    fn extents(&self) -> (e: (usize, usize))
        requires
            placements_fit(self.spec_placed()),
        ensures
            e.0 == extent_x(self.spec_placed()),
            e.1 == extent_y(self.spec_placed()),
    {
        let ghost all = self.spec_placed();
        let mut max_x: usize = 0;
        let mut max_y: usize = 0;
        let mut k: usize = 0;
        while k < self.rooms.len()
            invariant
                all == self.spec_placed(),
                placements_fit(all),
                k <= all.len(),
                max_x == extent_x(all.take(k as int)),
                max_y == extent_y(all.take(k as int)),
            decreases all.len() - k,
        {
            let (room, x, y) = self.rooms[k];
            proof {
                assert(all.take(k + 1).drop_last() =~= all.take(k as int));
                assert(all.take(k + 1).last() == all[k as int]);
                assert(all[k as int].0.fits());
            }
            let ex = x + room.width();
            let ey = y + room.height();
            if ex > max_x {
                max_x = ex;
            }
            if ey > max_y {
                max_y = ey;
            }
            k = k + 1;
        }
        proof {
            assert(all.take(k as int) =~= all);
        }
        (max_x, max_y)
    }

    fn cell(&self, gx: usize, gy: usize) -> (c: char)
        requires
            placements_fit(self.spec_placed()),
        ensures
            c == self.spec_cell(gx as int, gy as int),
    {
        let ghost all = self.spec_placed();
        let mut c = ' ';
        let mut k: usize = 0;
        while k < self.rooms.len()
            invariant
                all == self.spec_placed(),
                placements_fit(all),
                k <= all.len(),
                c == layered_cell(all.take(k as int), gx as int, gy as int),
            decreases all.len() - k,
        {
            let (room, ox, oy) = self.rooms[k];
            proof {
                assert(all.take(k + 1).drop_last() =~= all.take(k as int));
                assert(all.take(k + 1).last() == all[k as int]);
                assert(all[k as int].0.fits());
            }
            if ox <= gx && gx < ox + room.width() && oy <= gy && gy < oy + room.height() {
                let ch = room.cell(gx - ox, gy - oy);
                c = if c == '|' || c == '-' {
                    c
                } else if ch == '|' || ch == '-' {
                    ch
                } else if c == ' ' {
                    ch
                } else {
                    c
                };
            }
            k = k + 1;
        }
        proof {
            assert(all.take(k as int) =~= all);
        }
        match self.explorer_pos {
            Some((ex, ey)) => if ex == gx && ey == gy && (c == '.' || c == '-' || c == '|') {
                '@'
            } else {
                c
            },
            None => c,
        }
    }

    /// Renders all rooms into one drawing: later rooms fill empty cells and
    /// draw their doors, doors are kept, and the explorer is drawn on a floor
    /// or door cell.
    pub fn render(&self) -> (s: String)
        requires
            placements_fit(self.spec_placed()),
        ensures
            s@ == self.spec_render(),
    {
        if self.rooms.len() == 0 {
            return String::new();
        }
        proof {
            lemma_extent_bounds(self.spec_placed());
        }
        let (max_x, max_y) = self.extents();
        let ghost rows = self.spec_rows();
        let mut out = String::new();
        let mut y: usize = 0;
        while y < max_y
            invariant
                placements_fit(self.spec_placed()),
                max_x == extent_x(self.spec_placed()),
                max_y == extent_y(self.spec_placed()),
                rows == self.spec_rows(),
                y <= max_y,
                out@ == join_lines(rows.take(y as int)),
            decreases max_y - y,
        {
            let ghost prefix = out@;
            if y > 0 {
                push_char(&mut out, '\n');
            }
            let mut x: usize = 0;
            while x < max_x
                invariant
                    placements_fit(self.spec_placed()),
                    max_x == extent_x(self.spec_placed()),
                    y < max_y,
                    x <= max_x,
                    out@ == (if y == 0 {
                        Seq::<char>::empty()
                    } else {
                        prefix + seq!['\n']
                    }) + self.spec_row(y as int).take(x as int),
                decreases max_x - x,
            {
                let c = self.cell(x, y);
                push_char(&mut out, c);
                x = x + 1;
                proof {
                    assert(self.spec_row(y as int).take(x as int) =~= self.spec_row(y as int).take(x - 1).push(c));
                }
            }
            proof {
                assert(self.spec_row(y as int).take(x as int) =~= self.spec_row(y as int));
                assert(rows[y as int] == self.spec_row(y as int));
                lemma_join_lines_step(rows, y as int);
                if y == 0 {
                    assert(out@ =~= rows[0]);
                } else {
                    assert(out@ =~= join_lines(rows.take(y as int)) + seq!['\n'] + rows[y as int]);
                }
            }
            y = y + 1;
        }
        proof {
            assert(rows.take(y as int) =~= rows);
        }
        out
    }
}

/// Some exit is on `wall`.
pub open spec fn has_exit_on(exits: Seq<crate::dungeon::room::Exit>, wall: Wall) -> bool {
    exists|i: int| 0 <= i < exits.len() && (#[trigger] exits[i]).wall == wall
}

fn any_exit_on(exits: &Vec<crate::dungeon::room::Exit>, wall: Wall) -> (b: bool)
    ensures
        b == has_exit_on(exits@, wall),
{
    let mut i: usize = 0;
    while i < exits.len()
        invariant
            i <= exits.len(),
            forall|k: int| 0 <= k < i ==> (#[trigger] exits@[k]).wall != wall,
        decreases exits.len() - i,
    {
        if exits[i].wall == wall {
            return true;
        }
        i = i + 1;
    }
    false
}

} // verus!
