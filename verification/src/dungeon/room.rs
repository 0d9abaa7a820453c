//! Room definition: position, dimensions, exits.
use vstd::prelude::*;

verus! {

/// A room of the dungeon, placed on the dungeon grid with its top-left
/// corner at `(x, y)`; walls are part of its `width` x `height` footprint.
#[derive(Debug, Clone, PartialEq, Eq)]
pub struct Room {
    pub id: usize,
    pub x: u32,
    pub y: u32,
    pub width: u32,
    pub height: u32,
    pub room_type: RoomType,
    pub exits: Vec<Exit>,
    /// Which room this one was generated from.
    pub parent_id: Option<usize>,
    /// Which wall of the parent this room is reached through.
    pub parent_wall: Option<Wall>,
}

#[derive(Debug, Clone, Copy, PartialEq, Eq, Structural)]
pub enum RoomType {
    Entrance,
    Normal,
    Small,
    Large,
    Corridor,
}

/// An exit (door) on one wall of a room; `position` counts along the wall.
#[derive(Debug, Clone, Copy, PartialEq, Eq, Structural)]
pub struct Exit {
    pub wall: Wall,
    pub position: u32,
    /// The room this exit leads to, once it has been generated.
    pub connected_room_id: Option<usize>,
}

#[derive(Debug, Clone, Copy, PartialEq, Eq, Hash, Structural)]
pub enum Wall {
    North,
    East,
    South,
    West,
}

/// The mathematical value of a room: its fields, with the exits as a sequence.
pub struct RoomView {
    pub id: usize,
    pub x: u32,
    pub y: u32,
    pub width: u32,
    pub height: u32,
    pub room_type: RoomType,
    pub exits: Seq<Exit>,
    pub parent_id: Option<usize>,
    pub parent_wall: Option<Wall>,
}

impl View for Room {
    type V = RoomView;

    open spec fn view(&self) -> RoomView {
        RoomView {
            id: self.id,
            x: self.x,
            y: self.y,
            width: self.width,
            height: self.height,
            room_type: self.room_type,
            exits: self.exits@,
            parent_id: self.parent_id,
            parent_wall: self.parent_wall,
        }
    }
}

/// The values of a sequence of rooms.
pub open spec fn rooms_view(rooms: Seq<Room>) -> Seq<RoomView> {
    rooms.map_values(|r: Room| r@)
}

/// A copy of an exit list.
pub fn copy_exits(exits: &Vec<Exit>) -> (c: Vec<Exit>)
    ensures
        c@ == exits@,
{
    let mut c: Vec<Exit> = Vec::new();
    let mut i: usize = 0;
    while i < exits.len()
        invariant
            i <= exits.len(),
            c@ == exits@.take(i as int),
        decreases exits.len() - i,
    {
        c.push(exits[i]);
        i = i + 1;
        proof {
            assert(exits@.take(i as int) =~= exits@.take(i - 1).push(exits@[i - 1]));
        }
    }
    proof {
        assert(exits@.take(i as int) =~= exits@);
    }
    c
}

impl Room {
    /// A copy of this room.
    pub fn copy(&self) -> (c: Room)
        ensures
            c@ == self@,
    {
        Room {
            id: self.id,
            x: self.x,
            y: self.y,
            width: self.width,
            height: self.height,
            room_type: self.room_type,
            exits: copy_exits(&self.exits),
            parent_id: self.parent_id,
            parent_wall: self.parent_wall,
        }
    }

    /// The number of squares the room covers.
    pub open spec fn spec_area(&self) -> int {
        self.width * self.height
    }

    /// A room is a corridor when one of its dimensions is 1.
    pub open spec fn spec_is_corridor(&self) -> bool {
        self.width == 1 || self.height == 1
    }

    /// Room area (width times height).
    pub fn area(&self) -> (a: u32)
        requires
            self.width * self.height <= u32::MAX,
        ensures
            a == self.spec_area(),
    {
        self.width * self.height
    }

    /// Whether the room is a corridor (one of its dimensions is 1).
    pub fn is_corridor(&self) -> (b: bool)
        ensures
            b == self.spec_is_corridor(),
    {
        self.width == 1 || self.height == 1
    }
}

} // verus!
