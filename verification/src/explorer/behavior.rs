//! Explorer behavior: exploring vs. wandering, room discovery, pauses.
use crate::dungeon::room::{rooms_view, Exit, Room, RoomView, Wall};
use crate::explorer::pathfinder::{
    adjacent, astar_result, corridor_tile, in_room, in_search_area, is_walk, path_result, Pathfinder, SEARCH_LIMIT,
};
use crate::rng::{after_range, roll_range, RngView, SeededRng};
use std::collections::HashSet;
use vstd::prelude::*;

verus! {

broadcast use vstd::std_specs::hash::group_hash_axioms;

/// The explorer: its position, what it is doing, the rooms it has seen, the
/// path it follows and the ticks until its next step.
#[derive(Debug)]
pub struct Explorer {
    pub x: u32,
    pub y: u32,
    pub state: ExplorerState,
    visited_rooms: HashSet<usize>,
    current_path: Vec<(u32, u32)>,
    path_index: usize,
    move_cooldown: u32,
}

#[derive(Debug, Clone, Copy, PartialEq, Eq, Structural)]
pub enum ExplorerState {
    Exploring,
    Wandering,
    Pausing { ticks_remaining: u32 },
}

/// The value of an explorer.
pub struct ExplorerView {
    pub x: u32,
    pub y: u32,
    pub state: ExplorerState,
    pub visited: Set<usize>,
    pub path: Seq<(u32, u32)>,
    pub path_index: usize,
    pub cooldown: u32,
}

impl View for Explorer {
    type V = ExplorerView;

    closed spec fn view(&self) -> ExplorerView {
        ExplorerView {
            x: self.x,
            y: self.y,
            state: self.state,
            visited: self.visited_rooms@,
            path: self.current_path@,
            path_index: self.path_index,
            cooldown: self.move_cooldown,
        }
    }
}

/// Ticks between steps, counting the tick of the step: the explorer steps every 3 ticks.
pub const STEP_COOLDOWN: u32 = 2;

/// Id of the first room that contains `(x, y)`.
pub open spec fn spec_current_room(dungeon: Seq<RoomView>, x: u32, y: u32) -> Option<usize>
    decreases dungeon.len(),
{
    if dungeon.len() == 0 {
        None
    } else {
        match spec_current_room(dungeon.drop_last(), x, y) {
            Some(id) => Some(id),
            None => {
                let r = dungeon.last();
                if r.x <= x < r.x + r.width && r.y <= y < r.y + r.height {
                    Some(r.id)
                } else {
                    None
                }
            },
        }
    }
}

/// Every exit of every room leads somewhere.
pub open spec fn spec_all_exits_explored(dungeon: Seq<RoomView>) -> bool {
    forall|i: int, j: int|
        0 <= i < dungeon.len() && 0 <= j < dungeon[i].exits.len() ==> (
        #[trigger] dungeon[i].exits[j]).connected_room_id is Some
}

/// Where an exit is in dungeon space: on its wall's row or column.
pub open spec fn spec_exit_position(r: RoomView, e: Exit) -> (u32, u32) {
    match e.wall {
        Wall::North => ((r.x + e.position) as u32, r.y),
        Wall::South => ((r.x + e.position) as u32, (r.y + r.height - 1) as u32),
        Wall::West => (r.x, (r.y + e.position) as u32),
        Wall::East => ((r.x + r.width - 1) as u32, (r.y + e.position) as u32),
    }
}

/// The walkable tile outside an exit is the tile just beyond the exit's own
/// square, on the far side of the wall the exit names: the exit's square lies
/// in the room, the corridor tile is beside it and outside the room, beyond
/// that wall. (A room at the dungeon's top or left edge has no tile beyond
/// its North or West wall; those cases are left out.)
pub proof fn lemma_corridor_tile_beyond_exit(r: RoomView, e: Exit)
    requires
        r.width >= 1,
        r.height >= 1,
        r.x + r.width <= u32::MAX,
        r.y + r.height <= u32::MAX,
        e.wall == Wall::North || e.wall == Wall::South ==> e.position < r.width,
        e.wall == Wall::East || e.wall == Wall::West ==> e.position < r.height,
        e.wall == Wall::North ==> r.y >= 1,
        e.wall == Wall::West ==> r.x >= 1,
    ensures
        in_room(r, spec_exit_position(r, e)),
        adjacent(spec_exit_position(r, e), corridor_tile(r, e)),
        !in_room(r, corridor_tile(r, e)),
        e.wall == Wall::North ==> corridor_tile(r, e).1 < r.y,
        e.wall == Wall::South ==> corridor_tile(r, e).1 >= r.y + r.height,
        e.wall == Wall::West ==> corridor_tile(r, e).0 < r.x,
        e.wall == Wall::East ==> corridor_tile(r, e).0 >= r.x + r.width,
{
}

/// Positions of the unexplored exits among `exits` of room `r`, in order.
pub open spec fn exit_candidates(r: RoomView, exits: Seq<Exit>) -> Seq<(u32, u32)>
    decreases exits.len(),
{
    if exits.len() == 0 {
        Seq::empty()
    } else {
        let prev = exit_candidates(r, exits.drop_last());
        if exits.last().connected_room_id is None {
            prev.push(spec_exit_position(r, exits.last()))
        } else {
            prev
        }
    }
}

/// Positions of the unexplored exits of the dungeon, room by room.
pub open spec fn unexplored_exit_positions(dungeon: Seq<RoomView>) -> Seq<(u32, u32)>
    decreases dungeon.len(),
{
    if dungeon.len() == 0 {
        Seq::empty()
    } else {
        unexplored_exit_positions(dungeon.drop_last()) + exit_candidates(dungeon.last(), dungeon.last().exits)
    }
}

/// Among `cands`, the first one with the shortest path from `start`, with the
/// length of that path; candidates without a path are skipped.
pub open spec fn nearest(tiles: Set<(u32, u32)>, start: (u32, u32), cands: Seq<(u32, u32)>) -> Option<((u32, u32), nat)>
    decreases cands.len(),
{
    if cands.len() == 0 {
        None
    } else {
        let prev = nearest(tiles, start, cands.drop_last());
        let c = cands.last();
        match path_result(astar_result(tiles, start, c)) {
            Some(p) => match prev {
                Some((_, d)) => if p.len() < d {
                    Some((c, p.len()))
                } else {
                    prev
                },
                None => Some((c, p.len())),
            },
            None => prev,
        }
    }
}

/// The length of the path the search finds from `start` to `c`, if any.
pub open spec fn found_path_len(tiles: Set<(u32, u32)>, start: (u32, u32), c: (u32, u32)) -> Option<nat> {
    match path_result(astar_result(tiles, start, c)) {
        Some(p) => Some(p.len()),
        None => None,
    }
}

/// The nearest candidate is nearest: it is one of the candidates, the search
/// finds a path to it of the reported length, and no candidate the search
/// finds a path to has a shorter one. There is none exactly when the search
/// finds a path to no candidate.
pub proof fn lemma_nearest_is_nearest(tiles: Set<(u32, u32)>, start: (u32, u32), cands: Seq<(u32, u32)>)
    ensures
        nearest(tiles, start, cands) is None <==> forall|i: int|
            0 <= i < cands.len() ==> #[trigger] found_path_len(tiles, start, cands[i]) is None,
        nearest(tiles, start, cands) matches Some((c, d)) ==> {
            &&& cands.contains(c)
            &&& found_path_len(tiles, start, c) == Some(d)
            &&& forall|i: int|
                0 <= i < cands.len() && #[trigger] found_path_len(tiles, start, cands[i]) is Some ==> d
                    <= found_path_len(tiles, start, cands[i])->0
        },
    decreases cands.len(),
{
    if cands.len() > 0 {
        let prev_c = cands.drop_last();
        lemma_nearest_is_nearest(tiles, start, prev_c);
        assert forall|i: int| 0 <= i < prev_c.len() implies prev_c[i] == cands[i] by {}
        let c = cands.last();
        assert(c == cands[cands.len() - 1]);
        if nearest(tiles, start, prev_c) is Some {
            let (c0, _d0) = nearest(tiles, start, prev_c)->0;
            let k = choose|k: int| 0 <= k < prev_c.len() && prev_c[k] == c0;
            assert(cands[k] == c0);
        }
    }
}

/// While exploring, the explorer heads for the nearest unexplored exit it can
/// reach: the target is an unexplored exit position, and the search finds no
/// shorter path to any other unexplored exit position.
pub proof fn lemma_explorer_targets_nearest_exit(
    e: ExplorerView,
    dungeon: Seq<RoomView>,
    tiles: Set<(u32, u32)>,
    pick: int,
)
    requires
        e.state == ExplorerState::Exploring,
    ensures
        spec_target(e, dungeon, tiles, pick) matches Some(t) ==> {
            &&& unexplored_exit_positions(dungeon).contains(t)
            &&& found_path_len(tiles, (e.x, e.y), t) is Some
            &&& forall|q: (u32, u32)|
                unexplored_exit_positions(dungeon).contains(q) && #[trigger] found_path_len(tiles, (e.x, e.y), q) is Some
                    ==> found_path_len(tiles, (e.x, e.y), t)->0 <= found_path_len(tiles, (e.x, e.y), q)->0
        },
        spec_target(e, dungeon, tiles, pick) is None ==> forall|q: (u32, u32)|
            unexplored_exit_positions(dungeon).contains(q) ==> #[trigger] found_path_len(tiles, (e.x, e.y), q) is None,
{
    let cands = unexplored_exit_positions(dungeon);
    lemma_nearest_is_nearest(tiles, (e.x, e.y), cands);
    assert forall|q: (u32, u32)| cands.contains(q) && #[trigger] found_path_len(tiles, (e.x, e.y), q) is Some implies
        (nearest(tiles, (e.x, e.y), cands) matches Some((c, d)) ==> d <= found_path_len(tiles, (e.x, e.y), q)->0) by {
        let i = choose|i: int| 0 <= i < cands.len() && cands[i] == q;
    }
    assert forall|q: (u32, u32)| spec_target(e, dungeon, tiles, pick) is None && cands.contains(q) implies
        #[trigger] found_path_len(tiles, (e.x, e.y), q) is None by {
        let i = choose|i: int| 0 <= i < cands.len() && cands[i] == q;
    }
}

/// The center tile of a room.
pub open spec fn room_center(r: RoomView) -> (u32, u32) {
    ((r.x + r.width / 2) as u32, (r.y + r.height / 2) as u32)
}

/// Where the explorer heads next: the nearest unexplored exit while
/// exploring, the center of room `pick` while wandering, nowhere while pausing.
pub open spec fn spec_target(e: ExplorerView, dungeon: Seq<RoomView>, tiles: Set<(u32, u32)>, pick: int) -> Option<(u32, u32)> {
    match e.state {
        ExplorerState::Exploring => match nearest(tiles, (e.x, e.y), unexplored_exit_positions(dungeon)) {
            Some((p, _)) => Some(p),
            None => None,
        },
        ExplorerState::Wandering => if dungeon.len() > 0 {
            Some(room_center(dungeon[pick]))
        } else {
            None
        },
        ExplorerState::Pausing { .. } => None,
    }
}

/// The explorer after looking for a new path: it follows the path to its
/// target from the start, when there is a target and a path to it.
pub open spec fn spec_find_new_path(e: ExplorerView, dungeon: Seq<RoomView>, tiles: Set<(u32, u32)>, pick: int) -> ExplorerView {
    match spec_target(e, dungeon, tiles, pick) {
        Some(t) => match path_result(astar_result(tiles, (e.x, e.y), t)) {
            Some(p) => ExplorerView { path: p, path_index: 0, ..e },
            None => e,
        },
        None => e,
    }
}

/// One tick of the explorer. A pause counts down; when it ends the explorer
/// wanders if every exit is explored and explores otherwise. Entering a room
/// not seen before records it and starts a pause of `pause` ticks, dropping
/// the path. Otherwise, between steps the cooldown counts down; at a step the
/// explorer moves to the next tile of its path, or looks for a new path when
/// the path is done (`pick` is the room it wanders to).
pub open spec fn spec_update(e: ExplorerView, dungeon: Seq<RoomView>, tiles: Set<(u32, u32)>, pause: u32, pick: int) -> ExplorerView {
    if e.state is Pausing && e.state->ticks_remaining > 1 {
        ExplorerView { state: ExplorerState::Pausing { ticks_remaining: (e.state->ticks_remaining - 1) as u32 }, ..e }
    } else {
        let e1 = if e.state is Pausing {
            ExplorerView {
                state: if spec_all_exits_explored(dungeon) {
                    ExplorerState::Wandering
                } else {
                    ExplorerState::Exploring
                },
                ..e
            }
        } else {
            e
        };
        let cr = spec_current_room(dungeon, e1.x, e1.y);
        if cr is Some && !e1.visited.contains(cr->0) {
            ExplorerView {
                visited: e1.visited.insert(cr->0),
                state: ExplorerState::Pausing { ticks_remaining: pause },
                path: Seq::empty(),
                ..e1
            }
        } else if e1.cooldown > 0 {
            ExplorerView { cooldown: (e1.cooldown - 1) as u32, ..e1 }
        } else if e1.path_index < e1.path.len() {
            ExplorerView {
                x: e1.path[e1.path_index as int].0,
                y: e1.path[e1.path_index as int].1,
                path_index: (e1.path_index + 1) as usize,
                cooldown: STEP_COOLDOWN,
                ..e1
            }
        } else {
            spec_find_new_path(e1, dungeon, tiles, pick)
        }
    }
}

/// The dice after one tick of the explorer (see `spec_update`) from state `s`:
/// entering a room not seen before rolls the pause length in `[10, 31)`;
/// looking for a new path while wandering rolls the room to head for; every
/// other tick, a pause countdown among them, rolls nothing.
pub open spec fn spec_update_dice(e: ExplorerView, dungeon: Seq<RoomView>, s: RngView) -> RngView {
    if e.state is Pausing && e.state->ticks_remaining > 1 {
        s
    } else {
        let e1 = if e.state is Pausing {
            ExplorerView {
                state: if spec_all_exits_explored(dungeon) {
                    ExplorerState::Wandering
                } else {
                    ExplorerState::Exploring
                },
                ..e
            }
        } else {
            e
        };
        let cr = spec_current_room(dungeon, e1.x, e1.y);
        if cr is Some && !e1.visited.contains(cr->0) {
            after_range(s, 10, 31)
        } else if e1.cooldown > 0 || e1.path_index < e1.path.len() {
            s
        } else if e1.state is Wandering && dungeon.len() > 0 {
            after_range(s, 0, dungeon.len() as usize)
        } else {
            s
        }
    }
}

/// The state a pause ends in: pausing again (for `pause` ticks) in a room
/// not seen before; otherwise wandering once every exit is explored, and
/// exploring until then.
pub open spec fn state_after_pause(e: ExplorerView, dungeon: Seq<RoomView>, pause: u32) -> ExplorerState {
    let cr = spec_current_room(dungeon, e.x, e.y);
    if cr is Some && !e.visited.contains(cr->0) {
        ExplorerState::Pausing { ticks_remaining: pause }
    } else if spec_all_exits_explored(dungeon) {
        ExplorerState::Wandering
    } else {
        ExplorerState::Exploring
    }
}

/// The explorer counting down a pause.
pub open spec fn counted_down(e: ExplorerView) -> ExplorerView {
    ExplorerView { state: ExplorerState::Pausing { ticks_remaining: (e.state->ticks_remaining - 1) as u32 }, ..e }
}

/// A pause: while more than one tick remains it counts down, the explorer
/// stays where it is and no die is rolled; on its last tick the explorer
/// pauses again if it stands in a room not seen before, and otherwise
/// wanders once every exit is explored, and explores until then.
pub proof fn lemma_pause_transition(
    e: ExplorerView,
    dungeon: Seq<RoomView>,
    tiles: Set<(u32, u32)>,
    pause: u32,
    pick: int,
    s: RngView,
)
    requires
        e.state is Pausing,
    ensures
        e.state->ticks_remaining > 1 ==> spec_update(e, dungeon, tiles, pause, pick) == counted_down(e),
        e.state->ticks_remaining > 1 ==> spec_update_dice(e, dungeon, s) == s,
        e.state->ticks_remaining <= 1 ==> spec_update(e, dungeon, tiles, pause, pick).state == state_after_pause(
            e,
            dungeon,
            pause,
        ),
{
}

/// The explorer is on its path: each tile of the path is beside the one
/// before, and the explorer stands on the tile it reached last (on the first
/// tile before it has taken a step).
pub open spec fn path_follows(e: ExplorerView) -> bool {
    &&& forall|i: int| 1 <= i < e.path.len() ==> adjacent(e.path[i - 1], #[trigger] e.path[i])
    &&& e.path.len() > 0 && e.path_index == 0 ==> e.path[0] == (e.x, e.y)
    &&& 0 < e.path_index <= e.path.len() ==> e.path[e.path_index - 1] == (e.x, e.y)
}

/// The explorer stays where it is or moves to a tile beside it.
pub open spec fn at_most_one_step(a: ExplorerView, b: ExplorerView) -> bool {
    (b.x, b.y) == (a.x, a.y) || adjacent((a.x, a.y), (b.x, b.y))
}

/// The explorer stands on a walkable tile and its path runs over walkable tiles.
pub open spec fn explorer_on_tiles(e: ExplorerView, tiles: Set<(u32, u32)>) -> bool {
    &&& tiles.contains((e.x, e.y))
    &&& forall|k: int| 0 <= k < e.path.len() ==> tiles.contains(#[trigger] e.path[k])
}

/// The explorer can act in this dungeon: every position it may head for lies
/// in the search area, and computing them cannot overflow.
pub open spec fn dungeon_searchable(dungeon: Seq<RoomView>) -> bool {
    forall|i: int|
        0 <= i < dungeon.len() ==> {
            &&& (#[trigger] dungeon[i]).x + dungeon[i].width < SEARCH_LIMIT
            &&& dungeon[i].y + dungeon[i].height < SEARCH_LIMIT
            &&& forall|j: int|
                0 <= j < dungeon[i].exits.len() && (#[trigger] dungeon[i].exits[j]).connected_room_id is None
                    ==> exit_target_ok(dungeon[i], dungeon[i].exits[j])
        }
}

/// The position of an unexplored exit can be computed and lies in the search area.
pub open spec fn exit_target_ok(r: RoomView, e: Exit) -> bool {
    &&& r.x + e.position < SEARCH_LIMIT
    &&& r.y + e.position < SEARCH_LIMIT
    &&& (e.wall == Wall::South ==> r.y + r.height >= 1)
    &&& (e.wall == Wall::East ==> r.x + r.width >= 1)
}

proof fn lemma_candidates_in_area(r: RoomView, exits: Seq<Exit>)
    requires
        r.x + r.width < SEARCH_LIMIT,
        r.y + r.height < SEARCH_LIMIT,
        forall|j: int| 0 <= j < exits.len() && (#[trigger] exits[j]).connected_room_id is None ==> exit_target_ok(r, exits[j]),
    ensures
        forall|k: int| 0 <= k < exit_candidates(r, exits).len() ==> in_search_area(#[trigger] exit_candidates(r, exits)[k]),
    decreases exits.len(),
{
    if exits.len() > 0 {
        let d = exits.drop_last();
        assert forall|j: int| 0 <= j < d.len() && (#[trigger] d[j]).connected_room_id is None implies exit_target_ok(r, d[j]) by {
            assert(d[j] == exits[j]);
        }
        lemma_candidates_in_area(r, d);
        assert(exits.last() == exits[exits.len() - 1]);
        let prev = exit_candidates(r, d);
        let cur = exit_candidates(r, exits);
        assert forall|k: int| 0 <= k < cur.len() implies in_search_area(#[trigger] cur[k]) by {
            if k < prev.len() {
                assert(cur[k] == prev[k]);
            } else {
                assert(cur[k] == spec_exit_position(r, exits.last()));
            }
        }
    }
}

/// Calls std's `HashSet::clone`, which copies the set; cloning a `usize`
/// gives the same number, so the copy holds the same room ids.
#[verifier::external_body]
fn clone_room_ids(s: &HashSet<usize>) -> (c: HashSet<usize>)
    ensures
        c@ == s@,
{
    s.clone()
}

impl Clone for Explorer {
    /// A copy of the explorer: same position, state, rooms seen, path and cooldown.
    fn clone(&self) -> (c: Self)
        ensures
            c@ == self@,
    {
        let mut path: Vec<(u32, u32)> = Vec::new();
        let mut i: usize = 0;
        while i < self.current_path.len()
            invariant
                i <= self.current_path@.len(),
                path@ == self.current_path@.take(i as int),
            decreases self.current_path.len() - i,
        {
            path.push(self.current_path[i]);
            i = i + 1;
            proof {
                assert(path@ =~= self.current_path@.take(i as int));
            }
        }
        proof {
            assert(path@ =~= self.current_path@);
        }
        Explorer {
            x: self.x,
            y: self.y,
            state: self.state,
            visited_rooms: clone_room_ids(&self.visited_rooms),
            current_path: path,
            path_index: self.path_index,
            move_cooldown: self.move_cooldown,
        }
    }
}

impl Explorer {
    pub fn new(start_x: u32, start_y: u32) -> (e: Self)
        ensures
            e@.x == start_x,
            e@.y == start_y,
            e@.state == ExplorerState::Exploring,
            e@.visited == Set::<usize>::empty(),
            e@.path == Seq::<(u32, u32)>::empty(),
            e@.path_index == 0,
            e@.cooldown == 0,
    {
        Explorer {
            x: start_x,
            y: start_y,
            state: ExplorerState::Exploring,
            visited_rooms: HashSet::new(),
            current_path: Vec::new(),
            path_index: 0,
            move_cooldown: 0,
        }
    }

    /// The explorer's position.
    pub fn position(&self) -> (p: (u32, u32))
        ensures
            p == (self@.x, self@.y),
    {
        (self.x, self.y)
    }

    /// Advances the explorer by one tick (called each frame); see `spec_update`.
    pub fn update(&mut self, dungeon: &[Room], pathfinder: &Pathfinder, rng: &mut SeededRng)
        requires
            pathfinder.fits(),
            dungeon_searchable(rooms_view(dungeon@)),
            in_search_area((old(self)@.x, old(self)@.y)),
            forall|k: int| 0 <= k < old(self)@.path.len() ==> in_search_area(#[trigger] old(self)@.path[k]),
        ensures
            exists|pause: u32, pick: int|
                10 <= pause <= 30 && (dungeon@.len() > 0 ==> 0 <= pick < dungeon@.len()) && final(self)@
                    == spec_update(old(self)@, rooms_view(dungeon@), pathfinder@, pause, pick),
            final(self)@ == spec_update(
                old(self)@,
                rooms_view(dungeon@),
                pathfinder@,
                roll_range(old(rng)@, 10, 31) as u32,
                roll_range(old(rng)@, 0, dungeon@.len() as usize) as int,
            ),
            final(rng)@ == spec_update_dice(old(self)@, rooms_view(dungeon@), old(rng)@),
            explorer_on_tiles(old(self)@, pathfinder@) ==> explorer_on_tiles(final(self)@, pathfinder@),
            path_follows(old(self)@) ==> path_follows(final(self)@) && at_most_one_step(old(self)@, final(self)@),
    {
        let ghost rooms = rooms_view(dungeon@);
        let ghost e0 = self@;
        let ghost s0 = rng@;
        let ghost p = roll_range(s0, 10, 31) as u32;
        let ghost k = roll_range(s0, 0, dungeon@.len() as usize) as int;
        if let ExplorerState::Pausing { ticks_remaining } = self.state {
            if ticks_remaining > 1 {
                self.state = ExplorerState::Pausing { ticks_remaining: ticks_remaining - 1 };
                assert(self@ == spec_update(e0, rooms, pathfinder@, 10, 0));
                assert(self@ == spec_update(e0, rooms, pathfinder@, p, k));
                return;
            } else {
                if self.all_exits_explored(dungeon) {
                    self.state = ExplorerState::Wandering;
                } else {
                    self.state = ExplorerState::Exploring;
                }
            }
        }
        let ghost e1 = self@;
        if let Some(room_id) = self.current_room(dungeon) {
            if !self.visited_rooms.contains(&room_id) {
                self.visited_rooms.insert(room_id);
                let pause_ticks = rng.range(10, 31) as u32;
                self.state = ExplorerState::Pausing { ticks_remaining: pause_ticks };
                self.current_path.clear();
                assert(self@ == spec_update(e0, rooms, pathfinder@, pause_ticks, 0));
                assert(self@ == spec_update(e0, rooms, pathfinder@, p, k));
                return;
            }
        }
        if self.move_cooldown > 0 {
            self.move_cooldown = self.move_cooldown - 1;
            assert(self@ == spec_update(e0, rooms, pathfinder@, 10, 0));
            assert(self@ == spec_update(e0, rooms, pathfinder@, p, k));
            return;
        }
        if self.path_index < self.current_path.len() {
            let next_pos = self.current_path[self.path_index];
            self.x = next_pos.0;
            self.y = next_pos.1;
            self.path_index = self.path_index + 1;
            self.move_cooldown = STEP_COOLDOWN;
            assert(self@ == spec_update(e0, rooms, pathfinder@, 10, 0));
            assert(self@ == spec_update(e0, rooms, pathfinder@, p, k));
        } else {
            let ghost e2 = self@;
            let pick = self.find_new_path(dungeon, pathfinder, rng);
            assert(self@ == spec_update(e0, rooms, pathfinder@, 10, pick as int));
            assert(spec_find_new_path(e2, rooms, pathfinder@, pick as int) == spec_find_new_path(e2, rooms, pathfinder@, k));
            assert(self@ == spec_update(e0, rooms, pathfinder@, p, k));
        }
    }

    /// Heads for a new target (see `spec_find_new_path`); returns the room
    /// picked when wandering.
    fn find_new_path(&mut self, dungeon: &[Room], pathfinder: &Pathfinder, rng: &mut SeededRng) -> (pick: usize)
        requires
            pathfinder.fits(),
            dungeon_searchable(rooms_view(dungeon@)),
            in_search_area((old(self)@.x, old(self)@.y)),
        ensures
            dungeon@.len() > 0 ==> pick < dungeon@.len(),
            final(self)@ == spec_find_new_path(old(self)@, rooms_view(dungeon@), pathfinder@, pick as int),
            old(self)@.state is Wandering && dungeon@.len() > 0 ==> pick == roll_range(old(rng)@, 0, dungeon@.len() as usize),
            final(rng)@ == if old(self)@.state is Wandering && dungeon@.len() > 0 {
                after_range(old(rng)@, 0, dungeon@.len() as usize)
            } else {
                old(rng)@
            },
            final(self)@.path == old(self)@.path || is_walk(pathfinder@, final(self)@.path, (old(self)@.x, old(self)@.y), final(self)@.path.last()),
            final(self)@ == old(self)@ || (final(self)@.path_index == 0 && is_walk(
                pathfinder@,
                final(self)@.path,
                (old(self)@.x, old(self)@.y),
                final(self)@.path.last(),
            ) && (final(self)@.x, final(self)@.y) == (old(self)@.x, old(self)@.y)),
    {
        let ghost rooms = rooms_view(dungeon@);
        let mut pick: usize = 0;
        let target = match self.state {
            ExplorerState::Exploring => self.find_nearest_unexplored_exit(dungeon, pathfinder),
            ExplorerState::Wandering => {
                if dungeon.len() > 0 {
                    let room_idx = rng.range(0, dungeon.len());
                    pick = room_idx;
                    let room = &dungeon[room_idx];
                    proof {
                        assert(rooms[room_idx as int] == room@);
                        assert(room@.x + room@.width < SEARCH_LIMIT);
                    }
                    Some((room.x + room.width / 2, room.y + room.height / 2))
                } else {
                    None
                }
            },
            ExplorerState::Pausing { .. } => None,
        };
        assert(target == spec_target(self@, rooms, pathfinder@, pick as int));
        if let Some(target_pos) = target {
            proof {
                if self.state == ExplorerState::Wandering {
                    assert(rooms[pick as int].x + rooms[pick as int].width < SEARCH_LIMIT);
                    assert(rooms[pick as int].y + rooms[pick as int].height < SEARCH_LIMIT);
                }
                assert(in_search_area(target_pos));
            }
            if let Some(path) = pathfinder.find_path((self.x, self.y), target_pos) {
                self.current_path = path;
                self.path_index = 0;
            }
        }
        pick
    }

    /// The nearest unexplored exit (see `nearest`).
    fn find_nearest_unexplored_exit(&self, dungeon: &[Room], pathfinder: &Pathfinder) -> (t: Option<(u32, u32)>)
        requires
            pathfinder.fits(),
            dungeon_searchable(rooms_view(dungeon@)),
            in_search_area((self@.x, self@.y)),
        ensures
            t == match nearest(pathfinder@, (self@.x, self@.y), unexplored_exit_positions(rooms_view(dungeon@))) {
                Some((p, _)) => Some(p),
                None => None,
            },
            t matches Some(p) ==> in_search_area(p),
    {
        let ghost rooms = rooms_view(dungeon@);
        let ghost tiles = pathfinder@;
        let ghost start = (self.x, self.y);
        let mut nearest_found: Option<(u32, u32, usize)> = None;
        let mut i: usize = 0;
        while i < dungeon.len()
            invariant
                rooms == rooms_view(dungeon@),
                tiles == pathfinder@,
                start == (self.x, self.y),
                pathfinder.fits(),
                dungeon_searchable(rooms),
                in_search_area(start),
                i <= dungeon.len(),
                found_matches(nearest_found, nearest(tiles, start, unexplored_exit_positions(rooms.take(i as int)))),
            decreases dungeon.len() - i,
        {
            let room = &dungeon[i];
            let ghost r = room@;
            let ghost prefix = unexplored_exit_positions(rooms.take(i as int));
            proof {
                assert(rooms[i as int] == r);
                assert(rooms.take(i + 1).drop_last() =~= rooms.take(i as int));
                assert(rooms.take(i + 1).last() == r);
                assert(r.x + r.width < SEARCH_LIMIT);
            }
            let mut j: usize = 0;
            while j < room.exits.len()
                invariant
                    rooms == rooms_view(dungeon@),
                    tiles == pathfinder@,
                    start == (self.x, self.y),
                    pathfinder.fits(),
                    dungeon_searchable(rooms),
                    in_search_area(start),
                    i < dungeon.len(),
                    r == room@,
                    r == rooms[i as int],
                    j <= room.exits.len(),
                    found_matches(nearest_found, nearest(tiles, start, prefix + exit_candidates(r, r.exits.take(j as int)))),
                decreases room.exits.len() - j,
            {
                let exit = room.exits[j];
                proof {
                    assert(r.exits.take(j + 1).drop_last() =~= r.exits.take(j as int));
                    assert(r.exits.take(j + 1).last() == exit);
                }
                if exit.connected_room_id.is_none() {
                    proof {
                        assert(rooms[i as int].exits[j as int] == exit);
                        assert(exit_target_ok(r, exit));
                    }
                    let exit_pos = Self::calculate_exit_position(room, &exit);
                    let ghost cands = prefix + exit_candidates(r, r.exits.take(j as int));
                    proof {
                        assert(prefix + exit_candidates(r, r.exits.take(j + 1)) =~= cands.push(exit_pos));
                        assert(cands.push(exit_pos).drop_last() =~= cands);
                    }
                    if let Some(path) = pathfinder.find_path((self.x, self.y), exit_pos) {
                        let distance = path.len();
                        let better = match nearest_found {
                            None => true,
                            Some((_, _, d)) => distance < d,
                        };
                        if better {
                            nearest_found = Some((exit_pos.0, exit_pos.1, distance));
                        }
                    }
                } else {
                    proof {
                        assert(prefix + exit_candidates(r, r.exits.take(j + 1)) =~= prefix + exit_candidates(r, r.exits.take(j as int)));
                    }
                }
                j = j + 1;
            }
            proof {
                assert(r.exits.take(j as int) =~= r.exits);
                assert(unexplored_exit_positions(rooms.take(i + 1)) =~= prefix + exit_candidates(r, r.exits));
            }
            i = i + 1;
        }
        proof {
            assert(rooms.take(i as int) =~= rooms);
            lemma_nearest_in(tiles, start, unexplored_exit_positions(rooms));
            lemma_unexplored_in_area(rooms);
        }
        match nearest_found {
            Some((x, y, _)) => Some((x, y)),
            None => None,
        }
    }

    /// Where an exit is in dungeon space.
    fn calculate_exit_position(room: &Room, exit: &Exit) -> (p: (u32, u32))
        requires
            room.x + room.width < SEARCH_LIMIT,
            room.y + room.height < SEARCH_LIMIT,
            exit_target_ok(room@, *exit),
        ensures
            p == spec_exit_position(room@, *exit),
    {
        match exit.wall {
            Wall::North => (room.x + exit.position, room.y),
            Wall::South => (room.x + exit.position, room.y + room.height - 1),
            Wall::West => (room.x, room.y + exit.position),
            Wall::East => (room.x + room.width - 1, room.y + exit.position),
        }
    }

    /// The id of the first room the explorer is in.
    fn current_room(&self, dungeon: &[Room]) -> (r: Option<usize>)
        requires
            forall|k: int|
                0 <= k < dungeon@.len() ==> (#[trigger] rooms_view(dungeon@)[k]).x + rooms_view(dungeon@)[k].width
                    <= u32::MAX && rooms_view(dungeon@)[k].y + rooms_view(dungeon@)[k].height <= u32::MAX,
        ensures
            r == spec_current_room(rooms_view(dungeon@), self@.x, self@.y),
    {
        let ghost rooms = rooms_view(dungeon@);
        let mut i: usize = 0;
        while i < dungeon.len()
            invariant
                rooms == rooms_view(dungeon@),
                forall|k: int|
                    0 <= k < dungeon@.len() ==> (#[trigger] rooms[k]).x + rooms[k].width <= u32::MAX && rooms[k].y
                        + rooms[k].height <= u32::MAX,
                i <= dungeon.len(),
                spec_current_room(rooms.take(i as int), self@.x, self@.y) is None,
            decreases dungeon.len() - i,
        {
            let room = &dungeon[i];
            proof {
                assert(rooms[i as int] == room@);
                assert(rooms.take(i + 1).drop_last() =~= rooms.take(i as int));
                assert(rooms.take(i + 1).last() == room@);
            }
            if self.x >= room.x && self.x < room.x + room.width && self.y >= room.y && self.y < room.y
                + room.height {
                proof {
                    lemma_current_room_prefix(rooms, i + 1, self@.x, self@.y);
                }
                return Some(room.id);
            }
            i = i + 1;
        }
        proof {
            assert(rooms.take(i as int) =~= rooms);
        }
        None
    }

    /// Whether every exit in the dungeon leads somewhere.
    fn all_exits_explored(&self, dungeon: &[Room]) -> (b: bool)
        ensures
            b == spec_all_exits_explored(rooms_view(dungeon@)),
    {
        let ghost rooms = rooms_view(dungeon@);
        let mut i: usize = 0;
        while i < dungeon.len()
            invariant
                rooms == rooms_view(dungeon@),
                i <= dungeon.len(),
                forall|a: int, b: int| 0 <= a < i && 0 <= b < rooms[a].exits.len() ==> (
                #[trigger] rooms[a].exits[b]).connected_room_id is Some,
            decreases dungeon.len() - i,
        {
            let room = &dungeon[i];
            proof {
                assert(rooms[i as int] == room@);
            }
            let mut j: usize = 0;
            while j < room.exits.len()
                invariant
                    rooms == rooms_view(dungeon@),
                    i < dungeon.len(),
                    rooms[i as int] == room@,
                    j <= room.exits.len(),
                    forall|a: int, b: int| 0 <= a < i && 0 <= b < rooms[a].exits.len() ==> (
                    #[trigger] rooms[a].exits[b]).connected_room_id is Some,
                    forall|b: int| 0 <= b < j ==> (#[trigger] rooms[i as int].exits[b]).connected_room_id is Some,
                decreases room.exits.len() - j,
            {
                if room.exits[j].connected_room_id.is_none() {
                    proof {
                        assert(rooms[i as int].exits[j as int].connected_room_id is None);
                    }
                    return false;
                }
                j = j + 1;
            }
            i = i + 1;
        }
        true
    }
}

/// The search state matches a `nearest` result: same position and distance.
pub open spec fn found_matches(found: Option<(u32, u32, usize)>, n: Option<((u32, u32), nat)>) -> bool {
    match (found, n) {
        (None, None) => true,
        (Some((x, y, d)), Some((p, dn))) => x == p.0 && y == p.1 && d == dn,
        _ => false,
    }
}

proof fn lemma_current_room_prefix(rooms: Seq<RoomView>, n: int, x: u32, y: u32)
    requires
        0 <= n <= rooms.len(),
        spec_current_room(rooms.take(n), x, y) is Some,
    ensures
        spec_current_room(rooms, x, y) == spec_current_room(rooms.take(n), x, y),
    decreases rooms.len() - n,
{
    if n < rooms.len() {
        assert(rooms.take(n + 1).drop_last() =~= rooms.take(n));
        lemma_current_room_prefix(rooms, n + 1, x, y);
    } else {
        assert(rooms.take(n) =~= rooms);
    }
}

/// The nearest candidate is one of the candidates.
proof fn lemma_nearest_in(tiles: Set<(u32, u32)>, start: (u32, u32), cands: Seq<(u32, u32)>)
    ensures
        nearest(tiles, start, cands) matches Some((p, _)) ==> cands.contains(p),
    decreases cands.len(),
{
    if cands.len() > 0 {
        lemma_nearest_in(tiles, start, cands.drop_last());
        if let Some((p, _)) = nearest(tiles, start, cands.drop_last()) {
            let k = choose|k: int| 0 <= k < cands.drop_last().len() && cands.drop_last()[k] == p;
            assert(cands[k] == p);
        }
        assert(cands[cands.len() - 1] == cands.last());
    }
}

/// Every unexplored exit position lies in the search area.
proof fn lemma_unexplored_in_area(rooms: Seq<RoomView>)
    requires
        dungeon_searchable(rooms),
    ensures
        forall|k: int| 0 <= k < unexplored_exit_positions(rooms).len() ==> in_search_area(
            #[trigger] unexplored_exit_positions(rooms)[k],
        ),
    decreases rooms.len(),
{
    if rooms.len() > 0 {
        let d = rooms.drop_last();
        assert forall|i: int| 0 <= i < d.len() implies {
            &&& (#[trigger] d[i]).x + d[i].width < SEARCH_LIMIT
            &&& d[i].y + d[i].height < SEARCH_LIMIT
            &&& forall|j: int|
                0 <= j < d[i].exits.len() && (#[trigger] d[i].exits[j]).connected_room_id is None
                    ==> exit_target_ok(d[i], d[i].exits[j])
        } by {
            assert(d[i] == rooms[i]);
        }
        lemma_unexplored_in_area(d);
        let r = rooms.last();
        assert(r == rooms[rooms.len() - 1]);
        lemma_candidates_in_area(r, r.exits);
        let a = unexplored_exit_positions(d);
        let b = exit_candidates(r, r.exits);
        assert forall|k: int| 0 <= k < (a + b).len() implies in_search_area(#[trigger] (a + b)[k]) by {
            if k < a.len() {
                assert((a + b)[k] == a[k]);
            } else {
                assert((a + b)[k] == b[k - a.len()]);
            }
        }
    }
}

} // verus!
