//! The screensaver's decisions: the command line, exits stepped on, the
//! session's ticks; and the theme and canvas colors.
use dungeon_saver::dungeon::room::{Exit, RoomType, Wall};
use dungeon_saver::renderer::{Camera, Canvas, Cell};
use dungeon_saver::screensaver::{detect_unexplored_exit, parse_seed, parse_u64, Session};
use dungeon_saver::theme::{Rgb, Theme};
use dungeon_saver::Room;

fn args(a: &[&str]) -> Vec<String> {
    a.iter().map(|s| s.to_string()).collect()
}

/// A tile of a room, or the tile just outside one of its exits.
fn walkable(dungeon: &[Room], x: u32, y: u32) -> bool {
    dungeon.iter().any(|r| {
        let inside = x >= r.x && x < r.x + r.width && y >= r.y && y < r.y + r.height;
        inside
            || r.exits.iter().any(|e| {
                let t = match e.wall {
                    Wall::North => (r.x + e.position, r.y.saturating_sub(1)),
                    Wall::South => (r.x + e.position, r.y + r.height),
                    Wall::East => (r.x + r.width, r.y + e.position),
                    Wall::West => (r.x.saturating_sub(1), r.y + e.position),
                };
                t == (x, y)
            })
    })
}

fn room(id: usize, x: u32, y: u32, width: u32, height: u32, exits: Vec<Exit>) -> Room {
    Room { id, x, y, width, height, room_type: RoomType::Normal, exits, parent_id: None, parent_wall: None }
}

#[test]
fn test_parse_u64_like_std() {
    for s in ["0", "42", "+7", "007", "18446744073709551615", "", "+", "-1", "1a", " 1", "18446744073709551616", "++1"] {
        assert_eq!(parse_u64(s), s.parse::<u64>().ok(), "input {:?}", s);
    }
}

#[test]
fn test_parse_seed_flag() {
    assert_eq!(parse_seed(&args(&["dungeon-saver", "--seed", "12345"]), 9), 12345);
    assert_eq!(parse_seed(&args(&["dungeon-saver"]), 9), 9);
    assert_eq!(parse_seed(&args(&["dungeon-saver", "--seed"]), 9), 9);
    assert_eq!(parse_seed(&args(&["dungeon-saver", "--seed", "abc"]), 9), 9);
    // The first `--seed` followed by a number wins.
    assert_eq!(parse_seed(&args(&["x", "--seed", "abc", "--seed", "5", "--seed", "6"]), 9), 5);
    assert_eq!(parse_seed(&args(&["x", "seed", "5"]), 9), 9);
}

#[test]
fn test_detect_unexplored_exit() {
    let exits = vec![
        Exit { wall: Wall::North, position: 2, connected_room_id: None },
        Exit { wall: Wall::East, position: 1, connected_room_id: Some(3) },
        Exit { wall: Wall::South, position: 1, connected_room_id: None },
        Exit { wall: Wall::West, position: 3, connected_room_id: None },
    ];
    let dungeon = vec![room(7, 10, 20, 5, 6, exits)];
    assert_eq!(detect_unexplored_exit(12, 20, &dungeon), Some((7, Wall::North)));
    // A connected exit is explored.
    assert_eq!(detect_unexplored_exit(14, 21, &dungeon), None);
    assert_eq!(detect_unexplored_exit(11, 25, &dungeon), Some((7, Wall::South)));
    assert_eq!(detect_unexplored_exit(10, 23, &dungeon), Some((7, Wall::West)));
    assert_eq!(detect_unexplored_exit(12, 22, &dungeon), None);
    assert_eq!(detect_unexplored_exit(0, 0, &[]), None);
}

#[test]
fn test_session_starts_at_entrance_center() {
    let session = Session::new(42);
    let dungeon = session.dungeon();
    assert_eq!(dungeon.len(), 1);
    assert_eq!(dungeon[0].room_type, RoomType::Entrance);
    let e = &dungeon[0];
    assert_eq!(session.explorer().position(), (e.x + e.width / 2, e.y + e.height / 2));
}

#[test]
fn test_session_ticks_keep_explorer_on_walkable_tiles() {
    let mut session = Session::new(7);
    let mut max_rooms = 1;
    for _ in 0..600 {
        let before = session.dungeon().len();
        let (px, py) = session.explorer().position();
        session.tick();
        let (qx, qy) = session.explorer().position();
        assert!(px.abs_diff(qx) + py.abs_diff(qy) <= 1, "the explorer moves at most one step per tick");
        let after = session.dungeon().len();
        assert!(after == before || after == before + 1);
        assert!(after <= 20);
        max_rooms = max_rooms.max(after);
        let (x, y) = session.explorer().position();
        assert!(walkable(session.dungeon(), x, y), "explorer left the walkable tiles at ({}, {})", x, y);
    }
    // Every room but the entrance was generated behind an exit that now leads to it.
    let dungeon = session.dungeon();
    for r in dungeon.iter().skip(1) {
        let parent = dungeon.iter().find(|p| Some(p.id) == r.parent_id).expect("parent room");
        assert!(parent.exits.iter().any(|e| e.connected_room_id == Some(r.id)));
    }
    assert!(max_rooms >= 1);
}

#[test]
fn test_session_render_text_shows_explorer() {
    for seed in 0..20 {
        let session = Session::new(seed);
        let text = session.render_text();
        let e = &session.dungeon()[0];
        // The explorer shows only on a floor or door cell: the entrance's
        // center is floor when the entrance is at least 3x3.
        let expected = if e.width >= 3 && e.height >= 3 { 1 } else { 0 };
        assert_eq!(text.matches('@').count(), expected, "seed {}", seed);
        assert!(text.contains('#'));
    }
}

#[test]
fn test_theme_colors() {
    let t = Theme::catppuccin_mocha();
    assert_eq!(t.wall, Rgb { r: 88, g: 86, b: 214 });
    assert_eq!(t.floor, Rgb { r: 205, g: 214, b: 244 });
    assert_eq!(t.corridor, Rgb { r: 186, g: 194, b: 222 });
    assert_eq!(t.door, Rgb { r: 250, g: 179, b: 135 });
    assert_eq!(t.explorer, Rgb { r: 166, g: 227, b: 161 });
    assert_eq!(t.background, Rgb { r: 30, g: 30, b: 46 });
}

#[test]
fn test_glyph_colors() {
    let t = Theme::catppuccin_mocha();
    assert_eq!(t.glyph_color('#'), Some(t.wall));
    assert_eq!(t.glyph_color('.'), Some(t.floor));
    assert_eq!(t.glyph_color('-'), Some(t.door));
    assert_eq!(t.glyph_color('|'), Some(t.door));
    assert_eq!(t.glyph_color('@'), Some(t.explorer));
    assert_eq!(t.glyph_color(' '), None);
    assert_eq!(t.glyph_color('x'), None);
}

#[test]
fn test_canvas_frame_cells() {
    let canvas = Canvas::new();
    let t = canvas.theme();
    let door = Exit { wall: Wall::North, position: 1, connected_room_id: None };
    let dungeon = vec![room(0, 2, 1, 3, 3, vec![door])];
    let camera = Camera::new(8, 6);
    let rows = canvas.frame_cells(&dungeon, (3, 2), &camera, 8, 6);
    assert_eq!(rows.len(), 6);
    assert!(rows.iter().all(|r| r.len() == 8));
    let bg = Some(t.background);
    // Empty space: the background.
    assert_eq!(rows[0][0], Cell { ch: ' ', fg: None, bg });
    // Walls.
    assert_eq!(rows[1][2], Cell { ch: '█', fg: Some(t.wall), bg });
    assert_eq!(rows[3][4], Cell { ch: '█', fg: Some(t.wall), bg });
    // The door on the north wall.
    assert_eq!(rows[1][3], Cell { ch: '─', fg: Some(t.door), bg });
    // The explorer on the floor.
    assert_eq!(rows[2][3], Cell { ch: '@', fg: Some(t.explorer), bg: Some(t.floor) });
}

#[test]
fn test_canvas_follows_camera() {
    let canvas = Canvas::new();
    let t = canvas.theme();
    let dungeon = vec![room(0, 10, 10, 4, 4, vec![])];
    let mut camera = Camera::new(6, 6);
    camera.center_on((12, 12));
    assert_eq!((camera.x, camera.y), (9, 9));
    let rows = canvas.frame_cells(&dungeon, (12, 12), &camera, 6, 6);
    assert_eq!(rows[1][1].ch, '█');
    assert_eq!(rows[2][2], Cell { ch: ' ', fg: None, bg: Some(t.floor) });
    assert_eq!(rows[3][3].ch, '@');
    assert_eq!(rows[0][0], Cell { ch: ' ', fg: None, bg: Some(t.background) });
}

#[test]
fn test_explorer_clone_is_a_copy() {
    let mut session = Session::new(5);
    for _ in 0..50 {
        session.tick();
    }
    let copy = session.explorer().clone();
    assert_eq!(copy.position(), session.explorer().position());
    assert_eq!(copy.state, session.explorer().state);
    assert_eq!(format!("{:?}", copy), format!("{:?}", session.explorer()));
}

#[test]
fn test_sessions_with_one_seed_are_identical() {
    let mut a = Session::new(4242);
    let mut b = Session::new(4242);
    for _ in 0..400 {
        a.tick();
        b.tick();
        assert_eq!(a.explorer().position(), b.explorer().position());
        assert_eq!(a.explorer().state, b.explorer().state);
    }
    assert_eq!(a.dungeon(), b.dungeon());
}

#[test]
fn test_canvas_can_draw() {
    let canvas = Canvas::new();
    let camera = Camera::new(8, 6);
    let dungeon = vec![room(0, 2, 1, 3, 3, vec![])];
    assert!(canvas.can_draw(&dungeon, (3, 2), &camera));
    assert!(!canvas.can_draw(&dungeon, (0x8000_0000, 2), &camera));
    let far = vec![room(0, 0x8000_0000, 1, 3, 3, vec![])];
    assert!(!canvas.can_draw(&far, (3, 2), &camera));
    let door = Exit { wall: Wall::East, position: 0, connected_room_id: None };
    assert!(!canvas.can_draw(&[room(0, 0, 0, 0, 3, vec![door])], (0, 0), &camera));
}
