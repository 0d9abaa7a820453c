//! Main loop constants.

#[test]
fn test_frame_duration_constant() {
    // Verify the FPS calculation is correct
    const TARGET_FPS: u64 = 10;
    const FRAME_DURATION_MS: u64 = 1000 / TARGET_FPS;

    assert_eq!(FRAME_DURATION_MS, 100, "10 FPS should result in 100ms per frame");
}

use dungeon_saver::screensaver::{should_quit, KeyCode, KeyPress};
use dungeon_saver::{DungeonGenerator, MapExporter};

#[test]
fn test_progressive_generation_creates_different_dungeons() {
    // With progressive generation, different seeds produce different entrance rooms
    let seed1 = 111;
    let seed2 = 222;

    let mut gen1 = DungeonGenerator::new(seed1);
    let entrance1 = gen1.generate_entrance();

    let mut gen2 = DungeonGenerator::new(seed2);
    let entrance2 = gen2.generate_entrance();

    // Different seeds should produce different entrance rooms
    // (either dimensions or exit positions differ)
    let different_dimensions = entrance1.width != entrance2.width || entrance1.height != entrance2.height;

    let different_exit_positions = !entrance1
        .exits
        .iter()
        .zip(entrance2.exits.iter())
        .all(|(e1, e2)| e1.wall == e2.wall && e1.position == e2.position);

    assert!(
        different_dimensions || different_exit_positions,
        "Different seeds should produce different entrance rooms (seed1={}, seed2={})",
        seed1,
        seed2
    );
}

#[test]
fn test_full_progressive_generation_document() {
    let seed = 42;
    let mut generator = DungeonGenerator::new(seed);
    let mut dungeon = vec![generator.generate_entrance()];
    let mut iterations = 0;
    while dungeon.len() < 20 && iterations < 100 {
        let unexplored = dungeon.iter().find_map(|r| {
            r.exits.iter().find(|e| e.connected_room_id.is_none()).map(|e| (r.id, e.wall))
        });
        if let Some((room_id, wall)) = unexplored {
            let new_room = generator.add_room(room_id, wall);
            if let Some(parent) = dungeon.iter_mut().find(|r| r.id == room_id) {
                if let Some(exit) = parent.exits.iter_mut().find(|e| e.wall == wall && e.connected_room_id.is_none()) {
                    exit.connected_room_id = Some(new_room.id);
                }
            }
            dungeon.push(new_room);
        } else {
            break;
        }
        iterations += 1;
    }
    assert!(!dungeon.is_empty());
    assert!(dungeon.len() >= 10, "Should generate at least 10 rooms");

    let exporter = MapExporter::new(seed);
    let (name, content) = exporter.prepare_export(&dungeon);
    assert!(name.ends_with(".txt"));
    assert!(content.contains("Room Count:"));
    assert!(content.contains("Dimensions:"));
}

#[test]
fn test_quit_on_lowercase_q() {
    let key = KeyPress { code: KeyCode::Char('q'), control: false };
    assert!(should_quit(&key), "lowercase 'q' should trigger quit");
}

#[test]
fn test_quit_on_uppercase_q() {
    let key = KeyPress { code: KeyCode::Char('Q'), control: false };
    assert!(should_quit(&key), "uppercase 'Q' should trigger quit");
}

#[test]
fn test_quit_on_ctrl_c() {
    let key = KeyPress { code: KeyCode::Char('c'), control: true };
    assert!(should_quit(&key), "Ctrl+C should trigger quit");
}

#[test]
fn test_no_quit_on_other_keys() {
    let keys = vec![
        KeyPress { code: KeyCode::Char('a'), control: false },
        KeyPress { code: KeyCode::Char('c'), control: false }, // 'c' without Ctrl
        KeyPress { code: KeyCode::Other, control: false },     // Esc
        KeyPress { code: KeyCode::Other, control: false },     // Enter
    ];

    for key in keys {
        assert!(!should_quit(&key), "key {:?} should not trigger quit", key);
    }
}

#[test]
fn test_quit_on_ctrl_q() {
    let key = KeyPress { code: KeyCode::Char('q'), control: true };
    assert!(should_quit(&key));
}
