//! Map export: bounds, the ASCII map, the file name and the file text.
use dungeon_saver::dungeon::room::{Exit, RoomType, Wall};
use dungeon_saver::export::append_decimal;
use dungeon_saver::{DungeonGenerator, MapExporter, Room};

fn room(id: usize, x: u32, y: u32, width: u32, height: u32, room_type: RoomType, exits: Vec<Exit>) -> Room {
    Room { id, x, y, width, height, room_type, exits, parent_id: None, parent_wall: None }
}

#[test]
fn test_deterministic_export() {
    let seed = 42;

    // Generate dungeon twice with same seed
    let mut gen1 = DungeonGenerator::new(seed);
    let dungeon1 = gen1.generate();

    let mut gen2 = DungeonGenerator::new(seed);
    let dungeon2 = gen2.generate();

    // Both exports should have same room count and structure
    assert_eq!(dungeon1.len(), dungeon2.len());

    for (r1, r2) in dungeon1.iter().zip(dungeon2.iter()) {
        assert_eq!(r1.width, r2.width);
        assert_eq!(r1.height, r2.height);
        assert_eq!(r1.exits.len(), r2.exits.len());
    }
}

#[test]
fn test_document_contains_metadata() {
    let seed = 12345;
    let mut generator = DungeonGenerator::new(seed);
    let dungeon = generator.generate();

    let exporter = MapExporter::new(seed);
    let content = exporter.document(&dungeon, "2024-05-01 13:30:05");

    assert!(content.contains("Seed: 12345"));
    assert!(content.contains(&format!("Room Count: {}", dungeon.len())));
    assert!(content.contains("Dimensions:"));
    assert!(content.contains("# Timestamp: 2024-05-01 13:30:05\n"));
}

#[test]
fn test_document_contains_ascii_map() {
    let seed = 999;
    let mut generator = DungeonGenerator::new(seed);
    let dungeon = generator.generate();

    let exporter = MapExporter::new(seed);
    let content = exporter.document(&dungeon, "stamp");

    assert!(content.contains('+'));
    assert!(content.contains('-'));
    assert!(content.contains('|'));
    assert!(content.contains('.'));
}

#[test]
fn test_exporter_new() {
    let exporter = MapExporter::new(7);
    assert_eq!(exporter.seed(), 7);
    assert_eq!(exporter.maps_dir(), "maps");
}

#[test]
fn test_file_name_format() {
    let exporter = MapExporter::new(42);
    assert_eq!(exporter.file_name("2024-05-01_1330"), "2024-05-01_1330.txt");
    assert_eq!(MapExporter::new(0).file_name(""), ".txt");
}

#[test]
fn test_prepare_export_name_and_text() {
    let dungeon = vec![room(0, 0, 0, 3, 3, RoomType::Entrance, vec![])];
    let exporter = MapExporter::new(999);
    let (name, text) = exporter.prepare_export(&dungeon);
    assert!(name.ends_with(".txt"));
    assert!(!name.contains("seed"));
    assert!(text.starts_with("# Dungeon Saver — Generated Map\n# Seed: 999\n# Timestamp: "));
    assert!(text.ends_with("# Room 0: 3x3 @ (0,0), Type: Entrance, Exits: 0\n"));
}

#[test]
fn test_calculate_bounds() {
    let exporter = MapExporter::new(1);
    let dungeon = vec![
        room(0, 10, 10, 5, 4, RoomType::Entrance, vec![]),
        room(1, 3, 17, 2, 6, RoomType::Corridor, vec![]),
    ];
    assert_eq!(exporter.calculate_bounds(&dungeon), (3, 10, 15, 23));
    assert_eq!(exporter.calculate_bounds(&[]), (u32::MAX, u32::MAX, 0, 0));
}

#[test]
fn test_map_grid_single_room() {
    let exporter = MapExporter::new(1);
    let door = Exit { wall: Wall::North, position: 1, connected_room_id: None };
    let dungeon = vec![room(0, 5, 7, 3, 3, RoomType::Entrance, vec![door])];
    let grid = exporter.map_grid(&dungeon);
    let rows: Vec<String> = grid.iter().map(|r| r.iter().collect()).collect();
    assert_eq!(rows, vec!["+▢+ ", "|E| ", "+-+ ", "    "]);
}

#[test]
fn test_map_grid_later_room_drawn_over_earlier() {
    let exporter = MapExporter::new(1);
    let dungeon = vec![
        room(0, 0, 0, 4, 3, RoomType::Entrance, vec![]),
        room(1, 3, 0, 3, 3, RoomType::Small, vec![Exit { wall: Wall::East, position: 1, connected_room_id: None }]),
    ];
    let grid = exporter.map_grid(&dungeon);
    let rows: Vec<String> = grid.iter().map(|r| r.iter().collect()).collect();
    assert_eq!(rows, vec!["+--+-+ ", "|.E|.▢ ", "+--+-+ ", "       "]);
}

#[test]
fn test_document_exact_text() {
    let exporter = MapExporter::new(7);
    let dungeon = vec![room(0, 0, 0, 3, 3, RoomType::Entrance, vec![])];
    let text = exporter.document(&dungeon, "T");
    let expected = "# Dungeon Saver — Generated Map\n# Seed: 7\n# Timestamp: T\n# Room Count: 1\n\n# Dimensions: 4x4\n\n+-+ \n|E| \n+-+ \n    \n\n# Room Details:\n# Room 0: 3x3 @ (0,0), Type: Entrance, Exits: 0\n";
    assert_eq!(text, expected);
}

#[test]
fn test_append_decimal() {
    let mut s = String::from("n=");
    append_decimal(&mut s, 0);
    append_decimal(&mut s, 1907);
    append_decimal(&mut s, u64::MAX);
    assert_eq!(s, "n=0190718446744073709551615");
}

#[test]
fn test_export_filename_format_no_seed() {
    let seed = 999;
    let mut generator = DungeonGenerator::new(seed);
    let dungeon = vec![generator.generate_entrance()];

    let exporter = MapExporter::new(seed);
    let (filename, _text) = exporter.prepare_export(&dungeon);

    // Filename format: yyyy-MM-dd_HHmm.txt (no seed for emergent dungeons)
    assert!(filename.ends_with(".txt"));
    assert!(!filename.contains("999"));
}

#[test]
fn test_can_export() {
    let exporter = MapExporter::new(1);
    assert!(!exporter.can_export(&[]));
    assert!(exporter.can_export(&[room(0, 0, 0, 3, 3, RoomType::Entrance, vec![])]));
    assert!(!exporter.can_export(&[room(0, u32::MAX - 1, 0, 3, 3, RoomType::Entrance, vec![])]));
    let door = Exit { wall: Wall::East, position: 1, connected_room_id: None };
    assert!(!exporter.can_export(&[room(0, 0, 0, 0, 3, RoomType::Entrance, vec![door])]));
    // A map as wide as u32 allows cannot be laid out.
    assert!(!exporter.can_export(&[
        room(0, 0, 0, 1, 1, RoomType::Entrance, vec![]),
        room(1, u32::MAX - 1, 0, 1, 1, RoomType::Normal, vec![]),
    ]));
}

#[test]
fn test_prepare_export_stamp_shapes() {
    let dungeon = vec![room(0, 0, 0, 3, 3, RoomType::Entrance, vec![])];
    let (name, text) = MapExporter::new(5).prepare_export(&dungeon);
    let stamp = name.strip_suffix(".txt").unwrap();
    let b = stamp.as_bytes();
    let n = b.len();
    assert!(n >= 15);
    assert_eq!(b[n - 11], b'-');
    assert_eq!(b[n - 8], b'-');
    assert_eq!(b[n - 5], b'_');
    assert!(stamp.chars().all(|c| c.is_ascii_digit() || c == '-' || c == '_' || c == '+'));
    let line = text.lines().nth(2).unwrap();
    let header = line.strip_prefix("# Timestamp: ").unwrap();
    assert!(header.chars().all(|c| c.is_ascii_digit() || c == '-' || c == ' ' || c == ':' || c == '+'));
    assert_eq!(header.matches(':').count(), 2);
}
