use dungeon_saver::dungeon::room::{RoomType, Wall};
use dungeon_saver::dungeon::DungeonGenerator;
use dungeon_saver::rng::SeededRng;

// Progressive generation tests
#[test]
fn test_generate_entrance_only() {
    let mut gen = DungeonGenerator::new(42);
    let entrance = gen.generate_entrance();

    assert_eq!(entrance.room_type, RoomType::Entrance);
    assert_eq!(entrance.exits.len(), 3, "Entrance must have 3 exits");
    assert_eq!(entrance.id, 0);
    
    let area = entrance.area();
    assert!(area >= 6 && area <= 12, "Entrance area must be 6-12 squares");
    
    // All exits should be unconnected initially
    for exit in &entrance.exits {
        assert_eq!(exit.connected_room_id, None);
    }
}

#[test]
fn test_add_room_creates_connection() {
    let mut gen = DungeonGenerator::new(42);
    let entrance = gen.generate_entrance();
    
    // Get first exit wall from entrance
    let first_exit_wall = entrance.exits[0].wall;
    
    // Add a connected room
    let room1 = gen.add_room(entrance.id, first_exit_wall);
    
    assert_eq!(room1.id, 1);
    assert_eq!(room1.parent_id, Some(0));
    assert_eq!(room1.parent_wall, Some(first_exit_wall));
    
    // Verify entrance exit is now connected
    let updated_entrance = &gen.rooms()[0];
    let connected_exit = updated_entrance.exits.iter()
        .find(|e| e.wall == first_exit_wall)
        .expect("Exit should exist");
    assert_eq!(connected_exit.connected_room_id, Some(1));
}

#[test]
fn test_add_room_stops_at_20_rooms() {
    let mut gen = DungeonGenerator::new(42);
    let entrance = gen.generate_entrance();
    
    // Keep track of unexplored exits
    let mut unexplored_exits = vec![(entrance.id, entrance.exits[0].wall)];
    
    // Add rooms until we hit the limit or run out of exits
    for _ in 0..30 {
        if unexplored_exits.is_empty() {
            break;
        }
        
        let (room_id, wall) = unexplored_exits.remove(0);
        let new_room = gen.add_room(room_id, wall);
        
        if new_room.id == usize::MAX {
            // Hit the limit
            break;
        }
        
        // Add new room's unconnected exits to the queue
        for exit in &new_room.exits {
            unexplored_exits.push((new_room.id, exit.wall));
        }
    }
    
    assert!(gen.rooms().len() <= 20, "Should not exceed 20 rooms");
    // Should have hit the limit if we had enough exits
    if unexplored_exits.len() > 0 {
        assert_eq!(gen.rooms().len(), 20, "Should stop at 20 rooms when exits available");
    }
}

#[test]
fn test_progressive_generation_preserves_determinism() {
    let mut gen1 = DungeonGenerator::new(42);
    let mut gen2 = DungeonGenerator::new(42);
    
    let entrance1 = gen1.generate_entrance();
    let entrance2 = gen2.generate_entrance();
    
    assert_eq!(entrance1.width, entrance2.width);
    assert_eq!(entrance1.height, entrance2.height);
    assert_eq!(entrance1.exits.len(), entrance2.exits.len());
    
    // Add same sequence of rooms
    for _ in 0..5 {
        if let (Some(r1), Some(r2)) = (gen1.rooms().last().cloned(), gen2.rooms().last().cloned()) {
            if let (Some(e1), Some(e2)) = (r1.exits.first(), r2.exits.first()) {
                let room1 = gen1.add_room(r1.id, e1.wall);
                let room2 = gen2.add_room(r2.id, e2.wall);
                
                assert_eq!(room1.width, room2.width);
                assert_eq!(room1.height, room2.height);
                assert_eq!(room1.room_type, room2.room_type);
            }
        }
    }
}

// Legacy generate() tests - kept for backward compatibility
#[test]
fn test_deterministic_generation() {
    let mut gen1 = DungeonGenerator::new(42);
    let mut gen2 = DungeonGenerator::new(42);

    let dungeon1 = gen1.generate();
    let dungeon2 = gen2.generate();

    assert_eq!(dungeon1.len(), dungeon2.len());
    for (r1, r2) in dungeon1.iter().zip(dungeon2.iter()) {
        assert_eq!(r1.width, r2.width);
        assert_eq!(r1.height, r2.height);
        assert_eq!(r1.room_type, r2.room_type);
    }
}

#[test]
fn test_entrance_room_generation() {
    let mut gen = DungeonGenerator::new(42);
    let rooms = gen.generate();

    assert!(!rooms.is_empty());
    let entrance = &rooms[0];
    
    assert_eq!(entrance.room_type, RoomType::Entrance);
    assert_eq!(entrance.exits.len(), 3, "Entrance must have 3 exits");
    
    let area = entrance.area();
    assert!(area >= 6 && area <= 12, "Entrance area must be 6-12 squares");
}

#[test]
fn test_corridor_detection() {
    let mut gen = DungeonGenerator::new(100);
    let rooms = gen.generate();

    for room in &rooms {
        if room.width == 1 || room.height == 1 {
            assert_eq!(room.room_type, RoomType::Corridor);
        }
    }
}

#[test]
fn test_small_room_detection() {
    let mut gen = DungeonGenerator::new(200);
    let rooms = gen.generate();

    for room in &rooms {
        if room.area() <= 6 && !room.is_corridor() {
            assert_eq!(room.room_type, RoomType::Small);
        }
    }
}

#[test]
fn test_large_room_detection() {
    // Test that doubled rooms with area >= 32 are marked as Large
    let mut gen = DungeonGenerator::new(12345);
    let rooms = gen.generate();

    for room in &rooms {
        if room.room_type == RoomType::Large {
            assert!(room.area() >= 32, "Large rooms must have area >= 32");
        }
    }
}

#[test]
fn test_exit_count_distribution() {
    let mut gen = DungeonGenerator::new(999);
    let rooms = gen.generate();

    for room in &rooms {
        if room.room_type != RoomType::Entrance {
            assert!(room.exits.len() <= 3, "Rooms can have max 3 exits");
        }
    }
}

#[test]
fn test_no_duplicate_exits_on_same_wall() {
    let mut gen = DungeonGenerator::new(777);
    let rooms = gen.generate();

    for room in &rooms {
        let mut walls = std::collections::HashSet::new();
        for exit in &room.exits {
            assert!(walls.insert(exit.wall), "Duplicate exit on same wall");
        }
    }
}

#[test]
fn test_room_dimensions_valid() {
    let mut gen = DungeonGenerator::new(555);
    let rooms = gen.generate();

    for room in &rooms {
        assert!(room.width >= 1, "Width must be at least 1");
        assert!(room.height >= 1, "Height must be at least 1");
        assert!(room.width <= 12, "Width should not exceed reasonable bounds");
        assert!(room.height <= 12, "Height should not exceed reasonable bounds");
    }
}

#[test]
fn test_doubles_expansion() {
    // Seed chosen to generate doubles early
    let mut gen = DungeonGenerator::new(333);
    let rooms = gen.generate();

    // At least some rooms should exist beyond entrance
    assert!(rooms.len() > 1);
}

#[test]
fn test_generates_target_room_count() {
    let mut gen = DungeonGenerator::new(42);
    let rooms = gen.generate();

    assert_eq!(rooms.len(), 20, "Should generate target of 20 rooms");
}

#[test]
fn test_double_six_no_expansion() {
    // According to rules: "apart from a double 6"
    // When we roll double 6, we should NOT expand
    let mut gen = DungeonGenerator::new(888);
    let rooms = gen.generate();

    // Just verify that the generation completes
    assert!(rooms.len() > 0);
}

#[test]
fn test_entrance_no_doubling() {
    // Entrance room should never apply double expansion
    let mut gen = DungeonGenerator::new(999);
    let rooms = gen.generate();

    let entrance = &rooms[0];
    assert_eq!(entrance.room_type, RoomType::Entrance);
    // Entrance dimensions are clamped to 6-12, regardless of rolls
    assert!(entrance.area() >= 6 && entrance.area() <= 12);
}

#[test]
fn test_minimum_dimensions() {
    // D66 minimum is (1, 1)
    let mut gen = DungeonGenerator::new(111);
    let rooms = gen.generate();

    for room in &rooms {
        assert!(room.width >= 1);
        assert!(room.height >= 1);
    }
}

#[test]
fn test_corridor_from_single_dimension() {
    // When either dimension is 1, it's a corridor
    let mut gen = DungeonGenerator::new(222);
    let rooms = gen.generate();

    for room in &rooms {
        if room.width == 1 || room.height == 1 {
            assert!(room.is_corridor());
            assert_eq!(room.room_type, RoomType::Corridor);
        }
    }
}

#[test]
fn test_small_room_boundary_case() {
    // Exactly 6 squares should be small
    let mut gen = DungeonGenerator::new(321);
    let rooms = gen.generate();

    for room in &rooms {
        if room.area() == 6 && !room.is_corridor() {
            assert_eq!(room.room_type, RoomType::Small);
        }
    }
}

#[test]
fn test_large_room_boundary_case() {
    // Exactly 32 squares from doubling should be large
    let mut gen = DungeonGenerator::new(444);
    let rooms = gen.generate();

    for room in &rooms {
        if room.room_type == RoomType::Large {
            assert!(room.area() >= 32);
        }
    }
}

#[test]
fn test_exit_positions_within_bounds() {
    let mut gen = DungeonGenerator::new(555);
    let rooms = gen.generate();

    for room in &rooms {
        for exit in &room.exits {
            match exit.wall {
                Wall::North | Wall::South => {
                    assert!(exit.position < room.width);
                }
                Wall::East | Wall::West => {
                    assert!(exit.position < room.height);
                }
            }
        }
    }
}

#[test]
fn test_multiple_seeds_produce_different_dungeons() {
    let mut gen1 = DungeonGenerator::new(1);
    let mut gen2 = DungeonGenerator::new(2);
    let mut gen3 = DungeonGenerator::new(3);

    let dungeon1 = gen1.generate();
    let dungeon2 = gen2.generate();
    let dungeon3 = gen3.generate();

    // With different seeds, at least some rooms should differ
    let same_12 = dungeon1.iter().zip(dungeon2.iter())
        .all(|(r1, r2)| r1.width == r2.width && r1.height == r2.height);
    let same_13 = dungeon1.iter().zip(dungeon3.iter())
        .all(|(r1, r2)| r1.width == r2.width && r1.height == r2.height);

    // Very unlikely all three dungeons are identical
    assert!(!(same_12 && same_13), "Different seeds should produce different dungeons");
}

#[test]
fn test_all_rooms_have_valid_ids() {
    let mut gen = DungeonGenerator::new(666);
    let rooms = gen.generate();

    for (i, room) in rooms.iter().enumerate() {
        assert_eq!(room.id, i, "Room IDs should be sequential");
    }
}

#[test]
fn test_d6_range() {
    let mut rng = SeededRng::new(12345);
    for _ in 0..100 {
        let roll = rng.d6();
        assert!(roll >= 1 && roll <= 6, "D6 roll out of range: {}", roll);
    }
}

#[test]
fn test_d66_range() {
    let mut rng = SeededRng::new(54321);
    for _ in 0..100 {
        let (x, y) = rng.d66();
        assert!(x >= 1 && x <= 6, "D66 X out of range: {}", x);
        assert!(y >= 1 && y <= 6, "D66 Y out of range: {}", y);
    }
}

#[test]
fn test_zero_exits_possible() {
    // D6 roll of 1 means no exits
    let mut gen = DungeonGenerator::new(101);
    let rooms = gen.generate();

    // At least verify some room could have 0 exits (though entrance always has 3)
    let _has_zero_exits = rooms.iter().any(|r| r.exits.len() == 0);
    // This might not always be true depending on seed, so just check generation works
    assert!(rooms.len() > 0);
}

#[test]
fn test_max_three_exits_non_entrance() {
    let mut gen = DungeonGenerator::new(202);
    let rooms = gen.generate();

    for room in &rooms {
        if room.room_type != RoomType::Entrance {
            assert!(room.exits.len() <= 3, "Non-entrance rooms have max 3 exits");
        }
    }
}

#[test]
fn test_entrance_exactly_three_exits() {
    for seed in [1, 42, 100, 999, 12345] {
        let mut gen = DungeonGenerator::new(seed);
        let rooms = gen.generate();
        assert_eq!(rooms[0].exits.len(), 3, 
            "Entrance must always have exactly 3 exits (seed {})", seed);
    }
}


#[test]
fn test_add_room_links_parent_exit() {
    let mut generator = DungeonGenerator::new(777);
    let entrance = generator.generate_entrance();
    let wall = entrance.exits[1].wall;
    let new_room = generator.add_room(entrance.id, wall);
    assert_eq!(new_room.id, 1);
    assert_eq!(new_room.parent_id, Some(entrance.id));
    assert_eq!(new_room.parent_wall, Some(wall));
    let rooms = generator.rooms();
    assert_eq!(rooms.len(), 2);
    for (k, exit) in rooms[0].exits.iter().enumerate() {
        if k == 1 {
            assert_eq!(exit.connected_room_id, Some(1));
        } else {
            assert_eq!(*exit, entrance.exits[k]);
        }
    }
    assert_eq!(rooms[1], new_room);
}

#[test]
fn test_same_seed_same_calls_same_rooms() {
    let mut g1 = DungeonGenerator::new(2024);
    let mut g2 = DungeonGenerator::new(2024);
    assert_eq!(g1.generate_entrance(), g2.generate_entrance());
    for _ in 0..25 {
        let next = g1
            .rooms()
            .iter()
            .find_map(|r| r.exits.iter().find(|e| e.connected_room_id.is_none()).map(|e| (r.id, e.wall)));
        match next {
            Some((id, wall)) => assert_eq!(g1.add_room(id, wall), g2.add_room(id, wall)),
            None => break,
        }
        assert_eq!(g1.rooms(), g2.rooms());
    }
    assert_eq!(DungeonGenerator::new(77).generate(), DungeonGenerator::new(77).generate());
}

#[test]
fn test_rng_same_seed_same_rolls() {
    let mut a = SeededRng::new(5);
    let mut b = SeededRng::new(5);
    for k in 0..50 {
        assert_eq!(a.d6(), b.d6());
        assert_eq!(a.range(0, k + 1), b.range(0, k + 1));
    }
}
