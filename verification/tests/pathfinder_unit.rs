use dungeon_saver::dungeon::room::{Room, RoomType};
use dungeon_saver::explorer::Pathfinder;


#[test]
fn test_pathfinder_straight_line() {
    let rooms = vec![
        Room {
            id: 0,
            x: 0,
            y: 0,
            width: 10,
            height: 10,
            room_type: RoomType::Entrance,
            exits: vec![],
            parent_id: None,
            parent_wall: None,
        },
    ];
    
    let pathfinder = Pathfinder::new(&rooms);
    let path = pathfinder.find_path((0, 0), (5, 5));
    
    assert!(path.is_some());
    let path = path.unwrap();
    assert_eq!(path.first(), Some(&(0, 0)));
    assert_eq!(path.last(), Some(&(5, 5)));
    assert_eq!(path.len(), 11); // Manhattan distance: 5+5+1
}

#[test]
fn test_pathfinder_unreachable() {
    let rooms = vec![
        Room {
            id: 0,
            x: 0,
            y: 0,
            width: 5,
            height: 5,
            room_type: RoomType::Normal,
            exits: vec![],
            parent_id: None,
            parent_wall: None,
        },
        Room {
            id: 1,
            x: 10,
            y: 10,
            width: 5,
            height: 5,
            room_type: RoomType::Normal,
            exits: vec![],
            parent_id: None,
            parent_wall: None,
        },
    ];
    
    let pathfinder = Pathfinder::new(&rooms);
    let path = pathfinder.find_path((0, 0), (10, 10));
    
    assert!(path.is_none()); // No path between disconnected rooms
}


#[test]
fn test_any_two_tiles_of_a_room_are_joined() {
    let rooms = vec![Room {
        id: 0,
        x: 3,
        y: 7,
        width: 4,
        height: 3,
        room_type: RoomType::Normal,
        exits: vec![],
        parent_id: None,
        parent_wall: None,
    }];
    let pathfinder = Pathfinder::new(&rooms);
    for ax in 3..7u32 {
        for ay in 7..10u32 {
            for bx in 3..7u32 {
                for by in 7..10u32 {
                    let path = pathfinder.find_path((ax, ay), (bx, by)).expect("tiles of one room are joined");
                    assert_eq!(path.len() as u32, ax.abs_diff(bx) + ay.abs_diff(by) + 1);
                }
            }
        }
    }
}

#[test]
fn test_far_coordinates_are_searched() {
    let base = 0x3fff_fff0;
    let rooms = vec![Room {
        id: 0,
        x: base,
        y: base,
        width: 5,
        height: 5,
        room_type: RoomType::Normal,
        exits: vec![],
        parent_id: None,
        parent_wall: None,
    }];
    let pathfinder = Pathfinder::new(&rooms);
    let path = pathfinder.find_path((base, base), (base + 4, base + 4)).unwrap();
    assert_eq!(path.len(), 9);
}
