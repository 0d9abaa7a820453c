use dungeon_saver::renderer::SimpleRoom;


#[test]
fn test_room_dimensions() {
    let room = SimpleRoom::new();
    assert_eq!(room.width(), 6);
    assert_eq!(room.height(), 7);
}

#[test]
fn test_room_render() {
    let room = SimpleRoom::new();
    let output = room.render();
    let lines: Vec<&str> = output.lines().collect();
    
    // Check number of lines (5 floor + 2 walls = 7)
    assert_eq!(lines.len(), 7);
    
    // Check each line width (4 floor + 2 walls = 6)
    for line in &lines {
        assert_eq!(line.len(), 6);
    }
    
    // Check top wall
    assert_eq!(lines[0], "######");
    
    // Check middle rows (interior)
    assert_eq!(lines[1], "#....#");
    assert_eq!(lines[2], "#....#");
    assert_eq!(lines[3], "#....#");
    assert_eq!(lines[4], "#....#");
    assert_eq!(lines[5], "#....#");
    
    // Check bottom wall
    assert_eq!(lines[6], "######");
}


#[test]
fn test_from_dimensions_places_doors() {
    let room = SimpleRoom::from_dimensions(2, 1, true, true, true, true);
    assert_eq!(room.width(), 4);
    assert_eq!(room.height(), 3);
    assert_eq!(room.render(), "#-##\n#..#\n|-#|");
    let plain = SimpleRoom::from_dimensions(1, 1, false, false, false, false);
    assert_eq!(plain.render(), "###\n#.#\n###");
}
