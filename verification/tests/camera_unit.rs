use dungeon_saver::renderer::Camera;


#[test]
fn test_camera_initialization() {
    let camera = Camera::new(80, 24);
    assert_eq!(camera.x, 0);
    assert_eq!(camera.y, 0);
    assert_eq!(camera.width, 80);
    assert_eq!(camera.height, 24);
}

#[test]
fn test_center_on_position() {
    let mut camera = Camera::new(80, 24);
    camera.center_on((100, 50));
    
    // Camera should be centered on (100, 50) - 1:1 mapping
    // Camera x = 100 - 40 = 60, y = 50 - 12 = 38
    assert_eq!(camera.x, 60); 
    assert_eq!(camera.y, 38);
}

#[test]
fn test_panning_when_explorer_moves_right() {
    let mut camera = Camera::new(80, 24);
    camera.center_on((40, 12));
    
    let orig_x = camera.x;
    
    // Explorer moves far right to exceed 3/4 of screen
    camera.update((80, 12));
    
    // Camera should have panned right
    assert!(camera.x > orig_x);
}

#[test]
fn test_panning_when_explorer_moves_down() {
    let mut camera = Camera::new(80, 24);
    camera.center_on((40, 12));
    
    let orig_y = camera.y;
    
    // Explorer moves down - should trigger pan
    camera.update((40, 30));
    
    // Camera should have panned down
    assert!(camera.y > orig_y);
}

#[test]
fn test_no_pan_when_explorer_in_middle() {
    let mut camera = Camera::new(80, 24);
    camera.center_on((100, 50));
    
    let orig_x = camera.x;
    let orig_y = camera.y;
    
    // Explorer stays in middle - no pan should occur
    camera.update((100, 50));
    
    assert_eq!(camera.x, orig_x);
    assert_eq!(camera.y, orig_y);
}

#[test]
fn test_resize_updates_dimensions() {
    let mut camera = Camera::new(80, 24);
    camera.resize(120, 40);
    
    assert_eq!(camera.width, 120);
    assert_eq!(camera.height, 40);
}

#[test]
fn test_is_visible() {
    let mut camera = Camera::new(80, 24);
    camera.x = 0;
    camera.y = 0;
    
    // 1:1 mapping now
    assert!(camera.is_visible((10, 10)));
    assert!(camera.is_visible((0, 0)));
    assert!(camera.is_visible((79, 23)));
    assert!(!camera.is_visible((80, 0)));
    assert!(!camera.is_visible((0, 24)));
    assert!(!camera.is_visible((100, 100)));
}

#[test]
fn test_explorer_stays_in_viewport_during_pan() {
    let mut camera = Camera::new(80, 24);
    let explorer_pos = (200, 100);
    
    camera.center_on(explorer_pos);
    camera.update(explorer_pos);
    
    // Explorer should be visible after centering
    assert!(camera.is_visible(explorer_pos));
}

