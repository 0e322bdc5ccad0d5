use window_state::state::WindowState;

#[test]
fn default_record_values() {
    let d = WindowState::default();
    assert_eq!(d.width, 1200);
    assert_eq!(d.height, 800);
    assert_eq!(d.x, 100);
    assert_eq!(d.y, 100);
    assert!(!d.maximized);
}

#[test]
fn default_record_is_valid() {
    assert!(WindowState::default().is_valid());
}

#[test]
fn from_geometry_keeps_fields() {
    let s = WindowState::from_geometry(640, 480, -20, 30, true);
    assert_eq!(s.width, 640);
    assert_eq!(s.height, 480);
    assert_eq!(s.x, -20);
    assert_eq!(s.y, 30);
    assert!(s.maximized);
}

#[test]
fn validity_width_bounds() {
    let mk = |w: u32| WindowState::from_geometry(w, 800, 100, 100, false);
    assert!(!mk(399).is_valid());
    assert!(mk(400).is_valid());
    assert!(mk(4000).is_valid());
    assert!(!mk(4001).is_valid());
}

#[test]
fn validity_height_bounds() {
    let mk = |h: u32| WindowState::from_geometry(1200, h, 100, 100, false);
    assert!(!mk(299).is_valid());
    assert!(mk(300).is_valid());
    assert!(mk(3000).is_valid());
    assert!(!mk(3001).is_valid());
}

#[test]
fn validity_x_bounds() {
    let mk = |x: i32| WindowState::from_geometry(1200, 800, x, 100, false);
    assert!(!mk(-101).is_valid());
    assert!(mk(-100).is_valid());
    assert!(mk(2000).is_valid());
    assert!(!mk(2001).is_valid());
}

#[test]
fn validity_y_bounds() {
    let mk = |y: i32| WindowState::from_geometry(1200, 800, 100, y, false);
    assert!(!mk(-101).is_valid());
    assert!(mk(-100).is_valid());
    assert!(mk(2000).is_valid());
    assert!(!mk(2001).is_valid());
}

#[test]
fn validity_ignores_maximized_flag() {
    // the flag plays no part in plausibility; only the decision table reads it
    assert!(!WindowState::from_geometry(1, 1, 9999, 9999, true).is_valid());
    assert!(WindowState::from_geometry(400, 300, -100, -100, true).is_valid());
}
