use raycast::camera::{movement_heading, rotate_heading, turn_heading, Intent};

#[test]
fn rotation_is_half_a_degree_per_pixel() {
    assert_eq!(rotate_heading(0, 10), 3550);
    assert_eq!(rotate_heading(900, -4), 920);
}

#[test]
fn movement_directions_follow_the_heading() {
    assert_eq!(movement_heading(300, Intent::Forward), 300);
    assert_eq!(movement_heading(300, Intent::Backward), 2100);
    assert_eq!(movement_heading(300, Intent::StrafeLeft), 1200);
    assert_eq!(movement_heading(300, Intent::StrafeRight), 3000);
}

#[test]
fn headings_wrap_into_one_turn() {
    assert_eq!(turn_heading(3590, 20), 10);
    assert_eq!(turn_heading(-10, 0), 3590);
    assert_eq!(turn_heading(0, -7200), 0);
    assert_eq!(turn_heading(i32::MAX, 0), i32::MAX % 3600);
}
