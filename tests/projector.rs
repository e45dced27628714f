use raycast::projector::{perspective_x, project_column, Column};
use raycast::scanner::Fraction;

#[test]
fn column_at_the_left_edge_of_the_view() {
    let c = project_column(-300, 300, Fraction { num: 0, den: 1 }, 1280, 300);
    assert_eq!(c, Column { x: 1280, half_height: 300, shade: 255 });
}

#[test]
fn column_in_the_middle_at_half_distance() {
    // 1280 - 300 / 610 * 1280 = 650.49..., truncated; 255 - round(127.5)
    let c = project_column(0, 300, Fraction { num: 1, den: 2 }, 1280, 300);
    assert_eq!(c, Column { x: 650, half_height: 150, shade: 127 });
}

#[test]
fn column_at_full_distance_is_flat_and_dark() {
    let c = project_column(295, 300, Fraction { num: 7, den: 7 }, 1280, 300);
    assert_eq!(c.half_height, 0);
    assert_eq!(c.shade, 0);
    // 1280 - 595 / 610 * 1280 = 31.47..., truncated
    assert_eq!(c.x, 31);
}

#[test]
fn column_height_for_a_third_of_the_way() {
    let c = project_column(-150, 300, Fraction { num: 1, den: 3 }, 1280, 300);
    assert_eq!(c.half_height, 200);
    assert_eq!(c.shade, 170);
}

#[test]
fn column_shade_rounds_to_nearest() {
    // 255 / 4 = 63.75 rounds to 64; 255 / 5 = 51 exactly; 255 * 2 / 7 = 72.86 rounds to 73
    let shade = |num: i128, den: i128| {
        project_column(0, 300, Fraction { num, den }, 1280, 300).shade
    };
    assert_eq!(shade(1, 4), 191);
    assert_eq!(shade(1, 5), 204);
    assert_eq!(shade(2, 7), 182);
    assert_eq!(shade(1, 1000), 255);
}

#[test]
fn perspective_splits_the_width() {
    assert_eq!(perspective_x(1, 3, 800), Some(200));
    assert_eq!(perspective_x(5, 0, 800), Some(800));
    assert_eq!(perspective_x(0, 9, 800), Some(0));
}

#[test]
fn perspective_of_the_camera_point_is_absent() {
    assert_eq!(perspective_x(0, 0, 800), None);
}
