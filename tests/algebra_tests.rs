use raster3d::algebra::{bounding_box, edge_value, orient_2d, vec2i};

#[test]
fn vec2i_keeps_coordinates() {
    let p = vec2i(-4, 17);
    assert_eq!(p.x, -4);
    assert_eq!(p.y, 17);
}

#[test]
fn orient_2d_sign_follows_winding() {
    let a = vec2i(0, 0);
    let b = vec2i(10, 0);
    assert_eq!(orient_2d(&a, &b, 3, 3), 30);
    assert_eq!(orient_2d(&a, &b, 3, -3), -30);
    assert_eq!(orient_2d(&a, &b, 7, 0), 0);
    assert_eq!(orient_2d(&vec2i(2, 5), &vec2i(-1, 4), 6, -2), (-1 - 2) * (-2 - 5) - (4 - 5) * (6 - 2));
}

#[test]
fn edge_value_does_not_overflow() {
    let a = vec2i(i32::MIN, i32::MIN);
    let b = vec2i(i32::MAX, i32::MIN);
    let expected = (i32::MAX as i128 - i32::MIN as i128) * (i32::MAX as i128 - i32::MIN as i128);
    assert_eq!(edge_value(&a, &b, 0, i32::MAX), expected);
}

#[test]
fn bounding_box_inside_viewport() {
    let pts = [vec2i(2, 7), vec2i(5, 1), vec2i(3, 4)];
    let (lo, hi) = bounding_box(&pts, 0, 9, 0, 9);
    assert_eq!((lo.x, lo.y, hi.x, hi.y), (2, 1, 5, 7));
}

#[test]
fn bounding_box_clamped_to_viewport() {
    let pts = [vec2i(-5, 3), vec2i(20, 7), vec2i(4, 50)];
    let (lo, hi) = bounding_box(&pts, 0, 9, 0, 9);
    assert_eq!((lo.x, lo.y, hi.x, hi.y), (0, 3, 9, 9));
}

#[test]
fn bounding_box_of_points_left_of_viewport_is_flat() {
    let pts = [vec2i(-5, -5), vec2i(-3, -2), vec2i(-1, -1)];
    let (lo, hi) = bounding_box(&pts, 0, 9, 0, 9);
    assert_eq!((lo.x, lo.y, hi.x, hi.y), (0, 0, 0, 0));
}
