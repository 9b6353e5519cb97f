use raster3d::framebuffer::{depth_key, depth_test_and_set, new_depth_buffer, new_pixel_buffer, pack_rgb, set_buffer};

fn key(z: f32) -> i32 {
    depth_key(z.to_bits()).expect("a number")
}

#[test]
fn pack_rgb_layout() {
    assert_eq!(pack_rgb(0x12, 0x34, 0x56), 0x0012_3456);
    assert_eq!(pack_rgb(255, 0, 0), 0x00ff_0000);
    assert_eq!(pack_rgb(0, 0, 0), 0);
}

#[test]
fn set_buffer_writes_one_pixel() {
    let mut buf = new_pixel_buffer(3, 2);
    set_buffer(&mut buf, 4, 170, 30, 30);
    assert_eq!(buf, vec![0, 0, 0, 0, 0x00aa_1e1e, 0]);
}

#[test]
fn new_buffers_have_viewport_size() {
    assert_eq!(new_pixel_buffer(4, 5), vec![0u32; 20]);
    assert_eq!(new_depth_buffer(2, 3, -7), vec![-7; 6]);
    assert!(new_pixel_buffer(0, 5).is_empty());
}

#[test]
fn depth_keys_follow_depth_order() {
    assert_eq!(key(0.0), 0);
    assert_eq!(key(-0.0), 0);
    assert_eq!(key(1.0), 0x3f80_0000);
    assert_eq!(key(-1.0), -0x3f80_0000);
    let depths = [-999999.0f32, -5.0, -2.0, -0.5, -1.0e-30, 0.0, 3.0, f32::INFINITY];
    for pair in depths.windows(2) {
        assert!(key(pair[0]) < key(pair[1]));
    }
    assert!(key(f32::NEG_INFINITY) < key(-999999.0));
}

#[test]
fn nan_depth_has_no_key() {
    assert_eq!(depth_key(f32::NAN.to_bits()), None);
    assert_eq!(depth_key((-f32::NAN).to_bits()), None);
}

#[test]
fn depth_test_accepts_only_nearer_negative_depths() {
    let far = key(-999999.0);
    let mut z = new_depth_buffer(2, 1, far);
    assert!(depth_test_and_set(&mut z, 0, key(-5.0)));
    assert_eq!(z[0], key(-5.0));
    assert!(!depth_test_and_set(&mut z, 0, key(-5.0)));
    assert!(!depth_test_and_set(&mut z, 0, key(-6.0)));
    assert!(depth_test_and_set(&mut z, 0, key(-2.0)));
    assert!(!depth_test_and_set(&mut z, 1, key(0.0)));
    assert!(!depth_test_and_set(&mut z, 1, key(3.0)));
    assert_eq!(z, vec![key(-2.0), far]);
}

fn draw(z: &mut Vec<i32>, px: &mut Vec<u32>, idx: usize, depth: f32, color: (u8, u8, u8)) {
    if depth_test_and_set(z, idx, key(depth)) {
        set_buffer(px, idx, color.0, color.1, color.2);
    }
}

#[test]
fn nearer_triangle_wins_in_either_order() {
    let far = key(-999999.0);
    let red = (200, 10, 10);
    let blue = (10, 10, 200);

    let mut z1 = new_depth_buffer(1, 1, far);
    let mut p1 = new_pixel_buffer(1, 1);
    draw(&mut z1, &mut p1, 0, -2.0, red);
    draw(&mut z1, &mut p1, 0, -5.0, blue);

    let mut z2 = new_depth_buffer(1, 1, far);
    let mut p2 = new_pixel_buffer(1, 1);
    draw(&mut z2, &mut p2, 0, -5.0, blue);
    draw(&mut z2, &mut p2, 0, -2.0, red);

    assert_eq!(p1, vec![pack_rgb(200, 10, 10)]);
    assert_eq!(p1, p2);
    assert_eq!(z1, z2);
    assert_eq!(z1[0], key(-2.0));
}
