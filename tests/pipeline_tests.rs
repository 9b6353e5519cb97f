use raster3d::algebra::{edge_value, vec2i, Vec2i};
use raster3d::clip::{classify_triangle, clip_against_plane, out_code_from_tests, ClipClass, Corner, TOP};
use raster3d::framebuffer::{depth_key, new_depth_buffer, new_pixel_buffer, pack_rgb};
use raster3d::raster::{draw_fragments, triangle_fragments, Fragment};

type V4 = [f32; 4];

fn out_code(v: V4) -> u8 {
    let [x, y, z, w] = v;
    out_code_from_tests(x < -w, x > w, y < -w, y > w, z < -w, z > w)
}

fn projection() -> [[f32; 4]; 4] {
    let (near, far, left, right, top, bottom) = (0.1f32, 50.0f32, -0.1f32, 0.1f32, 0.1f32, -0.1f32);
    [
        [(2. * near) / (right - left), 0., 0., 0.],
        [0., (2. * near) / (top - bottom), 0., 0.],
        [(right + left) / (right - left), (top + bottom) / (top - bottom), -((far + near) / (far - near)), -1.],
        [0., 0., -((2. * far * near) / (far - near)), 0.],
    ]
}

fn project(m: &[[f32; 4]; 4], p: [f32; 3]) -> V4 {
    let v = [p[0], p[1], p[2], 1.0];
    let mut r = [0.0f32; 4];
    for (j, out) in r.iter_mut().enumerate() {
        *out = m[0][j] * v[0] + m[1][j] * v[1] + m[2][j] * v[2] + m[3][j] * v[3];
    }
    r
}

fn screen(v: V4, width: u32, height: u32) -> Vec2i {
    let (fw, fh) = (width as f32, height as f32);
    vec2i(
        (((v[0] / v[3]) + 1.) * (fw - 1.) * 0.5).round() as i32,
        (((v[1] / v[3]) + 1.) * (fh - 1.) * 0.5).round() as i32,
    )
}

fn ndc_area(a: V4, b: V4, c: V4) -> f32 {
    let p = |v: V4| (v[0] / v[3], v[1] / v[3]);
    let (a, b, c) = (p(a), p(b), p(c));
    ((b.0 - a.0) * (c.1 - a.1) - (b.1 - a.1) * (c.0 - a.0)).abs() * 0.5
}

fn top_t(a: V4, b: V4) -> f32 {
    let d0 = a[1] - a[3];
    let d1 = b[1] - b[3];
    d0 / (d0 - d1)
}

fn corner_point(v: &[V4; 3], corner: Corner) -> V4 {
    match corner {
        Corner::Vertex(i) => v[i],
        Corner::Cut(a, b) => {
            let t = top_t(v[a], v[b]);
            let mut r = [0.0f32; 4];
            for k in 0..4 {
                r[k] = v[b][k] * t + v[a][k] * (1. - t);
            }
            r
        }
    }
}

#[test]
fn one_vertex_clip_does_not_grow_screen_area() {
    let v: [V4; 3] = [[0.0, 0.0, 0.0, 1.0], [0.0, 3.0, 0.0, 1.0], [1.0, 3.0, 0.0, 1.0]];
    let codes = [out_code(v[0]), out_code(v[1]), out_code(v[2])];
    assert_eq!(codes, [0, TOP, TOP]);
    let pieces = clip_against_plane(codes, TOP);
    assert_eq!(pieces.len(), 1);
    let c = [corner_point(&v, pieces[0].c0), corner_point(&v, pieces[0].c1), corner_point(&v, pieces[0].c2)];
    for p in &c {
        assert!(p[1] <= p[3] + 1e-6);
    }
    let before = ndc_area(v[0], v[1], v[2]);
    let after = ndc_area(c[0], c[1], c[2]);
    assert!((before - 1.5).abs() < 1e-6);
    assert!((after - 1.0 / 6.0).abs() < 1e-6);
    assert!(after <= before);
}

#[test]
fn unit_square_facing_camera_fills_a_rectangle() {
    let (width, height) = (64u32, 64u32);
    let m = projection();
    let (neg, pos, z) = (-0.5f32, 0.5f32, -2.0f32);
    let v0 = [neg, pos, z];
    let v1 = [neg, neg, z];
    let v2 = [pos, neg, z];
    let v3 = [pos, pos, z];
    let triangles = [[v1, v2, v0], [v3, v0, v2]];
    let color = (170u8, 30u8, 30u8);

    let mut pixels = new_pixel_buffer(width, height);
    let far = depth_key((-999999.0f32).to_bits()).unwrap();
    let mut depths = new_depth_buffer(width, height, far);

    for tri in &triangles {
        let clip = [project(&m, tri[0]), project(&m, tri[1]), project(&m, tri[2])];
        for c in &clip {
            assert!(c[0].abs() <= c[3] && c[1].abs() <= c[3] && c[2].abs() <= c[3]);
        }
        let codes = [out_code(clip[0]), out_code(clip[1]), out_code(clip[2])];
        assert_eq!(classify_triangle(codes), ClipClass::Inside);

        let pts = [screen(clip[0], width, height), screen(clip[1], width, height), screen(clip[2], width, height)];
        let frags = triangle_fragments(&pts, width, height);
        assert!(!frags.is_empty());
        let area = 1. / (edge_value(&pts[0], &pts[1], pts[2].x, pts[2].y) as f32);
        let weights = |f: &Fragment| [f.w0 as f32 * area, f.w1 as f32 * area, f.w2 as f32 * area];
        let depth = |l: [f32; 3]| 1. / (l[0] / tri[0][2] + l[1] / tri[1][2] + l[2] / tri[2][2]);
        draw_fragments(
            &frags,
            &mut pixels,
            &mut depths,
            |f: &Fragment| depth_key(depth(weights(f)).to_bits()),
            |f: &Fragment| {
                // Flat shading at light intensity 1.0 returns the color itself.
                let l = weights(f);
                assert!((l[0] + l[1] + l[2] - 1.0).abs() < 1e-5);
                color
            },
        );
    }

    let lit = pack_rgb(color.0, color.1, color.2);
    let mut count = 0;
    for row in 0..height {
        for x in 0..width {
            let p = pixels[(row * width + x) as usize];
            let y = height - 1 - row;
            let inside = (24..39).contains(&x) && (24..39).contains(&y);
            assert_eq!(p == lit, inside, "pixel ({}, {})", x, y);
            if p == lit {
                count += 1;
            }
        }
    }
    assert_eq!(count, 15 * 15);
}

fn draw_flat(pixels: &mut Vec<u32>, depths: &mut Vec<i32>, pts: &[Vec2i; 3], z: f32, color: (u8, u8, u8)) {
    let frags = triangle_fragments(pts, 32, 32);
    draw_fragments(&frags, pixels, depths, |_f: &Fragment| depth_key(z.to_bits()), |_f: &Fragment| color);
}

#[test]
fn nearer_triangle_wins_pixels_in_either_draw_order() {
    let near_tri = [vec2i(0, 0), vec2i(20, 0), vec2i(0, 20)];
    let far_tri = [vec2i(5, 2), vec2i(30, 2), vec2i(5, 28)];
    let red = (200u8, 10u8, 10u8);
    let blue = (10u8, 10u8, 200u8);
    let far_key = depth_key((-999999.0f32).to_bits()).unwrap();

    let mut p1 = new_pixel_buffer(32, 32);
    let mut z1 = new_depth_buffer(32, 32, far_key);
    draw_flat(&mut p1, &mut z1, &near_tri, -2.0, red);
    draw_flat(&mut p1, &mut z1, &far_tri, -5.0, blue);

    let mut p2 = new_pixel_buffer(32, 32);
    let mut z2 = new_depth_buffer(32, 32, far_key);
    draw_flat(&mut p2, &mut z2, &far_tri, -5.0, blue);
    draw_flat(&mut p2, &mut z2, &near_tri, -2.0, red);

    assert_eq!(p1, p2);
    assert_eq!(z1, z2);
    let near_frags = triangle_fragments(&near_tri, 32, 32);
    let far_frags = triangle_fragments(&far_tri, 32, 32);
    let mut overlap = 0;
    for f in &near_frags {
        assert_eq!(p1[f.idx], pack_rgb(red.0, red.1, red.2));
        if far_frags.iter().any(|g| g.idx == f.idx) {
            overlap += 1;
        }
    }
    assert!(overlap > 0);
    for g in &far_frags {
        if !near_frags.iter().any(|f| f.idx == g.idx) {
            assert_eq!(p1[g.idx], pack_rgb(blue.0, blue.1, blue.2));
        }
    }
}
