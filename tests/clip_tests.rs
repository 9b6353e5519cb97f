use raster3d::clip::{
    classify_triangle, clip_against_plane, clip_pass, clip_planes, clip_triangle, get_inside_plane_vertex, get_outside_plane_vertex,
    out_code_from_tests, ClipClass, Corner, Piece, BACK, BOTTOM, FRONT, INSIDE, LEFT, RIGHT, TOP,
};

fn whole() -> Piece {
    Piece { c0: Corner::Vertex(0), c1: Corner::Vertex(1), c2: Corner::Vertex(2) }
}

#[test]
fn out_code_sets_one_bit_per_plane() {
    assert_eq!(out_code_from_tests(false, false, false, false, false, false), INSIDE);
    assert_eq!(out_code_from_tests(true, false, false, false, false, false), LEFT);
    assert_eq!(out_code_from_tests(false, true, false, false, false, false), RIGHT);
    assert_eq!(out_code_from_tests(false, false, true, false, false, false), BOTTOM);
    assert_eq!(out_code_from_tests(false, false, false, true, false, false), TOP);
    assert_eq!(out_code_from_tests(false, false, false, false, true, false), FRONT);
    assert_eq!(out_code_from_tests(false, false, false, false, false, true), BACK);
    assert_eq!(out_code_from_tests(true, false, false, true, false, true), LEFT | TOP | BACK);
}

#[test]
fn classify_inside_outside_partial() {
    assert_eq!(classify_triangle([0, 0, 0]), ClipClass::Inside);
    assert_eq!(classify_triangle([TOP, TOP | LEFT, TOP]), ClipClass::Outside);
    assert_eq!(classify_triangle([LEFT, RIGHT, 0]), ClipClass::Partial);
    assert_eq!(classify_triangle([LEFT, RIGHT, TOP]), ClipClass::Partial);
}

#[test]
fn inside_triangle_is_unchanged_by_every_plane() {
    let codes = [INSIDE, INSIDE, INSIDE];
    assert_eq!(classify_triangle(codes), ClipClass::Inside);
    for plane in clip_planes() {
        assert_eq!(clip_against_plane(codes, plane), vec![whole()]);
    }
}

#[test]
fn triangle_beyond_one_plane_is_dropped() {
    for plane in clip_planes() {
        let codes = [plane, plane | LEFT, plane | BACK];
        assert_eq!(classify_triangle(codes), ClipClass::Outside);
        assert!(clip_against_plane(codes, plane).is_empty());
    }
}

#[test]
fn inside_and_outside_vertex_search() {
    assert_eq!(get_inside_plane_vertex([TOP, 0, 0], TOP), 1);
    assert_eq!(get_inside_plane_vertex([TOP, TOP | LEFT, LEFT], TOP), 2);
    assert_eq!(get_outside_plane_vertex([0, LEFT, TOP], TOP), 2);
    assert_eq!(get_outside_plane_vertex([TOP, LEFT, TOP], TOP), 0);
}

#[test]
fn one_vertex_inside_gives_one_triangle() {
    let pieces = clip_against_plane([TOP, 0, TOP], TOP);
    assert_eq!(pieces, vec![Piece { c0: Corner::Cut(1, 2), c1: Corner::Cut(1, 0), c2: Corner::Vertex(1) }]);
}

#[test]
fn two_vertices_inside_give_two_triangles() {
    let pieces = clip_against_plane([0, 0, RIGHT], RIGHT);
    assert_eq!(
        pieces,
        vec![
            Piece { c0: Corner::Cut(2, 0), c1: Corner::Vertex(0), c2: Corner::Vertex(1) },
            Piece { c0: Corner::Cut(2, 1), c1: Corner::Cut(2, 0), c2: Corner::Vertex(1) },
        ]
    );
}

#[test]
fn planes_are_clipped_in_fixed_order() {
    assert_eq!(clip_planes(), [LEFT, RIGHT, TOP, BOTTOM, FRONT, BACK]);
}

#[test]
fn clip_pass_tags_pieces_with_their_triangle() {
    let codes = vec![[LEFT, LEFT, LEFT], [0, 0, 0], [LEFT, 0, 0], [0, LEFT, LEFT]];
    let out = clip_pass(&codes, LEFT);
    assert_eq!(out.len(), 4);
    assert_eq!(out[0], (1, whole()));
    assert_eq!(out[1].0, 2);
    assert_eq!(out[2].0, 2);
    assert_eq!(out[3], (3, Piece { c0: Corner::Cut(0, 1), c1: Corner::Cut(0, 2), c2: Corner::Vertex(0) }));
}

type Tri = [[f32; 4]; 3];

fn codes_of(t: &Tri) -> [u8; 3] {
    let code = |v: [f32; 4]| {
        let [x, y, z, w] = v;
        out_code_from_tests(x < -w, x > w, y < -w, y > w, z < -w, z > w)
    };
    [code(t[0]), code(t[1]), code(t[2])]
}

fn plane_distance(v: [f32; 4], plane: u8) -> f32 {
    let [x, y, z, w] = v;
    match plane {
        LEFT => x + w,
        RIGHT => x - w,
        BOTTOM => y + w,
        TOP => y - w,
        FRONT => z + w,
        _ => z - w,
    }
}

fn cut(t: &Tri, piece: Piece, plane: u8) -> Tri {
    let corner = |c: Corner| match c {
        Corner::Vertex(i) => t[i],
        Corner::Cut(a, b) => {
            let d0 = plane_distance(t[a], plane);
            let d1 = plane_distance(t[b], plane);
            let s = d0 / (d0 - d1);
            let mut r = [0.0f32; 4];
            for k in 0..4 {
                r[k] = t[b][k] * s + t[a][k] * (1. - s);
            }
            r
        }
    };
    [corner(piece.c0), corner(piece.c1), corner(piece.c2)]
}

#[test]
fn clip_triangle_returns_inside_triangle_unchanged() {
    let t: Tri = [[0.1, 0.2, 0.3, 1.0], [-0.7, 0.4, -0.9, 1.0], [0.5, -0.5, 0.5, 2.0]];
    let out = clip_triangle(t, codes_of, cut);
    assert_eq!(out, vec![t]);
}

#[test]
fn clip_triangle_drops_triangle_beyond_top() {
    let t: Tri = [[0.0, 2.0, 0.0, 1.0], [0.5, 3.0, 0.0, 1.0], [-0.5, 1.5, 0.0, 1.0]];
    assert!(clip_triangle(t, codes_of, cut).is_empty());
}

#[test]
fn clip_triangle_across_right_plane_keeps_winding() {
    // One vertex beyond the right plane: two triangles sharing the crossing.
    let t: Tri = [[0.0, 0.0, 0.0, 1.0], [3.0, 0.0, 0.0, 1.0], [0.0, 0.5, 0.0, 1.0]];
    let out = clip_triangle(t, codes_of, cut);
    assert_eq!(out.len(), 2);
    assert_eq!(out[0][1], t[2]);
    assert_eq!(out[0][2], t[0]);
    assert_eq!(out[1][1], out[0][0]);
    assert_eq!(out[1][2], t[0]);
    let expected = [1.0, 1.0 / 3.0, 0.0, 1.0];
    for k in 0..4 {
        assert!((out[0][0][k] - expected[k]).abs() < 1e-6);
    }

    // Two vertices beyond it: one smaller triangle around the inside vertex.
    let t3: Tri = [[0.0, -0.5, 0.0, 1.0], [2.0, -0.5, 0.0, 1.0], [2.0, 0.5, 0.0, 1.0]];
    let out3 = clip_triangle(t3, codes_of, cut);
    assert_eq!(out3.len(), 1);
    assert_eq!(out3[0][2], t3[0]);
    for tri in out.iter().chain(out3.iter()) {
        for v in tri {
            assert!(v[0] <= v[3] + 1e-6 && v[0] >= -v[3] - 1e-6);
        }
    }
}
