use vstd::prelude::*;

use crate::algebra::{bounding_box, clamped_max, clamped_min, edge_value, orient, Vec2i};
use crate::framebuffer::{depth_passes, depth_test_and_set, draw_fragment, rgb, set_buffer};

verus! {

/// One pixel visited by scan conversion, with its three edge-function values
/// and its index in the vertically flipped pixel buffer.
#[derive(Clone, Copy, Debug, PartialEq, Eq)]
pub struct Fragment {
    pub x: i32,
    pub y: i32,
    pub idx: usize,
    pub w0: i128,
    pub w1: i128,
    pub w2: i128,
}

/// Index of screen point `(x, y)` in a row-major buffer whose first row is the
/// top of the screen, while screen `y` grows upwards.
pub open spec fn pixel_index(x: int, y: int, width: int, height: int) -> int {
    x + (height - y - 1) * width
}

/// Twice the signed area of the screen triangle.
pub open spec fn area_of(p: Seq<Vec2i>) -> int {
    orient(p[0], p[1], p[2].x as int, p[2].y as int)
}

/// All three edge functions are non-negative at `(x, y)`.
pub open spec fn covers(p: Seq<Vec2i>, x: int, y: int) -> bool {
    &&& orient(p[1], p[2], x, y) >= 0
    &&& orient(p[2], p[0], x, y) >= 0
    &&& orient(p[0], p[1], x, y) >= 0
}

/// Covered pixels of row `y` with `x0 <= x < x_end`, left to right.
pub open spec fn row_pixels(p: Seq<Vec2i>, y: int, x0: int, x_end: int) -> Seq<(int, int)>
    decreases x_end - x0,
{
    if x_end <= x0 {
        seq![]
    } else {
        let rest = row_pixels(p, y, x0, x_end - 1);
        if covers(p, x_end - 1, y) {
            rest.push((x_end - 1, y))
        } else {
            rest
        }
    }
}

/// Covered pixels of the rows `y0 <= y < y_end`, row by row.
pub open spec fn box_pixels(p: Seq<Vec2i>, x0: int, x_end: int, y0: int, y_end: int) -> Seq<(int, int)>
    decreases y_end - y0,
{
    if y_end <= y0 {
        seq![]
    } else {
        box_pixels(p, x0, x_end, y0, y_end - 1) + row_pixels(p, y_end - 1, x0, x_end)
    }
}

pub open spec fn box_lo_x(p: Seq<Vec2i>, width: int) -> int {
    clamped_min(p[0].x as int, p[1].x as int, p[2].x as int, 0, width - 1)
}

pub open spec fn box_hi_x(p: Seq<Vec2i>, width: int) -> int {
    clamped_max(p[0].x as int, p[1].x as int, p[2].x as int, 0, width - 1)
}

pub open spec fn box_lo_y(p: Seq<Vec2i>, height: int) -> int {
    clamped_min(p[0].y as int, p[1].y as int, p[2].y as int, 0, height - 1)
}

pub open spec fn box_hi_y(p: Seq<Vec2i>, height: int) -> int {
    clamped_max(p[0].y as int, p[1].y as int, p[2].y as int, 0, height - 1)
}

/// The triangle is drawn at all: its clamped box is not flat and it faces
/// the viewer (positive area).
pub open spec fn is_drawn(p: Seq<Vec2i>, width: int, height: int) -> bool {
    &&& box_lo_x(p, width) < box_hi_x(p, width)
    &&& box_lo_y(p, height) < box_hi_y(p, height)
    &&& area_of(p) > 0
}

/// The pixels that scan conversion visits and finds inside, in scan order:
/// rows bottom-up, each row left to right, over the half-open clamped box.
pub open spec fn covered_pixels(p: Seq<Vec2i>, width: int, height: int) -> Seq<(int, int)> {
    if is_drawn(p, width, height) {
        box_pixels(p, box_lo_x(p, width), box_hi_x(p, width), box_lo_y(p, height), box_hi_y(p, height))
    } else {
        seq![]
    }
}

/// A fragment carries the edge values and buffer index of its own pixel.
pub open spec fn fragment_fits(p: Seq<Vec2i>, f: Fragment, width: int, height: int) -> bool {
    &&& f.w0 == orient(p[1], p[2], f.x as int, f.y as int)
    &&& f.w1 == orient(p[2], p[0], f.x as int, f.y as int)
    &&& f.w2 == orient(p[0], p[1], f.x as int, f.y as int)
    &&& f.idx == pixel_index(f.x as int, f.y as int, width, height)
    &&& 0 <= f.x < width
    &&& 0 <= f.y < height
    &&& f.idx < width * height
}

pub open spec fn fragment_pixel(f: Fragment) -> (int, int) {
    (f.x as int, f.y as int)
}

pub open spec fn pixels_of(s: Seq<Fragment>) -> Seq<(int, int)> {
    s.map_values(|f: Fragment| fragment_pixel(f))
}

proof fn lemma_orient_step_x(a: Vec2i, b: Vec2i, x: int, y: int)
    ensures
        orient(a, b, x + 1, y) == orient(a, b, x, y) + (a.y - b.y),
{
    assert((b.y - a.y) * (x + 1 - a.x) == (b.y - a.y) * (x - a.x) + (b.y - a.y)) by (nonlinear_arith);
}

proof fn lemma_orient_step_y(a: Vec2i, b: Vec2i, x: int, y: int)
    ensures
        orient(a, b, x, y + 1) == orient(a, b, x, y) + (b.x - a.x),
{
    assert((b.x - a.x) * (y + 1 - a.y) == (b.x - a.x) * (y - a.y) + (b.x - a.x)) by (nonlinear_arith);
}

proof fn lemma_orient_bound(a: Vec2i, b: Vec2i, x: int, y: int)
    requires
        i32::MIN <= x <= i32::MAX,
        i32::MIN <= y <= i32::MAX,
    ensures
        -0x10_0000_0000_0000_0000 <= orient(a, b, x, y) <= 0x10_0000_0000_0000_0000,
{
    let d1 = b.x - a.x;
    let d2 = y - a.y;
    let d3 = b.y - a.y;
    let d4 = x - a.x;
    assert(-0x1_0000_0000_0000_0000 <= d1 * d2 <= 0x1_0000_0000_0000_0000) by (nonlinear_arith)
        requires
            -0x1_0000_0000 <= d1 <= 0x1_0000_0000,
            -0x1_0000_0000 <= d2 <= 0x1_0000_0000,
    ;
    assert(-0x1_0000_0000_0000_0000 <= d3 * d4 <= 0x1_0000_0000_0000_0000) by (nonlinear_arith)
        requires
            -0x1_0000_0000 <= d3 <= 0x1_0000_0000,
            -0x1_0000_0000 <= d4 <= 0x1_0000_0000,
    ;
}

proof fn lemma_index_bound(x: int, y: int, width: int, height: int)
    requires
        0 <= x < width,
        0 <= y < height,
    ensures
        0 <= (height - 1 - y) * width,
        (height - 1 - y) * width + x < width * height,
{
    assert(0 <= (height - 1 - y) * width) by (nonlinear_arith)
        requires
            0 <= height - 1 - y,
            0 < width,
    ;
    assert((height - 1 - y) * width + width <= width * height) by (nonlinear_arith)
        requires
            height - 1 - y <= height - 1,
            0 < width,
    ;
}

/// Scan-converts a screen triangle: every pixel of the clamped, half-open
/// bounding box whose three edge functions are non-negative, in scan order.
/// Nothing is produced for a flat box or a triangle of area zero or less.
/// The edge functions start at the box corner and advance by constant steps.
pub fn triangle_fragments(pts: &[Vec2i; 3], width: u32, height: u32) -> (r: Vec<Fragment>)
    requires
        1 <= width <= i32::MAX,
        1 <= height <= i32::MAX,
        width * height <= usize::MAX,
    ensures
        pixels_of(r@) == covered_pixels(pts@, width as int, height as int),
        forall|i: int| 0 <= i < r@.len() ==> fragment_fits(pts@, #[trigger] r@[i], width as int, height as int),
{
    let ghost p = pts@;
    let mut out: Vec<Fragment> = Vec::new();
    let (minbbox, maxbbox) = bounding_box(pts.as_slice(), 0, (width - 1) as i32, 0, (height - 1) as i32);
    if minbbox.x >= maxbbox.x || minbbox.y >= maxbbox.y {
        return out;
    }
    let v0 = pts[0];
    let v1 = pts[1];
    let v2 = pts[2];
    let area = edge_value(&v0, &v1, v2.x, v2.y);
    if area <= 0 {
        return out;
    }
    proof {
        lemma_orient_bound(v1, v2, minbbox.x as int, minbbox.y as int);
        lemma_orient_bound(v2, v0, minbbox.x as int, minbbox.y as int);
        lemma_orient_bound(v0, v1, minbbox.x as int, minbbox.y as int);
    }
    let a_01: i128 = v0.y as i128 - v1.y as i128;
    let b_01: i128 = v1.x as i128 - v0.x as i128;
    let a_12: i128 = v1.y as i128 - v2.y as i128;
    let b_12: i128 = v2.x as i128 - v1.x as i128;
    let a_20: i128 = v2.y as i128 - v0.y as i128;
    let b_20: i128 = v0.x as i128 - v2.x as i128;
    let mut w0_row = edge_value(&v1, &v2, minbbox.x, minbbox.y);
    let mut w1_row = edge_value(&v2, &v0, minbbox.x, minbbox.y);
    let mut w2_row = edge_value(&v0, &v1, minbbox.x, minbbox.y);
    let mut y: i32 = minbbox.y;
    while y < maxbbox.y
        invariant
            p == pts@,
            v0 == p[0],
            v1 == p[1],
            v2 == p[2],
            0 <= minbbox.x < maxbbox.x <= width - 1,
            0 <= minbbox.y <= y <= maxbbox.y,
            maxbbox.y <= height - 1,
            1 <= width <= i32::MAX,
            1 <= height <= i32::MAX,
            width * height <= usize::MAX,
            a_01 == v0.y - v1.y,
            b_01 == v1.x - v0.x,
            a_12 == v1.y - v2.y,
            b_12 == v2.x - v1.x,
            a_20 == v2.y - v0.y,
            b_20 == v0.x - v2.x,
            w0_row == orient(v1, v2, minbbox.x as int, y as int),
            w1_row == orient(v2, v0, minbbox.x as int, y as int),
            w2_row == orient(v0, v1, minbbox.x as int, y as int),
            pixels_of(out@) == box_pixels(p, minbbox.x as int, maxbbox.x as int, minbbox.y as int, y as int),
            forall|i: int| 0 <= i < out@.len() ==> fragment_fits(p, #[trigger] out@[i], width as int, height as int),
        decreases maxbbox.y - y,
    {
        let mut w0 = w0_row;
        let mut w1 = w1_row;
        let mut w2 = w2_row;
        let mut x: i32 = minbbox.x;
        let ghost before = out@;
        while x < maxbbox.x
            invariant
                p == pts@,
                v0 == p[0],
                v1 == p[1],
                v2 == p[2],
                0 <= minbbox.x <= x <= maxbbox.x,
                maxbbox.x <= width - 1,
                0 <= y < maxbbox.y <= height - 1,
                1 <= width <= i32::MAX,
                1 <= height <= i32::MAX,
                width * height <= usize::MAX,
                a_01 == v0.y - v1.y,
                a_12 == v1.y - v2.y,
                a_20 == v2.y - v0.y,
                w0 == orient(v1, v2, x as int, y as int),
                w1 == orient(v2, v0, x as int, y as int),
                w2 == orient(v0, v1, x as int, y as int),
                pixels_of(out@) == pixels_of(before) + row_pixels(p, y as int, minbbox.x as int, x as int),
                forall|i: int| 0 <= i < out@.len() ==> fragment_fits(p, #[trigger] out@[i], width as int, height as int),
            decreases maxbbox.x - x,
        {
            let ghost prev = out@;
            if w0 >= 0 && w1 >= 0 && w2 >= 0 {
                proof {
                    lemma_index_bound(x as int, y as int, width as int, height as int);
                }
                let idx: usize = x as usize + (height - 1 - y as u32) as usize * width as usize;
                out.push(Fragment { x, y, idx, w0, w1, w2 });
                proof {
                    assert(pixels_of(out@) == pixels_of(prev).push((x as int, y as int)));
                }
            }
            proof {
                lemma_orient_step_x(v1, v2, x as int, y as int);
                lemma_orient_step_x(v2, v0, x as int, y as int);
                lemma_orient_step_x(v0, v1, x as int, y as int);
                lemma_orient_bound(v1, v2, x + 1, y as int);
                lemma_orient_bound(v2, v0, x + 1, y as int);
                lemma_orient_bound(v0, v1, x + 1, y as int);
                assert(row_pixels(p, y as int, minbbox.x as int, x + 1) == if covers(p, x as int, y as int) {
                    row_pixels(p, y as int, minbbox.x as int, x as int).push((x as int, y as int))
                } else {
                    row_pixels(p, y as int, minbbox.x as int, x as int)
                });
                assert(pixels_of(out@) == pixels_of(before) + row_pixels(p, y as int, minbbox.x as int, x + 1));
            }
            w0 = w0 + a_12;
            w1 = w1 + a_20;
            w2 = w2 + a_01;
            x = x + 1;
        }
        proof {
            lemma_orient_step_y(v1, v2, minbbox.x as int, y as int);
            lemma_orient_step_y(v2, v0, minbbox.x as int, y as int);
            lemma_orient_step_y(v0, v1, minbbox.x as int, y as int);
            lemma_orient_bound(v1, v2, minbbox.x as int, y + 1);
            lemma_orient_bound(v2, v0, minbbox.x as int, y + 1);
            lemma_orient_bound(v0, v1, minbbox.x as int, y + 1);
        }
        w0_row = w0_row + b_12;
        w1_row = w1_row + b_20;
        w2_row = w2_row + b_01;
        y = y + 1;
    }
    out
}

proof fn lemma_row_member(p: Seq<Vec2i>, y: int, x0: int, x_end: int, q: (int, int))
    ensures
        row_pixels(p, y, x0, x_end).contains(q) <==> (q.1 == y && x0 <= q.0 < x_end && covers(p, q.0, q.1)),
    decreases x_end - x0,
{
    if x_end > x0 {
        lemma_row_member(p, y, x0, x_end - 1, q);
        let rest = row_pixels(p, y, x0, x_end - 1);
        if covers(p, x_end - 1, y) {
            assert(rest.push((x_end - 1, y)).contains(q) <==> (rest.contains(q) || q == (x_end - 1, y))) by {
                if rest.push((x_end - 1, y)).contains(q) {
                    let k = choose|k: int| 0 <= k < rest.len() + 1 && #[trigger] rest.push((x_end - 1, y))[k] == q;
                    if k < rest.len() {
                        assert(rest[k] == q);
                    }
                }
                if rest.contains(q) {
                    let k = choose|k: int| 0 <= k < rest.len() && #[trigger] rest[k] == q;
                    assert(rest.push((x_end - 1, y))[k] == q);
                }
                if q == (x_end - 1, y) {
                    assert(rest.push((x_end - 1, y))[rest.len() as int] == q);
                }
            }
        }
    }
}

proof fn lemma_box_member(p: Seq<Vec2i>, x0: int, x_end: int, y0: int, y_end: int, q: (int, int))
    ensures
        box_pixels(p, x0, x_end, y0, y_end).contains(q) <==> (y0 <= q.1 < y_end && x0 <= q.0 < x_end && covers(
            p,
            q.0,
            q.1,
        )),
    decreases y_end - y0,
{
    if y_end > y0 {
        lemma_box_member(p, x0, x_end, y0, y_end - 1, q);
        lemma_row_member(p, y_end - 1, x0, x_end, q);
        let a = box_pixels(p, x0, x_end, y0, y_end - 1);
        let b = row_pixels(p, y_end - 1, x0, x_end);
        assert((a + b).contains(q) <==> (a.contains(q) || b.contains(q))) by {
            if (a + b).contains(q) {
                let k = choose|k: int| 0 <= k < (a + b).len() && #[trigger] (a + b)[k] == q;
                if k < a.len() {
                    assert(a[k] == q);
                } else {
                    assert(b[k - a.len()] == q);
                }
            }
            if a.contains(q) {
                let k = choose|k: int| 0 <= k < a.len() && #[trigger] a[k] == q;
                assert((a + b)[k] == q);
            }
            if b.contains(q) {
                let k = choose|k: int| 0 <= k < b.len() && #[trigger] b[k] == q;
                assert((a + b)[k + a.len()] == q);
            }
        }
    }
}

proof fn lemma_expand(a: int, b: int, c: int, d: int)
    ensures
        (a - b) * (c - d) == a * c - a * d - b * c + b * d,
{
    assert((a - b) * (c - d) == a * c - a * d - b * c + b * d) by (nonlinear_arith);
}

/// The three edge functions at any point add up to twice the triangle's area,
/// so dividing each by the area gives barycentric weights that sum to one.
pub proof fn lemma_edge_values_sum_to_area(p: Seq<Vec2i>, x: int, y: int)
    requires
        p.len() == 3,
    ensures
        orient(p[1], p[2], x, y) + orient(p[2], p[0], x, y) + orient(p[0], p[1], x, y) == area_of(p),
{
    let (ax, ay, bx, by, cx, cy) = (p[0].x as int, p[0].y as int, p[1].x as int, p[1].y as int, p[2].x as int, p[2].y as int);
    lemma_expand(cx, bx, y, by);
    lemma_expand(cy, by, x, bx);
    lemma_expand(ax, cx, y, cy);
    lemma_expand(ay, cy, x, cx);
    lemma_expand(bx, ax, y, ay);
    lemma_expand(by, ay, x, ax);
    lemma_expand(bx, ax, cy, ay);
    lemma_expand(by, ay, cx, ax);
}

/// Scan conversion visits a pixel exactly when the triangle is drawn at all
/// and the pixel lies in the half-open clamped bounding box with all three
/// edge functions non-negative: no pixel outside that box is ever produced.
pub proof fn lemma_covered_pixel(p: Seq<Vec2i>, width: int, height: int, x: int, y: int)
    ensures
        covered_pixels(p, width, height).contains((x, y)) <==> {
            &&& is_drawn(p, width, height)
            &&& box_lo_x(p, width) <= x < box_hi_x(p, width)
            &&& box_lo_y(p, height) <= y < box_hi_y(p, height)
            &&& covers(p, x, y)
        },
{
    lemma_box_member(p, box_lo_x(p, width), box_hi_x(p, width), box_lo_y(p, height), box_hi_y(p, height), (x, y));
}

/// Depth and pixel buffers after the fragments are drawn in order, fragment
/// `i` having depth key `keys[i]` (none: never drawn) and color `colors[i]`.
pub open spec fn draw_all(
    z: Seq<i32>,
    px: Seq<u32>,
    frags: Seq<Fragment>,
    keys: Seq<Option<i32>>,
    colors: Seq<(u8, u8, u8)>,
) -> (Seq<i32>, Seq<u32>)
    decreases frags.len(),
{
    if frags.len() == 0 {
        (z, px)
    } else {
        let n = frags.len() - 1;
        let prev = draw_all(z, px, frags.take(n), keys.take(n), colors.take(n));
        match keys[n] {
            Some(k) => draw_fragment(prev.0, prev.1, frags[n].idx as int, k, rgb(colors[n].0, colors[n].1, colors[n].2)),
            None => prev,
        }
    }
}

/// How `draw_fragments` came to the buffers `z1` and `px1` from `z0` and
/// `px0`: `keys` holds what `depth_of` gave for each fragment, and `colors`
/// what `shade` gave for each fragment that passed the depth test.
pub open spec fn is_draw_result<D: Fn(&Fragment) -> Option<i32>, S: Fn(&Fragment) -> (u8, u8, u8)>(
    depth_of: D,
    shade: S,
    frags: Seq<Fragment>,
    z0: Seq<i32>,
    px0: Seq<u32>,
    keys: Seq<Option<i32>>,
    colors: Seq<(u8, u8, u8)>,
    z1: Seq<i32>,
    px1: Seq<u32>,
) -> bool {
    &&& keys.len() == frags.len()
    &&& colors.len() == frags.len()
    &&& forall|i: int| 0 <= i < frags.len() ==> depth_of.ensures((&frags[i],), #[trigger] keys[i])
    &&& forall|i: int|
        0 <= i < frags.len() && (#[trigger] keys[i] matches Some(k) && depth_passes(
            draw_all(z0, px0, frags.take(i), keys.take(i), colors.take(i)).0[frags[i].idx as int],
            k,
        )) ==> shade.ensures((&frags[i],), colors[i])
    &&& (z1, px1) == draw_all(z0, px0, frags, keys, colors)
}

/// Draws fragments in order: `depth_of` gives each one's depth key (none for
/// a depth that no test accepts), the depth test decides, and `shade` is
/// asked for the color of each fragment that passes.
pub fn draw_fragments<D: Fn(&Fragment) -> Option<i32>, S: Fn(&Fragment) -> (u8, u8, u8)>(
    frags: &Vec<Fragment>,
    pixel_buffer: &mut [u32],
    z_buffer: &mut [i32],
    depth_of: D,
    shade: S,
)
    requires
        forall|f: &Fragment| #[trigger] depth_of.requires((f,)),
        forall|f: &Fragment| #[trigger] shade.requires((f,)),
        forall|i: int|
            0 <= i < frags@.len() ==> (#[trigger] frags@[i]).idx < old(pixel_buffer)@.len() && frags@[i].idx < old(
                z_buffer,
            )@.len(),
    ensures
        exists|keys: Seq<Option<i32>>, colors: Seq<(u8, u8, u8)>|
            #[trigger] is_draw_result(
                depth_of,
                shade,
                frags@,
                old(z_buffer)@,
                old(pixel_buffer)@,
                keys,
                colors,
                final(z_buffer)@,
                final(pixel_buffer)@,
            ),
{
    let ghost z0 = z_buffer@;
    let ghost px0 = pixel_buffer@;
    let ghost mut keys: Seq<Option<i32>> = seq![];
    let ghost mut colors: Seq<(u8, u8, u8)> = seq![];
    let mut i: usize = 0;
    while i < frags.len()
        invariant
            forall|f: &Fragment| #[trigger] depth_of.requires((f,)),
            forall|f: &Fragment| #[trigger] shade.requires((f,)),
            forall|j: int|
                0 <= j < frags@.len() ==> (#[trigger] frags@[j]).idx < px0.len() && frags@[j].idx < z0.len(),
            i <= frags@.len(),
            z_buffer@.len() == z0.len(),
            pixel_buffer@.len() == px0.len(),
            keys.len() == i,
            colors.len() == i,
            forall|j: int| 0 <= j < i ==> depth_of.ensures((&frags@[j],), #[trigger] keys[j]),
            forall|j: int|
                0 <= j < i && (#[trigger] keys[j] matches Some(k) && depth_passes(
                    draw_all(z0, px0, frags@.take(j), keys.take(j), colors.take(j)).0[frags@[j].idx as int],
                    k,
                )) ==> shade.ensures((&frags@[j],), colors[j]),
            (z_buffer@, pixel_buffer@) == draw_all(z0, px0, frags@.take(i as int), keys, colors),
        decreases frags@.len() - i,
    {
        let f = frags[i];
        let key = depth_of(&f);
        let mut color: (u8, u8, u8) = (0, 0, 0);
        let ghost zb = z_buffer@;
        let ghost pb = pixel_buffer@;
        if let Some(k) = key {
            if depth_test_and_set(z_buffer, f.idx, k) {
                color = shade(&f);
                set_buffer(pixel_buffer, f.idx, color.0, color.1, color.2);
            }
        }
        proof {
            let ks = keys.push(key);
            let cs = colors.push(color);
            let fs = frags@.take(i + 1);
            assert(fs.take(i as int) =~= frags@.take(i as int));
            assert(ks.take(i as int) =~= keys);
            assert(cs.take(i as int) =~= colors);
            assert((z_buffer@, pixel_buffer@) == draw_all(z0, px0, fs, ks, cs));
            assert forall|j: int| 0 <= j < i + 1 implies depth_of.ensures((&frags@[j],), #[trigger] ks[j]) by {
                if j < i {
                    assert(ks[j] == keys[j]);
                }
            }
            assert forall|j: int|
                0 <= j < i + 1 && (#[trigger] ks[j] matches Some(k) && depth_passes(
                    draw_all(z0, px0, frags@.take(j), ks.take(j), cs.take(j)).0[frags@[j].idx as int],
                    k,
                )) implies shade.ensures((&frags@[j],), cs[j]) by {
                if j < i {
                    assert(ks[j] == keys[j]);
                    assert(cs[j] == colors[j]);
                    assert(ks.take(j) =~= keys.take(j));
                    assert(cs.take(j) =~= colors.take(j));
                }
            }
            keys = ks;
            colors = cs;
        }
        i = i + 1;
    }
    proof {
        assert(frags@.take(i as int) =~= frags@);
        assert(is_draw_result(depth_of, shade, frags@, z0, px0, keys, colors, z_buffer@, pixel_buffer@));
    }
}

} // verus!
