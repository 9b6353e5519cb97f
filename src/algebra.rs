use vstd::prelude::*;

verus! {

/// A point on the integer screen grid.
#[derive(Clone, Copy, Debug, PartialEq, Eq, Structural)]
pub struct Vec2i {
    pub x: i32,
    pub y: i32,
}

pub fn vec2i(x: i32, y: i32) -> (r: Vec2i)
    ensures
        r.x == x,
        r.y == y,
{
    Vec2i { x, y }
}

/// Twice the signed area of the triangle `a, b, (x, y)`: positive when the
/// three points turn counter-clockwise.
pub open spec fn orient(a: Vec2i, b: Vec2i, x: int, y: int) -> int {
    (b.x - a.x) * (y - a.y) - (b.y - a.y) * (x - a.x)
}

pub fn orient_2d(a: &Vec2i, b: &Vec2i, x: i32, y: i32) -> (r: i32)
    requires
        i32::MIN <= orient(*a, *b, x as int, y as int) <= i32::MAX,
    ensures
        r == orient(*a, *b, x as int, y as int),
{
    let v = edge_value(a, b, x, y);
    v as i32
}

/// The orientation predicate evaluated without any risk of overflow.
pub fn edge_value(a: &Vec2i, b: &Vec2i, x: i32, y: i32) -> (r: i128)
    ensures
        r == orient(*a, *b, x as int, y as int),
{
    let dx1: i128 = b.x as i128 - a.x as i128;
    let dy1: i128 = y as i128 - a.y as i128;
    let dy2: i128 = b.y as i128 - a.y as i128;
    let dx2: i128 = x as i128 - a.x as i128;
    proof {
        lemma_product_bound(dx1 as int, dy1 as int);
        lemma_product_bound(dy2 as int, dx2 as int);
    }
    dx1 * dy1 - dy2 * dx2
}

proof fn lemma_product_bound(a: int, b: int)
    requires
        -0x1_0000_0000 <= a <= 0x1_0000_0000,
        -0x1_0000_0000 <= b <= 0x1_0000_0000,
    ensures
        -0x1_0000_0000_0000_0000 <= a * b <= 0x1_0000_0000_0000_0000,
{
    assert(-0x1_0000_0000_0000_0000 <= a * b <= 0x1_0000_0000_0000_0000) by (nonlinear_arith)
        requires
            -0x1_0000_0000 <= a <= 0x1_0000_0000,
            -0x1_0000_0000 <= b <= 0x1_0000_0000,
    ;
}

pub open spec fn min_i(a: int, b: int) -> int {
    if a <= b { a } else { b }
}

pub open spec fn max_i(a: int, b: int) -> int {
    if a >= b { a } else { b }
}

/// The box spanned by three points, each bound clamped into `[lo, hi]`.
pub open spec fn clamped_min(p: int, q: int, r: int, lo: int, hi: int) -> int {
    max_i(lo, min_i(min_i(p, min_i(q, r)), hi))
}

pub open spec fn clamped_max(p: int, q: int, r: int, lo: int, hi: int) -> int {
    min_i(hi, max_i(max_i(p, max_i(q, r)), lo))
}

fn min32(a: i32, b: i32) -> (r: i32)
    ensures
        r == min_i(a as int, b as int),
{
    if a <= b { a } else { b }
}

fn max32(a: i32, b: i32) -> (r: i32)
    ensures
        r == max_i(a as int, b as int),
{
    if a >= b { a } else { b }
}

/// Bounding box of the first three points, clamped to the rectangle
/// `[minx, maxx] x [miny, maxy]`; returns its lower and upper corners.
pub fn bounding_box(pts: &[Vec2i], minx: i32, maxx: i32, miny: i32, maxy: i32) -> (r: (Vec2i, Vec2i))
    requires
        pts@.len() >= 3,
    ensures
        r.0.x == clamped_min(pts@[0].x as int, pts@[1].x as int, pts@[2].x as int, minx as int, maxx as int),
        r.0.y == clamped_min(pts@[0].y as int, pts@[1].y as int, pts@[2].y as int, miny as int, maxy as int),
        r.1.x == clamped_max(pts@[0].x as int, pts@[1].x as int, pts@[2].x as int, minx as int, maxx as int),
        r.1.y == clamped_max(pts@[0].y as int, pts@[1].y as int, pts@[2].y as int, miny as int, maxy as int),
{
    let ptsminx = min32(pts[0].x, min32(pts[1].x, pts[2].x));
    let ptsmaxx = max32(pts[0].x, max32(pts[1].x, pts[2].x));
    let ptsminy = min32(pts[0].y, min32(pts[1].y, pts[2].y));
    let ptsmaxy = max32(pts[0].y, max32(pts[1].y, pts[2].y));
    let min_p = Vec2i { x: max32(minx, min32(ptsminx, maxx)), y: max32(miny, min32(ptsminy, maxy)) };
    let max_p = Vec2i { x: min32(maxx, max32(ptsmaxx, minx)), y: min32(maxy, max32(ptsmaxy, miny)) };
    (min_p, max_p)
}

} // verus!
