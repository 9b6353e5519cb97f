use vstd::prelude::*;

verus! {

/// Outcode bits: a vertex has the bit of each frustum half-space it violates.
pub const INSIDE: u8 = 0;
/// `x < -w`
pub const LEFT: u8 = 1;
/// `x > w`
pub const RIGHT: u8 = 2;
/// `y < -w`
pub const BOTTOM: u8 = 4;
/// `y > w`
pub const TOP: u8 = 8;
/// `z < -w`
pub const FRONT: u8 = 16;
/// `z > w`
pub const BACK: u8 = 32;

pub open spec fn is_plane(plane: u8) -> bool {
    plane == LEFT || plane == RIGHT || plane == BOTTOM || plane == TOP || plane == FRONT || plane == BACK
}

/// The vertex with outcode `code` lies on the violating side of `plane`.
pub open spec fn outside_of(code: u8, plane: u8) -> bool {
    code & plane != 0
}

/// Builds a vertex outcode from the six plane tests, one bit per violated plane.
pub fn out_code_from_tests(left: bool, right: bool, bottom: bool, top: bool, front: bool, back: bool) -> (r: u8)
    ensures
        r < 64,
        outside_of(r, LEFT) == left,
        outside_of(r, RIGHT) == right,
        outside_of(r, BOTTOM) == bottom,
        outside_of(r, TOP) == top,
        outside_of(r, FRONT) == front,
        outside_of(r, BACK) == back,
{
    let l: u8 = if left { 1 } else { 0 };
    let rt: u8 = if right { 1 } else { 0 };
    let b: u8 = if bottom { 1 } else { 0 };
    let t: u8 = if top { 1 } else { 0 };
    let f: u8 = if front { 1 } else { 0 };
    let k: u8 = if back { 1 } else { 0 };
    let code: u8 = l + 2 * rt + 4 * b + 8 * t + 16 * f + 32 * k;
    assert({
        &&& code < 64
        &&& (code & 1 != 0) == (l == 1)
        &&& (code & 2 != 0) == (rt == 1)
        &&& (code & 4 != 0) == (b == 1)
        &&& (code & 8 != 0) == (t == 1)
        &&& (code & 16 != 0) == (f == 1)
        &&& (code & 32 != 0) == (k == 1)
    }) by (bit_vector)
        requires
            l <= 1,
            rt <= 1,
            b <= 1,
            t <= 1,
            f <= 1,
            k <= 1,
            code == l + 2 * rt + 4 * b + 8 * t + 16 * f + 32 * k,
    ;
    code
}

/// What the outcodes alone decide about a triangle.
#[derive(Clone, Copy, Debug, PartialEq, Eq, Structural)]
pub enum ClipClass {
    /// Every vertex is inside every plane: the triangle is kept as it is.
    Inside,
    /// All vertices violate one common plane: the triangle is dropped.
    Outside,
    /// Neither: the triangle must be clipped plane by plane.
    Partial,
}

pub open spec fn triangle_class(codes: [u8; 3]) -> ClipClass {
    if codes[0] | codes[1] | codes[2] == INSIDE {
        ClipClass::Inside
    } else if codes[0] & codes[1] & codes[2] != INSIDE {
        ClipClass::Outside
    } else {
        ClipClass::Partial
    }
}

/// Trivial accept and trivial reject of a triangle from its three outcodes.
pub fn classify_triangle(codes: [u8; 3]) -> (r: ClipClass)
    ensures
        r == triangle_class(codes),
{
    if codes[0] | codes[1] | codes[2] == INSIDE {
        ClipClass::Inside
    } else if codes[0] & codes[1] & codes[2] != INSIDE {
        ClipClass::Outside
    } else {
        ClipClass::Partial
    }
}

/// A corner of a clipped triangle: a vertex of the input triangle, or the point where the
/// edge from vertex `a` towards vertex `b` crosses the clipping plane. The
/// crossing is `v[b] * t + v[a] * (1 - t)` for the parameter `t` computed
/// with `a` as the first endpoint.
#[derive(Clone, Copy, Debug, PartialEq, Eq, Structural)]
pub enum Corner {
    Vertex(usize),
    Cut(usize, usize),
}

/// The three corners of one output triangle, in winding order.
#[derive(Clone, Copy, Debug, PartialEq, Eq, Structural)]
pub struct Piece {
    pub c0: Corner,
    pub c1: Corner,
    pub c2: Corner,
}

pub open spec fn inside_count(codes: [u8; 3], plane: u8) -> nat {
    (if outside_of(codes[0], plane) { 0nat } else { 1nat }) + (if outside_of(codes[1], plane) { 0nat } else { 1nat }) + (
    if outside_of(codes[2], plane) { 0nat } else { 1nat })
}

/// Index of the first vertex inside `plane`.
pub open spec fn first_inside(codes: [u8; 3], plane: u8) -> int {
    if !outside_of(codes[0], plane) { 0 } else if !outside_of(codes[1], plane) { 1 } else { 2 }
}

/// Index of the first vertex outside `plane`.
pub open spec fn first_outside(codes: [u8; 3], plane: u8) -> int {
    if outside_of(codes[0], plane) { 0 } else if outside_of(codes[1], plane) { 1 } else { 2 }
}

pub open spec fn next_of(i: int) -> int {
    (i + 1) % 3
}

pub open spec fn other_of(i: int) -> int {
    (i + 2) % 3
}

/// The whole triangle, unchanged.
pub open spec fn whole() -> Piece {
    Piece { c0: Corner::Vertex(0), c1: Corner::Vertex(1), c2: Corner::Vertex(2) }
}

/// One vertex `i` inside: the two edges leaving it are cut, and the smaller
/// triangle keeps the input winding.
pub open spec fn one_inside_piece(i: int) -> Piece {
    Piece {
        c0: Corner::Cut(i as usize, next_of(i) as usize),
        c1: Corner::Cut(i as usize, other_of(i) as usize),
        c2: Corner::Vertex(i as usize),
    }
}

/// One vertex `o` outside: the remaining quadrilateral, split into two
/// triangles that share the crossing on the edge `o -> next`.
pub open spec fn two_inside_first(o: int) -> Piece {
    Piece {
        c0: Corner::Cut(o as usize, next_of(o) as usize),
        c1: Corner::Vertex(next_of(o) as usize),
        c2: Corner::Vertex(other_of(o) as usize),
    }
}

pub open spec fn two_inside_second(o: int) -> Piece {
    Piece {
        c0: Corner::Cut(o as usize, other_of(o) as usize),
        c1: Corner::Cut(o as usize, next_of(o) as usize),
        c2: Corner::Vertex(other_of(o) as usize),
    }
}

/// The triangles that clipping one triangle against one plane produces.
pub open spec fn plane_pieces(codes: [u8; 3], plane: u8) -> Seq<Piece> {
    let n = inside_count(codes, plane);
    if n == 0 {
        seq![]
    } else if n == 3 {
        seq![whole()]
    } else if n == 1 {
        seq![one_inside_piece(first_inside(codes, plane))]
    } else {
        let o = first_outside(codes, plane);
        seq![two_inside_first(o), two_inside_second(o)]
    }
}

/// Index of the first vertex whose outcode is clear for `plane`.
pub fn get_inside_plane_vertex(vert_codes: [u8; 3], plane: u8) -> (r: usize)
    requires
        exists|i: int| 0 <= i < 3 && !outside_of(#[trigger] vert_codes[i], plane),
    ensures
        r == first_inside(vert_codes, plane),
        r < 3,
        !outside_of(vert_codes[r as int], plane),
{
    let mut i: usize = 0;
    while i < 3
        invariant
            i <= 3,
            forall|j: int| 0 <= j < i ==> outside_of(#[trigger] vert_codes[j], plane),
            exists|j: int| 0 <= j < 3 && !outside_of(#[trigger] vert_codes[j], plane),
        decreases 3 - i,
    {
        if vert_codes[i] & plane == 0 {
            return i;
        }
        i = i + 1;
    }
    proof {
        let j = choose|j: int| 0 <= j < 3 && !outside_of(#[trigger] vert_codes[j], plane);
        assert(outside_of(vert_codes[j], plane));
    }
    0
}

/// Index of the first vertex whose outcode has the bit of `plane`.
pub fn get_outside_plane_vertex(vert_codes: [u8; 3], plane: u8) -> (r: usize)
    requires
        exists|i: int| 0 <= i < 3 && outside_of(#[trigger] vert_codes[i], plane),
    ensures
        r == first_outside(vert_codes, plane),
        r < 3,
        outside_of(vert_codes[r as int], plane),
{
    let mut i: usize = 0;
    while i < 3
        invariant
            i <= 3,
            forall|j: int| 0 <= j < i ==> !outside_of(#[trigger] vert_codes[j], plane),
            exists|j: int| 0 <= j < 3 && outside_of(#[trigger] vert_codes[j], plane),
        decreases 3 - i,
    {
        if vert_codes[i] & plane != 0 {
            return i;
        }
        i = i + 1;
    }
    proof {
        let j = choose|j: int| 0 <= j < 3 && outside_of(#[trigger] vert_codes[j], plane);
        assert(!outside_of(vert_codes[j], plane));
    }
    0
}

/// Clips one triangle against one plane: dropped when no vertex is inside,
/// kept whole when all are, cut to one smaller triangle when one is, and to
/// two triangles when two are.
pub fn clip_against_plane(vert_codes: [u8; 3], plane: u8) -> (r: Vec<Piece>)
    ensures
        r@ == plane_pieces(vert_codes, plane),
{
    let mut inside_plane: usize = 0;
    if vert_codes[0] & plane == 0 {
        inside_plane = inside_plane + 1;
    }
    if vert_codes[1] & plane == 0 {
        inside_plane = inside_plane + 1;
    }
    if vert_codes[2] & plane == 0 {
        inside_plane = inside_plane + 1;
    }
    assert(inside_plane == inside_count(vert_codes, plane));
    let mut out: Vec<Piece> = Vec::new();
    if inside_plane == 3 {
        out.push(Piece { c0: Corner::Vertex(0), c1: Corner::Vertex(1), c2: Corner::Vertex(2) });
    } else if inside_plane == 1 {
        let i = get_inside_plane_vertex(vert_codes, plane);
        let next = (i + 1) % 3;
        let other = (i + 2) % 3;
        out.push(Piece { c0: Corner::Cut(i, next), c1: Corner::Cut(i, other), c2: Corner::Vertex(i) });
    } else if inside_plane == 2 {
        let o = get_outside_plane_vertex(vert_codes, plane);
        let next = (o + 1) % 3;
        let other = (o + 2) % 3;
        out.push(Piece { c0: Corner::Cut(o, next), c1: Corner::Vertex(next), c2: Corner::Vertex(other) });
        out.push(Piece { c0: Corner::Cut(o, other), c1: Corner::Cut(o, next), c2: Corner::Vertex(other) });
    }
    assert(out@ =~= plane_pieces(vert_codes, plane));
    out
}

/// The planes in the order in which a partially visible triangle is clipped.
pub fn clip_planes() -> (r: [u8; 6])
    ensures
        r@ == seq![LEFT, RIGHT, TOP, BOTTOM, FRONT, BACK],
{
    let r = [LEFT, RIGHT, TOP, BOTTOM, FRONT, BACK];
    assert(r@ =~= seq![LEFT, RIGHT, TOP, BOTTOM, FRONT, BACK]);
    r
}

/// The output of one plane over a working list of triangles given by their
/// outcodes: each triangle's pieces in list order, each tagged with the
/// position of the triangle it was cut from.
pub open spec fn pass_pieces(codes: Seq<[u8; 3]>, plane: u8) -> Seq<(usize, Piece)>
    decreases codes.len(),
{
    if codes.len() == 0 {
        seq![]
    } else {
        let k = (codes.len() - 1) as int;
        pass_pieces(codes.take(k), plane) + plane_pieces(codes[k], plane).map_values(
            |pc: Piece| (k as usize, pc),
        )
    }
}

/// Clips every triangle of a working list against one plane.
pub fn clip_pass(codes: &Vec<[u8; 3]>, plane: u8) -> (r: Vec<(usize, Piece)>)
    ensures
        r@ == pass_pieces(codes@, plane),
        forall|i: int| 0 <= i < r@.len() ==> (#[trigger] r@[i]).0 < codes@.len(),
{
    let mut out: Vec<(usize, Piece)> = Vec::new();
    let mut k: usize = 0;
    while k < codes.len()
        invariant
            k <= codes@.len(),
            out@ == pass_pieces(codes@.take(k as int), plane),
            forall|i: int| 0 <= i < out@.len() ==> (#[trigger] out@[i]).0 < k,
        decreases codes@.len() - k,
    {
        let pieces = clip_against_plane(codes[k], plane);
        let ghost before = out@;
        let mut j: usize = 0;
        while j < pieces.len()
            invariant
                k < codes@.len(),
                j <= pieces@.len(),
                pieces@ == plane_pieces(codes@[k as int], plane),
                out@ == before + pieces@.take(j as int).map_values(|pc: Piece| (k, pc)),
                forall|i: int| 0 <= i < before.len() ==> (#[trigger] before[i]).0 < k,
            decreases pieces@.len() - j,
        {
            out.push((k, pieces[j]));
            proof {
                assert(pieces@.take(j + 1).map_values(|pc: Piece| (k, pc)) =~= pieces@.take(j as int).map_values(
                    |pc: Piece| (k, pc),
                ).push((k, pieces@[j as int])));
            }
            j = j + 1;
        }
        proof {
            assert(pieces@.take(j as int) =~= pieces@);
            assert(codes@.take(k + 1).take(k as int) =~= codes@.take(k as int));
            assert(codes@.take(k + 1)[k as int] == codes@[k as int]);
            assert(forall|i: int| 0 <= i < out@.len() ==> (#[trigger] out@[i]).0 < k + 1) by {
                assert forall|i: int| 0 <= i < out@.len() implies (#[trigger] out@[i]).0 < k + 1 by {
                    if i >= before.len() {
                        assert(out@[i] == (k, pieces@[i - before.len()]));
                    }
                }
            }
        }
        k = k + 1;
    }
    proof {
        assert(codes@.take(k as int) =~= codes@);
    }
    out
}

/// The planes in clipping order, as a sequence.
pub open spec fn clip_order() -> Seq<u8> {
    seq![LEFT, RIGHT, TOP, BOTTOM, FRONT, BACK]
}

/// `next` is what one plane makes of the working list `work`: `codes` holds
/// what `codes_of` gave for each triangle of `work`, and each triangle of
/// `next` is what `cut` gave for the matching entry of `pass_pieces`.
pub open spec fn is_plane_pass<T, F: Fn(&T) -> [u8; 3], G: Fn(&T, Piece, u8) -> T>(
    codes_of: F,
    cut: G,
    work: Seq<T>,
    plane: u8,
    codes: Seq<[u8; 3]>,
    next: Seq<T>,
) -> bool {
    let pieces = pass_pieces(codes, plane);
    &&& codes.len() == work.len()
    &&& forall|i: int| 0 <= i < work.len() ==> codes_of.ensures((&work[i],), #[trigger] codes[i])
    &&& next.len() == pieces.len()
    &&& forall|j: int|
        0 <= j < next.len() ==> cut.ensures((&work[pieces[j].0 as int], pieces[j].1, plane), #[trigger] next[j])
}

/// How `clip_triangle` came to `r`: `first` is the outcode triple of the input
/// triangle; a triangle inside every plane is returned alone and unchanged, one
/// beyond a common plane gives nothing, and any other goes through the six
/// planes in order, `stages` being the working lists and `codes` their outcodes.
pub open spec fn is_clip_result<T, F: Fn(&T) -> [u8; 3], G: Fn(&T, Piece, u8) -> T>(
    codes_of: F,
    cut: G,
    triangle: T,
    first: [u8; 3],
    stages: Seq<Seq<T>>,
    codes: Seq<Seq<[u8; 3]>>,
    r: Seq<T>,
) -> bool {
    &&& codes_of.ensures((&triangle,), first)
    &&& triangle_class(first) == ClipClass::Inside ==> r == seq![triangle]
    &&& triangle_class(first) == ClipClass::Outside ==> r == Seq::<T>::empty()
    &&& triangle_class(first) == ClipClass::Partial ==> {
        &&& stages.len() == 7
        &&& codes.len() == 6
        &&& stages[0] == seq![triangle]
        &&& stages[6] == r
        &&& forall|k: int|
            0 <= k < 6 ==> is_plane_pass(codes_of, cut, #[trigger] stages[k], clip_order()[k], codes[k], stages[k + 1])
    }
}

/// Clips one triangle against the view volume. `codes_of` gives the outcodes
/// of a triangle's vertices and `cut` builds the triangle that a piece
/// describes, interpolating at each crossing of the given plane.
pub fn clip_triangle<T, F: Fn(&T) -> [u8; 3], G: Fn(&T, Piece, u8) -> T>(triangle: T, codes_of: F, cut: G) -> (r: Vec<T>)
    requires
        forall|t: &T| #[trigger] codes_of.requires((t,)),
        forall|t: &T, pc: Piece, plane: u8| #[trigger] cut.requires((t, pc, plane)),
    ensures
        exists|first: [u8; 3], stages: Seq<Seq<T>>, codes: Seq<Seq<[u8; 3]>>|
            #[trigger] is_clip_result(codes_of, cut, triangle, first, stages, codes, r@),
{
    let ghost t0 = triangle;
    let first = codes_of(&triangle);
    match classify_triangle(first) {
        ClipClass::Inside => {
            let mut r: Vec<T> = Vec::new();
            r.push(triangle);
            assert(is_clip_result(codes_of, cut, t0, first, seq![], seq![], r@));
            return r;
        },
        ClipClass::Outside => {
            let r: Vec<T> = Vec::new();
            assert(is_clip_result(codes_of, cut, t0, first, seq![], seq![], r@));
            return r;
        },
        ClipClass::Partial => {},
    }
    let planes = clip_planes();
    let mut work: Vec<T> = Vec::new();
    work.push(triangle);
    let ghost mut stages: Seq<Seq<T>> = seq![work@];
    let ghost mut all_codes: Seq<Seq<[u8; 3]>> = seq![];
    let mut s: usize = 0;
    while s < 6
        invariant
            forall|t: &T| #[trigger] codes_of.requires((t,)),
            forall|t: &T, pc: Piece, plane: u8| #[trigger] cut.requires((t, pc, plane)),
            planes@ == clip_order(),
            s <= 6,
            stages.len() == s + 1,
            all_codes.len() == s,
            stages[0] == seq![t0],
            stages[s as int] == work@,
            forall|k: int|
                0 <= k < s ==> is_plane_pass(codes_of, cut, #[trigger] stages[k], clip_order()[k], all_codes[k], stages[k + 1]),
        decreases 6 - s,
    {
        let plane = planes[s];
        let mut codes: Vec<[u8; 3]> = Vec::new();
        let mut i: usize = 0;
        while i < work.len()
            invariant
                forall|t: &T| #[trigger] codes_of.requires((t,)),
                i <= work@.len(),
                codes@.len() == i,
                forall|j: int| 0 <= j < i ==> codes_of.ensures((&work@[j],), #[trigger] codes@[j]),
            decreases work@.len() - i,
        {
            let c = codes_of(&work[i]);
            codes.push(c);
            i = i + 1;
        }
        let pieces = clip_pass(&codes, plane);
        let mut next: Vec<T> = Vec::new();
        let mut j: usize = 0;
        while j < pieces.len()
            invariant
                forall|t: &T, pc: Piece, plane: u8| #[trigger] cut.requires((t, pc, plane)),
                pieces@ == pass_pieces(codes@, plane),
                forall|m: int| 0 <= m < pieces@.len() ==> (#[trigger] pieces@[m]).0 < codes@.len(),
                codes@.len() == work@.len(),
                j <= pieces@.len(),
                next@.len() == j,
                forall|m: int|
                    0 <= m < j ==> cut.ensures(
                        (&work@[pieces@[m].0 as int], pieces@[m].1, plane),
                        #[trigger] next@[m],
                    ),
            decreases pieces@.len() - j,
        {
            let (k, pc) = pieces[j];
            let t = cut(&work[k], pc, plane);
            next.push(t);
            j = j + 1;
        }
        proof {
            assert(is_plane_pass(codes_of, cut, work@, plane, codes@, next@));
            stages = stages.push(next@);
            all_codes = all_codes.push(codes@);
        }
        work = next;
        s = s + 1;
    }
    assert(is_clip_result(codes_of, cut, t0, first, stages, all_codes, work@));
    work
}

proof fn lemma_or_zero(a: u8, b: u8, c: u8)
    requires
        a | b | c == 0,
    ensures
        a == 0,
        b == 0,
        c == 0,
{
    assert(a == 0 && b == 0 && c == 0) by (bit_vector)
        requires
            a | b | c == 0,
    ;
}

/// A triangle whose outcodes are all clear is accepted as it is, and no plane
/// changes it: each one keeps the whole triangle.
pub proof fn lemma_inside_triangle_unchanged(codes: [u8; 3], plane: u8)
    requires
        codes[0] == INSIDE,
        codes[1] == INSIDE,
        codes[2] == INSIDE,
    ensures
        triangle_class(codes) == ClipClass::Inside,
        plane_pieces(codes, plane) == seq![whole()],
{
    assert(0u8 | 0u8 | 0u8 == 0u8) by (bit_vector);
    assert(0u8 & plane == 0u8) by (bit_vector);
}

/// An accepted triangle has all three outcodes clear.
pub proof fn lemma_accepted_is_inside(codes: [u8; 3])
    requires
        triangle_class(codes) == ClipClass::Inside,
    ensures
        codes[0] == INSIDE,
        codes[1] == INSIDE,
        codes[2] == INSIDE,
{
    lemma_or_zero(codes[0], codes[1], codes[2]);
}

/// A triangle whose three vertices all violate one plane is rejected at
/// once, and clipping against that plane leaves nothing of it.
pub proof fn lemma_common_plane_dropped(codes: [u8; 3], plane: u8)
    requires
        is_plane(plane),
        outside_of(codes[0], plane),
        outside_of(codes[1], plane),
        outside_of(codes[2], plane),
    ensures
        triangle_class(codes) == ClipClass::Outside,
        plane_pieces(codes, plane) == Seq::<Piece>::empty(),
{
    let a = codes[0];
    let b = codes[1];
    let c = codes[2];
    assert(a | b | c != 0 && a & b & c != 0) by (bit_vector)
        requires
            plane == 1u8 || plane == 2u8 || plane == 4u8 || plane == 8u8 || plane == 16u8 || plane == 32u8,
            a & plane != 0,
            b & plane != 0,
            c & plane != 0,
    ;
    assert(plane_pieces(codes, plane) =~= Seq::<Piece>::empty());
}

/// When a single vertex is inside a plane, the one output triangle keeps that
/// vertex and replaces the other two by crossings on the two edges that leave
/// it, in the input winding.
pub proof fn lemma_one_inside_cuts_own_edges(codes: [u8; 3], plane: u8)
    requires
        inside_count(codes, plane) == 1,
    ensures
        ({
            let i = first_inside(codes, plane);
            &&& 0 <= i < 3
            &&& !outside_of(codes[i], plane)
            &&& outside_of(codes[next_of(i)], plane)
            &&& outside_of(codes[other_of(i)], plane)
            &&& plane_pieces(codes, plane) == seq![
                Piece {
                    c0: Corner::Cut(i as usize, next_of(i) as usize),
                    c1: Corner::Cut(i as usize, other_of(i) as usize),
                    c2: Corner::Vertex(i as usize),
                },
            ]
        }),
{
}

/// Clipping a triangle whose vertices are all inside the view volume returns
/// exactly that triangle, alone.
pub proof fn lemma_clip_keeps_inside_triangle<T, F: Fn(&T) -> [u8; 3], G: Fn(&T, Piece, u8) -> T>(
    codes_of: F,
    cut: G,
    triangle: T,
    r: Seq<T>,
)
    requires
        forall|c: [u8; 3]|
            #[trigger] codes_of.ensures((&triangle,), c) ==> c[0] == INSIDE && c[1] == INSIDE && c[2] == INSIDE,
        exists|first: [u8; 3], stages: Seq<Seq<T>>, codes: Seq<Seq<[u8; 3]>>|
            #[trigger] is_clip_result(codes_of, cut, triangle, first, stages, codes, r),
    ensures
        r == seq![triangle],
{
    let (first, stages, codes) = choose|first: [u8; 3], stages: Seq<Seq<T>>, codes: Seq<Seq<[u8; 3]>>|
        #[trigger] is_clip_result(codes_of, cut, triangle, first, stages, codes, r);
    lemma_inside_triangle_unchanged(first, LEFT);
}

/// Clipping a triangle whose three vertices all violate one plane returns
/// nothing.
pub proof fn lemma_clip_drops_triangle_beyond_plane<T, F: Fn(&T) -> [u8; 3], G: Fn(&T, Piece, u8) -> T>(
    codes_of: F,
    cut: G,
    triangle: T,
    plane: u8,
    r: Seq<T>,
)
    requires
        is_plane(plane),
        forall|c: [u8; 3]|
            #[trigger] codes_of.ensures((&triangle,), c) ==> outside_of(c[0], plane) && outside_of(c[1], plane)
                && outside_of(c[2], plane),
        exists|first: [u8; 3], stages: Seq<Seq<T>>, codes: Seq<Seq<[u8; 3]>>|
            #[trigger] is_clip_result(codes_of, cut, triangle, first, stages, codes, r),
    ensures
        r == Seq::<T>::empty(),
{
    let (first, stages, codes) = choose|first: [u8; 3], stages: Seq<Seq<T>>, codes: Seq<Seq<[u8; 3]>>|
        #[trigger] is_clip_result(codes_of, cut, triangle, first, stages, codes, r);
    lemma_common_plane_dropped(first, plane);
}

/// A clip-space vertex `(x, y, z, w)` in exact arithmetic.
pub type ExactVertex = (int, int, int, int);

/// Signed distance-like value of a vertex to a plane: negative exactly when
/// the vertex violates it.
pub open spec fn plane_dist(v: ExactVertex, plane: u8) -> int {
    if plane == LEFT {
        v.0 + v.3
    } else if plane == RIGHT {
        v.3 - v.0
    } else if plane == BOTTOM {
        v.1 + v.3
    } else if plane == TOP {
        v.3 - v.1
    } else if plane == FRONT {
        v.2 + v.3
    } else {
        v.3 - v.2
    }
}

pub open spec fn combine(a: int, u: ExactVertex, b: int, v: ExactVertex) -> ExactVertex {
    (a * u.0 + b * v.0, a * u.1 + b * v.1, a * u.2 + b * v.2, a * u.3 + b * v.3)
}

/// Where the edge from `va` to `vb` meets the plane, scaled by
/// `dist(va) - dist(vb)`: the same point once divided by its `w`.
pub open spec fn exact_cut(va: ExactVertex, vb: ExactVertex, plane: u8) -> ExactVertex {
    combine(-plane_dist(vb, plane), va, plane_dist(va, plane), vb)
}

pub open spec fn exact_corner(v: Seq<ExactVertex>, c: Corner, plane: u8) -> ExactVertex {
    match c {
        Corner::Vertex(i) => v[i as int],
        Corner::Cut(a, b) => exact_cut(v[a as int], v[b as int], plane),
    }
}

/// Twice the signed area of the screen projection `(x / w, y / w)` of three
/// vertices, times the product of their `w`.
pub open spec fn projected_det(p: ExactVertex, q: ExactVertex, r: ExactVertex) -> int {
    p.0 * (q.1 * r.3 - q.3 * r.1) - p.1 * (q.0 * r.3 - q.3 * r.0) + p.3 * (q.0 * r.1 - q.1 * r.0)
}

pub open spec fn abs_i(a: int) -> int {
    if a < 0 { -a } else { a }
}

proof fn lemma_linear3(a: int, b: int, x0: int, x1: int, x3: int, y0: int, y1: int, y3: int, c1: int, c2: int, c3: int)
    ensures
        (a * x0 + b * y0) * c1 - (a * x1 + b * y1) * c2 + (a * x3 + b * y3) * c3 == a * (x0 * c1 - x1 * c2 + x3 * c3) + b
            * (y0 * c1 - y1 * c2 + y3 * c3),
{
    assert((a * x0 + b * y0) * c1 == a * (x0 * c1) + b * (y0 * c1)) by (nonlinear_arith);
    assert((a * x1 + b * y1) * c2 == a * (x1 * c2) + b * (y1 * c2)) by (nonlinear_arith);
    assert((a * x3 + b * y3) * c3 == a * (x3 * c3) + b * (y3 * c3)) by (nonlinear_arith);
    assert(a * (x0 * c1 - x1 * c2 + x3 * c3) == a * (x0 * c1) - a * (x1 * c2) + a * (x3 * c3)) by (nonlinear_arith);
    assert(b * (y0 * c1 - y1 * c2 + y3 * c3) == b * (y0 * c1) - b * (y1 * c2) + b * (y3 * c3)) by (nonlinear_arith);
}

proof fn lemma_det_linear_first(a: int, u: ExactVertex, b: int, v: ExactVertex, q: ExactVertex, r: ExactVertex)
    ensures
        projected_det(combine(a, u, b, v), q, r) == a * projected_det(u, q, r) + b * projected_det(v, q, r),
{
    let c1 = q.1 * r.3 - q.3 * r.1;
    let c2 = q.0 * r.3 - q.3 * r.0;
    let c3 = q.0 * r.1 - q.1 * r.0;
    lemma_linear3(a, b, u.0, u.1, u.3, v.0, v.1, v.3, c1, c2, c3);
}

proof fn lemma_term(a: int, b: int, c: int, d: int, e: int)
    ensures
        a * (b * c - d * e) == a * b * c - a * d * e,
{
    assert(a * (b * c - d * e) == a * b * c - a * d * e) by (nonlinear_arith);
}

proof fn lemma_rotate3(a: int, b: int, c: int)
    ensures
        a * b * c == b * c * a,
        a * b * c == c * b * a,
{
    assert(a * b * c == b * c * a) by (nonlinear_arith);
    assert(a * b * c == c * b * a) by (nonlinear_arith);
}

proof fn lemma_rotate_ints(p0: int, p1: int, p3: int, q0: int, q1: int, q3: int, r0: int, r1: int, r3: int)
    ensures
        p0 * (q1 * r3 - q3 * r1) - p1 * (q0 * r3 - q3 * r0) + p3 * (q0 * r1 - q1 * r0) == q0 * (r1 * p3 - r3 * p1) - q1 * (
        r0 * p3 - r3 * p0) + q3 * (r0 * p1 - r1 * p0),
{
    lemma_term(p0, q1, r3, q3, r1);
    lemma_term(p1, q0, r3, q3, r0);
    lemma_term(p3, q0, r1, q1, r0);
    lemma_term(q0, r1, p3, r3, p1);
    lemma_term(q1, r0, p3, r3, p0);
    lemma_term(q3, r0, p1, r1, p0);
    lemma_rotate3(p0, q1, r3);
    lemma_rotate3(p0, q3, r1);
    lemma_rotate3(p1, q0, r3);
    lemma_rotate3(p1, q3, r0);
    lemma_rotate3(p3, q0, r1);
    lemma_rotate3(p3, q1, r0);
    lemma_rotate3(q0, r1, p3);
    lemma_rotate3(q0, r3, p1);
    lemma_rotate3(q1, r0, p3);
    lemma_rotate3(q1, r3, p0);
    lemma_rotate3(q3, r0, p1);
    lemma_rotate3(q3, r1, p0);
}

proof fn lemma_det_rotate(p: ExactVertex, q: ExactVertex, r: ExactVertex)
    ensures
        projected_det(p, q, r) == projected_det(q, r, p),
{
    lemma_rotate_ints(p.0, p.1, p.3, q.0, q.1, q.3, r.0, r.1, r.3);
}

proof fn lemma_repeat_ints(p0: int, p1: int, p3: int, q0: int, q1: int, q3: int)
    ensures
        p0 * (q1 * p3 - q3 * p1) - p1 * (q0 * p3 - q3 * p0) + p3 * (q0 * p1 - q1 * p0) == 0,
{
    assert(p0 * (q1 * p3 - q3 * p1) - p1 * (q0 * p3 - q3 * p0) + p3 * (q0 * p1 - q1 * p0) == 0) by (nonlinear_arith);
}

proof fn lemma_det_repeat(p: ExactVertex, q: ExactVertex)
    ensures
        projected_det(p, q, p) == 0,
{
    lemma_repeat_ints(p.0, p.1, p.3, q.0, q.1, q.3);
}

/// In exact arithmetic, the triangle kept when a single vertex is inside a
/// plane projects onto the screen with no more area than the input triangle:
/// for vertices in front of the camera (`w > 0`) whose outcodes match their
/// positions, with each crossing taken as an exact point, the kept corners
/// have positive `w` and the projected areas compare as stated (both sides
/// multiplied by the six `w`).
pub proof fn lemma_one_inside_area_shrinks(v: Seq<ExactVertex>, codes: [u8; 3], plane: u8)
    requires
        v.len() == 3,
        is_plane(plane),
        forall|i: int| 0 <= i < 3 ==> (#[trigger] v[i]).3 > 0,
        forall|i: int| 0 <= i < 3 ==> outside_of(#[trigger] codes[i], plane) == (plane_dist(v[i], plane) < 0),
        inside_count(codes, plane) == 1,
    ensures
        ({
            let pc = plane_pieces(codes, plane)[0];
            let p = exact_corner(v, pc.c0, plane);
            let q = exact_corner(v, pc.c1, plane);
            let r = exact_corner(v, pc.c2, plane);
            &&& p.3 > 0
            &&& q.3 > 0
            &&& r.3 > 0
            &&& abs_i(projected_det(p, q, r)) * (v[0].3 * v[1].3 * v[2].3) <= abs_i(projected_det(v[0], v[1], v[2])) * (
            p.3 * q.3 * r.3)
        }),
{
    let i = first_inside(codes, plane);
    let n = next_of(i);
    let o = other_of(i);
    assert(outside_of(codes[n], plane) && outside_of(codes[o], plane) && !outside_of(codes[i], plane));
    let vi = v[i];
    let vn = v[n];
    let vo = v[o];
    let ei = plane_dist(vi, plane);
    let en = plane_dist(vn, plane);
    let eo = plane_dist(vo, plane);
    assert(ei >= 0 && en < 0 && eo < 0);
    let p = exact_cut(vi, vn, plane);
    let q = exact_cut(vi, vo, plane);
    assert(p == combine(-en, vi, ei, vn));
    assert(q == combine(-eo, vi, ei, vo));
    // The kept triangle's determinant is ei * ei times the input's.
    lemma_det_linear_first(-en, vi, ei, vn, q, vi);
    lemma_det_repeat(vi, q);
    lemma_det_rotate(vn, q, vi);
    lemma_det_rotate(q, vi, vn);
    lemma_det_linear_first(-eo, vi, ei, vo, vi, vn);
    lemma_det_rotate(vi, vi, vn);
    lemma_det_repeat(vi, vn);
    lemma_det_rotate(vo, vi, vn);
    lemma_det_rotate(vi, vn, vo);
    let d = projected_det(vi, vn, vo);
    assert(projected_det(p, q, vi) == ei * (ei * d));
    assert(projected_det(vi, vn, vo) == projected_det(v[0], v[1], v[2])) by {
        if i == 1 {
            lemma_det_rotate(v[0], v[1], v[2]);
        } else if i == 2 {
            lemma_det_rotate(v[0], v[1], v[2]);
            lemma_det_rotate(v[1], v[2], v[0]);
        }
    }
    // Each crossing keeps at least the inside vertex's share of the far w.
    let (wi, wn, wo) = (vi.3, vn.3, vo.3);
    assert(p.3 == -en * wi + ei * wn);
    assert(q.3 == -eo * wi + ei * wo);
    assert(p.3 > 0 && q.3 > 0) by (nonlinear_arith)
        requires
            p.3 == -en * wi + ei * wn,
            q.3 == -eo * wi + ei * wo,
            ei >= 0,
            en < 0,
            eo < 0,
            wi > 0,
            wn > 0,
            wo > 0,
    ;
    assert(p.3 >= ei * wn && q.3 >= ei * wo) by (nonlinear_arith)
        requires
            p.3 == -en * wi + ei * wn,
            q.3 == -eo * wi + ei * wo,
            en < 0,
            eo < 0,
            wi > 0,
    ;
    let ad = abs_i(d);
    assert(abs_i(ei * (ei * d)) == ei * ei * ad) by (nonlinear_arith)
        requires
            ei >= 0,
            ad == abs_i(d),
    ;
    assert(ei * ei * ad * (wi * wn * wo) <= ad * (p.3 * q.3 * wi)) by (nonlinear_arith)
        requires
            p.3 >= ei * wn,
            q.3 >= ei * wo,
            ei >= 0,
            ad >= 0,
            wi > 0,
            wn > 0,
            wo > 0,
    ;
    assert(v[0].3 * v[1].3 * v[2].3 == wi * wn * wo) by (nonlinear_arith)
        requires
            (i == 0 && vi == v[0] && vn == v[1] && vo == v[2]) || (i == 1 && vi == v[1] && vn == v[2] && vo == v[0]) || (i
                == 2 && vi == v[2] && vn == v[0] && vo == v[1]),
            wi == vi.3,
            wn == vn.3,
            wo == vo.3,
    ;
}

} // verus!
