use vstd::prelude::*;

verus! {

/// Packed `0x00RRGGBB` value of a color.
pub open spec fn rgb(r: u8, g: u8, b: u8) -> u32 {
    (r as int * 0x1_0000 + g as int * 0x100 + b as int) as u32
}

/// Packs a color into the pixel buffer's `0x00RRGGBB` layout.
pub fn pack_rgb(r: u8, g: u8, b: u8) -> (c: u32)
    ensures
        c == rgb(r, g, b),
{
    let rr = r as u32;
    let gg = g as u32;
    let bb = b as u32;
    assert((rr << 16u32) | (gg << 8u32) | bb == rr * 0x1_0000 + gg * 0x100 + bb) by (bit_vector)
        requires
            rr < 256,
            gg < 256,
            bb < 256,
    ;
    (rr << 16u32) | (gg << 8u32) | bb
}

/// Writes a color at one index of the pixel buffer.
pub fn set_buffer(pixel_buffer: &mut [u32], pixel_buffer_idx: usize, r: u8, g: u8, b: u8)
    requires
        pixel_buffer_idx < old(pixel_buffer)@.len(),
    ensures
        final(pixel_buffer)@ == old(pixel_buffer)@.update(pixel_buffer_idx as int, rgb(r, g, b)),
{
    let c = pack_rgb(r, g, b);
    pixel_buffer[pixel_buffer_idx] = c;
}

/// A black pixel buffer of `width * height` pixels.
pub fn new_pixel_buffer(width: u32, height: u32) -> (buf: Vec<u32>)
    requires
        width * height <= usize::MAX,
    ensures
        buf@.len() == width * height,
        forall|i: int| 0 <= i < buf@.len() ==> buf@[i] == 0,
{
    let n: usize = width as usize * height as usize;
    let mut buf: Vec<u32> = Vec::new();
    while buf.len() < n
        invariant
            buf@.len() <= n,
            forall|i: int| 0 <= i < buf@.len() ==> buf@[i] == 0,
        decreases n - buf@.len(),
    {
        buf.push(0);
    }
    buf
}

/// The exponent and mantissa bits of an `f32` mark a NaN.
pub open spec fn is_nan_bits(bits: u32) -> bool {
    bits & 0x7f80_0000 == 0x7f80_0000 && bits & 0x007f_ffff != 0
}

/// Depth key of the `f32` with these bits: its magnitude bits, negated when
/// the sign bit is set. On numbers other than NaN the keys are ordered as the
/// numbers are, and both zeros get key 0.
pub open spec fn key_of(bits: u32) -> int {
    if bits & 0x8000_0000 != 0 {
        -((bits & 0x7fff_ffff) as int)
    } else {
        (bits & 0x7fff_ffff) as int
    }
}

/// The depth key of a depth given by its `f32` bits; none for a NaN, which
/// no depth test accepts.
pub fn depth_key(bits: u32) -> (r: Option<i32>)
    ensures
        r is None <==> is_nan_bits(bits),
        r matches Some(k) ==> k == key_of(bits),
{
    if bits & 0x7f80_0000 == 0x7f80_0000 && bits & 0x007f_ffff != 0 {
        return None;
    }
    let mag = bits & 0x7fff_ffff;
    assert(bits & 0x7fff_ffff <= 0x7fff_ffff) by (bit_vector);
    if bits & 0x8000_0000 != 0 {
        Some(-(mag as i32))
    } else {
        Some(mag as i32)
    }
}

/// A depth buffer of `width * height` entries, all holding the key `far`.
pub fn new_depth_buffer(width: u32, height: u32, far: i32) -> (buf: Vec<i32>)
    requires
        width * height <= usize::MAX,
    ensures
        buf@.len() == width * height,
        forall|i: int| 0 <= i < buf@.len() ==> buf@[i] == far,
{
    let n: usize = width as usize * height as usize;
    let mut buf: Vec<i32> = Vec::new();
    while buf.len() < n
        invariant
            buf@.len() <= n,
            forall|i: int| 0 <= i < buf@.len() ==> buf@[i] == far,
        decreases n - buf@.len(),
    {
        buf.push(far);
    }
    buf
}

/// A fragment is kept when it lies in front of the camera (negative depth)
/// and strictly nearer than what the buffer holds.
pub open spec fn depth_passes(stored: i32, key: i32) -> bool {
    key < 0 && key > stored
}

/// Depth test of one fragment; when it passes, the buffer takes its key.
pub fn depth_test_and_set(z_buffer: &mut [i32], idx: usize, key: i32) -> (r: bool)
    requires
        idx < old(z_buffer)@.len(),
    ensures
        r == depth_passes(old(z_buffer)@[idx as int], key),
        final(z_buffer)@ == if r {
            old(z_buffer)@.update(idx as int, key)
        } else {
            old(z_buffer)@
        },
{
    if key < 0 && key > z_buffer[idx] {
        z_buffer[idx] = key;
        true
    } else {
        false
    }
}

/// Depth and pixel buffers after a fragment of depth key `key` and shaded
/// color `color` meets pixel `idx`: a depth test, then a color write when it
/// passes.
pub open spec fn draw_fragment(z: Seq<i32>, px: Seq<u32>, idx: int, key: i32, color: u32) -> (Seq<i32>, Seq<u32>) {
    if depth_passes(z[idx], key) {
        (z.update(idx, key), px.update(idx, color))
    } else {
        (z, px)
    }
}

/// Of two fragments on one pixel, the nearer one that passes the test owns
/// the pixel whichever is drawn first, and both orders leave the same buffers.
pub proof fn lemma_nearer_fragment_wins(
    z: Seq<i32>,
    px: Seq<u32>,
    idx: int,
    near: i32,
    near_color: u32,
    far: i32,
    far_color: u32,
)
    requires
        0 <= idx < z.len(),
        0 <= idx < px.len(),
        far < near,
        depth_passes(z[idx], near),
    ensures
        ({
            let a = draw_fragment(z, px, idx, near, near_color);
            let near_first = draw_fragment(a.0, a.1, idx, far, far_color);
            let b = draw_fragment(z, px, idx, far, far_color);
            let far_first = draw_fragment(b.0, b.1, idx, near, near_color);
            &&& near_first == far_first
            &&& near_first.0[idx] == near
            &&& near_first.1[idx] == near_color
            &&& forall|j: int| 0 <= j < z.len() && j != idx ==> near_first.0[j] == z[j]
            &&& forall|j: int| 0 <= j < px.len() && j != idx ==> near_first.1[j] == px[j]
        }),
{
    let a = draw_fragment(z, px, idx, near, near_color);
    let b = draw_fragment(z, px, idx, far, far_color);
    if depth_passes(z[idx], far) {
        assert(b.0.update(idx, near) =~= z.update(idx, near));
        assert(b.1.update(idx, near_color) =~= px.update(idx, near_color));
    }
}

} // verus!
