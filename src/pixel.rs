use vstd::prelude::*;

verus! {

/// One RGBA pixel with four 8-bit channels.
#[derive(Clone, Copy, Debug, PartialEq, Eq, Structural)]
pub struct RgbaPixel {
    pub r: u8,
    pub g: u8,
    pub b: u8,
    pub a: u8,
}

/// Number of slots in the color cache.
pub const CACHE_SIZE: usize = 64;

/// The cache slot of a pixel: `(3r + 5g + 7b + 11a) mod 64`.
///
/// Every step of the weighted sum wraps at 256; since 64 divides 256 this
/// reduction gives the same slot as the sum taken over the integers.
pub open spec fn hash_of(p: RgbaPixel) -> nat {
    ((p.r * 3 + p.g * 5 + p.b * 7 + p.a * 11) % 64) as nat
}

/// Reduction of an integer to an 8-bit channel value, modulo 256.
pub open spec fn wrap(x: int) -> u8 {
    (x % 256) as u8
}

proof fn lemma_wrap_add(x: int, y: int)
    ensures
        wrap(wrap(x) + wrap(y)) == wrap(x + y),
{
    vstd::arithmetic::div_mod::lemma_add_mod_noop(x, y, 256);
}

/// Reducing before adding an offset changes nothing modulo 256.
pub(crate) proof fn lemma_wrap_shift(x: int, y: int)
    ensures
        wrap(wrap(x) + y) == wrap(x + y),
{
    vstd::arithmetic::div_mod::lemma_add_mod_noop_right(y, x, 256);
}

pub(crate) proof fn lemma_wrapping_sub_u8(x: u8, y: u8)
    ensures
        x.wrapping_sub(y) == wrap(x - y),
{
}

proof fn lemma_wrap_mod64(x: int)
    ensures
        (wrap(x) as int) % 64 == x % 64,
{
    vstd::arithmetic::div_mod::lemma_mod_mod(x, 64, 4);
}

pub(crate) proof fn lemma_wrapping_add_u8(x: u8, y: u8)
    ensures
        x.wrapping_add(y) == wrap(x + y),
{
}

proof fn lemma_wrapping_mul_u8(x: u8, y: u8)
    ensures
        x.wrapping_mul(y) == wrap(x * y),
{
}

/// Weighted four-term sum with wraparound after each step, reduced modulo 64.
proof fn lemma_wrapped_sum_mod64(x1: int, x2: int, x3: int, x4: int)
    ensures
        (wrap(wrap(wrap(wrap(x1) + wrap(x2)) + wrap(x3)) + wrap(x4)) as int) % 64
            == (x1 + x2 + x3 + x4) % 64,
{
    lemma_wrap_add(x1, x2);
    lemma_wrap_add(x1 + x2, x3);
    lemma_wrap_add(x1 + x2 + x3, x4);
    lemma_wrap_mod64(x1 + x2 + x3 + x4);
}

/// Cache slot of `pixel`, computed with 8-bit wrapping arithmetic at every step.
pub fn hash(pixel: &RgbaPixel) -> (r: u8)
    ensures
        r as nat == hash_of(*pixel),
        r < 64,
{
    let r3 = pixel.r.wrapping_mul(3);
    let g5 = pixel.g.wrapping_mul(5);
    let b7 = pixel.b.wrapping_mul(7);
    let a11 = pixel.a.wrapping_mul(11);
    let s1 = r3.wrapping_add(g5);
    let s2 = s1.wrapping_add(b7);
    let s3 = s2.wrapping_add(a11);
    proof {
        lemma_wrapping_mul_u8(pixel.r, 3);
        lemma_wrapping_mul_u8(pixel.g, 5);
        lemma_wrapping_mul_u8(pixel.b, 7);
        lemma_wrapping_mul_u8(pixel.a, 11);
        lemma_wrapping_add_u8(r3, g5);
        lemma_wrapping_add_u8(s1, b7);
        lemma_wrapping_add_u8(s2, a11);
        lemma_wrapped_sum_mod64(pixel.r * 3, pixel.g * 5, pixel.b * 7, pixel.a * 11);
    }
    s3 % 64
}

} // verus!
