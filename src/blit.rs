use vstd::prelude::*;

use vstd::arithmetic::div_mod::{
    lemma_fundamental_div_mod, lemma_fundamental_div_mod_converse_div,
    lemma_fundamental_div_mod_converse_mod,
};
use vstd::arithmetic::mul::{lemma_mul_inequality, lemma_mul_is_distributive_add_other_way};

use crate::sprite::BYTES_PER_PIXEL;

verus! {

/// Byte `idx` of a buffer with rows of `stride` bytes falls inside the `w` by `h`
/// pixel rectangle whose corner is at `(x, y)`.
pub open spec fn in_region(idx: int, stride: int, x: int, y: int, w: int, h: int) -> bool {
    &&& y <= idx / stride < y + h
    &&& x * BYTES_PER_PIXEL <= idx % stride < (x + w) * BYTES_PER_PIXEL
}

/// The byte of a `w` pixels wide, tightly packed source image that byte `idx` of the
/// buffer shows when the image's corner is at `(x, y)`.
pub open spec fn source_index(idx: int, stride: int, x: int, y: int, w: int) -> int {
    (idx / stride - y) * (w * BYTES_PER_PIXEL) + (idx % stride - x * BYTES_PER_PIXEL)
}

/// A buffer of `height` rows of `stride` bytes, all zero.
pub fn create_pixel_buffer(height: u32, stride: usize) -> (r: Vec<u8>)
    requires
        height as int * stride as int <= usize::MAX,
    ensures
        r@.len() == height as int * stride as int,
        forall|i: int| 0 <= i < r@.len() ==> r@[i] == 0,
{
    let len = height as usize * stride;
    let mut buf: Vec<u8> = Vec::new();
    let mut i: usize = 0;
    while i < len
        invariant
            i <= len,
            buf@.len() == i,
            forall|k: int| 0 <= k < i ==> buf@[k] == 0,
        decreases len - i,
    {
        buf.push(0);
        i = i + 1;
    }
    buf
}

/// Copies a tightly packed `w` by `h` image row by row into the buffer with its
/// corner at `(x, y)`; every other byte of the buffer stays as it was.
pub fn write_sprite(buf: &mut Vec<u8>, stride: usize, src: &Vec<u8>, x: u32, y: u32, w: u32, h: u32)
    requires
        (x as int + w as int) * BYTES_PER_PIXEL <= stride,
        (y as int + h as int) * stride as int <= old(buf)@.len(),
        src@.len() == w as int * h as int * BYTES_PER_PIXEL,
    ensures
        final(buf)@.len() == old(buf)@.len(),
        forall|idx: int|
            0 <= idx < final(buf)@.len() && !in_region(idx, stride as int, x as int, y as int, w as int, h as int)
                ==> #[trigger] final(buf)@[idx] == old(buf)@[idx],
        forall|idx: int|
            0 <= idx < final(buf)@.len() && in_region(idx, stride as int, x as int, y as int, w as int, h as int)
                ==> #[trigger] final(buf)@[idx] == src@[source_index(idx, stride as int, x as int, y as int, w as int)],
{
    let ghost s = stride as int;
    let ghost xi = x as int;
    let ghost yi = y as int;
    let ghost wi = w as int;
    let ghost hi = h as int;
    let ghost orig = buf@;
    if w == 0 {
        return;
    }
    let total = buf.len();
    let src_len = src.len();
    let row_bytes = w as usize * BYTES_PER_PIXEL;
    let left = x as usize * BYTES_PER_PIXEL;
    let mut r: usize = 0;
    while r < h as usize
        invariant
            s == stride as int,
            s >= BYTES_PER_PIXEL,
            total == orig.len(),
            src_len == src@.len(),
            xi == x as int,
            yi == y as int,
            wi == w as int,
            hi == h as int,
            s >= (xi + wi) * BYTES_PER_PIXEL,
            (yi + hi) * s <= orig.len(),
            src@.len() == wi * hi * BYTES_PER_PIXEL,
            row_bytes == wi * BYTES_PER_PIXEL,
            left == xi * BYTES_PER_PIXEL,
            r <= hi,
            buf@.len() == orig.len(),
            forall|idx: int|
                0 <= idx < buf@.len() && !(in_region(idx, s, xi, yi, wi, hi) && idx / s < yi + r)
                    ==> #[trigger] buf@[idx] == orig[idx],
            forall|idx: int|
                0 <= idx < buf@.len() && in_region(idx, s, xi, yi, wi, hi) && idx / s < yi + r
                    ==> #[trigger] buf@[idx] == src@[source_index(idx, s, xi, yi, wi)],
        decreases h as usize - r,
    {
        proof {
            assert(wi * hi * BYTES_PER_PIXEL == hi * (wi * BYTES_PER_PIXEL)) by (nonlinear_arith);
            lemma_mul_inequality(yi + r + 1, yi + hi, s);
            lemma_mul_inequality(r as int + 1, hi, wi * BYTES_PER_PIXEL);
            lemma_mul_is_distributive_add_other_way(s, yi + r as int, 1);
            lemma_mul_is_distributive_add_other_way(wi * BYTES_PER_PIXEL, r as int, 1);
            lemma_mul_inequality(1, s, yi + r);
            lemma_mul_inequality(0, r as int, wi * BYTES_PER_PIXEL);
        }
        let base = (y as usize + r) * stride + left;
        let src_base = r * row_bytes;
        let mut c: usize = 0;
        while c < row_bytes
            invariant
                s == stride as int,
                total == orig.len(),
            src_len == src@.len(),
                xi == x as int,
                yi == y as int,
                wi == w as int,
                hi == h as int,
                s >= (xi + wi) * BYTES_PER_PIXEL,
                (yi + r + 1) * s <= orig.len(),
                src@.len() == wi * hi * BYTES_PER_PIXEL,
                (r + 1) * (wi * BYTES_PER_PIXEL) <= hi * (wi * BYTES_PER_PIXEL),
                wi * hi * BYTES_PER_PIXEL == hi * (wi * BYTES_PER_PIXEL),
                (yi + r + 1) * s == (yi + r) * s + s,
                (r + 1) * (wi * BYTES_PER_PIXEL) == r * (wi * BYTES_PER_PIXEL) + wi * BYTES_PER_PIXEL,
                row_bytes == wi * BYTES_PER_PIXEL,
                left == xi * BYTES_PER_PIXEL,
                base == (yi + r) * s + left,
                src_base == r * (wi * BYTES_PER_PIXEL),
                r < hi,
                c <= row_bytes,
                buf@.len() == orig.len(),
                forall|idx: int|
                    0 <= idx < buf@.len() && !(in_region(idx, s, xi, yi, wi, hi) && (idx / s < yi + r
                        || (idx / s == yi + r && idx % s < left + c))) ==> #[trigger] buf@[idx]
                        == orig[idx],
                forall|idx: int|
                    0 <= idx < buf@.len() && in_region(idx, s, xi, yi, wi, hi) && (idx / s < yi + r
                        || (idx / s == yi + r && idx % s < left + c)) ==> #[trigger] buf@[idx]
                        == src@[source_index(idx, s, xi, yi, wi)],
            decreases row_bytes - c,
        {
            let ghost p = base + c;
            proof {
                lemma_fundamental_div_mod_converse_div(p as int, s, yi + r, left + c);
                lemma_fundamental_div_mod_converse_mod(p as int, s, yi + r, left + c);
            }
            let ghost prev = buf@;
            buf.set(base + c, src[src_base + c]);
            proof {
                assert forall|idx: int|
                    0 <= idx < buf@.len() && idx != p implies #[trigger] buf@[idx] == prev[idx] by {}
                assert forall|idx: int|
                    0 <= idx < buf@.len() && in_region(idx, s, xi, yi, wi, hi) && idx / s == yi + r
                        && idx % s == left + c implies idx == p by {
                    lemma_fundamental_div_mod(idx, s);
                }
            }
            c = c + 1;
        }
        r = r + 1;
    }
}

} // verus!
