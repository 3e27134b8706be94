//! The Hilbert key that orders features before the index is built.
use crate::bounds::{holds_point, Bounds};
use crate::geometry::LngLat;
use vstd::prelude::*;

verus! {

/// The largest coordinate on either axis of the Hilbert grid.
pub const HILBERT_MAX: u32 = 0xFFFF;

/// One step of the branch-free Hilbert computation: from the four state words
/// `(a, b, c, d)` to the next four, combining bits `k` apart.
pub open spec fn hilbert_step(a: u32, b: u32, c: u32, d: u32, k: u32) -> (u32, u32, u32, u32) {
    (
        (a & (a >> k)) ^ (b & (b >> k)),
        (a & (b >> k)) ^ (b & ((a ^ b) >> k)),
        c ^ ((a & (c >> k)) ^ (b & (d >> k))),
        d ^ ((b & (c >> k)) ^ ((a ^ b) & (d >> k))),
    )
}

/// Spreads the low 16 bits of `v` onto the even bit positions.
pub open spec fn spread_bits(v: u32) -> u32 {
    let v1 = (v | (v << 8u32)) & 0x00FF00FFu32;
    let v2 = (v1 | (v1 << 4u32)) & 0x0F0F0F0Fu32;
    let v3 = (v2 | (v2 << 2u32)) & 0x33333333u32;
    (v3 | (v3 << 1u32)) & 0x55555555u32
}

/// The position of grid cell `(x, y)` along a Hilbert curve over the
/// 65536 x 65536 grid, computed with the public-domain branch-free method
/// (prefix scan over the curve's state, then bit interleaving).
pub open spec fn hilbert_key(x: u32, y: u32) -> u32 {
    let a0 = x ^ y;
    let b0 = 0xFFFFu32 ^ a0;
    let c0 = 0xFFFFu32 ^ (x | y);
    let d0 = x & (y ^ 0xFFFFu32);
    let a1 = a0 | (b0 >> 1u32);
    let b1 = (a0 >> 1u32) ^ a0;
    let c1 = ((c0 >> 1u32) ^ (b0 & (d0 >> 1u32))) ^ c0;
    let d1 = ((a0 & (c0 >> 1u32)) ^ (d0 >> 1u32)) ^ d0;
    let s2 = hilbert_step(a1, b1, c1, d1, 2);
    let s4 = hilbert_step(s2.0, s2.1, s2.2, s2.3, 4);
    let s8 = hilbert_step(s4.0, s4.1, s4.2, s4.3, 8);
    let a = s8.2 ^ (s8.2 >> 1u32);
    let b = s8.3 ^ (s8.3 >> 1u32);
    let i0 = x ^ y;
    let i1 = b | (0xFFFFu32 ^ (i0 | a));
    (spread_bits(i1) << 1u32) | spread_bits(i0)
}

fn spread(v: u32) -> (r: u32)
    ensures
        r == spread_bits(v),
{
    let v1 = (v | (v << 8u32)) & 0x00FF00FFu32;
    let v2 = (v1 | (v1 << 4u32)) & 0x0F0F0F0Fu32;
    let v3 = (v2 | (v2 << 2u32)) & 0x33333333u32;
    (v3 | (v3 << 1u32)) & 0x55555555u32
}

/// The Hilbert key of a cell of the 65536 x 65536 grid.
pub fn hilbert(x: u32, y: u32) -> (r: u32)
    requires
        x <= HILBERT_MAX,
        y <= HILBERT_MAX,
    ensures
        r == hilbert_key(x, y),
{
    let mut a = x ^ y;
    let mut b = 0xFFFFu32 ^ a;
    let mut c = 0xFFFFu32 ^ (x | y);
    let mut d = x & (y ^ 0xFFFFu32);

    let mut aa = a | (b >> 1u32);
    let mut bb = (a >> 1u32) ^ a;
    let mut cc = ((c >> 1u32) ^ (b & (d >> 1u32))) ^ c;
    let mut dd = ((a & (c >> 1u32)) ^ (d >> 1u32)) ^ d;

    a = aa;
    b = bb;
    c = cc;
    d = dd;
    aa = (a & (a >> 2u32)) ^ (b & (b >> 2u32));
    bb = (a & (b >> 2u32)) ^ (b & ((a ^ b) >> 2u32));
    cc = cc ^ ((a & (c >> 2u32)) ^ (b & (d >> 2u32)));
    dd = dd ^ ((b & (c >> 2u32)) ^ ((a ^ b) & (d >> 2u32)));

    a = aa;
    b = bb;
    c = cc;
    d = dd;
    aa = (a & (a >> 4u32)) ^ (b & (b >> 4u32));
    bb = (a & (b >> 4u32)) ^ (b & ((a ^ b) >> 4u32));
    cc = cc ^ ((a & (c >> 4u32)) ^ (b & (d >> 4u32)));
    dd = dd ^ ((b & (c >> 4u32)) ^ ((a ^ b) & (d >> 4u32)));

    a = aa;
    b = bb;
    c = cc;
    d = dd;
    cc = cc ^ ((a & (c >> 8u32)) ^ (b & (d >> 8u32)));
    dd = dd ^ ((b & (c >> 8u32)) ^ ((a ^ b) & (d >> 8u32)));

    a = cc ^ (cc >> 1u32);
    b = dd ^ (dd >> 1u32);

    let i0 = x ^ y;
    let i1 = b | (0xFFFFu32 ^ (i0 | a));
    (spread(i1) << 1u32) | spread(i0)
}

/// The grid coordinate of an offset `off` along an axis `width` long:
/// `off * HILBERT_MAX / width`, and 0 on an axis of no width.
pub open spec fn scale_axis(off: int, width: int) -> u32 {
    if width == 0 {
        0
    } else {
        (off * HILBERT_MAX / width) as u32
    }
}

fn scale(off: u64, width: u64) -> (r: u32)
    requires
        off <= width,
        width <= u32::MAX,
    ensures
        r == scale_axis(off as int, width as int),
        r <= HILBERT_MAX,
{
    if width == 0 {
        0
    } else {
        proof {
            assert(off * 0xFFFF <= width * 0xFFFF) by (nonlinear_arith)
                requires off <= width;
            assert(off * 0xFFFF / (width as int) <= 0xFFFF) by (nonlinear_arith)
                requires off * 0xFFFF <= width * 0xFFFF, width > 0;
        }
        (off * 0xFFFFu64 / width) as u32
    }
}

/// The key of `point`'s cell once the grid is stretched over `extent`.
pub open spec fn scaled_hilbert_key(point: LngLat, extent: Bounds) -> u32 {
    hilbert_key(
        scale_axis(point.lng - extent.min.lng, extent.max.lng - extent.min.lng),
        scale_axis(point.lat - extent.min.lat, extent.max.lat - extent.min.lat),
    )
}

/// Projects a point of `extent` onto the Hilbert curve that fills it: the
/// `min` corner maps to cell (0, 0) and the `max` corner to
/// `(HILBERT_MAX, HILBERT_MAX)`.
pub fn scaled_hilbert(point: &LngLat, extent: &Bounds) -> (r: u32)
    requires
        holds_point(*extent, *point),
    ensures
        r == scaled_hilbert_key(*point, *extent),
{
    let x_off = (point.lng as i64 - extent.min.lng as i64) as u64;
    let y_off = (point.lat as i64 - extent.min.lat as i64) as u64;
    let x = scale(x_off, extent.unscaled_lng_width() as u64);
    let y = scale(y_off, extent.unscaled_lat_height() as u64);
    hilbert(x, y)
}

} // verus!
