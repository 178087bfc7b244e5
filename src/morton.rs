//! Morton codes: three 21-bit coordinates interleaved bit by bit.
use vstd::prelude::*;
use crate::radix_key::{RadixKey, byte_of};

verus! {

/// `x` with bit `i` of its low 21 bits moved to bit `3 i`, for each `i`.
pub open spec fn spread(x: u64) -> u64 {
    let x = x & 0x1fffff;
    (x & 0x1) | ((x & 0x2) << 2u64) | ((x & 0x4) << 4u64) | ((x & 0x8) << 6u64) | ((x & 0x10) << 8u64) | ((x & 0x20) << 10u64) | ((x & 0x40) << 12u64) | ((x & 0x80) << 14u64) | ((x & 0x100) << 16u64) | ((x & 0x200) << 18u64) | ((x & 0x400) << 20u64) | ((x & 0x800) << 22u64) | ((x & 0x1000) << 24u64) | ((x & 0x2000) << 26u64) | ((x & 0x4000) << 28u64) | ((x & 0x8000) << 30u64) | ((x & 0x10000) << 32u64) | ((x & 0x20000) << 34u64) | ((x & 0x40000) << 36u64) | ((x & 0x80000) << 38u64) | ((x & 0x100000) << 40u64)
}

proof fn lemma_spread_steps(x0: u64, x1: u64, x2: u64, x3: u64, x4: u64, x5: u64)
    requires
        x0 < 0x200000,
        x1 == (x0 | x0 << 32u64) & 0x1f00000000ffffu64,
        x2 == (x1 | x1 << 16u64) & 0x1f0000ff0000ffu64,
        x3 == (x2 | x2 << 8u64) & 0x100f00f00f00f00fu64,
        x4 == (x3 | x3 << 4u64) & 0x10c30c30c30c30c3u64,
        x5 == (x4 | x4 << 2u64) & 0x1249249249249249u64,
    ensures
        x5 == (x0 & 0x1) | ((x0 & 0x2) << 2u64) | ((x0 & 0x4) << 4u64) | ((x0 & 0x8) << 6u64) | ((x0 & 0x10) << 8u64) | ((x0 & 0x20) << 10u64) | ((x0 & 0x40) << 12u64) | ((x0 & 0x80) << 14u64) | ((x0 & 0x100) << 16u64) | ((x0 & 0x200) << 18u64) | ((x0 & 0x400) << 20u64) | ((x0 & 0x800) << 22u64) | ((x0 & 0x1000) << 24u64) | ((x0 & 0x2000) << 26u64) | ((x0 & 0x4000) << 28u64) | ((x0 & 0x8000) << 30u64) | ((x0 & 0x10000) << 32u64) | ((x0 & 0x20000) << 34u64) | ((x0 & 0x40000) << 36u64) | ((x0 & 0x80000) << 38u64) | ((x0 & 0x100000) << 40u64),
{
    assert(x5 == (x0 & 0x1) | ((x0 & 0x2) << 2u64) | ((x0 & 0x4) << 4u64) | ((x0 & 0x8) << 6u64) | ((x0 & 0x10) << 8u64) | ((x0 & 0x20) << 10u64) | ((x0 & 0x40) << 12u64) | ((x0 & 0x80) << 14u64) | ((x0 & 0x100) << 16u64) | ((x0 & 0x200) << 18u64) | ((x0 & 0x400) << 20u64) | ((x0 & 0x800) << 22u64) | ((x0 & 0x1000) << 24u64) | ((x0 & 0x2000) << 26u64) | ((x0 & 0x4000) << 28u64) | ((x0 & 0x8000) << 30u64) | ((x0 & 0x10000) << 32u64) | ((x0 & 0x20000) << 34u64) | ((x0 & 0x40000) << 36u64) | ((x0 & 0x80000) << 38u64) | ((x0 & 0x100000) << 40u64)) by (bit_vector)
        requires
            x0 < 0x200000,
            x1 == (x0 | x0 << 32u64) & 0x1f00000000ffffu64,
            x2 == (x1 | x1 << 16u64) & 0x1f0000ff0000ffu64,
            x3 == (x2 | x2 << 8u64) & 0x100f00f00f00f00fu64,
            x4 == (x3 | x3 << 4u64) & 0x10c30c30c30c30c3u64,
            x5 == (x4 | x4 << 2u64) & 0x1249249249249249u64,
    ;
}

/// Spreads the low 21 bits of `a` so that bit `i` lands on bit `3 i`.
pub fn split_by_3_u64(a: u32) -> (r: u64)
    ensures
        r == spread(a as u64),
{
    let x0 = a as u64 & 0x1fffff;
    let x1 = (x0 | x0 << 32) & 0x1f00000000ffff;
    let x2 = (x1 | x1 << 16) & 0x1f0000ff0000ff;
    let x3 = (x2 | x2 << 8) & 0x100f00f00f00f00f;
    let x4 = (x3 | x3 << 4) & 0x10c30c30c30c30c3;
    let x5 = (x4 | x4 << 2) & 0x1249249249249249;
    proof {
        let a0 = a as u64;
        assert(x0 < 0x200000) by (bit_vector)
            requires
                x0 == a0 & 0x1fffff,
        ;
        lemma_spread_steps(x0, x1, x2, x3, x4, x5);
    }
    x5
}

/// The Morton code of the quantised point `(x, y, z)`.
pub open spec fn morton_code(x: u64, y: u64, z: u64) -> u64 {
    spread(x) | spread(y) << 1u64 | spread(z) << 2u64
}

/// Interleaves the low 21 bits of `x`, `y` and `z`: bit `i` of `x`, `y` and
/// `z` lands on bits `3 i`, `3 i + 1` and `3 i + 2`.
pub fn morton_encode_u64(x: u32, y: u32, z: u32) -> (r: u64)
    ensures
        r == morton_code(x as u64, y as u64, z as u64),
{
    split_by_3_u64(x) | split_by_3_u64(y) << 1 | split_by_3_u64(z) << 2
}

proof fn lemma_spread_monotone(a: u64, b: u64)
    requires
        a < b < 0x200000,
    ensures
        spread(a) < spread(b),
        spread(a) & 0x1249249249249249u64 == spread(a),
        spread(b) & 0x1249249249249249u64 == spread(b),
{
    assert(((a & 0x1) | ((a & 0x2) << 2u64) | ((a & 0x4) << 4u64) | ((a & 0x8) << 6u64) | ((a & 0x10) << 8u64) | ((a & 0x20) << 10u64) | ((a & 0x40) << 12u64) | ((a & 0x80) << 14u64) | ((a & 0x100) << 16u64) | ((a & 0x200) << 18u64) | ((a & 0x400) << 20u64) | ((a & 0x800) << 22u64) | ((a & 0x1000) << 24u64) | ((a & 0x2000) << 26u64) | ((a & 0x4000) << 28u64) | ((a & 0x8000) << 30u64) | ((a & 0x10000) << 32u64) | ((a & 0x20000) << 34u64) | ((a & 0x40000) << 36u64) | ((a & 0x80000) << 38u64) | ((a & 0x100000) << 40u64)) < ((b & 0x1) | ((b & 0x2) << 2u64) | ((b & 0x4) << 4u64) | ((b & 0x8) << 6u64) | ((b & 0x10) << 8u64) | ((b & 0x20) << 10u64) | ((b & 0x40) << 12u64) | ((b & 0x80) << 14u64) | ((b & 0x100) << 16u64) | ((b & 0x200) << 18u64) | ((b & 0x400) << 20u64) | ((b & 0x800) << 22u64) | ((b & 0x1000) << 24u64) | ((b & 0x2000) << 26u64) | ((b & 0x4000) << 28u64) | ((b & 0x8000) << 30u64) | ((b & 0x10000) << 32u64) | ((b & 0x20000) << 34u64) | ((b & 0x40000) << 36u64) | ((b & 0x80000) << 38u64) | ((b & 0x100000) << 40u64)) && ((a & 0x1) | ((a & 0x2) << 2u64) | ((a & 0x4) << 4u64) | ((a & 0x8) << 6u64) | ((a & 0x10) << 8u64) | ((a & 0x20) << 10u64) | ((a & 0x40) << 12u64) | ((a & 0x80) << 14u64) | ((a & 0x100) << 16u64) | ((a & 0x200) << 18u64) | ((a & 0x400) << 20u64) | ((a & 0x800) << 22u64) | ((a & 0x1000) << 24u64) | ((a & 0x2000) << 26u64) | ((a & 0x4000) << 28u64) | ((a & 0x8000) << 30u64) | ((a & 0x10000) << 32u64) | ((a & 0x20000) << 34u64) | ((a & 0x40000) << 36u64) | ((a & 0x80000) << 38u64) | ((a & 0x100000) << 40u64)) & 0x1249249249249249u64 == ((a & 0x1) | ((a & 0x2) << 2u64) | ((a & 0x4) << 4u64) | ((a & 0x8) << 6u64) | ((a & 0x10) << 8u64) | ((a & 0x20) << 10u64) | ((a & 0x40) << 12u64) | ((a & 0x80) << 14u64) | ((a & 0x100) << 16u64) | ((a & 0x200) << 18u64) | ((a & 0x400) << 20u64) | ((a & 0x800) << 22u64) | ((a & 0x1000) << 24u64) | ((a & 0x2000) << 26u64) | ((a & 0x4000) << 28u64) | ((a & 0x8000) << 30u64) | ((a & 0x10000) << 32u64) | ((a & 0x20000) << 34u64) | ((a & 0x40000) << 36u64) | ((a & 0x80000) << 38u64) | ((a & 0x100000) << 40u64)) && ((b & 0x1) | ((b & 0x2) << 2u64) | ((b & 0x4) << 4u64) | ((b & 0x8) << 6u64) | ((b & 0x10) << 8u64) | ((b & 0x20) << 10u64) | ((b & 0x40) << 12u64) | ((b & 0x80) << 14u64) | ((b & 0x100) << 16u64) | ((b & 0x200) << 18u64) | ((b & 0x400) << 20u64) | ((b & 0x800) << 22u64) | ((b & 0x1000) << 24u64) | ((b & 0x2000) << 26u64) | ((b & 0x4000) << 28u64) | ((b & 0x8000) << 30u64) | ((b & 0x10000) << 32u64) | ((b & 0x20000) << 34u64) | ((b & 0x40000) << 36u64) | ((b & 0x80000) << 38u64) | ((b & 0x100000) << 40u64)) & 0x1249249249249249u64 == ((b & 0x1) | ((b & 0x2) << 2u64) | ((b & 0x4) << 4u64) | ((b & 0x8) << 6u64) | ((b & 0x10) << 8u64) | ((b & 0x20) << 10u64) | ((b & 0x40) << 12u64) | ((b & 0x80) << 14u64) | ((b & 0x100) << 16u64) | ((b & 0x200) << 18u64) | ((b & 0x400) << 20u64) | ((b & 0x800) << 22u64) | ((b & 0x1000) << 24u64) | ((b & 0x2000) << 26u64) | ((b & 0x4000) << 28u64) | ((b & 0x8000) << 30u64) | ((b & 0x10000) << 32u64) | ((b & 0x20000) << 34u64) | ((b & 0x40000) << 36u64) | ((b & 0x80000) << 38u64) | ((b & 0x100000) << 40u64))) by (bit_vector)
        requires
            a < b,
            b < 0x200000,
    ;
    assert(a & 0x1fffff == a && b & 0x1fffff == b) by (bit_vector)
        requires
            a < b,
            b < 0x200000,
    ;
}

proof fn lemma_spread_mask(a: u64)
    ensures
        spread(a) & 0x1249249249249249u64 == spread(a),
{
    let x = a & 0x1fffff;
    assert(((x & 0x1) | ((x & 0x2) << 2u64) | ((x & 0x4) << 4u64) | ((x & 0x8) << 6u64) | ((x & 0x10) << 8u64) | ((x & 0x20) << 10u64) | ((x & 0x40) << 12u64) | ((x & 0x80) << 14u64) | ((x & 0x100) << 16u64) | ((x & 0x200) << 18u64) | ((x & 0x400) << 20u64) | ((x & 0x800) << 22u64) | ((x & 0x1000) << 24u64) | ((x & 0x2000) << 26u64) | ((x & 0x4000) << 28u64) | ((x & 0x8000) << 30u64) | ((x & 0x10000) << 32u64) | ((x & 0x20000) << 34u64) | ((x & 0x40000) << 36u64) | ((x & 0x80000) << 38u64) | ((x & 0x100000) << 40u64)) & 0x1249249249249249u64 == ((x & 0x1) | ((x & 0x2) << 2u64) | ((x & 0x4) << 4u64) | ((x & 0x8) << 6u64) | ((x & 0x10) << 8u64) | ((x & 0x20) << 10u64) | ((x & 0x40) << 12u64) | ((x & 0x80) << 14u64) | ((x & 0x100) << 16u64) | ((x & 0x200) << 18u64) | ((x & 0x400) << 20u64) | ((x & 0x800) << 22u64) | ((x & 0x1000) << 24u64) | ((x & 0x2000) << 26u64) | ((x & 0x4000) << 28u64) | ((x & 0x8000) << 30u64) | ((x & 0x10000) << 32u64) | ((x & 0x20000) << 34u64) | ((x & 0x40000) << 36u64) | ((x & 0x80000) << 38u64) | ((x & 0x100000) << 40u64))) by (bit_vector);
}

/// Along the x axis, with `y` and `z` fixed, Morton codes order points as
/// their x coordinates do.
pub proof fn lemma_morton_order_x(x1: u64, x2: u64, y: u64, z: u64)
    requires
        x1 < 0x200000,
        x2 < 0x200000,
    ensures
        (morton_code(x1, y, z) < morton_code(x2, y, z)) == (x1 < x2),
        (morton_code(x1, y, z) == morton_code(x2, y, z)) == (x1 == x2),
{
    lemma_spread_mask(y);
    lemma_spread_mask(z);
    let c = spread(y) << 1u64 | spread(z) << 2u64;
    assert(c & 0x1249249249249249u64 == 0) by (bit_vector)
        requires
            c == spread(y) << 1u64 | spread(z) << 2u64,
            spread(y) & 0x1249249249249249u64 == spread(y),
            spread(z) & 0x1249249249249249u64 == spread(z),
    ;
    assert(morton_code(x1, y, z) == spread(x1) | c) by {
        let (a, b, d) = (spread(x1), spread(y), spread(z));
        assert(a | b << 1u64 | d << 2u64 == a | (b << 1u64 | d << 2u64)) by (bit_vector);
    }
    assert(morton_code(x2, y, z) == spread(x2) | c) by {
        let (a, b, d) = (spread(x2), spread(y), spread(z));
        assert(a | b << 1u64 | d << 2u64 == a | (b << 1u64 | d << 2u64)) by (bit_vector);
    }
    if x1 != x2 {
        let (lo, hi) = if x1 < x2 { (x1, x2) } else { (x2, x1) };
        lemma_spread_monotone(lo, hi);
        let (sl, sh) = (spread(lo), spread(hi));
        assert((sl | c) < (sh | c)) by (bit_vector)
            requires
                sl < sh,
                sl & 0x1249249249249249u64 == sl,
                sh & 0x1249249249249249u64 == sh,
                c & 0x1249249249249249u64 == 0,
        ;
    }
}

/// Along the y axis, with `x` and `z` fixed, Morton codes order points as
/// their y coordinates do.
pub proof fn lemma_morton_order_y(x: u64, y1: u64, y2: u64, z: u64)
    requires
        y1 < 0x200000,
        y2 < 0x200000,
    ensures
        (morton_code(x, y1, z) < morton_code(x, y2, z)) == (y1 < y2),
        (morton_code(x, y1, z) == morton_code(x, y2, z)) == (y1 == y2),
{
    lemma_spread_mask(x);
    lemma_spread_mask(z);
    let c = spread(x) | spread(z) << 2u64;
    assert(c & 0x2492492492492492u64 == 0) by (bit_vector)
        requires
            c == spread(x) | spread(z) << 2u64,
            spread(x) & 0x1249249249249249u64 == spread(x),
            spread(z) & 0x1249249249249249u64 == spread(z),
    ;
    assert(morton_code(x, y1, z) == (spread(y1) << 1u64) | c) by {
        let (a, b, d) = (spread(x), spread(y1), spread(z));
        assert(a | b << 1u64 | d << 2u64 == (b << 1u64) | (a | d << 2u64)) by (bit_vector);
    }
    assert(morton_code(x, y2, z) == (spread(y2) << 1u64) | c) by {
        let (a, b, d) = (spread(x), spread(y2), spread(z));
        assert(a | b << 1u64 | d << 2u64 == (b << 1u64) | (a | d << 2u64)) by (bit_vector);
    }
    if y1 != y2 {
        let (lo, hi) = if y1 < y2 { (y1, y2) } else { (y2, y1) };
        lemma_spread_monotone(lo, hi);
        let (sl, sh) = (spread(lo), spread(hi));
        assert(((sl << 1u64) | c) < ((sh << 1u64) | c)) by (bit_vector)
            requires
                sl < sh,
                sl & 0x1249249249249249u64 == sl,
                sh & 0x1249249249249249u64 == sh,
                c & 0x2492492492492492u64 == 0,
        ;
    }
}

/// Along the z axis, with `x` and `y` fixed, Morton codes order points as
/// their z coordinates do.
pub proof fn lemma_morton_order_z(x: u64, y: u64, z1: u64, z2: u64)
    requires
        z1 < 0x200000,
        z2 < 0x200000,
    ensures
        (morton_code(x, y, z1) < morton_code(x, y, z2)) == (z1 < z2),
        (morton_code(x, y, z1) == morton_code(x, y, z2)) == (z1 == z2),
{
    lemma_spread_mask(x);
    lemma_spread_mask(y);
    let c = spread(x) | spread(y) << 1u64;
    assert(c & 0x4924924924924924u64 == 0) by (bit_vector)
        requires
            c == spread(x) | spread(y) << 1u64,
            spread(x) & 0x1249249249249249u64 == spread(x),
            spread(y) & 0x1249249249249249u64 == spread(y),
    ;
    if z1 != z2 {
        let (lo, hi) = if z1 < z2 { (z1, z2) } else { (z2, z1) };
        lemma_spread_monotone(lo, hi);
        let (sl, sh) = (spread(lo), spread(hi));
        assert((c | (sl << 2u64)) < (c | (sh << 2u64))) by (bit_vector)
            requires
                sl < sh,
                sl & 0x1249249249249249u64 == sl,
                sh & 0x1249249249249249u64 == sh,
                c & 0x4924924924924924u64 == 0,
        ;
    }
}

} // verus!
