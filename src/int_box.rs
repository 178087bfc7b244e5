//! A box over unsigned integer coordinates, the library's own instance of
//! `BoundingBox`.
use vstd::prelude::*;
use crate::morton::{morton_code, morton_encode_u64};
use crate::ploc::BoundingBox;

verus! {

/// An axis-aligned box with corners `min` and `max` on the integer grid;
/// empty when some `min` coordinate exceeds its `max`.
#[derive(Clone, Copy, Debug, PartialEq, Eq, Structural)]
pub struct IntBox {
    pub min_x: u32,
    pub min_y: u32,
    pub min_z: u32,
    pub max_x: u32,
    pub max_y: u32,
    pub max_z: u32,
}

/// The extent of `[lo, hi]`, zero when empty.
pub open spec fn extent(lo: u32, hi: u32) -> int {
    if hi >= lo {
        hi - lo
    } else {
        0
    }
}

/// Half the surface area of a box.
pub open spec fn half_area(b: IntBox) -> int {
    let dx = extent(b.min_x, b.max_x);
    let dy = extent(b.min_y, b.max_y);
    let dz = extent(b.min_z, b.max_z);
    (dx + dy) * dz + dx * dy
}

/// The coordinate of the centre of `[lo, hi]` quantised to 21 bits within
/// `[tlo, thi]`.
pub open spec fn quantise(lo: u32, hi: u32, tlo: u32, thi: u32) -> u64 {
    let c2 = lo + hi;
    let t2 = 2 * tlo;
    let off = if c2 > t2 {
        c2 - t2
    } else {
        0
    };
    let q = off * 0x100000 / (extent(tlo, thi) + 1);
    if q > 0x1fffff {
        0x1fffff
    } else {
        q as u64
    }
}

fn min_u32(a: u32, b: u32) -> (r: u32)
    ensures
        r == if a <= b {
            a
        } else {
            b
        },
{
    if a <= b {
        a
    } else {
        b
    }
}

fn max_u32(a: u32, b: u32) -> (r: u32)
    ensures
        r == if a >= b {
            a
        } else {
            b
        },
{
    if a >= b {
        a
    } else {
        b
    }
}

fn extent_exec(lo: u32, hi: u32) -> (r: u64)
    ensures
        r == extent(lo, hi),
        r <= u32::MAX,
{
    if hi >= lo {
        (hi - lo) as u64
    } else {
        0
    }
}

fn half_area_exec(b: &IntBox) -> (r: u128)
    ensures
        r == half_area(*b),
{
    let dx = extent_exec(b.min_x, b.max_x) as u128;
    let dy = extent_exec(b.min_y, b.max_y) as u128;
    let dz = extent_exec(b.min_z, b.max_z) as u128;
    assert((dx + dy) * dz <= 0x2_0000_0000u128 * 0x1_0000_0000u128) by (nonlinear_arith)
        requires
            dx <= 0xffff_ffffu128,
            dy <= 0xffff_ffffu128,
            dz <= 0xffff_ffffu128,
    ;
    assert(dx * dy <= 0x1_0000_0000u128 * 0x1_0000_0000u128) by (nonlinear_arith)
        requires
            dx <= 0xffff_ffffu128,
            dy <= 0xffff_ffffu128,
    ;
    (dx + dy) * dz + dx * dy
}

fn quantise_exec(lo: u32, hi: u32, tlo: u32, thi: u32) -> (r: u32)
    ensures
        r as u64 == quantise(lo, hi, tlo, thi),
{
    let c2 = lo as u64 + hi as u64;
    let t2 = 2 * tlo as u64;
    let off = if c2 > t2 {
        c2 - t2
    } else {
        0
    };
    let q = off * 0x100000 / (extent_exec(tlo, thi) + 1);
    if q > 0x1fffff {
        0x1fffff
    } else {
        q as u32
    }
}

impl BoundingBox for IntBox {
    open spec fn spec_union(self, other: Self) -> Self {
        IntBox {
            min_x: if self.min_x <= other.min_x { self.min_x } else { other.min_x },
            min_y: if self.min_y <= other.min_y { self.min_y } else { other.min_y },
            min_z: if self.min_z <= other.min_z { self.min_z } else { other.min_z },
            max_x: if self.max_x >= other.max_x { self.max_x } else { other.max_x },
            max_y: if self.max_y >= other.max_y { self.max_y } else { other.max_y },
            max_z: if self.max_z >= other.max_z { self.max_z } else { other.max_z },
        }
    }

    open spec fn spec_half_area_lt(self, other: Self) -> bool {
        half_area(self) < half_area(other)
    }

    open spec fn spec_morton_code(self, total: Self) -> u64 {
        morton_code(
            quantise(self.min_x, self.max_x, total.min_x, total.max_x),
            quantise(self.min_y, self.max_y, total.min_y, total.max_y),
            quantise(self.min_z, self.max_z, total.min_z, total.max_z),
        )
    }

    fn empty() -> Self {
        IntBox { min_x: u32::MAX, min_y: u32::MAX, min_z: u32::MAX, max_x: 0, max_y: 0, max_z: 0 }
    }

    fn union(&self, other: &Self) -> (r: Self) {
        IntBox {
            min_x: min_u32(self.min_x, other.min_x),
            min_y: min_u32(self.min_y, other.min_y),
            min_z: min_u32(self.min_z, other.min_z),
            max_x: max_u32(self.max_x, other.max_x),
            max_y: max_u32(self.max_y, other.max_y),
            max_z: max_u32(self.max_z, other.max_z),
        }
    }

    fn half_area_lt(&self, other: &Self) -> (r: bool) {
        half_area_exec(self) < half_area_exec(other)
    }

    fn morton_code(&self, total: &Self) -> (r: u64) {
        let x = quantise_exec(self.min_x, self.max_x, total.min_x, total.max_x);
        let y = quantise_exec(self.min_y, self.max_y, total.min_y, total.max_y);
        let z = quantise_exec(self.min_z, self.max_z, total.min_z, total.max_z);
        morton_encode_u64(x, y, z)
    }
}

} // verus!
