//! Fixed-point colors: each channel counts units of `1 / ONE`, saturating at `u32::MAX`.
use vstd::prelude::*;

use crate::vec3::Vec3;

verus! {

/// A linear-space color in fixed point.
pub type Color = Vec3<u32>;

/// The channel value that stands for an intensity of one.
pub const ONE: u32 = 0x1_0000;

/// Clamps a channel value to what a `u32` holds.
pub open spec fn sat(v: int) -> int {
    if v > u32::MAX {
        u32::MAX as int
    } else {
        v
    }
}

/// Fixed-point product of two channel values, rounded down and saturated.
pub open spec fn fx_mul(a: int, b: int) -> int {
    sat(a * b / (ONE as int))
}

/// Saturated sum of two channel values.
pub open spec fn fx_add(a: int, b: int) -> int {
    sat(a + b)
}

/// Channel-wise fixed-point product.
pub open spec fn modulate_of(a: Color, b: Color) -> Color {
    Vec3 {
        x: fx_mul(a.x as int, b.x as int) as u32,
        y: fx_mul(a.y as int, b.y as int) as u32,
        z: fx_mul(a.z as int, b.z as int) as u32,
    }
}

/// Channel-wise saturated sum.
pub open spec fn plus_of(a: Color, b: Color) -> Color {
    Vec3 {
        x: fx_add(a.x as int, b.x as int) as u32,
        y: fx_add(a.y as int, b.y as int) as u32,
        z: fx_add(a.z as int, b.z as int) as u32,
    }
}

/// Whether every channel of `a` is at most the matching channel of `b`.
pub open spec fn color_le(a: Color, b: Color) -> bool {
    a.x <= b.x && a.y <= b.y && a.z <= b.z
}

/// The color of all channels zero.
pub open spec fn black_of() -> Color {
    Vec3 { x: 0, y: 0, z: 0 }
}

/// The color of all channels one.
pub open spec fn white_of() -> Color {
    Vec3 { x: ONE, y: ONE, z: ONE }
}

fn channel_mul(a: u32, b: u32) -> (r: u32)
    ensures
        r == fx_mul(a as int, b as int),
{
    proof {
        assert(a * b <= u32::MAX * u32::MAX) by (nonlinear_arith)
            requires
                a <= u32::MAX,
                b <= u32::MAX,
        ;
        assert(a * b >= 0) by (nonlinear_arith)
            requires
                a >= 0,
                b >= 0,
        ;
    }
    let p: u64 = (a as u64) * (b as u64) / (ONE as u64);
    if p > u32::MAX as u64 {
        u32::MAX
    } else {
        p as u32
    }
}

fn channel_add(a: u32, b: u32) -> (r: u32)
    ensures
        r == fx_add(a as int, b as int),
{
    let s: u64 = a as u64 + b as u64;
    if s > u32::MAX as u64 {
        u32::MAX
    } else {
        s as u32
    }
}

impl Vec3<u32> {
    /// All channels zero.
    pub fn black() -> (r: Color)
        ensures
            r == black_of(),
    {
        Vec3::new(0, 0, 0)
    }

    /// All channels one.
    pub fn white() -> (r: Color)
        ensures
            r == white_of(),
    {
        Vec3::new(ONE, ONE, ONE)
    }

    /// Channel-wise product, as when light is attenuated by a surface.
    pub fn modulate(&self, o: &Color) -> (r: Color)
        ensures
            r == modulate_of(*self, *o),
    {
        Vec3::new(channel_mul(self.x, o.x), channel_mul(self.y, o.y), channel_mul(self.z, o.z))
    }

    /// Channel-wise sum, as when light from two sources adds up.
    pub fn plus(&self, o: &Color) -> (r: Color)
        ensures
            r == plus_of(*self, *o),
    {
        Vec3::new(channel_add(self.x, o.x), channel_add(self.y, o.y), channel_add(self.z, o.z))
    }
}

} // verus!
