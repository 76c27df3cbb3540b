//! Axis-aligned rectangles, one struct per orientation.
//!
//! Each is intersected in its own frame: the rectangle spans `[a0, a1] x [b0, b1]` on
//! two axes at height `k` on the third.
use vstd::prelude::*;

use crate::aabb::AABB;
use crate::face::{face_of, Face};
use crate::param::{Ext, Param};
use crate::ray::{ivec, Ray};
use crate::sphere::{combine, wide, HitRecord, TexCoord};
use crate::vec3::Vec3;

verus! {

/// Where the line crosses the plane at height `k`, as `(num, den)` with `den > 0`;
/// none for a line parallel to the plane.
pub open spec fn crossing(k: int, o: int, d: int) -> Option<(int, int)> {
    if d > 0 {
        Some((k - o, d))
    } else if d < 0 {
        Some((o - k, -d))
    } else {
        None
    }
}

/// The texture coordinate of frame coordinate `c / m` on the side `[lo, hi]`: its
/// fraction of the way from `lo` to `hi`, and zero on a side of no length.
pub open spec fn side_fraction(c: int, m: int, lo: int, hi: int) -> Ext {
    if lo < hi {
        Ext::Rat(c - lo * m, (hi - lo) * m)
    } else {
        Ext::Rat(0, 1)
    }
}

/// The texture coordinates of the point of `o + t d` at `t = n / m`, in the frame of the
/// rectangle.
pub open spec fn frame_uv(
    a0: int,
    a1: int,
    b0: int,
    b1: int,
    o: (int, int, int),
    d: (int, int, int),
    n: int,
    m: int,
) -> (Ext, Ext) {
    (side_fraction(o.0 * m + n * d.0, m, a0, a1), side_fraction(o.1 * m + n * d.1, m, b0, b1))
}

/// The parameter `(num, den)` at which the line `o + t d`, written in the frame of the
/// rectangle, meets the rectangle with `t` in `[t_min, t_max]`; none if it does not.
pub open spec fn plane_hit_of(
    a0: int,
    a1: int,
    b0: int,
    b1: int,
    k: int,
    o: (int, int, int),
    d: (int, int, int),
    t_min: Ext,
    t_max: Ext,
) -> Option<(int, int)> {
    match crossing(k, o.2, d.2) {
        None => None,
        Some((n, m)) => if t_min.le(Ext::Rat(n, m)) && Ext::Rat(n, m).le(t_max) && a0 * m <= o.0 * m
            + n * d.0 <= a1 * m && b0 * m <= o.1 * m + n * d.1 <= b1 * m {
            Some((n, m))
        } else {
            None
        },
    }
}

proof fn lemma_i32_mul(x: int, y: int)
    requires
        -0x1_0000_0000 <= x <= 0x1_0000_0000,
        -0x8000_0000 <= y <= 0x8000_0000,
    ensures
        -0x80_0000_0000_0000_0000 <= x * y <= 0x80_0000_0000_0000_0000,
{
    assert(-0x80_0000_0000_0000_0000 <= x * y <= 0x80_0000_0000_0000_0000) by (nonlinear_arith)
        requires
            -0x1_0000_0000 <= x <= 0x1_0000_0000,
            -0x8000_0000 <= y <= 0x8000_0000,
    ;
}

/// The crossing test in the rectangle's frame.
fn plane_hit(
    a0: i32,
    a1: i32,
    b0: i32,
    b1: i32,
    k: i32,
    o: (i32, i32, i32),
    d: (i32, i32, i32),
    t_min: Param,
    t_max: Param,
) -> (r: Option<(i64, i64, Param, Param)>)
    requires
        t_min.wf(),
        t_max.wf(),
    ensures
        match r {
            None => plane_hit_of(
                a0 as int,
                a1 as int,
                b0 as int,
                b1 as int,
                k as int,
                (o.0 as int, o.1 as int, o.2 as int),
                (d.0 as int, d.1 as int, d.2 as int),
                t_min@,
                t_max@,
            ) is None,
            Some((n, m, u, v)) => plane_hit_of(
                a0 as int,
                a1 as int,
                b0 as int,
                b1 as int,
                k as int,
                (o.0 as int, o.1 as int, o.2 as int),
                (d.0 as int, d.1 as int, d.2 as int),
                t_min@,
                t_max@,
            ) == Some((n as int, m as int)) && m > 0 && -0x1_0000_0000 <= n <= 0x1_0000_0000 && m
                <= 0x8000_0000 && (u@, v@) == frame_uv(
                a0 as int,
                a1 as int,
                b0 as int,
                b1 as int,
                (o.0 as int, o.1 as int, o.2 as int),
                (d.0 as int, d.1 as int, d.2 as int),
                n as int,
                m as int,
            ),
        },
{
    if d.2 == 0 {
        return None;
    }
    let (n, m): (i64, i64) = if d.2 > 0 {
        (k as i64 - o.2 as i64, d.2 as i64)
    } else {
        (o.2 as i64 - k as i64, -(d.2 as i64))
    };
    let t = Param::Frac { num: n, den: m };
    if t.lt(&t_min) || t_max.lt(&t) {
        return None;
    }
    proof {
        lemma_i32_mul(a0 as int, m as int);
        lemma_i32_mul(a1 as int, m as int);
        lemma_i32_mul(b0 as int, m as int);
        lemma_i32_mul(b1 as int, m as int);
        lemma_i32_mul(o.0 as int, m as int);
        lemma_i32_mul(o.1 as int, m as int);
        lemma_i32_mul(n as int, d.0 as int);
        lemma_i32_mul(n as int, d.1 as int);
    }
    let (n2, m2) = (n as i128, m as i128);
    let pa = o.0 as i128 * m2 + n2 * d.0 as i128;
    let pb = o.1 as i128 * m2 + n2 * d.1 as i128;
    if a0 as i128 * m2 <= pa && pa <= a1 as i128 * m2 && b0 as i128 * m2 <= pb && pb <= b1 as i128
        * m2 {
        let u = side_fraction_exec(pa, m2, a0, a1);
        let v = side_fraction_exec(pb, m2, b0, b1);
        Some((n, m, u, v))
    } else {
        None
    }
}

/// `side_fraction` of a coordinate `c / m` that lies on the side.
fn side_fraction_exec(c: i128, m: i128, lo: i32, hi: i32) -> (f: Param)
    requires
        0 < m <= 0x8000_0000,
        lo * m <= c <= hi * m,
    ensures
        f@ == side_fraction(c as int, m as int, lo as int, hi as int),
        f.wf(),
{
    if lo < hi {
        let w = hi as i128 - lo as i128;
        proof {
            lemma_i32_mul(w as int, m as int);
            assert(w * m > 0) by (nonlinear_arith)
                requires
                    w > 0,
                    m > 0,
            ;
            assert(w * m <= 0xffff_ffff * 0x8000_0000) by (nonlinear_arith)
                requires
                    0 < w <= 0xffff_ffff,
                    0 < m <= 0x8000_0000,
            ;
            lemma_i32_mul(lo as int, m as int);
            assert(hi * m - lo * m == w * m) by (nonlinear_arith)
                requires
                    w == hi - lo,
            ;
        }
        Param::Frac { num: (c - lo as i128 * m) as i64, den: (w * m) as i64 }
    } else {
        Param::Frac { num: 0, den: 1 }
    }
}

/// The record of a hit of `r` at parameter `n / m` on a plane with normal `unit`, with
/// texture coordinates `uv`.
pub open spec fn plane_record(r: Ray, n: int, m: int, unit: Vec3<i32>, uv: (Ext, Ext), h: HitRecord) -> bool {
    let f = face_of(unit, r.dir);
    &&& h.uv matches Some(tc) && tc.u@ == uv.0 && tc.v@ == uv.1
    &&& h.t@ == Ext::Rat(n, m)
    &&& wide(h.p) == combine(m, ivec(r.orig), n, ivec(r.dir))
    &&& h.p_den == m
    &&& h.f == f
    &&& wide(h.normal) == (if f == Face::Inward {
        ivec(unit)
    } else {
        (-unit.x as int, -unit.y as int, -unit.z as int)
    })
    &&& h.normal_den == 1
}

fn plane_record_exec(r: &Ray, n: i64, m: i64, unit: Vec3<i32>, u: Param, v: Param) -> (h: HitRecord)
    requires
        m > 0,
        -0x1_0000_0000 <= n <= 0x1_0000_0000,
        m <= 0x8000_0000,
        -1 <= unit.x <= 1,
        -1 <= unit.y <= 1,
        -1 <= unit.z <= 1,
    ensures
        plane_record(*r, n as int, m as int, unit, (u@, v@), h),
{
    proof {
        lemma_i32_mul(n as int, r.dir.x as int);
        lemma_i32_mul(n as int, r.dir.y as int);
        lemma_i32_mul(n as int, r.dir.z as int);
        lemma_i32_mul(m as int, r.orig.x as int);
        lemma_i32_mul(m as int, r.orig.y as int);
        lemma_i32_mul(m as int, r.orig.z as int);
        assert(m * r.orig.x == r.orig.x * m && m * r.orig.y == r.orig.y * m && m * r.orig.z == r.orig.z * m);
    }
    let (n2, m2) = (n as i128, m as i128);
    let p = Vec3::new(
        m2 * r.orig.x as i128 + n2 * r.dir.x as i128,
        m2 * r.orig.y as i128 + n2 * r.dir.y as i128,
        m2 * r.orig.z as i128 + n2 * r.dir.z as i128,
    );
    let f = Face::calc(&unit, r);
    let normal = match f {
        Face::Inward => Vec3::new(unit.x as i128, unit.y as i128, unit.z as i128),
        Face::Outward => Vec3::new(-unit.x as i128, -unit.y as i128, -unit.z as i128),
    };
    HitRecord { f, t: Param::Frac { num: n, den: m }, p, p_den: m, normal, normal_den: 1, uv: Some(TexCoord { u, v }) }
}

/// A rectangle `[x0, x1] x [y0, y1]` in the plane `z = k`.
#[derive(Clone, Copy, Debug, PartialEq, Eq, Structural)]
pub struct XYRect {
    pub x0: i32,
    pub y0: i32,
    pub x1: i32,
    pub y1: i32,
    pub z: i32,
}

/// A rectangle `[x0, x1] x [z0, z1]` in the plane `y = k`.
#[derive(Clone, Copy, Debug, PartialEq, Eq, Structural)]
pub struct XZRect {
    pub x0: i32,
    pub x1: i32,
    pub z0: i32,
    pub z1: i32,
    pub y: i32,
}

/// A rectangle `[y0, y1] x [z0, z1]` in the plane `x = k`.
#[derive(Clone, Copy, Debug, PartialEq, Eq, Structural)]
pub struct YZRect {
    pub y0: i32,
    pub y1: i32,
    pub z0: i32,
    pub z1: i32,
    pub x: i32,
}

impl XYRect {
    pub fn new(p0: (i32, i32), p1: (i32, i32), z: i32) -> (r: XYRect)
        ensures
            r == (XYRect { x0: p0.0, y0: p0.1, x1: p1.0, y1: p1.1, z }),
    {
        XYRect { x0: p0.0, y0: p0.1, x1: p1.0, y1: p1.1, z }
    }

    /// The parameter of the hit of `r` in `[t_min, t_max]`, as `(num, den)`.
    pub open spec fn hit_param(self, r: Ray, t_min: Ext, t_max: Ext) -> Option<(int, int)> {
        let (o, d) = (ivec(r.orig), ivec(r.dir));
        plane_hit_of(self.x0 as int, self.x1 as int, self.y0 as int, self.y1 as int, self.z as int,
            o, d, t_min, t_max)
    }

    /// The texture coordinates of the point of `r` at parameter `n / m`.
    pub open spec fn uv_at(self, r: Ray, n: int, m: int) -> (Ext, Ext) {
        let (o, d) = (ivec(r.orig), ivec(r.dir));
        frame_uv(self.x0 as int, self.x1 as int, self.y0 as int, self.y1 as int, o, d, n, m)
    }

    /// The rectangle's box, one unit thick on each side of its plane so that the slab
    /// test has room on that axis.
    pub fn bounding_box(&self) -> (b: AABB)
        requires
            i32::MIN < self.z < i32::MAX,
        ensures
            b == (AABB { min: Vec3 { x: self.x0, y: self.y0, z: (self.z - 1) as i32 }, max: Vec3 { x: self.x1, y: self.y1, z: (self.z + 1) as i32 } }),
    {
        AABB { min: Vec3::new(self.x0, self.y0, self.z - 1), max: Vec3::new(self.x1, self.y1, self.z + 1) }
    }

    /// The hit of `r` with parameter in `[t_min, t_max]`, if any.
    pub fn hit(&self, r: &Ray, t_min: Param, t_max: Param) -> (res: Option<HitRecord>)
        requires
            t_min.wf(),
            t_max.wf(),
        ensures
            match res {
                None => self.hit_param(*r, t_min@, t_max@) is None,
                Some(h) => exists|n: int, m: int|
                    self.hit_param(*r, t_min@, t_max@) == Some((n, m)) && #[trigger] plane_record(
                        *r,
                        n,
                        m,
                        Vec3 { x: 0i32, y: 0i32, z: 1i32 },
                        self.uv_at(*r, n, m),
                        h,
                    ),
            },
    {
        let (o, d) = (r.orig, r.dir);
        match plane_hit(self.x0, self.x1, self.y0, self.y1, self.z, (o.x, o.y, o.z), (d.x, d.y, d.z), t_min, t_max) {
            None => None,
            Some((n, m, u, v)) => {
                let h = plane_record_exec(r, n, m, Vec3::new(0, 0, 1), u, v);
                assert(plane_record(*r, n as int, m as int, Vec3 { x: 0i32, y: 0i32, z: 1i32 }, self.uv_at(*r, n as int, m as int), h));
                Some(h)
            },
        }
    }
}

impl XZRect {
    pub fn new(p0: (i32, i32), p1: (i32, i32), y: i32) -> (r: XZRect)
        ensures
            r == (XZRect { x0: p0.0, z0: p0.1, x1: p1.0, z1: p1.1, y }),
    {
        XZRect { x0: p0.0, z0: p0.1, x1: p1.0, z1: p1.1, y }
    }

    /// The parameter of the hit of `r` in `[t_min, t_max]`, as `(num, den)`.
    pub open spec fn hit_param(self, r: Ray, t_min: Ext, t_max: Ext) -> Option<(int, int)> {
        let (o, d) = (ivec(r.orig), ivec(r.dir));
        plane_hit_of(self.x0 as int, self.x1 as int, self.z0 as int, self.z1 as int, self.y as int,
            (o.0, o.2, o.1), (d.0, d.2, d.1), t_min, t_max)
    }

    /// The texture coordinates of the point of `r` at parameter `n / m`.
    pub open spec fn uv_at(self, r: Ray, n: int, m: int) -> (Ext, Ext) {
        let (o, d) = (ivec(r.orig), ivec(r.dir));
        frame_uv(self.x0 as int, self.x1 as int, self.z0 as int, self.z1 as int, (o.0, o.2, o.1), (d.0, d.2, d.1), n, m)
    }

    /// The rectangle's box, one unit thick on each side of its plane so that the slab
    /// test has room on that axis.
    pub fn bounding_box(&self) -> (b: AABB)
        requires
            i32::MIN < self.y < i32::MAX,
        ensures
            b == (AABB { min: Vec3 { x: self.x0, y: (self.y - 1) as i32, z: self.z0 }, max: Vec3 { x: self.x1, y: (self.y + 1) as i32, z: self.z1 } }),
    {
        AABB { min: Vec3::new(self.x0, self.y - 1, self.z0), max: Vec3::new(self.x1, self.y + 1, self.z1) }
    }

    /// The hit of `r` with parameter in `[t_min, t_max]`, if any.
    pub fn hit(&self, r: &Ray, t_min: Param, t_max: Param) -> (res: Option<HitRecord>)
        requires
            t_min.wf(),
            t_max.wf(),
        ensures
            match res {
                None => self.hit_param(*r, t_min@, t_max@) is None,
                Some(h) => exists|n: int, m: int|
                    self.hit_param(*r, t_min@, t_max@) == Some((n, m)) && #[trigger] plane_record(
                        *r,
                        n,
                        m,
                        Vec3 { x: 0i32, y: 1i32, z: 0i32 },
                        self.uv_at(*r, n, m),
                        h,
                    ),
            },
    {
        let (o, d) = (r.orig, r.dir);
        match plane_hit(self.x0, self.x1, self.z0, self.z1, self.y, (o.x, o.z, o.y), (d.x, d.z, d.y), t_min, t_max) {
            None => None,
            Some((n, m, u, v)) => {
                let h = plane_record_exec(r, n, m, Vec3::new(0, 1, 0), u, v);
                assert(plane_record(*r, n as int, m as int, Vec3 { x: 0i32, y: 1i32, z: 0i32 }, self.uv_at(*r, n as int, m as int), h));
                Some(h)
            },
        }
    }
}

impl YZRect {
    pub fn new(p0: (i32, i32), p1: (i32, i32), x: i32) -> (r: YZRect)
        ensures
            r == (YZRect { y0: p0.0, z0: p0.1, y1: p1.0, z1: p1.1, x }),
    {
        YZRect { y0: p0.0, z0: p0.1, y1: p1.0, z1: p1.1, x }
    }

    /// The parameter of the hit of `r` in `[t_min, t_max]`, as `(num, den)`.
    pub open spec fn hit_param(self, r: Ray, t_min: Ext, t_max: Ext) -> Option<(int, int)> {
        let (o, d) = (ivec(r.orig), ivec(r.dir));
        plane_hit_of(self.y0 as int, self.y1 as int, self.z0 as int, self.z1 as int, self.x as int,
            (o.1, o.2, o.0), (d.1, d.2, d.0), t_min, t_max)
    }

    /// The texture coordinates of the point of `r` at parameter `n / m`.
    pub open spec fn uv_at(self, r: Ray, n: int, m: int) -> (Ext, Ext) {
        let (o, d) = (ivec(r.orig), ivec(r.dir));
        frame_uv(self.y0 as int, self.y1 as int, self.z0 as int, self.z1 as int, (o.1, o.2, o.0), (d.1, d.2, d.0), n, m)
    }

    /// The rectangle's box, one unit thick on each side of its plane so that the slab
    /// test has room on that axis.
    pub fn bounding_box(&self) -> (b: AABB)
        requires
            i32::MIN < self.x < i32::MAX,
        ensures
            b == (AABB { min: Vec3 { x: (self.x - 1) as i32, y: self.y0, z: self.z0 }, max: Vec3 { x: (self.x + 1) as i32, y: self.y1, z: self.z1 } }),
    {
        AABB { min: Vec3::new(self.x - 1, self.y0, self.z0), max: Vec3::new(self.x + 1, self.y1, self.z1) }
    }

    /// The hit of `r` with parameter in `[t_min, t_max]`, if any.
    pub fn hit(&self, r: &Ray, t_min: Param, t_max: Param) -> (res: Option<HitRecord>)
        requires
            t_min.wf(),
            t_max.wf(),
        ensures
            match res {
                None => self.hit_param(*r, t_min@, t_max@) is None,
                Some(h) => exists|n: int, m: int|
                    self.hit_param(*r, t_min@, t_max@) == Some((n, m)) && #[trigger] plane_record(
                        *r,
                        n,
                        m,
                        Vec3 { x: 1i32, y: 0i32, z: 0i32 },
                        self.uv_at(*r, n, m),
                        h,
                    ),
            },
    {
        let (o, d) = (r.orig, r.dir);
        match plane_hit(self.y0, self.y1, self.z0, self.z1, self.x, (o.y, o.z, o.x), (d.y, d.z, d.x), t_min, t_max) {
            None => None,
            Some((n, m, u, v)) => {
                let h = plane_record_exec(r, n, m, Vec3::new(1, 0, 0), u, v);
                assert(plane_record(*r, n as int, m as int, Vec3 { x: 1i32, y: 0i32, z: 0i32 }, self.uv_at(*r, n as int, m as int), h));
                Some(h)
            },
        }
    }
}

} // verus!
