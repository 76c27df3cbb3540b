//! Spheres, intersected exactly. Whether a root of the ray's quadratic lies in the
//! queried range is decided exactly, by comparing squares of integers; the parameter
//! reported for it is the root rounded to a multiple of `1 / a`, with `a` the squared
//! length of the ray's direction (exact when the discriminant is a perfect square).
use vstd::prelude::*;

use crate::aabb::{lemma_inside_grow, lemma_inside_hits, AABB};
use crate::face::Face;
use crate::param::{lemma_le_trans, Ext, Param};
use crate::ray::{ivec, Ray};
use crate::vec3::{dot_of, Vec3};

verus! {

/// Largest magnitude of a coordinate that sphere intersection accepts.
pub const COORD_LIMIT: i32 = 0x10_0000;

/// Every component of `v` is within `COORD_LIMIT` of zero.
pub open spec fn within_limit(v: Vec3<i32>) -> bool {
    &&& -COORD_LIMIT <= v.x <= COORD_LIMIT
    &&& -COORD_LIMIT <= v.y <= COORD_LIMIT
    &&& -COORD_LIMIT <= v.z <= COORD_LIMIT
}

/// `u <= q * sqrt(d)`, for `d >= 0` and `q > 0`.
pub open spec fn le_sqrt(u: int, d: int, q: int) -> bool {
    u <= 0 || u * u <= d * (q * q)
}

/// `u >= q * sqrt(d)`, for `d >= 0` and `q > 0`.
pub open spec fn ge_sqrt(u: int, d: int, q: int) -> bool {
    u >= 0 && u * u >= d * (q * q)
}

/// Largest magnitude of the numerator and denominator of a finite bound of the range
/// that sphere intersection accepts.
pub const PARAM_LIMIT: i64 = 0x10_0000;

/// A range bound that sphere intersection accepts: infinite, or a fraction within
/// `PARAM_LIMIT`.
pub open spec fn param_within(t: Param) -> bool {
    match t {
        Param::Frac { num, den } => -PARAM_LIMIT <= num <= PARAM_LIMIT && den <= PARAM_LIMIT,
        _ => true,
    }
}

/// `s` is the integer square root of `n`.
pub open spec fn is_isqrt(s: int, n: int) -> bool {
    0 <= s && s * s <= n < (s + 1) * (s + 1)
}

/// The integer square root of `n`.
pub open spec fn isqrt_of(n: int) -> int {
    choose|s: int| is_isqrt(s, n)
}

proof fn lemma_isqrt_unique(s: int, t: int, n: int)
    requires
        is_isqrt(s, n),
        is_isqrt(t, n),
    ensures
        s == t,
{
    if s < t {
        assert((s + 1) * (s + 1) <= t * t) by (nonlinear_arith)
            requires
                0 <= s,
                s + 1 <= t,
        ;
    } else if t < s {
        assert((t + 1) * (t + 1) <= s * s) by (nonlinear_arith)
            requires
                0 <= t,
                t + 1 <= s,
        ;
    }
}

/// Every natural number has an integer square root.
pub proof fn lemma_isqrt_exists(n: int)
    requires
        n >= 0,
    ensures
        is_isqrt(isqrt_of(n), n),
    decreases n,
{
    if n == 0 {
        assert(is_isqrt(0, 0));
    } else {
        lemma_isqrt_exists(n - 1);
        let s = isqrt_of(n - 1);
        if (s + 1) * (s + 1) <= n {
            assert(n < (s + 2) * (s + 2)) by (nonlinear_arith)
                requires
                    n - 1 < (s + 1) * (s + 1),
                    s >= 0,
            ;
            assert(is_isqrt(s + 1, n));
        } else {
            assert(is_isqrt(s, n));
        }
    }
}

/// The integer square root: the largest `s` with `s * s <= n`.
pub fn isqrt(n: u128) -> (s: u128)
    ensures
        is_isqrt(s as int, n as int),
        s as int == isqrt_of(n as int),
{
    let mut lo: u128 = 0;
    let mut hi: u128 = 0x1_0000_0000_0000_0000;
    assert(n < hi * hi) by (nonlinear_arith)
        requires
            hi == 0x1_0000_0000_0000_0000u128,
            n <= u128::MAX,
    ;
    while hi - lo > 1
        invariant
            lo < hi <= 0x1_0000_0000_0000_0000u128,
            lo * lo <= n,
            n < hi * hi,
        decreases hi - lo,
    {
        let mid = lo + (hi - lo) / 2;
        assert(mid * mid <= 0xffff_ffff_ffff_ffff * 0xffff_ffff_ffff_ffff) by (nonlinear_arith)
            requires
                0 <= mid < 0x1_0000_0000_0000_0000,
        ;
        if mid * mid <= n {
            lo = mid;
        } else {
            hi = mid;
        }
    }
    assert(is_isqrt(lo as int, n as int));
    proof {
        lemma_isqrt_unique(lo as int, isqrt_of(n as int), n as int);
    }
    lo
}

/// A sphere with its center and radius.
#[derive(Clone, Copy, Debug, PartialEq, Eq, Structural)]
pub struct Sphere {
    pub center: Vec3<i32>,
    pub radius: i32,
}

/// What a ray meets on a surface: the facing, the parameter `t`, the point
/// `p / p_den`, the unit normal `normal / normal_den`, turned against the ray, and the
/// texture coordinates `(u, v)` where they are exact fractions (on rectangles; a
/// sphere's are angles, which the application computes).
#[derive(Clone, Copy, Debug, PartialEq, Eq, Structural)]
pub struct HitRecord {
    pub f: Face,
    pub t: Param,
    pub p: Vec3<i128>,
    pub p_den: i64,
    pub normal: Vec3<i128>,
    pub normal_den: i128,
    pub uv: Option<TexCoord>,
}

/// Texture coordinates on a surface.
#[derive(Clone, Copy, Debug, PartialEq, Eq, Structural)]
pub struct TexCoord {
    pub u: Param,
    pub v: Param,
}

/// Componentwise difference of integer triples.
pub open spec fn diff(a: (int, int, int), b: (int, int, int)) -> (int, int, int) {
    (a.0 - b.0, a.1 - b.1, a.2 - b.2)
}

/// `k * a + m * b` for integer triples.
pub open spec fn combine(k: int, a: (int, int, int), m: int, b: (int, int, int)) -> (int, int, int) {
    (k * a.0 + m * b.0, k * a.1 + m * b.1, k * a.2 + m * b.2)
}

pub open spec fn wide(v: Vec3<i128>) -> (int, int, int) {
    (v.x as int, v.y as int, v.z as int)
}

impl Sphere {
    /// The center and radius lie within the coordinate limit and the radius is positive.
    pub open spec fn wf(self) -> bool {
        within_limit(self.center) && 0 < self.radius <= COORD_LIMIT
    }

    pub open spec fn coeff_a(self, r: Ray) -> int {
        dot_of(ivec(r.dir), ivec(r.dir))
    }

    pub open spec fn coeff_half_b(self, r: Ray) -> int {
        dot_of(diff(ivec(r.orig), ivec(self.center)), ivec(r.dir))
    }

    pub open spec fn coeff_c(self, r: Ray) -> int {
        let oc = diff(ivec(r.orig), ivec(self.center));
        dot_of(oc, oc) - self.radius * self.radius
    }

    /// The discriminant of `a t^2 + 2 half_b t + c`.
    pub open spec fn discriminant(self, r: Ray) -> int {
        self.coeff_half_b(r) * self.coeff_half_b(r) - self.coeff_a(r) * self.coeff_c(r)
    }

    /// Numerator, over `coeff_a`, of the nearer root.
    pub open spec fn near_root(self, r: Ray) -> int {
        -self.coeff_half_b(r) - isqrt_of(self.discriminant(r))
    }

    /// Numerator, over `coeff_a`, of the farther root.
    pub open spec fn far_root(self, r: Ray) -> int {
        -self.coeff_half_b(r) + isqrt_of(self.discriminant(r))
    }

    /// The nearer root `(-half_b - sqrt(disc)) / a` is at least `lo`.
    pub open spec fn near_from(self, r: Ray, lo: Ext) -> bool {
        match lo {
            Ext::NegInf => true,
            Ext::PosInf => false,
            Ext::Rat(p, q) => ge_sqrt(
                -self.coeff_half_b(r) * q - self.coeff_a(r) * p,
                self.discriminant(r),
                q,
            ),
        }
    }

    /// The nearer root is at most `hi`.
    pub open spec fn near_to(self, r: Ray, hi: Ext) -> bool {
        match hi {
            Ext::NegInf => false,
            Ext::PosInf => true,
            Ext::Rat(p, q) => le_sqrt(
                -self.coeff_half_b(r) * q - self.coeff_a(r) * p,
                self.discriminant(r),
                q,
            ),
        }
    }

    /// The farther root `(-half_b + sqrt(disc)) / a` is at least `lo`.
    pub open spec fn far_from(self, r: Ray, lo: Ext) -> bool {
        match lo {
            Ext::NegInf => true,
            Ext::PosInf => false,
            Ext::Rat(p, q) => le_sqrt(
                self.coeff_half_b(r) * q + self.coeff_a(r) * p,
                self.discriminant(r),
                q,
            ),
        }
    }

    /// The farther root is at most `hi`.
    pub open spec fn far_to(self, r: Ray, hi: Ext) -> bool {
        match hi {
            Ext::NegInf => false,
            Ext::PosInf => true,
            Ext::Rat(p, q) => ge_sqrt(
                self.coeff_half_b(r) * q + self.coeff_a(r) * p,
                self.discriminant(r),
                q,
            ),
        }
    }

    /// The hit in `[t_min, t_max]`, as the parameter `(num, den)`: none when the ray
    /// misses or grazes, or when neither root lies in the range; else the nearer root if
    /// it lies in the range, and the farther one otherwise. Which root is hit is decided
    /// exactly. The parameter reported is that root rounded to a multiple of `1 / a`, up
    /// for the nearer root and down for the farther, and kept within the range: where the
    /// rounding would leave it, the range's own end is reported.
    pub open spec fn hit_root(self, r: Ray, t_min: Ext, t_max: Ext) -> Option<(int, int)> {
        let a = self.coeff_a(r);
        if self.discriminant(r) <= 0 {
            None
        } else if self.near_from(r, t_min) && self.near_to(r, t_max) {
            if Ext::Rat(self.near_root(r), a).le(t_max) {
                Some((self.near_root(r), a))
            } else {
                Some(frac_of(t_max))
            }
        } else if self.far_from(r, t_min) && self.far_to(r, t_max) {
            if t_min.le(Ext::Rat(self.far_root(r), a)) {
                Some((self.far_root(r), a))
            } else {
                Some(frac_of(t_min))
            }
        } else {
            None
        }
    }

    /// The record of a hit at parameter `t.0 / t.1`.
    pub open spec fn record_at(self, r: Ray, t: (int, int), h: HitRecord) -> bool {
        let (n, m) = t;
        let outward = combine(m, diff(ivec(r.orig), ivec(self.center)), n, ivec(r.dir));
        let f = if dot_of(outward, ivec(r.dir)) < 0 { Face::Inward } else { Face::Outward };
        &&& h.t@ == Ext::Rat(n, m)
        &&& wide(h.p) == combine(m, ivec(r.orig), n, ivec(r.dir))
        &&& h.p_den == m
        &&& h.f == f
        &&& wide(h.normal) == (if f == Face::Inward {
            outward
        } else {
            (-outward.0, -outward.1, -outward.2)
        })
        &&& h.normal_den == m * self.radius
    }
}

/// The numerator and denominator of a fraction.
pub open spec fn frac_of(t: Ext) -> (int, int) {
    match t {
        Ext::Rat(p, q) => (p, q),
        _ => (0, 1),
    }
}

proof fn lemma_bounded_mul(x: int, y: int, bx: int, by: int)
    requires
        -bx <= x <= bx,
        -by <= y <= by,
    ensures
        -(bx * by) <= x * y <= bx * by,
{
    assert(-(bx * by) <= x * y <= bx * by) by (nonlinear_arith)
        requires
            -bx <= x <= bx,
            -by <= y <= by,
    ;
}

proof fn lemma_zero_square_sum(x: int, y: int, z: int)
    requires
        x * x + y * y + z * z == 0,
    ensures
        x == 0 && y == 0 && z == 0,
{
    assert(x * x >= 0 && y * y >= 0 && z * z >= 0) by (nonlinear_arith);
    assert(x * x == 0 ==> x == 0) by (nonlinear_arith);
    assert(y * y == 0 ==> y == 0) by (nonlinear_arith);
    assert(z * z == 0 ==> z == 0) by (nonlinear_arith);
}

/// For a finite bound `p / q`, the number `-half_b * q - a * p`, against which the
/// roots are placed; zero for an infinite bound.
fn range_side(t: Param, half_b: i128, a: i128) -> (u: i128)
    requires
        param_within(t),
        t.wf(),
        -0x800_0000_0000 <= half_b <= 0x800_0000_0000,
        0 <= a <= 0x400_0000_0000,
    ensures
        t matches Param::Frac { num, den } ==> u == -half_b * den - a * num,
        -0x1_0000_0000_0000_0000 < u < 0x1_0000_0000_0000_0000,
{
    match t {
        Param::Frac { num, den } => {
            proof {
                lemma_bounded_mul(half_b as int, den as int, 0x800_0000_0000, 0x10_0000);
                lemma_bounded_mul(a as int, num as int, 0x400_0000_0000, 0x10_0000);
            }
            proof {
                assert((-half_b) * den == -(half_b * den)) by (nonlinear_arith);
            }
            -(half_b * den as i128) - a * num as i128
        },
        _ => 0,
    }
}

/// Whether `u <= q * sqrt(d)`.
fn le_sqrt_exec(u: i128, d: i128, q: i128) -> (r: bool)
    requires
        0 <= d < 0x100_0000_0000_0000_0000_0000,
        0 < q <= 0x10_0000,
        -0x1_0000_0000_0000_0000 < u < 0x1_0000_0000_0000_0000,
    ensures
        r == le_sqrt(u as int, d as int, q as int),
{
    if u <= 0 {
        return true;
    }
    proof {
        assert(u * u < 0x1_0000_0000_0000_0000 * 0x1_0000_0000_0000_0000) by (nonlinear_arith)
            requires
                0 < u < 0x1_0000_0000_0000_0000,
        ;
        assert(d * (q * q) < 0x100_0000_0000_0000_0000_0000 * 0x100_0000_0000) by (nonlinear_arith)
            requires
                0 <= d < 0x100_0000_0000_0000_0000_0000,
                0 < q <= 0x10_0000,
        ;
    }
    assert(0 < q * q <= 0x100_0000_0000) by (nonlinear_arith)
        requires
            0 < q <= 0x10_0000,
    ;
    let uu = u as u128;
    let qq = (q * q) as u128;
    let dd = d as u128;
    proof {
        assert(uu * uu == u * u);
        assert(dd * qq == d * (q * q));
    }
    uu * uu <= dd * qq
}

/// Whether `u >= q * sqrt(d)`.
fn ge_sqrt_exec(u: i128, d: i128, q: i128) -> (r: bool)
    requires
        0 <= d < 0x100_0000_0000_0000_0000_0000,
        0 < q <= 0x10_0000,
        -0x1_0000_0000_0000_0000 < u < 0x1_0000_0000_0000_0000,
    ensures
        r == ge_sqrt(u as int, d as int, q as int),
{
    if u < 0 {
        return false;
    }
    proof {
        assert(u * u < 0x1_0000_0000_0000_0000 * 0x1_0000_0000_0000_0000) by (nonlinear_arith)
            requires
                0 <= u < 0x1_0000_0000_0000_0000,
        ;
        assert(d * (q * q) < 0x100_0000_0000_0000_0000_0000 * 0x100_0000_0000) by (nonlinear_arith)
            requires
                0 <= d < 0x100_0000_0000_0000_0000_0000,
                0 < q <= 0x10_0000,
        ;
    }
    assert(0 < q * q <= 0x100_0000_0000) by (nonlinear_arith)
        requires
            0 < q <= 0x10_0000,
    ;
    let uu = u as u128;
    let qq = (q * q) as u128;
    let dd = d as u128;
    proof {
        assert(uu * uu == u * u);
        assert(dd * qq == d * (q * q));
    }
    uu * uu >= dd * qq
}

/// `k * a + m * b` on wide integers, with room to spare.
fn combine_exec(k: i128, a: (i128, i128, i128), m: i128, b: (i128, i128, i128)) -> (r: Vec3<i128>)
    requires
        -0x400_0000_0000 <= k <= 0x400_0000_0000,
        -0x20_0000 <= a.0 <= 0x20_0000,
        -0x20_0000 <= a.1 <= 0x20_0000,
        -0x20_0000 <= a.2 <= 0x20_0000,
        -0x20_0000_0000_0000 <= m <= 0x20_0000_0000_0000,
        -0x10_0000 <= b.0 <= 0x10_0000,
        -0x10_0000 <= b.1 <= 0x10_0000,
        -0x10_0000 <= b.2 <= 0x10_0000,
    ensures
        wide(r) == combine(k as int, (a.0 as int, a.1 as int, a.2 as int), m as int, (b.0 as int, b.1 as int, b.2 as int)),
        -0x1_0000_0000_0000_0000_0000 <= r.x <= 0x1_0000_0000_0000_0000_0000,
        -0x1_0000_0000_0000_0000_0000 <= r.y <= 0x1_0000_0000_0000_0000_0000,
        -0x1_0000_0000_0000_0000_0000 <= r.z <= 0x1_0000_0000_0000_0000_0000,
{
    proof {
        lemma_bounded_mul(k as int, a.0 as int, 0x400_0000_0000, 0x20_0000);
        lemma_bounded_mul(k as int, a.1 as int, 0x400_0000_0000, 0x20_0000);
        lemma_bounded_mul(k as int, a.2 as int, 0x400_0000_0000, 0x20_0000);
        lemma_bounded_mul(m as int, b.0 as int, 0x20_0000_0000_0000, 0x10_0000);
        lemma_bounded_mul(m as int, b.1 as int, 0x20_0000_0000_0000, 0x10_0000);
        lemma_bounded_mul(m as int, b.2 as int, 0x20_0000_0000_0000, 0x10_0000);
    }
    Vec3::new(k * a.0 + m * b.0, k * a.1 + m * b.1, k * a.2 + m * b.2)
}

impl Sphere {
    /// The hit of `r` in `[t_min, t_max]`, as `hit_root` decides it: the nearer root if it
    /// lies in the range, else the farther one, reported rounded to a multiple of `1 / a`.
    pub fn hit(&self, r: &Ray, t_min: Param, t_max: Param) -> (res: Option<HitRecord>)
        requires
            self.wf(),
            within_limit(r.orig),
            within_limit(r.dir),
            t_min.wf(),
            t_max.wf(),
            param_within(t_min),
            param_within(t_max),
        ensures
            match res {
                None => self.hit_root(*r, t_min@, t_max@) is None,
                Some(h) => self.hit_root(*r, t_min@, t_max@) == Some(frac_of(h.t@)) && self.record_at(
                    *r,
                    frac_of(h.t@),
                    h,
                ) && t_min@.le(h.t@) && h.t@.le(t_max@),
            },
    {
        let ghost lim: int = 0x10_0000;
        let oc = (
            r.orig.x as i128 - self.center.x as i128,
            r.orig.y as i128 - self.center.y as i128,
            r.orig.z as i128 - self.center.z as i128,
        );
        let d = (r.dir.x as i128, r.dir.y as i128, r.dir.z as i128);
        proof {
            lemma_bounded_mul(d.0 as int, d.0 as int, lim, lim);
            lemma_bounded_mul(d.1 as int, d.1 as int, lim, lim);
            lemma_bounded_mul(d.2 as int, d.2 as int, lim, lim);
            lemma_bounded_mul(oc.0 as int, d.0 as int, 2 * lim, lim);
            lemma_bounded_mul(oc.1 as int, d.1 as int, 2 * lim, lim);
            lemma_bounded_mul(oc.2 as int, d.2 as int, 2 * lim, lim);
            lemma_bounded_mul(oc.0 as int, oc.0 as int, 2 * lim, 2 * lim);
            lemma_bounded_mul(oc.1 as int, oc.1 as int, 2 * lim, 2 * lim);
            lemma_bounded_mul(oc.2 as int, oc.2 as int, 2 * lim, 2 * lim);
            lemma_bounded_mul(self.radius as int, self.radius as int, lim, lim);
        }
        let a: i128 = d.0 * d.0 + d.1 * d.1 + d.2 * d.2;
        let half_b: i128 = oc.0 * d.0 + oc.1 * d.1 + oc.2 * d.2;
        let c: i128 = oc.0 * oc.0 + oc.1 * oc.1 + oc.2 * oc.2 - (self.radius as i128) * (
        self.radius as i128);
        proof {
            assert(d.0 * d.0 >= 0 && d.1 * d.1 >= 0 && d.2 * d.2 >= 0) by (nonlinear_arith);
            lemma_bounded_mul(half_b as int, half_b as int, 0x800_0000_0000, 0x800_0000_0000);
            lemma_bounded_mul(a as int, c as int, 0x400_0000_0000, 0x1000_0000_0000);
        }
        let disc: i128 = half_b * half_b - a * c;
        assert(disc < 0x100_0000_0000_0000_0000_0000);
        if disc <= 0 {
            return None;
        }
        if a == 0 {
            // never taken: a ray with no direction has a zero discriminant
            proof {
                lemma_zero_square_sum(d.0 as int, d.1 as int, d.2 as int);
                assert(oc.0 * d.0 == 0 && oc.1 * d.1 == 0 && oc.2 * d.2 == 0) by (nonlinear_arith)
                    requires
                        d.0 == 0 && d.1 == 0 && d.2 == 0,
                ;
                assert(a * c == 0) by (nonlinear_arith)
                    requires
                        a == 0,
                ;
            }
            return None;
        }
        let s0 = isqrt(disc as u128);
        proof {
            assert(s0 < 0x10_0000_0000_0000) by (nonlinear_arith)
                requires
                    s0 >= 0,
                    s0 * s0 <= disc,
                    disc < 0x100_0000_0000_0000_0000_0000,
            ;
        }
        let s = s0 as i128;
        let (u_min, u_max) = (range_side(t_min, half_b, a), range_side(t_max, half_b, a));
        proof {
            assert(a as int == self.coeff_a(*r));
            assert(half_b as int == self.coeff_half_b(*r));
            assert(disc as int == self.discriminant(*r));
            if let Param::Frac { num, den } = t_min {
                assert((-half_b) * den == -(half_b * den)) by (nonlinear_arith);
            }
            if let Param::Frac { num, den } = t_max {
                assert((-half_b) * den == -(half_b * den)) by (nonlinear_arith);
            }
        }
        let near_from = match t_min {
            Param::NegInf => true,
            Param::PosInf => false,
            Param::Frac { den, .. } => ge_sqrt_exec(u_min, disc, den as i128),
        };
        let near_to = match t_max {
            Param::NegInf => false,
            Param::PosInf => true,
            Param::Frac { den, .. } => le_sqrt_exec(u_max, disc, den as i128),
        };
        let (n, m) = if near_from && near_to {
            let near = Param::Frac { num: (-half_b - s) as i64, den: a as i64 };
            if !t_max.lt(&near) {
                (-half_b - s, a)
            } else {
                match t_max {
                    Param::Frac { num, den } => (num as i128, den as i128),
                    _ => (-half_b - s, a),
                }
            }
        } else {
            let far_from = match t_min {
                Param::NegInf => true,
                Param::PosInf => false,
                Param::Frac { den, .. } => le_sqrt_exec(-u_min, disc, den as i128),
            };
            let far_to = match t_max {
                Param::NegInf => false,
                Param::PosInf => true,
                Param::Frac { den, .. } => ge_sqrt_exec(-u_max, disc, den as i128),
            };
            if far_from && far_to {
                let far = Param::Frac { num: (-half_b + s) as i64, den: a as i64 };
                if !far.lt(&t_min) {
                    (-half_b + s, a)
                } else {
                    match t_min {
                        Param::Frac { num, den } => (num as i128, den as i128),
                        _ => (-half_b + s, a),
                    }
                }
            } else {
                return None;
            }
        };
        proof {
            lemma_hit_param(*self, *r, t_min@, t_max@);
        }
        let p = combine_exec(m, (r.orig.x as i128, r.orig.y as i128, r.orig.z as i128), n, d);
        let outward = combine_exec(m, oc, n, d);
        proof {
            lemma_bounded_mul(outward.x as int, d.0 as int, 0x1_0000_0000_0000_0000_0000, lim);
            lemma_bounded_mul(outward.y as int, d.1 as int, 0x1_0000_0000_0000_0000_0000, lim);
            lemma_bounded_mul(outward.z as int, d.2 as int, 0x1_0000_0000_0000_0000_0000, lim);
            lemma_bounded_mul(m as int, self.radius as int, 0x400_0000_0000, lim);
        }
        let facing = outward.x * d.0 + outward.y * d.1 + outward.z * d.2;
        let (f, normal) = if facing < 0 {
            (Face::Inward, outward)
        } else {
            (Face::Outward, Vec3::new(-outward.x, -outward.y, -outward.z))
        };
        let h = HitRecord {
            f,
            t: Param::Frac { num: n as i64, den: m as i64 },
            p,
            p_den: m as i64,
            normal,
            normal_den: m * self.radius as i128,
            uv: None,
        };
        Some(h)
    }
}

/// A ray from `(0, 0, 2r)` toward the center of a sphere of radius `r` at the origin,
/// over any range that holds `t = r`, hits the near pole at `t = r`, from outside, with
/// normal `(0, 0, 1)`.
pub proof fn lemma_pole_hit(s: Sphere, ray: Ray, t_min: Ext, t_max: Ext, h: HitRecord)
    requires
        s.wf(),
        t_min.wf(),
        t_max.wf(),
        t_min.le(Ext::Rat(s.radius as int, 1)),
        Ext::Rat(s.radius as int, 1).le(t_max),
        2 * s.radius <= COORD_LIMIT,
        s.center == (Vec3 { x: 0i32, y: 0i32, z: 0i32 }),
        ray.orig.x == 0 && ray.orig.y == 0 && ray.orig.z == 2 * s.radius,
        ray.dir.x == 0 && ray.dir.y == 0 && ray.dir.z == -1,
        s.record_at(ray, (s.radius as int, 1), h),
    ensures
        s.hit_root(ray, t_min, t_max) == Some((s.radius as int, 1int)),
        h.t@ == Ext::Rat(s.radius as int, 1),
        wide(h.p) == (0int, 0int, s.radius as int),
        h.p_den == 1,
        h.f == Face::Inward,
        wide(h.normal) == (0int, 0int, h.normal_den as int),
{
    let r = s.radius as int;
    assert(s.coeff_a(ray) == 1);
    assert(s.coeff_half_b(ray) == -2 * r) by (nonlinear_arith)
        requires
            s.coeff_half_b(ray) == 0 * 0 + 0 * 0 + (2 * r) * (-1),
    ;
    assert(s.coeff_c(ray) == 3 * r * r) by (nonlinear_arith)
        requires
            s.coeff_c(ray) == 0 * 0 + 0 * 0 + (2 * r) * (2 * r) - r * r,
    ;
    assert(s.discriminant(ray) == r * r) by (nonlinear_arith)
        requires
            s.discriminant(ray) == s.coeff_half_b(ray) * s.coeff_half_b(ray) - s.coeff_a(ray) * s.coeff_c(ray),
            s.coeff_half_b(ray) == -2 * r,
            s.coeff_a(ray) == 1,
            s.coeff_c(ray) == 3 * r * r,
    ;
    assert(is_isqrt(r, r * r) && r * r > 0) by (nonlinear_arith)
        requires
            r > 0,
    ;
    lemma_isqrt_unique(r, isqrt_of(r * r), r * r);
    assert(s.near_root(ray) == r);
    assert(1 * r == r && r * 1 == r && 0 * 1 == 0);
    let hb = s.coeff_half_b(ray);
    if let Ext::Rat(p, q) = t_min {
        assert(-hb * q - 1 * p >= 0 && (-hb * q - 1 * p) * (-hb * q - 1 * p) >= (r * r) * (q * q))
            by (nonlinear_arith)
            requires
                hb == -2 * r,
                p * 1 <= r * q,
                q > 0,
                r > 0,
        ;
    }
    if let Ext::Rat(p, q) = t_max {
        assert(-hb * q - 1 * p <= 0 || (-hb * q - 1 * p) * (-hb * q - 1 * p) <= (r * r) * (q * q))
            by (nonlinear_arith)
            requires
                hb == -2 * r,
                r * q <= p * 1,
                q > 0,
                r > 0,
        ;
    }
    let outward = combine(1, diff(ivec(ray.orig), ivec(s.center)), r, ivec(ray.dir));
    assert(outward == (0int, 0int, r));
    assert(dot_of(outward, ivec(ray.dir)) == -r);
}

/// A ray with a positive discriminant has a nonzero direction.
pub proof fn lemma_positive_a(s: Sphere, r: Ray)
    requires
        s.discriminant(r) > 0,
    ensures
        s.coeff_a(r) > 0,
{
    let d = ivec(r.dir);
    let oc = diff(ivec(r.orig), ivec(s.center));
    assert(d.0 * d.0 >= 0 && d.1 * d.1 >= 0 && d.2 * d.2 >= 0) by (nonlinear_arith);
    if s.coeff_a(r) == 0 {
        lemma_zero_square_sum(d.0, d.1, d.2);
        assert(oc.0 * d.0 == 0 && oc.1 * d.1 == 0 && oc.2 * d.2 == 0) by (nonlinear_arith)
            requires
                d.0 == 0 && d.1 == 0 && d.2 == 0,
        ;
        assert(s.coeff_a(r) * s.coeff_c(r) == 0) by (nonlinear_arith)
            requires
                s.coeff_a(r) == 0,
        ;
    }
}


impl Sphere {
    /// The box around the sphere, one unit wider than the sphere on every side so that
    /// any hit lies strictly inside it.
    pub open spec fn box_of(self) -> AABB {
        let k = self.radius + 1;
        AABB {
            min: Vec3 {
                x: (self.center.x - k) as i32,
                y: (self.center.y - k) as i32,
                z: (self.center.z - k) as i32,
            },
            max: Vec3 {
                x: (self.center.x + k) as i32,
                y: (self.center.y + k) as i32,
                z: (self.center.z + k) as i32,
            },
        }
    }

    pub fn bounding_box(&self) -> (b: AABB)
        requires
            self.wf(),
        ensures
            b == self.box_of(),
            b.wf(),
    {
        let k = self.radius + 1;
        let c = self.center;
        AABB {
            min: Vec3::new(c.x - k, c.y - k, c.z - k),
            max: Vec3::new(c.x + k, c.y + k, c.z + k),
        }
    }
}

proof fn lemma_square_bound(q: int, m: int)
    requires
        m >= 0,
        q * q <= m * m,
    ensures
        -m <= q <= m,
{
    if q > m {
        assert(q * q > m * m) by (nonlinear_arith)
            requires
                q > m,
                m >= 0,
        ;
    }
    if q < -m {
        assert(q * q > m * m) by (nonlinear_arith)
            requires
                q < -m,
                m >= 0,
        ;
    }
}

proof fn lemma_square_expand(a: int, o: int, n: int, d: int)
    ensures
        (a * o + n * d) * (a * o + n * d) == (a * a) * (o * o) + (2 * a * n) * (o * d) + (n * n) * (d * d),
{
    let (u, v) = (a * o, n * d);
    assert((u + v) * (u + v) == u * u + 2 * (u * v) + v * v) by (nonlinear_arith);
    assert(u * u == (a * a) * (o * o)) by (nonlinear_arith)
        requires
            u == a * o,
    ;
    assert(v * v == (n * n) * (d * d)) by (nonlinear_arith)
        requires
            v == n * d,
    ;
    assert(2 * (u * v) == (2 * a * n) * (o * d)) by (nonlinear_arith)
        requires
            u == a * o,
            v == n * d,
    ;
}

proof fn lemma_factor3(k: int, x: int, y: int, z: int)
    ensures
        k * x + k * y + k * z == k * (x + y + z),
{
    assert(k * x + k * y + k * z == k * (x + y + z)) by (nonlinear_arith);
}

proof fn lemma_ball_identity(a: int, p: int, q: int, hb: int, cc: int, rr2: int)
    ensures
        a * ((q * q) * (cc + rr2) + (2 * q * p) * hb + (p * p) * a) == (a * p + hb * q) * (a * p + hb * q) - (hb
            * hb - a * cc) * (q * q) + a * rr2 * (q * q),
{
    let (x, y) = (a * p, hb * q);
    assert((x + y) * (x + y) == x * x + 2 * (x * y) + y * y) by (nonlinear_arith);
    assert(x * x == a * ((p * p) * a)) by (nonlinear_arith)
        requires
            x == a * p,
    ;
    assert(2 * (x * y) == a * ((2 * q * p) * hb)) by (nonlinear_arith)
        requires
            x == a * p,
            y == hb * q,
    ;
    assert(y * y == (hb * hb) * (q * q)) by (nonlinear_arith)
        requires
            y == hb * q,
    ;
    assert(a * ((q * q) * (cc + rr2)) == (a * cc) * (q * q) + a * rr2 * (q * q)) by (nonlinear_arith);
    let (k1, k2, k3) = ((q * q) * (cc + rr2), (2 * q * p) * hb, (p * p) * a);
    assert(a * (k1 + k2 + k3) == a * k1 + a * k2 + a * k3) by (nonlinear_arith);
    assert((hb * hb - a * cc) * (q * q) == (hb * hb) * (q * q) - (a * cc) * (q * q)) by (nonlinear_arith);
}

/// A point of the ray at parameter `p / q` between the two roots lies in the sphere's
/// closed ball, so strictly inside the sphere's box.
pub proof fn lemma_ball_inside_box(s: Sphere, r: Ray, p: int, q: int)
    requires
        s.wf(),
        q > 0,
        s.coeff_a(r) > 0,
        (s.coeff_a(r) * p + s.coeff_half_b(r) * q) * (s.coeff_a(r) * p + s.coeff_half_b(r) * q) <= s.discriminant(
            r,
        ) * (q * q),
    ensures
        s.box_of().inside_at(r, p, q),
{
    let a = s.coeff_a(r);
    let hb = s.coeff_half_b(r);
    let cc = s.coeff_c(r);
    let rr = s.radius as int;
    let (ox, oy, oz) = diff(ivec(r.orig), ivec(s.center));
    let (dx, dy, dz) = ivec(r.dir);
    let (qx, qy, qz) = (q * ox + p * dx, q * oy + p * dy, q * oz + p * dz);
    lemma_square_expand(q, ox, p, dx);
    lemma_square_expand(q, oy, p, dy);
    lemma_square_expand(q, oz, p, dz);
    lemma_factor3(q * q, ox * ox, oy * oy, oz * oz);
    lemma_factor3(2 * q * p, ox * dx, oy * dy, oz * dz);
    lemma_factor3(p * p, dx * dx, dy * dy, dz * dz);
    assert(ox * ox + oy * oy + oz * oz == cc + rr * rr);
    lemma_ball_identity(a, p, q, hb, cc, rr * rr);
    let sum = qx * qx + qy * qy + qz * qz;
    assert(a * sum <= a * ((rr * rr) * (q * q))) by (nonlinear_arith)
        requires
            a * sum == (a * p + hb * q) * (a * p + hb * q) - (hb * hb - a * cc) * (q * q) + a * (rr * rr) * (q
                * q),
            (a * p + hb * q) * (a * p + hb * q) <= (hb * hb - a * cc) * (q * q),
    ;
    assert(sum <= (rr * q) * (rr * q)) by (nonlinear_arith)
        requires
            a * sum <= a * ((rr * rr) * (q * q)),
            a > 0,
    ;
    assert(qx * qx >= 0 && qy * qy >= 0 && qz * qz >= 0) by (nonlinear_arith);
    assert(rr * q >= 0) by (nonlinear_arith)
        requires
            rr > 0,
            q > 0,
    ;
    lemma_square_bound(qx, rr * q);
    lemma_square_bound(qy, rr * q);
    lemma_square_bound(qz, rr * q);
    let b = s.box_of();
    let (cx, cy, cz) = ivec(s.center);
    let (px, py, pz) = ivec(r.orig);
    assert(b.min.x * q < px * q + p * dx < b.max.x * q) by (nonlinear_arith)
        requires
            b.min.x == cx - rr - 1,
            b.max.x == cx + rr + 1,
            ox == px - cx,
            qx == q * ox + p * dx,
            -(rr * q) <= qx <= rr * q,
            q > 0,
    ;
    assert(b.min.y * q < py * q + p * dy < b.max.y * q) by (nonlinear_arith)
        requires
            b.min.y == cy - rr - 1,
            b.max.y == cy + rr + 1,
            oy == py - cy,
            qy == q * oy + p * dy,
            -(rr * q) <= qy <= rr * q,
            q > 0,
    ;
    assert(b.min.z * q < pz * q + p * dz < b.max.z * q) by (nonlinear_arith)
        requires
            b.min.z == cz - rr - 1,
            b.max.z == cz + rr + 1,
            oz == pz - cz,
            qz == q * oz + p * dz,
            -(rr * q) <= qz <= rr * q,
            q > 0,
    ;
}

proof fn lemma_root_order(u: int, sq: int, d: int, q: int)
    requires
        q > 0,
        sq >= 0,
        sq * sq <= d,
        u >= 0,
        u * u >= d * (q * q),
    ensures
        u >= sq * q,
{
    assert(d * (q * q) >= (sq * sq) * (q * q)) by (nonlinear_arith)
        requires
            sq * sq <= d,
            q > 0,
    ;
    assert((sq * q) * (sq * q) == (sq * sq) * (q * q)) by (nonlinear_arith);
    if u < sq * q {
        assert(u * u < (sq * q) * (sq * q)) by (nonlinear_arith)
            requires
                0 <= u < sq * q,
        ;
    }
}

/// Two bounds placed against `sqrt(d)`, the first at or above and the second at or
/// below, are in that order.
proof fn lemma_bounds_ordered(x0: int, q0: int, x1: int, q1: int, d: int)
    requires
        q0 > 0,
        q1 > 0,
        d >= 0,
        ge_sqrt(x0, d, q0),
        le_sqrt(x1, d, q1),
    ensures
        x0 * q1 >= x1 * q0,
{
    assert(x0 * q1 >= 0) by (nonlinear_arith)
        requires
            x0 >= 0,
            q1 > 0,
    ;
    if x1 > 0 {
        assert((x0 * q1) * (x0 * q1) >= (x1 * q0) * (x1 * q0)) by (nonlinear_arith)
            requires
                x0 * x0 >= d * (q0 * q0),
                x1 * x1 <= d * (q1 * q1),
                q0 > 0,
                q1 > 0,
        ;
        assert(x1 * q0 > 0) by (nonlinear_arith)
            requires
                x1 > 0,
                q0 > 0,
        ;
        if x0 * q1 < x1 * q0 {
            assert((x0 * q1) * (x0 * q1) < (x1 * q0) * (x1 * q0)) by (nonlinear_arith)
                requires
                    0 <= x0 * q1 < x1 * q0,
            ;
        }
    } else {
        assert(x1 * q0 <= 0) by (nonlinear_arith)
            requires
                x1 <= 0,
                q0 > 0,
        ;
    }
}

/// The parameter of a hit lies in the range, as a fraction with a positive denominator,
/// and the point of the ray there lies between the two roots.
pub proof fn lemma_hit_param(s: Sphere, r: Ray, t_min: Ext, t_max: Ext)
    requires
        t_min.wf(),
        t_max.wf(),
        s.hit_root(r, t_min, t_max) is Some,
    ensures
        ({
            let (p, q) = s.hit_root(r, t_min, t_max)->0;
            &&& q > 0
            &&& t_min.le(Ext::Rat(p, q))
            &&& Ext::Rat(p, q).le(t_max)
            &&& (s.coeff_a(r) * p + s.coeff_half_b(r) * q) * (s.coeff_a(r) * p + s.coeff_half_b(r) * q)
                <= s.discriminant(r) * (q * q)
        }),
{
    lemma_positive_a(s, r);
    lemma_isqrt_exists(s.discriminant(r));
    let a = s.coeff_a(r);
    let hb = s.coeff_half_b(r);
    let dd = s.discriminant(r);
    let sq = isqrt_of(dd);
    let (nn, ff) = (s.near_root(r), s.far_root(r));
    assert((a * nn + hb * a) * (a * nn + hb * a) == (a * a) * (sq * sq)) by (nonlinear_arith)
        requires
            nn == -hb - sq,
    ;
    assert((a * ff + hb * a) * (a * ff + hb * a) == (a * a) * (sq * sq)) by (nonlinear_arith)
        requires
            ff == -hb + sq,
    ;
    assert((a * a) * (sq * sq) <= dd * (a * a)) by (nonlinear_arith)
        requires
            sq * sq <= dd,
    ;
    let (p, q) = if s.near_from(r, t_min) && s.near_to(r, t_max) {
        if let Ext::Rat(p0, q0) = t_min {
            lemma_root_order(-hb * q0 - a * p0, sq, dd, q0);
            assert(p0 * a <= nn * q0) by (nonlinear_arith)
                requires
                    -hb * q0 - a * p0 >= sq * q0,
                    nn == -hb - sq,
            ;
        }
        if Ext::Rat(nn, a).le(t_max) {
            (nn, a)
        } else {
            if let (Ext::Rat(p0, q0), Ext::Rat(p1, q1)) = (t_min, t_max) {
                lemma_bounds_ordered(-hb * q0 - a * p0, q0, -hb * q1 - a * p1, q1, dd);
                assert(p0 * q1 <= p1 * q0) by (nonlinear_arith)
                    requires
                        (-hb * q0 - a * p0) * q1 >= (-hb * q1 - a * p1) * q0,
                        a > 0,
                ;
            }
            let (p1, q1) = match t_max {
                Ext::Rat(p1, q1) => (p1, q1),
                _ => (0, 1),
            };
            assert(-hb * q1 - a * p1 > sq * q1) by (nonlinear_arith)
                requires
                    p1 * a < nn * q1,
                    nn == -hb - sq,
            ;
            assert(sq * q1 >= 0) by (nonlinear_arith)
                requires
                    sq >= 0,
                    q1 > 0,
            ;
            assert((a * p1 + hb * q1) * (a * p1 + hb * q1) == (-hb * q1 - a * p1) * (-hb * q1 - a * p1))
                by (nonlinear_arith);
            (p1, q1)
        }
    } else {
        if let Ext::Rat(p1, q1) = t_max {
            lemma_root_order(hb * q1 + a * p1, sq, dd, q1);
            assert(ff * q1 <= p1 * a) by (nonlinear_arith)
                requires
                    hb * q1 + a * p1 >= sq * q1,
                    ff == -hb + sq,
            ;
        }
        if t_min.le(Ext::Rat(ff, a)) {
            (ff, a)
        } else {
            if let (Ext::Rat(p0, q0), Ext::Rat(p1, q1)) = (t_min, t_max) {
                lemma_bounds_ordered(hb * q1 + a * p1, q1, hb * q0 + a * p0, q0, dd);
                assert(p0 * q1 <= p1 * q0) by (nonlinear_arith)
                    requires
                        (hb * q1 + a * p1) * q0 >= (hb * q0 + a * p0) * q1,
                        a > 0,
                ;
            }
            let (p0, q0) = match t_min {
                Ext::Rat(p0, q0) => (p0, q0),
                _ => (0, 1),
            };
            assert(hb * q0 + a * p0 > sq * q0) by (nonlinear_arith)
                requires
                    ff * q0 < p0 * a,
                    ff == -hb + sq,
            ;
            assert(sq * q0 >= 0) by (nonlinear_arith)
                requires
                    sq >= 0,
                    q0 > 0,
            ;
            assert((a * p0 + hb * q0) * (a * p0 + hb * q0) == (hb * q0 + a * p0) * (hb * q0 + a * p0))
                by (nonlinear_arith);
            (p0, q0)
        }
    };
    assert(s.hit_root(r, t_min, t_max) == Some((p, q)));
}

/// A ray that hits a sphere in `[t_min, t_max]`, a range of more than one point, passes
/// the slab test over that range of every box that holds the sphere's box.
pub proof fn lemma_hit_box_hits(s: Sphere, r: Ray, t_min: Ext, t_max: Ext, outer: AABB)
    requires
        s.wf(),
        outer.encloses(s.box_of()),
        t_min.wf(),
        t_max.wf(),
        t_min.lt(t_max),
        s.hit_root(r, t_min, t_max) is Some,
    ensures
        outer.hits(r, t_min, t_max),
{
    lemma_hit_param(s, r, t_min, t_max);
    lemma_positive_a(s, r);
    let (p, q) = s.hit_root(r, t_min, t_max)->0;
    lemma_ball_inside_box(s, r, p, q);
    lemma_inside_grow(outer, s.box_of(), r, p, q);
    lemma_inside_hits(outer, r, p, q, t_min, t_max);
}

/// Where a hit lands: for a reported parameter `n / a` that was not moved to an end of
/// the range, the hit point minus the
/// center, scaled by `a`, has squared length `(a r)^2 - a (disc - isqrt(disc)^2)`. The
/// point lies on the sphere when the discriminant is a perfect square, and otherwise
/// just inside it, by the rounding of the square root.
pub proof fn lemma_hit_point_distance(s: Sphere, r: Ray, t_min: Ext, t_max: Ext)
    requires
        s.wf(),
        s.hit_root(r, t_min, t_max) == Some((s.near_root(r), s.coeff_a(r))) || s.hit_root(r, t_min, t_max)
            == Some((s.far_root(r), s.coeff_a(r))),
    ensures
        ({
            let (n, _den) = s.hit_root(r, t_min, t_max)->0;
            let a = s.coeff_a(r);
            let q = combine(a, diff(ivec(r.orig), ivec(s.center)), n, ivec(r.dir));
            let dd = s.discriminant(r);
            let sq = isqrt_of(dd);
            q.0 * q.0 + q.1 * q.1 + q.2 * q.2 == (a * s.radius) * (a * s.radius) - a * (dd - sq * sq)
        }),
{
    let (n, _den) = s.hit_root(r, t_min, t_max)->0;
    lemma_positive_a(s, r);
    let a = s.coeff_a(r);
    let hb = s.coeff_half_b(r);
    let cc = s.coeff_c(r);
    let rr = s.radius as int;
    let dd = s.discriminant(r);
    let sq = isqrt_of(dd);
    let (ox, oy, oz) = diff(ivec(r.orig), ivec(s.center));
    let (dx, dy, dz) = ivec(r.dir);
    lemma_square_expand(a, ox, n, dx);
    lemma_square_expand(a, oy, n, dy);
    lemma_square_expand(a, oz, n, dz);
    lemma_factor3(a * a, ox * ox, oy * oy, oz * oz);
    lemma_factor3(2 * a * n, ox * dx, oy * dy, oz * dz);
    lemma_factor3(n * n, dx * dx, dy * dy, dz * dz);
    assert(ox * ox + oy * oy + oz * oz == cc + rr * rr);
    lemma_ball_identity(a, n, a, hb, cc, rr * rr);
    assert((a * n + hb * a) * (a * n + hb * a) == (a * a) * (sq * sq)) by (nonlinear_arith)
        requires
            n == -hb - sq || n == -hb + sq,
    ;
    let sum = (a * ox + n * dx) * (a * ox + n * dx) + (a * oy + n * dy) * (a * oy + n * dy) + (a * oz + n
        * dz) * (a * oz + n * dz);
    assert(a * sum == a * ((a * rr) * (a * rr) - a * (dd - sq * sq))) by (nonlinear_arith)
        requires
            a * sum == (a * a) * (sq * sq) - dd * (a * a) + a * (rr * rr) * (a * a),
    ;
    assert(sum == (a * rr) * (a * rr) - a * (dd - sq * sq)) by (nonlinear_arith)
        requires
            a * sum == a * ((a * rr) * (a * rr) - a * (dd - sq * sq)),
            a > 0,
    ;
}

} // verus!
