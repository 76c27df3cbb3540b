//! Axis-aligned bounding boxes.
use vstd::prelude::*;

use crate::param::{lemma_le_lt_trans, lemma_le_trans, lemma_lt_le_trans, lemma_neg_lt, Ext, Param};
use crate::ray::Ray;
use crate::vec3::Vec3;

verus! {

/// Lower end of the parameter interval in which the line `o + t * d` lies within `[lo, hi]`.
pub open spec fn slab_low(lo: int, hi: int, o: int, d: int) -> Ext {
    if d > 0 {
        Ext::Rat(lo - o, d)
    } else if d < 0 {
        Ext::Rat(o - hi, -d)
    } else if lo < o && o < hi {
        Ext::NegInf
    } else {
        Ext::PosInf
    }
}

/// Upper end of the parameter interval in which the line `o + t * d` lies within `[lo, hi]`.
pub open spec fn slab_high(lo: int, hi: int, o: int, d: int) -> Ext {
    if d > 0 {
        Ext::Rat(hi - o, d)
    } else if d < 0 {
        Ext::Rat(o - lo, -d)
    } else if lo < o && o < hi {
        Ext::PosInf
    } else {
        Ext::NegInf
    }
}

/// An axis-aligned box between two corners.
#[derive(Clone, Copy, Debug, PartialEq, Eq, Structural)]
pub struct AABB {
    pub min: Vec3<i32>,
    pub max: Vec3<i32>,
}

impl AABB {
    /// The box spans a non-empty range on every axis.
    pub open spec fn wf(self) -> bool {
        self.min.x <= self.max.x && self.min.y <= self.max.y && self.min.z <= self.max.z
    }

    /// Whether the point `(x, y, z)` lies in the closed box.
    pub open spec fn contains(self, x: int, y: int, z: int) -> bool {
        &&& self.min.x <= x <= self.max.x
        &&& self.min.y <= y <= self.max.y
        &&& self.min.z <= z <= self.max.z
    }

    /// Whether `(x, y, z)` is one of the eight corners of the box.
    pub open spec fn is_corner(self, x: int, y: int, z: int) -> bool {
        &&& (x == self.min.x || x == self.max.x)
        &&& (y == self.min.y || y == self.max.y)
        &&& (z == self.min.z || z == self.max.z)
    }

    /// Whether the point of `r` at parameter `p / q` lies strictly inside the box.
    pub open spec fn inside_at(self, r: Ray, p: int, q: int) -> bool {
        &&& self.min.x * q < r.orig.x * q + p * r.dir.x < self.max.x * q
        &&& self.min.y * q < r.orig.y * q + p * r.dir.y < self.max.y * q
        &&& self.min.z * q < r.orig.z * q + p * r.dir.z < self.max.z * q
    }

    /// Whether `self` holds all of box `b`.
    pub open spec fn encloses(self, b: AABB) -> bool {
        &&& self.min.x <= b.min.x && b.max.x <= self.max.x
        &&& self.min.y <= b.min.y && b.max.y <= self.max.y
        &&& self.min.z <= b.min.z && b.max.z <= self.max.z
    }

    /// The smallest box holding both boxes.
    pub open spec fn union_of(self, b: AABB) -> AABB {
        AABB {
            min: Vec3 {
                x: if self.min.x <= b.min.x { self.min.x } else { b.min.x },
                y: if self.min.y <= b.min.y { self.min.y } else { b.min.y },
                z: if self.min.z <= b.min.z { self.min.z } else { b.min.z },
            },
            max: Vec3 {
                x: if self.max.x >= b.max.x { self.max.x } else { b.max.x },
                y: if self.max.y >= b.max.y { self.max.y } else { b.max.y },
                z: if self.max.z >= b.max.z { self.max.z } else { b.max.z },
            },
        }
    }

    /// The lower bounds of the slab test: the query's own and one per axis.
    pub open spec fn lows(self, r: Ray, t_min: Ext) -> Seq<Ext> {
        seq![
            t_min,
            slab_low(self.min.x as int, self.max.x as int, r.orig.x as int, r.dir.x as int),
            slab_low(self.min.y as int, self.max.y as int, r.orig.y as int, r.dir.y as int),
            slab_low(self.min.z as int, self.max.z as int, r.orig.z as int, r.dir.z as int),
        ]
    }

    /// The upper bounds of the slab test: the query's own and one per axis.
    pub open spec fn highs(self, r: Ray, t_max: Ext) -> Seq<Ext> {
        seq![
            t_max,
            slab_high(self.min.x as int, self.max.x as int, r.orig.x as int, r.dir.x as int),
            slab_high(self.min.y as int, self.max.y as int, r.orig.y as int, r.dir.y as int),
            slab_high(self.min.z as int, self.max.z as int, r.orig.z as int, r.dir.z as int),
        ]
    }

    /// The ray meets the box for some parameter in the open range `(t_min, t_max)`:
    /// every lower bound lies strictly below every upper bound.
    pub open spec fn hits(self, r: Ray, t_min: Ext, t_max: Ext) -> bool {
        forall|i: int, j: int|
            0 <= i < 4 && 0 <= j < 4 ==> #[trigger] self.lows(r, t_min)[i].lt(
                #[trigger] self.highs(r, t_max)[j],
            )
    }

    /// The slab test against the parameter range `(t_min, t_max)`.
    pub fn hit(&self, r: &Ray, t_min: Param, t_max: Param) -> (res: bool)
        requires
            t_min.wf(),
            t_max.wf(),
        ensures
            res == self.hits(*r, t_min@, t_max@),
    {
        let ghost ls = self.lows(*r, t_min@);
        let ghost hs = self.highs(*r, t_max@);
        proof {
            assert forall|i: int| 0 <= i < 4 implies (#[trigger] ls[i]).wf() && hs[i].wf() by {}
        }
        let (lx, hx) = slab(self.min.x, self.max.x, r.orig.x, r.dir.x);
        let lo = t_min.max(lx);
        let hi = t_max.min(hx);
        if !lo.lt(&hi) {
            proof {
                lemma_hits_fail(ls, hs, 1, lo@, hi@);
            }
            return false;
        }
        let (ly, hy) = slab(self.min.y, self.max.y, r.orig.y, r.dir.y);
        let lo2 = lo.max(ly);
        let hi2 = hi.min(hy);
        proof {
            lemma_le_trans(ls[0], lo@, lo2@);
            lemma_le_trans(ls[1], lo@, lo2@);
            lemma_le_trans(hi2@, hi@, hs[0]);
            lemma_le_trans(hi2@, hi@, hs[1]);
        }
        if !lo2.lt(&hi2) {
            proof {
                lemma_hits_fail(ls, hs, 2, lo2@, hi2@);
            }
            return false;
        }
        let (lz, hz) = slab(self.min.z, self.max.z, r.orig.z, r.dir.z);
        let lo3 = lo2.max(lz);
        let hi3 = hi2.min(hz);
        proof {
            lemma_le_trans(ls[0], lo2@, lo3@);
            lemma_le_trans(ls[1], lo2@, lo3@);
            lemma_le_trans(ls[2], lo2@, lo3@);
            lemma_le_trans(hi3@, hi2@, hs[0]);
            lemma_le_trans(hi3@, hi2@, hs[1]);
            lemma_le_trans(hi3@, hi2@, hs[2]);
        }
        let res = lo3.lt(&hi3);
        proof {
            if res {
                assert forall|i: int, j: int| 0 <= i < 4 && 0 <= j < 4 implies (#[trigger] ls[i]).lt(
                    #[trigger] hs[j],
                ) by {
                    lemma_le_lt_trans(ls[i], lo3@, hi3@);
                    lemma_lt_le_trans(ls[i], hi3@, hs[j]);
                }
            } else {
                lemma_hits_fail(ls, hs, 3, lo3@, hi3@);
            }
        }
        res
    }

    /// The smallest box that holds both `self` and `b`.
    pub fn union(&self, b: &AABB) -> (r: AABB)
        ensures
            r == self.union_of(*b),
    {
        let min = Vec3::new(
            if self.min.x <= b.min.x { self.min.x } else { b.min.x },
            if self.min.y <= b.min.y { self.min.y } else { b.min.y },
            if self.min.z <= b.min.z { self.min.z } else { b.min.z },
        );
        let max = Vec3::new(
            if self.max.x >= b.max.x { self.max.x } else { b.max.x },
            if self.max.y >= b.max.y { self.max.y } else { b.max.y },
            if self.max.z >= b.max.z { self.max.z } else { b.max.z },
        );
        AABB { min, max }
    }
}

/// The union of two boxes holds every corner of each of them.
pub proof fn lemma_union_holds_corners(a: AABB, b: AABB)
    requires
        a.wf(),
        b.wf(),
    ensures
        forall|x: int, y: int, z: int| #[trigger] a.is_corner(x, y, z) ==> a.union_of(b).contains(x, y, z),
        forall|x: int, y: int, z: int| #[trigger] b.is_corner(x, y, z) ==> a.union_of(b).contains(x, y, z),
{
}

/// A ray whose line passes through the interior of a box hits the box over the whole line.
pub proof fn lemma_interior_ray_hits(b: AABB, r: Ray, p: int, q: int)
    requires
        q > 0,
        b.inside_at(r, p, q),
    ensures
        b.hits(r, Ext::NegInf, Ext::PosInf),
{
    let t = Ext::Rat(p, q);
    lemma_axis_inside(b.min.x as int, b.max.x as int, r.orig.x as int, r.dir.x as int, p, q);
    lemma_axis_inside(b.min.y as int, b.max.y as int, r.orig.y as int, r.dir.y as int, p, q);
    lemma_axis_inside(b.min.z as int, b.max.z as int, r.orig.z as int, r.dir.z as int, p, q);
    let ls = b.lows(r, Ext::NegInf);
    let hs = b.highs(r, Ext::PosInf);
    assert forall|i: int, j: int| 0 <= i < 4 && 0 <= j < 4 implies (#[trigger] ls[i]).lt(
        #[trigger] hs[j],
    ) by {
        assert(ls[i].lt(t) && t.lt(hs[j]));
        assert(ls[i].wf() && hs[j].wf());
        lemma_lt_le_trans(ls[i], t, hs[j]);
    }
}

/// Over the whole line, a ray and its reverse get the same answer from the slab test.
pub proof fn lemma_reverse_ray_same_hit(b: AABB, r: Ray, rev: Ray)
    requires
        rev.is_reverse_of(r),
    ensures
        b.hits(rev, Ext::NegInf, Ext::PosInf) == b.hits(r, Ext::NegInf, Ext::PosInf),
{
    let ls = b.lows(r, Ext::NegInf);
    let hs = b.highs(r, Ext::PosInf);
    let rls = b.lows(rev, Ext::NegInf);
    let rhs = b.highs(rev, Ext::PosInf);
    assert forall|k: int| 0 <= k < 4 implies #[trigger] rls[k] == hs[k].neg() && rhs[k] == ls[k].neg() by {}
    assert forall|i: int, j: int| 0 <= i < 4 && 0 <= j < 4 implies (#[trigger] rls[i]).lt(
        #[trigger] rhs[j],
    ) == ls[j].lt(hs[i]) by {
        lemma_neg_lt(ls[j], hs[i]);
    }
    if b.hits(r, Ext::NegInf, Ext::PosInf) {
        assert forall|i: int, j: int| 0 <= i < 4 && 0 <= j < 4 implies (#[trigger] rls[i]).lt(
            #[trigger] rhs[j],
        ) by {
            assert(ls[j].lt(hs[i]));
        }
    }
    if b.hits(rev, Ext::NegInf, Ext::PosInf) {
        assert forall|i: int, j: int| 0 <= i < 4 && 0 <= j < 4 implies (#[trigger] ls[i]).lt(
            #[trigger] hs[j],
        ) by {
            assert(rls[j].lt(rhs[i]));
        }
    }
}

/// A point strictly inside a box is strictly inside every box that holds it.
pub proof fn lemma_inside_grow(outer: AABB, inner: AABB, r: Ray, p: int, q: int)
    requires
        q > 0,
        outer.encloses(inner),
        inner.inside_at(r, p, q),
    ensures
        outer.inside_at(r, p, q),
{
    assert(outer.min.x * q <= inner.min.x * q && inner.max.x * q <= outer.max.x * q) by (nonlinear_arith)
        requires
            q > 0,
            outer.min.x <= inner.min.x,
            inner.max.x <= outer.max.x,
    ;
    assert(outer.min.y * q <= inner.min.y * q && inner.max.y * q <= outer.max.y * q) by (nonlinear_arith)
        requires
            q > 0,
            outer.min.y <= inner.min.y,
            inner.max.y <= outer.max.y,
    ;
    assert(outer.min.z * q <= inner.min.z * q && inner.max.z * q <= outer.max.z * q) by (nonlinear_arith)
        requires
            q > 0,
            outer.min.z <= inner.min.z,
            inner.max.z <= outer.max.z,
    ;
}

/// A ray whose point at parameter `p / q` in `[t_min, t_max]` lies strictly inside a box
/// hits the box over the open range, when that range is not empty.
pub proof fn lemma_inside_hits(b: AABB, r: Ray, p: int, q: int, t_min: Ext, t_max: Ext)
    requires
        q > 0,
        b.inside_at(r, p, q),
        t_min.wf(),
        t_max.wf(),
        t_min.le(Ext::Rat(p, q)),
        Ext::Rat(p, q).le(t_max),
        t_min.lt(t_max),
    ensures
        b.hits(r, t_min, t_max),
{
    let t = Ext::Rat(p, q);
    lemma_axis_inside(b.min.x as int, b.max.x as int, r.orig.x as int, r.dir.x as int, p, q);
    lemma_axis_inside(b.min.y as int, b.max.y as int, r.orig.y as int, r.dir.y as int, p, q);
    lemma_axis_inside(b.min.z as int, b.max.z as int, r.orig.z as int, r.dir.z as int, p, q);
    let ls = b.lows(r, t_min);
    let hs = b.highs(r, t_max);
    assert forall|i: int, j: int| 0 <= i < 4 && 0 <= j < 4 implies (#[trigger] ls[i]).lt(
        #[trigger] hs[j],
    ) by {
        assert(ls[i].wf() && hs[j].wf());
        if i == 0 && j == 0 {
        } else if i == 0 {
            lemma_le_lt_trans(ls[i], t, hs[j]);
        } else if j == 0 {
            lemma_lt_le_trans(ls[i], t, hs[j]);
        } else {
            lemma_lt_le_trans(ls[i], t, hs[j]);
        }
    }
}

/// On one axis, a point strictly inside the slab at `p / q` lies strictly between the bounds.
proof fn lemma_axis_inside(lo: int, hi: int, o: int, d: int, p: int, q: int)
    requires
        q > 0,
        lo * q < o * q + p * d < hi * q,
    ensures
        slab_low(lo, hi, o, d).lt(Ext::Rat(p, q)),
        Ext::Rat(p, q).lt(slab_high(lo, hi, o, d)),
{
    assert((lo - o) * q == lo * q - o * q && (hi - o) * q == hi * q - o * q) by (nonlinear_arith);
    assert((o - hi) * q == o * q - hi * q && (o - lo) * q == o * q - lo * q) by (nonlinear_arith);
    assert(p * (-d) == -(p * d)) by (nonlinear_arith);
    if d == 0 {
        assert(p * d == 0) by (nonlinear_arith)
            requires
                d == 0,
        ;
        assert(lo < o < hi) by (nonlinear_arith)
            requires
                q > 0,
                lo * q < o * q < hi * q,
        ;
    }
}

/// The slab-test bounds on one axis.
fn slab(lo: i32, hi: i32, o: i32, d: i32) -> (r: (Param, Param))
    ensures
        r.0@ == slab_low(lo as int, hi as int, o as int, d as int),
        r.1@ == slab_high(lo as int, hi as int, o as int, d as int),
{
    if d > 0 {
        (
            Param::Frac { num: lo as i64 - o as i64, den: d as i64 },
            Param::Frac { num: hi as i64 - o as i64, den: d as i64 },
        )
    } else if d < 0 {
        (
            Param::Frac { num: o as i64 - hi as i64, den: -(d as i64) },
            Param::Frac { num: o as i64 - lo as i64, den: -(d as i64) },
        )
    } else if lo < o && o < hi {
        (Param::NegInf, Param::PosInf)
    } else {
        (Param::PosInf, Param::NegInf)
    }
}

/// When the narrowed range is empty after `k` bounds of each side, the test fails.
proof fn lemma_hits_fail(ls: Seq<Ext>, hs: Seq<Ext>, k: int, lo: Ext, hi: Ext)
    requires
        1 <= k <= 3,
        ls.len() == 4,
        hs.len() == 4,
        exists|i: int| 0 <= i <= k && ls[i] == lo,
        exists|j: int| 0 <= j <= k && hs[j] == hi,
        !lo.lt(hi),
    ensures
        !(forall|i: int, j: int| 0 <= i < 4 && 0 <= j < 4 ==> #[trigger] ls[i].lt(#[trigger] hs[j])),
{
    let i = choose|i: int| 0 <= i <= k && ls[i] == lo;
    let j = choose|j: int| 0 <= j <= k && hs[j] == hi;
    assert(!ls[i].lt(hs[j]));
}

} // verus!
