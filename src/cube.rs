//! Axis-aligned boxes as solid objects, bounded by six rectangles.
use vstd::prelude::*;

use crate::aabb::AABB;
use crate::param::{lemma_le_trans, Ext, Param};
use crate::ray::Ray;
use crate::rect::{plane_record, XYRect, XZRect, YZRect};
use crate::sphere::HitRecord;
use crate::vec3::Vec3;

verus! {

/// A box between corners `p0` and `p1`, bounded by its six faces.
#[derive(Clone, Copy, Debug, PartialEq, Eq, Structural)]
pub struct Cube {
    pub p0: Vec3<i32>,
    pub p1: Vec3<i32>,
}

/// The outward axis of face `i`: faces 0 and 1 lie across `z`, 2 and 3 across `y`,
/// 4 and 5 across `x`.
pub open spec fn face_unit(i: int) -> Vec3<i32> {
    if i < 2 {
        Vec3 { x: 0, y: 0, z: 1 }
    } else if i < 4 {
        Vec3 { x: 0, y: 1, z: 0 }
    } else {
        Vec3 { x: 1, y: 0, z: 0 }
    }
}

impl Cube {
    pub fn new(p0: Vec3<i32>, p1: Vec3<i32>) -> (c: Cube)
        requires
            p0.x <= p1.x,
            p0.y <= p1.y,
            p0.z <= p1.z,
        ensures
            c.p0 == p0,
            c.p1 == p1,
    {
        Cube { p0, p1 }
    }

    pub open spec fn face_xy(self, i: int) -> XYRect {
        XYRect {
            x0: self.p0.x,
            y0: self.p0.y,
            x1: self.p1.x,
            y1: self.p1.y,
            z: if i == 0 { self.p0.z } else { self.p1.z },
        }
    }

    pub open spec fn face_xz(self, i: int) -> XZRect {
        XZRect {
            x0: self.p0.x,
            z0: self.p0.z,
            x1: self.p1.x,
            z1: self.p1.z,
            y: if i == 2 { self.p0.y } else { self.p1.y },
        }
    }

    pub open spec fn face_yz(self, i: int) -> YZRect {
        YZRect {
            y0: self.p0.y,
            z0: self.p0.z,
            y1: self.p1.y,
            z1: self.p1.z,
            x: if i == 4 { self.p0.x } else { self.p1.x },
        }
    }

    /// Where face `i` is hit in `[t_min, t_max]`, as `(num, den)`.
    pub open spec fn face_param(self, i: int, r: Ray, t_min: Ext, t_max: Ext) -> Option<(int, int)> {
        if i < 2 {
            self.face_xy(i).hit_param(r, t_min, t_max)
        } else if i < 4 {
            self.face_xz(i).hit_param(r, t_min, t_max)
        } else {
            self.face_yz(i).hit_param(r, t_min, t_max)
        }
    }

    /// The texture coordinates on face `i` of the point of `r` at parameter `n / m`.
    pub open spec fn face_uv(self, i: int, r: Ray, n: int, m: int) -> (Ext, Ext) {
        if i < 2 {
            self.face_xy(i).uv_at(r, n, m)
        } else if i < 4 {
            self.face_xz(i).uv_at(r, n, m)
        } else {
            self.face_yz(i).uv_at(r, n, m)
        }
    }

    /// The box from corner to corner.
    pub fn bounding_box(&self) -> (b: AABB)
        ensures
            b == (AABB { min: self.p0, max: self.p1 }),
    {
        AABB { min: self.p0, max: self.p1 }
    }

    fn face_hit(&self, i: usize, r: &Ray, t_min: Param, t_max: Param) -> (res: Option<HitRecord>)
        requires
            i < 6,
            t_min.wf(),
            t_max.wf(),
        ensures
            match res {
                None => self.face_param(i as int, *r, t_min@, t_max@) is None,
                Some(h) => exists|n: int, m: int|
                    self.face_param(i as int, *r, t_min@, t_max@) == Some((n, m)) && #[trigger] plane_record(
                        *r,
                        n,
                        m,
                        face_unit(i as int),
                        self.face_uv(i as int, *r, n, m),
                        h,
                    ),
            },
    {
        let (a, b) = (self.p0, self.p1);
        if i < 2 {
            let f = XYRect::new((a.x, a.y), (b.x, b.y), if i == 0 { a.z } else { b.z });
            let res = f.hit(r, t_min, t_max);
            proof {
                if let Some(h) = res {
                    let (n, m) = choose|n: int, m: int|
                        f.hit_param(*r, t_min@, t_max@) == Some((n, m)) && #[trigger] plane_record(
                            *r,
                            n,
                            m,
                            Vec3 { x: 0i32, y: 0i32, z: 1i32 },
                            f.uv_at(*r, n, m),
                            h,
                        );
                    assert(plane_record(*r, n, m, face_unit(i as int), self.face_uv(i as int, *r, n, m), h));
                }
            }
            res
        } else if i < 4 {
            let f = XZRect::new((a.x, a.z), (b.x, b.z), if i == 2 { a.y } else { b.y });
            let res = f.hit(r, t_min, t_max);
            proof {
                if let Some(h) = res {
                    let (n, m) = choose|n: int, m: int|
                        f.hit_param(*r, t_min@, t_max@) == Some((n, m)) && #[trigger] plane_record(
                            *r,
                            n,
                            m,
                            Vec3 { x: 0i32, y: 1i32, z: 0i32 },
                            f.uv_at(*r, n, m),
                            h,
                        );
                    assert(plane_record(*r, n, m, face_unit(i as int), self.face_uv(i as int, *r, n, m), h));
                }
            }
            res
        } else {
            let f = YZRect::new((a.y, a.z), (b.y, b.z), if i == 4 { a.x } else { b.x });
            let res = f.hit(r, t_min, t_max);
            proof {
                if let Some(h) = res {
                    let (n, m) = choose|n: int, m: int|
                        f.hit_param(*r, t_min@, t_max@) == Some((n, m)) && #[trigger] plane_record(
                            *r,
                            n,
                            m,
                            Vec3 { x: 1i32, y: 0i32, z: 0i32 },
                            f.uv_at(*r, n, m),
                            h,
                        );
                    assert(plane_record(*r, n, m, face_unit(i as int), self.face_uv(i as int, *r, n, m), h));
                }
            }
            res
        }
    }

    /// The nearest hit of `r` on the six faces in `[t_min, t_max]`: none when no face is
    /// hit, else the hit of a face that no face has a hit before.
    pub fn hit(&self, r: &Ray, t_min: Param, t_max: Param) -> (res: Option<HitRecord>)
        requires
            t_min.wf(),
            t_max.wf(),
        ensures
            res is None <==> forall|i: int| 0 <= i < 6 ==> (#[trigger] self.face_param(i, *r, t_min@, t_max@)) is None,
            res matches Some(h) ==> exists|i: int, n: int, m: int|
                0 <= i < 6 && self.face_param(i, *r, t_min@, t_max@) == Some((n, m)) && #[trigger] plane_record(
                    *r,
                    n,
                    m,
                    face_unit(i),
                    self.face_uv(i, *r, n, m),
                    h,
                ),
            res matches Some(h) ==> forall|i: int|
                0 <= i < 6 ==> (#[trigger] self.face_param(i, *r, t_min@, t_max@) matches Some((n, m))
                    ==> h.t@.le(Ext::Rat(n, m))),
    {
        let mut best: Option<HitRecord> = None;
        let mut i: usize = 0;
        while i < 6
            invariant
                i <= 6,
                t_min.wf(),
                t_max.wf(),
                best is None ==> forall|j: int| 0 <= j < i ==> (#[trigger] self.face_param(j, *r, t_min@, t_max@)) is None,
                best matches Some(h) ==> h.t@.wf() && exists|j: int, n: int, m: int|
                    0 <= j < i && self.face_param(j, *r, t_min@, t_max@) == Some((n, m)) && #[trigger] plane_record(
                        *r,
                        n,
                        m,
                        face_unit(j),
                        self.face_uv(j, *r, n, m),
                        h,
                    ),
                best matches Some(h) ==> forall|j: int|
                    0 <= j < i ==> (#[trigger] self.face_param(j, *r, t_min@, t_max@) matches Some((n, m))
                        ==> h.t@.le(Ext::Rat(n, m))),
            decreases 6 - i,
        {
            let ghost before = best;
            match self.face_hit(i, r, t_min, t_max) {
                Some(h) => {
                    let better = match &best {
                        None => true,
                        Some(b) => h.t.lt(&b.t),
                    };
                    if better {
                        proof {
                            let (n, m) = choose|n: int, m: int|
                                self.face_param(i as int, *r, t_min@, t_max@) == Some((n, m)) && #[trigger] plane_record(
                                    *r,
                                    n,
                                    m,
                                    face_unit(i as int),
                                    self.face_uv(i as int, *r, n, m),
                                    h,
                                );
                            assert(self.face_param(i as int, *r, t_min@, t_max@) == Some((n, m)));
                            if let Some(b) = before {
                                assert forall|j: int|
                                    0 <= j < i + 1 implies (#[trigger] self.face_param(j, *r, t_min@, t_max@) matches Some((n2, m2))
                                        ==> h.t@.le(Ext::Rat(n2, m2))) by {
                                    if let Some((n2, m2)) = self.face_param(j, *r, t_min@, t_max@) {
                                        if j < i {
                                            lemma_le_trans(h.t@, b.t@, Ext::Rat(n2, m2));
                                        }
                                    }
                                }
                            }
                        }
                        best = Some(h);
                    }
                },
                None => {},
            }
            i = i + 1;
        }
        best
    }
}

} // verus!
