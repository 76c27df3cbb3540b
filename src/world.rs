//! A scene as a list of spheres, searched one by one for the nearest hit.
use vstd::prelude::*;

use crate::param::{lemma_le_trans, Ext, Param};
use crate::ray::Ray;
use crate::sphere::{lemma_hit_param, param_within, within_limit, HitRecord, Sphere};

verus! {

/// The spheres of a scene.
pub struct World {
    pub spheres: Vec<Sphere>,
}

/// The parameter `t.0 / t.1` of a hit of sphere `s` by `r`.
pub open spec fn root_param(s: Sphere, r: Ray, t: (int, int)) -> Ext {
    Ext::Rat(t.0, t.1)
}

/// `h` records the hit of sphere `j` of `spheres` in `[t_min, t_max]`.
pub open spec fn hit_in(spheres: Seq<Sphere>, j: int, r: Ray, t_min: Ext, t_max: Ext, h: HitRecord) -> bool {
    &&& 0 <= j < spheres.len()
    &&& spheres[j].hit_root(r, t_min, t_max) matches Some(n)
    &&& spheres[j].record_at(r, n, h)
}

/// `res` is the nearest hit in `[t_min, t_max]` among the spheres of `spheres` numbered
/// in `ids`: none when none of them is hit, else a hit of one of them that none of
/// them has a hit before.
pub open spec fn nearest_among(
    spheres: Seq<Sphere>,
    ids: Set<int>,
    r: Ray,
    t_min: Ext,
    t_max: Ext,
    res: Option<HitRecord>,
) -> bool {
    match res {
        None => forall|j: int| #[trigger] ids.contains(j) ==> spheres[j].hit_root(r, t_min, t_max) is None,
        Some(h) => {
            &&& exists|j: int| #[trigger] ids.contains(j) && hit_in(spheres, j, r, t_min, t_max, h)
            &&& forall|j: int|
                #[trigger] ids.contains(j) ==> (spheres[j].hit_root(r, t_min, t_max) matches Some(m) ==> h.t@.le(
                    root_param(spheres[j], r, m),
                ))
        },
    }
}

/// The numbers `0 .. n`.
pub open spec fn indices(n: int) -> Set<int> {
    Set::new(|j: int| 0 <= j < n)
}

impl World {
    /// Every sphere is well formed.
    pub open spec fn wf(&self) -> bool {
        forall|i: int| 0 <= i < self.spheres.len() ==> (#[trigger] self.spheres@[i]).wf()
    }

    pub fn new() -> (w: World)
        ensures
            w.spheres@.len() == 0,
    {
        World { spheres: Vec::new() }
    }

    pub fn add_hittable(&mut self, s: Sphere)
        ensures
            final(self).spheres@ == old(self).spheres@.push(s),
    {
        self.spheres.push(s);
    }

    pub fn clear(&mut self)
        ensures
            final(self).spheres@.len() == 0,
    {
        self.spheres.clear();
    }

    /// The nearest hit of `r` in `[t_min, t_max]` over all spheres, each searched over the
    /// whole range; on a tie the sphere added first wins.
    pub fn hit(&self, r: &Ray, t_min: Param, t_max: Param) -> (res: Option<HitRecord>)
        requires
            self.wf(),
            within_limit(r.orig),
            within_limit(r.dir),
            t_min.wf(),
            t_max.wf(),
            param_within(t_min),
            param_within(t_max),
        ensures
            nearest_among(self.spheres@, indices(self.spheres.len() as int), *r, t_min@, t_max@, res),
    {
        let mut best: Option<HitRecord> = None;
        let ghost mut best_i: int = -1;
        let mut i: usize = 0;
        while i < self.spheres.len()
            invariant
                self.wf(),
                within_limit(r.orig),
                within_limit(r.dir),
                t_min.wf(),
                t_max.wf(),
                param_within(t_min),
                param_within(t_max),
                i <= self.spheres.len(),
                best is None ==> forall|j: int|
                    0 <= j < i ==> (#[trigger] self.spheres@[j].hit_root(*r, t_min@, t_max@)) is None,
                best matches Some(h) ==> 0 <= best_i < i && hit_in(self.spheres@, best_i, *r, t_min@, t_max@, h)
                    && h.t@.wf(),
                best matches Some(h) ==> forall|j: int|
                    0 <= j < i ==> (#[trigger] self.spheres@[j].hit_root(*r, t_min@, t_max@) matches Some(
                        m,
                    ) ==> h.t@.le(root_param(self.spheres@[j], *r, m))),
            decreases self.spheres.len() - i,
        {
            let s = self.spheres[i];
            assert(s.wf());
            let ghost before = best;
            match s.hit(r, t_min, t_max) {
                Some(h) => {
                    proof {
                        lemma_hit_param(s, *r, t_min@, t_max@);
                    }
                    let better = match &best {
                        None => true,
                        Some(b) => h.t.lt(&b.t),
                    };
                    if better {
                        proof {
                            if let Some(b) = before {
                                assert forall|j: int|
                                    0 <= j < i implies (#[trigger] self.spheres@[j].hit_root(
                                    *r,
                                    t_min@,
                                    t_max@,
                                ) matches Some(m) ==> h.t@.le(root_param(self.spheres@[j], *r, m))) by {
                                    if let Some(m) = self.spheres@[j].hit_root(*r, t_min@, t_max@) {
                                        lemma_hit_param(self.spheres@[j], *r, t_min@, t_max@);
                                        lemma_le_trans(h.t@, b.t@, root_param(self.spheres@[j], *r, m));
                                    }
                                }
                            }
                            best_i = i as int;
                        }
                        best = Some(h);
                    }
                },
                None => {},
            }
            i = i + 1;
        }
        proof {
            let ids = indices(self.spheres.len() as int);
            if let Some(h) = best {
                assert(ids.contains(best_i));
            }
        }
        best
    }
}

} // verus!
