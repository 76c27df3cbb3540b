//! A collection of spheres that is filled first and then finalized into a hierarchy.
use vstd::prelude::*;

use crate::aabb::AABB;
use crate::bvh::{faces_attained, lemma_box_holds_leaves, lemma_box_tight, node_box, BVHNode, Node};
use crate::param::Param;
use crate::ray::Ray;
use crate::sphere::{param_within, within_limit, HitRecord, Sphere};
use crate::world::{indices, nearest_among};

verus! {

/// Spheres gathered for a scene; `bvh` is the hierarchy over them once finalized.
pub struct Container {
    pub items: Vec<Sphere>,
    pub bvh: Option<BVHNode>,
}

impl Container {
    /// Every sphere is well formed, and a hierarchy, if any, is one over exactly these spheres.
    pub open spec fn wf(&self) -> bool {
        &&& forall|i: int| 0 <= i < self.items.len() ==> (#[trigger] self.items@[i]).wf()
        &&& self.bvh matches Some(b) ==> b.wf() && b.spheres@ == self.items@
    }

    pub fn new() -> (c: Container)
        ensures
            c.wf(),
            c.items@.len() == 0,
            c.bvh is None,
    {
        Container { items: Vec::new(), bvh: None }
    }

    /// Adds a sphere; the container must be finalized again before it is searched.
    pub fn add_hittable(&mut self, s: Sphere)
        requires
            old(self).wf(),
            s.wf(),
        ensures
            final(self).wf(),
            final(self).items@ == old(self).items@.push(s),
            final(self).bvh is None,
    {
        self.items.push(s);
        self.bvh = None;
    }

    /// Adds the spheres of `list`, in order.
    pub fn add_hittables(&mut self, list: &Vec<Sphere>)
        requires
            old(self).wf(),
            forall|i: int| 0 <= i < list.len() ==> (#[trigger] list@[i]).wf(),
        ensures
            final(self).wf(),
            final(self).items@ == old(self).items@ + list@,
            final(self).bvh is None,
    {
        self.bvh = None;
        let ghost start = self.items@;
        let mut i: usize = 0;
        while i < list.len()
            invariant
                i <= list.len(),
                self.bvh is None,
                self.items@ == start + list@.take(i as int),
                forall|k: int| 0 <= k < list.len() ==> (#[trigger] list@[k]).wf(),
                forall|k: int| 0 <= k < self.items.len() ==> (#[trigger] self.items@[k]).wf(),
            decreases list.len() - i,
        {
            self.items.push(list[i]);
            assert(list@.take(i + 1) =~= list@.take(i as int).push(list@[i as int]));
            i = i + 1;
        }
        assert(list@.take(i as int) =~= list@);
    }

    /// Builds the hierarchy over the spheres gathered so far; an empty container gets
    /// none, and so no box.
    pub fn update_metadata(&mut self)
        requires
            old(self).wf(),
            2 * old(self).items.len() + 1 <= usize::MAX,
        ensures
            final(self).wf(),
            final(self).items@ == old(self).items@,
            old(self).items.len() == 0 ==> final(self).bvh is None,
            old(self).items.len() > 0 ==> final(self).bvh is Some,
    {
        if self.items.len() == 0 {
            self.bvh = None;
            return;
        }
        let mut copy: Vec<Sphere> = Vec::new();
        let mut i: usize = 0;
        while i < self.items.len()
            invariant
                i <= self.items.len(),
                copy@ == self.items@.take(i as int),
            decreases self.items.len() - i,
        {
            copy.push(self.items[i]);
            assert(self.items@.take(i + 1) =~= self.items@.take(i as int).push(self.items@[i as int]));
            i = i + 1;
        }
        assert(self.items@.take(i as int) =~= self.items@);
        self.bvh = Some(BVHNode::new(copy));
    }

    /// Removes every sphere.
    pub fn clear(&mut self)
        ensures
            final(self).wf(),
            final(self).items@.len() == 0,
            final(self).bvh is None,
    {
        self.items.clear();
        self.bvh = None;
    }

    /// The box of the finalized container: the box at the root of its hierarchy, which
    /// holds the box of every sphere in it and each of whose faces is a face of one of
    /// them, so the union of their boxes; none before it is finalized.
    pub fn bounding_box(&self) -> (res: Option<AABB>)
        requires
            self.wf(),
        ensures
            self.bvh is None ==> res is None,
            res matches Some(b) ==> forall|j: int|
                0 <= j < self.items.len() ==> b.encloses(#[trigger] self.items@[j].box_of()),
            self.bvh matches Some(b) ==> res == Some(node_box(b.nodes@, b.spheres@, b.root as int)),
            res matches Some(bx) ==> faces_attained(bx, self.items@, indices(self.items.len() as int)),
    {
        match &self.bvh {
            None => None,
            Some(b) => {
                let k = b.root;
                assert(crate::bvh::node_ok(b.nodes@, b.spheres@, k as int));
                let bx = match b.nodes[k] {
                    Node::Leaf(i) => b.spheres[i].bounding_box(),
                    Node::Inner { bbox, .. } => bbox,
                };
                proof {
                    assert(crate::bvh::node_ok(b.nodes@, b.spheres@, k as int));
                    assert(bx == node_box(b.nodes@, b.spheres@, k as int));
                    assert forall|j: int| 0 <= j < self.items.len() implies bx.encloses(
                        #[trigger] self.items@[j].box_of(),
                    ) by {
                        assert(indices(b.spheres.len() as int).contains(j));
                        lemma_box_holds_leaves(b.nodes@, b.spheres@, k as int, j);
                    }
                    lemma_box_tight(b.nodes@, b.spheres@, k as int);
                }
                Some(bx)
            },
        }
    }

    /// The nearest hit of `r` in `[t_min, t_max]`, through the hierarchy; the container
    /// must have been finalized.
    pub fn hit(&self, r: &Ray, t_min: Param, t_max: Param) -> (res: Option<HitRecord>)
        requires
            self.wf(),
            self.bvh is Some,
            within_limit(r.orig),
            within_limit(r.dir),
            t_min.wf(),
            t_max.wf(),
            param_within(t_min),
            param_within(t_max),
        ensures
            t_min@.lt(t_max@) ==> nearest_among(
                self.items@,
                indices(self.items.len() as int),
                *r,
                t_min@,
                t_max@,
                res,
            ),
            !t_min@.lt(t_max@) ==> res is None,
    {
        match &self.bvh {
            Some(b) => b.hit(r, t_min, t_max),
            None => None,
        }
    }
}

} // verus!
