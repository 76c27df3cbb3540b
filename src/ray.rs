//! Rays with integer origin and direction.
use vstd::prelude::*;

use crate::vec3::Vec3;

verus! {

/// The components of an `i32` vector as mathematical integers.
pub open spec fn ivec(v: Vec3<i32>) -> (int, int, int) {
    (v.x as int, v.y as int, v.z as int)
}

/// A half-line `orig + t * dir`, for the parameter `t`.
#[derive(Clone, Copy, Debug, PartialEq, Eq, Structural)]
pub struct Ray {
    pub orig: Vec3<i32>,
    pub dir: Vec3<i32>,
}

impl Ray {
    pub fn new(orig: Vec3<i32>, dir: Vec3<i32>) -> (r: Ray)
        ensures
            r.orig == orig,
            r.dir == dir,
    {
        Ray { orig, dir }
    }

    pub fn origin(&self) -> (r: Vec3<i32>)
        ensures
            r == self.orig,
    {
        self.orig
    }

    pub fn direction(&self) -> (r: Vec3<i32>)
        ensures
            r == self.dir,
    {
        self.dir
    }

    /// Whether `other` starts where this ray starts and runs the opposite way.
    pub open spec fn is_reverse_of(self, other: Ray) -> bool {
        &&& self.orig == other.orig
        &&& self.dir.x == -other.dir.x
        &&& self.dir.y == -other.dir.y
        &&& self.dir.z == -other.dir.z
    }

    /// The ray from the same origin in the opposite direction.
    pub fn reversed(&self) -> (r: Ray)
        requires
            self.dir.x != i32::MIN,
            self.dir.y != i32::MIN,
            self.dir.z != i32::MIN,
        ensures
            r.is_reverse_of(*self),
    {
        Ray { orig: self.orig, dir: Vec3::new(-self.dir.x, -self.dir.y, -self.dir.z) }
    }
}

} // verus!
