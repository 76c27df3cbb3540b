//! Which side of a surface a ray arrives from.
use vstd::prelude::*;

use crate::ray::{ivec, Ray};
use crate::vec3::{dot_of, Vec3};

verus! {

/// The side of a surface that a ray meets.
#[derive(Clone, Copy, Debug, PartialEq, Eq, Structural)]
pub enum Face {
    /// The ray travels against the outward normal: it enters from outside.
    Inward,
    /// The ray travels along the outward normal: it leaves from inside.
    Outward,
}

impl Default for Face {
    fn default() -> (r: Face)
        ensures
            r == Face::Inward,
    {
        Face::Inward
    }
}

/// The facing rule: a ray whose direction has a negative dot product with the
/// outward normal comes in from outside.
pub open spec fn face_of(normal: Vec3<i32>, dir: Vec3<i32>) -> Face {
    if dot_of(ivec(normal), ivec(dir)) < 0 {
        Face::Inward
    } else {
        Face::Outward
    }
}

proof fn lemma_i32_product(a: i32, b: i32)
    ensures
        -0x4000_0000_0000_0000 <= a * b <= 0x4000_0000_0000_0000,
{
    let (x, y) = (a as int, b as int);
    assert(-0x4000_0000_0000_0000 <= x * y <= 0x4000_0000_0000_0000) by (nonlinear_arith)
        requires
            -0x8000_0000 <= x <= 0x7fff_ffff,
            -0x8000_0000 <= y <= 0x7fff_ffff,
    ;
}

impl Face {
    /// The facing of ray `r` on a surface with outward normal `p`.
    pub fn calc(p: &Vec3<i32>, r: &Ray) -> (f: Face)
        ensures
            f == face_of(*p, r.dir),
    {
        let d = r.dir;
        proof {
            lemma_i32_product(p.x, d.x);
            lemma_i32_product(p.y, d.y);
            lemma_i32_product(p.z, d.z);
        }
        let s: i128 = (p.x as i128) * (d.x as i128) + (p.y as i128) * (d.y as i128) + (p.z as i128)
            * (d.z as i128);
        if s < 0 {
            Face::Inward
        } else {
            Face::Outward
        }
    }

    /// The normal turned to face the incoming ray: the outward normal for a ray from
    /// outside, its opposite for a ray from inside.
    pub fn orient(&self, p: &Vec3<i32>) -> (n: Vec3<i32>)
        requires
            p.x != i32::MIN,
            p.y != i32::MIN,
            p.z != i32::MIN,
        ensures
            *self == Face::Inward ==> n == *p,
            *self == Face::Outward ==> n.x == -p.x && n.y == -p.y && n.z == -p.z,
    {
        match self {
            Face::Inward => *p,
            Face::Outward => Vec3::new(-p.x, -p.y, -p.z),
        }
    }
}

} // verus!
