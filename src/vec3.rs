//! Three-component vectors.
use vstd::prelude::*;

verus! {

/// A vector of three components of the same type.
#[derive(Clone, Copy, Debug, PartialEq, Eq, Structural)]
pub struct Vec3<T> {
    pub x: T,
    pub y: T,
    pub z: T,
}

/// Mathematical dot product of two integer triples.
pub open spec fn dot_of(a: (int, int, int), b: (int, int, int)) -> int {
    a.0 * b.0 + a.1 * b.1 + a.2 * b.2
}

/// Mathematical cross product of two integer triples.
pub open spec fn cross_of(a: (int, int, int), b: (int, int, int)) -> (int, int, int) {
    (a.1 * b.2 - a.2 * b.1, a.2 * b.0 - a.0 * b.2, a.0 * b.1 - a.1 * b.0)
}

/// Whether every component of an integer triple fits in an `i64`.
pub open spec fn fits_i64(a: (int, int, int)) -> bool {
    i64::MIN <= a.0 <= i64::MAX && i64::MIN <= a.1 <= i64::MAX && i64::MIN <= a.2 <= i64::MAX
}

/// The product of two `i64` values is far inside the `i128` range.
pub proof fn lemma_i64_product(a: i64, b: i64)
    ensures
        -0x4000_0000_0000_0000_0000_0000_0000_0000 <= a * b <= 0x4000_0000_0000_0000_0000_0000_0000_0000,
{
    let (x, y) = (a as int, b as int);
    assert(-0x8000_0000_0000_0000 <= x <= 0x7fff_ffff_ffff_ffff);
    assert(-0x8000_0000_0000_0000 <= y <= 0x7fff_ffff_ffff_ffff);
    assert(-0x4000_0000_0000_0000_0000_0000_0000_0000 <= x * y <= 0x4000_0000_0000_0000_0000_0000_0000_0000)
        by (nonlinear_arith)
        requires
            -0x8000_0000_0000_0000 <= x <= 0x7fff_ffff_ffff_ffff,
            -0x8000_0000_0000_0000 <= y <= 0x7fff_ffff_ffff_ffff,
    ;
}

impl<T> Vec3<T> {
    /// Builds a vector from its components.
    pub fn new(x: T, y: T, z: T) -> (r: Vec3<T>)
        ensures
            r.x == x,
            r.y == y,
            r.z == z,
    {
        Vec3 { x, y, z }
    }
}

impl<T: Copy> Vec3<T> {
    /// Applies `f` to each component.
    pub fn apply<K, F: Fn(T) -> K>(&self, f: F) -> (r: Vec3<K>)
        requires
            f.requires((self.x,)),
            f.requires((self.y,)),
            f.requires((self.z,)),
        ensures
            f.ensures((self.x,), r.x),
            f.ensures((self.y,), r.y),
            f.ensures((self.z,), r.z),
    {
        Vec3::new(f(self.x), f(self.y), f(self.z))
    }
}

impl Vec3<i64> {
    /// The components as mathematical integers.
    pub open spec fn view(self) -> (int, int, int) {
        (self.x as int, self.y as int, self.z as int)
    }

    /// The zero vector.
    pub fn zero() -> (r: Vec3<i64>)
        ensures
            r@ == (0int, 0int, 0int),
    {
        Vec3::new(0, 0, 0)
    }

    /// The vector whose components are all one.
    pub fn one() -> (r: Vec3<i64>)
        ensures
            r@ == (1int, 1int, 1int),
    {
        Vec3::new(1, 1, 1)
    }

    pub fn x(&self) -> (r: i64)
        ensures
            r == self.x,
    {
        self.x
    }

    pub fn y(&self) -> (r: i64)
        ensures
            r == self.y,
    {
        self.y
    }

    pub fn z(&self) -> (r: i64)
        ensures
            r == self.z,
    {
        self.z
    }

    /// Dot product with `rhs`.
    pub fn dot(&self, rhs: Vec3<i64>) -> (r: i64)
        requires
            i64::MIN <= dot_of(self@, rhs@) <= i64::MAX,
        ensures
            r == dot_of(self@, rhs@),
    {
        proof {
            lemma_i64_product(self.x, rhs.x);
            lemma_i64_product(self.y, rhs.y);
            lemma_i64_product(self.z, rhs.z);
        }
        let s: i128 = (self.x as i128) * (rhs.x as i128) + (self.y as i128) * (rhs.y as i128)
            + (self.z as i128) * (rhs.z as i128);
        s as i64
    }

    /// Squared Euclidean length.
    pub fn length_square(&self) -> (r: i64)
        requires
            dot_of(self@, self@) <= i64::MAX,
        ensures
            r == dot_of(self@, self@),
    {
        proof {
            assert(self.x * self.x >= 0 && self.y * self.y >= 0 && self.z * self.z >= 0)
                by (nonlinear_arith);
        }
        self.dot(*self)
    }

    /// Component-wise product.
    pub fn ele_mul(&self, rhs: Vec3<i64>) -> (r: Vec3<i64>)
        requires
            fits_i64((self.x * rhs.x, self.y * rhs.y, self.z * rhs.z)),
        ensures
            r@ == (self.x * rhs.x, self.y * rhs.y, self.z * rhs.z),
    {
        Vec3::new(self.x * rhs.x, self.y * rhs.y, self.z * rhs.z)
    }

    /// Cross product with `rhs`.
    pub fn cross(&self, rhs: Vec3<i64>) -> (r: Vec3<i64>)
        requires
            fits_i64(cross_of(self@, rhs@)),
        ensures
            r@ == cross_of(self@, rhs@),
    {
        let (a, b) = (self, rhs);
        proof {
            lemma_i64_product(a.y, b.z);
            lemma_i64_product(a.z, b.y);
            lemma_i64_product(a.z, b.x);
            lemma_i64_product(a.x, b.z);
            lemma_i64_product(a.x, b.y);
            lemma_i64_product(a.y, b.x);
        }
        let cx: i128 = (a.y as i128) * (b.z as i128) - (a.z as i128) * (b.y as i128);
        let cy: i128 = (a.z as i128) * (b.x as i128) - (a.x as i128) * (b.z as i128);
        let cz: i128 = (a.x as i128) * (b.y as i128) - (a.y as i128) * (b.x as i128);
        Vec3::new(cx as i64, cy as i64, cz as i64)
    }
}

} // verus!
