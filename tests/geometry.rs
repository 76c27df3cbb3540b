use ray_tracer::aabb::AABB;
use ray_tracer::face::Face;
use ray_tracer::param::Param;
use ray_tracer::ray::Ray;
use ray_tracer::sphere::{isqrt, Sphere};
use ray_tracer::vec3::Vec3;

fn cube(lo: i32, hi: i32) -> AABB {
    AABB { min: Vec3::new(lo, lo, lo), max: Vec3::new(hi, hi, hi) }
}

fn frac(num: i64, den: i64) -> Param {
    Param::Frac { num, den }
}

#[test]
fn vec3_components_and_constants() {
    let v = Vec3::new(1i64, -2, 3);
    assert_eq!((v.x(), v.y(), v.z()), (1, -2, 3));
    assert_eq!(Vec3::<i64>::zero(), Vec3::new(0, 0, 0));
    assert_eq!(Vec3::<i64>::one(), Vec3::new(1, 1, 1));
}

#[test]
fn vec3_products() {
    let a = Vec3::new(1i64, 2, 3);
    let b = Vec3::new(4i64, 5, 6);
    assert_eq!(a.dot(b), 32);
    assert_eq!(a.ele_mul(b), Vec3::new(4, 10, 18));
    assert_eq!(a.cross(b), Vec3::new(-3, 6, -3));
    assert_eq!(Vec3::new(1i64, 0, 0).cross(Vec3::new(0, 1, 0)), Vec3::new(0, 0, 1));
    assert_eq!(Vec3::new(3i64, 4, 0).length_square(), 25);
}

#[test]
fn vec3_apply_maps_each_component() {
    let v = Vec3::new(1i32, 2, 3);
    let w = v.apply(|c: i32| c as i64 * 10);
    assert_eq!(w, Vec3::new(10i64, 20, 30));
}

#[test]
fn slab_test_hits_box_ahead() {
    let b = cube(-1, 1);
    let r = Ray::new(Vec3::new(-5, 0, 0), Vec3::new(1, 0, 0));
    assert!(b.hit(&r, Param::NegInf, Param::PosInf));
    assert!(b.hit(&r, frac(0, 1), Param::PosInf));
    // the box spans t in (4, 6)
    assert!(!b.hit(&r, frac(0, 1), frac(4, 1)));
    assert!(b.hit(&r, frac(0, 1), frac(9, 2)));
    assert!(!b.hit(&r, frac(6, 1), Param::PosInf));
}

#[test]
fn slab_test_misses_box_beside() {
    let b = cube(-1, 1);
    let r = Ray::new(Vec3::new(-5, 5, 0), Vec3::new(1, 0, 0));
    assert!(!b.hit(&r, Param::NegInf, Param::PosInf));
    let diagonal = Ray::new(Vec3::new(-5, 0, 0), Vec3::new(1, 2, 0));
    assert!(!b.hit(&diagonal, Param::NegInf, Param::PosInf));
}

#[test]
fn slab_test_with_zero_direction_component() {
    let b = cube(-1, 1);
    let inside = Ray::new(Vec3::new(0, 0, -5), Vec3::new(0, 0, 3));
    assert!(b.hit(&inside, Param::NegInf, Param::PosInf));
    // a ray running along a face plane is a degenerate case, and counts as a miss
    let on_face = Ray::new(Vec3::new(1, 0, -5), Vec3::new(0, 0, 3));
    assert!(!b.hit(&on_face, Param::NegInf, Param::PosInf));
    let along_face = Ray::new(Vec3::new(0, 1, 1), Vec3::new(0, 1, 0));
    assert!(!cube(0, 2).hit(&along_face, Param::NegInf, Param::PosInf));
    let outside = Ray::new(Vec3::new(2, 0, -5), Vec3::new(0, 0, 3));
    assert!(!outside_hits(&b, &outside));
}

fn outside_hits(b: &AABB, r: &Ray) -> bool {
    b.hit(r, Param::NegInf, Param::PosInf)
}

#[test]
fn slab_test_same_for_reversed_ray() {
    let b = AABB { min: Vec3::new(0, 0, 0), max: Vec3::new(4, 2, 3) };
    let rays = [
        Ray::new(Vec3::new(-3, 1, 1), Vec3::new(2, 0, 1)),
        Ray::new(Vec3::new(10, 10, 10), Vec3::new(-1, -1, -1)),
        Ray::new(Vec3::new(-3, 5, 1), Vec3::new(1, 0, 0)),
        Ray::new(Vec3::new(2, 1, 9), Vec3::new(0, 0, 7)),
    ];
    let expected = [true, true, false, true];
    for (r, e) in rays.iter().zip(expected.iter()) {
        assert_eq!(b.hit(r, Param::NegInf, Param::PosInf), *e);
        assert_eq!(b.hit(&r.reversed(), Param::NegInf, Param::PosInf), *e);
    }
}

#[test]
fn union_holds_both_boxes() {
    let a = AABB { min: Vec3::new(0, 0, 0), max: Vec3::new(1, 1, 1) };
    let b = AABB { min: Vec3::new(-2, 3, 0), max: Vec3::new(0, 4, 5) };
    let u = a.union(&b);
    assert_eq!(u, AABB { min: Vec3::new(-2, 0, 0), max: Vec3::new(1, 4, 5) });
    for bx in [a, b] {
        for &x in &[bx.min.x, bx.max.x] {
            for &y in &[bx.min.y, bx.max.y] {
                for &z in &[bx.min.z, bx.max.z] {
                    assert!(u.min.x <= x && x <= u.max.x);
                    assert!(u.min.y <= y && y <= u.max.y);
                    assert!(u.min.z <= z && z <= u.max.z);
                }
            }
        }
    }
}

#[test]
fn param_order() {
    assert!(frac(1, 2).lt(&frac(2, 3)));
    assert!(!frac(2, 4).lt(&frac(1, 2)));
    assert!(Param::NegInf.lt(&frac(-100, 1)));
    assert!(frac(100, 1).lt(&Param::PosInf));
    assert!(!Param::PosInf.lt(&Param::PosInf));
    assert_eq!(frac(1, 2).max(frac(1, 3)), frac(1, 2));
    assert_eq!(frac(1, 2).min(frac(1, 3)), frac(1, 3));
}

#[test]
fn facing_follows_dot_product() {
    let r = Ray::new(Vec3::new(0, 0, 5), Vec3::new(0, 0, -1));
    assert_eq!(Face::calc(&Vec3::new(0, 0, 1), &r), Face::Inward);
    assert_eq!(Face::calc(&Vec3::new(0, 0, -1), &r), Face::Outward);
    assert_eq!(Face::calc(&Vec3::new(1, 0, 0), &r), Face::Outward);
    assert_eq!(Face::default(), Face::Inward);
    assert_eq!(Face::Outward.orient(&Vec3::new(1, -2, 3)), Vec3::new(-1, 2, -3));
    assert_eq!(Face::Inward.orient(&Vec3::new(1, -2, 3)), Vec3::new(1, -2, 3));
}

#[test]
fn integer_square_root() {
    assert_eq!(isqrt(0), 0);
    assert_eq!(isqrt(1), 1);
    assert_eq!(isqrt(15), 3);
    assert_eq!(isqrt(16), 4);
    assert_eq!(isqrt(u128::MAX), u64::MAX as u128);
}

#[test]
fn sphere_pole_hit() {
    for radius in [1, 3, 1000] {
        let s = Sphere { center: Vec3::new(0, 0, 0), radius };
        let r = Ray::new(Vec3::new(0, 0, 2 * radius), Vec3::new(0, 0, -1));
        let h = s.hit(&r, frac(0, 1), Param::PosInf).expect("the ray points at the sphere");
        assert_eq!(h.t, frac(radius as i64, 1));
        assert_eq!(h.p, Vec3::new(0, 0, radius as i128));
        assert_eq!(h.p_den, 1);
        assert_eq!(h.f, Face::Inward);
        assert_eq!(h.normal, Vec3::new(0, 0, radius as i128));
        assert_eq!(h.normal_den, radius as i128);
    }
}

#[test]
fn sphere_far_root_from_inside() {
    let s = Sphere { center: Vec3::new(0, 0, 0), radius: 2 };
    let r = Ray::new(Vec3::new(0, 0, 0), Vec3::new(0, 0, 1));
    let h = s.hit(&r, frac(1, 1000), Param::PosInf).expect("the ray leaves the sphere");
    assert_eq!(h.t, frac(2, 1));
    assert_eq!(h.f, Face::Outward);
    assert_eq!(h.normal, Vec3::new(0, 0, -2));
    assert_eq!(h.normal_den, 2);
}

#[test]
fn sphere_misses() {
    let s = Sphere { center: Vec3::new(0, 0, -10), radius: 2 };
    let away = Ray::new(Vec3::new(0, 0, 0), Vec3::new(0, 0, 1));
    assert!(s.hit(&away, frac(0, 1), Param::PosInf).is_none());
    let beside = Ray::new(Vec3::new(5, 0, 0), Vec3::new(0, 0, -1));
    assert!(s.hit(&beside, Param::NegInf, Param::PosInf).is_none());
    let grazing = Ray::new(Vec3::new(2, 0, 0), Vec3::new(0, 0, -1));
    assert!(s.hit(&grazing, Param::NegInf, Param::PosInf).is_none());
    let still = Ray::new(Vec3::new(0, 0, 0), Vec3::new(0, 0, 0));
    assert!(s.hit(&still, Param::NegInf, Param::PosInf).is_none());
    let toward = Ray::new(Vec3::new(0, 0, 0), Vec3::new(0, 0, -1));
    let h = s.hit(&toward, frac(0, 1), frac(7, 1));
    assert!(h.is_none());
    let h = s.hit(&toward, frac(0, 1), frac(8, 1)).expect("the near pole is at t = 8");
    assert_eq!(h.t, frac(8, 1));
}

#[test]
fn sphere_decides_range_by_exact_roots() {
    // roots 2 - sqrt 2 and 2 + sqrt 2, both outside [9/10, 11/10]
    let s = Sphere { center: Vec3::new(0, 0, 0), radius: 2 };
    let r = Ray::new(Vec3::new(1, 1, 2), Vec3::new(0, 0, -1));
    assert!(s.hit(&r, frac(9, 10), frac(11, 10)).is_none());
    // the nearer root, about 0.586, is reported rounded up to a multiple of 1/a = 1
    let h = s.hit(&r, frac(0, 1), Param::PosInf).expect("the ray crosses the sphere");
    assert_eq!(h.t, frac(1, 1));
    assert_eq!(h.f, Face::Inward);
    // a range holding only the nearer root: its rounding up would leave the range, so
    // the end of the range is reported
    let h = s.hit(&r, frac(1, 2), frac(3, 5)).expect("2 - sqrt 2 lies in [1/2, 3/5]");
    assert_eq!(h.t, frac(3, 5));
    // a range holding only the farther root, about 3.414, reported rounded down
    let h = s.hit(&r, frac(3, 1), frac(7, 2)).expect("2 + sqrt 2 lies in [3, 7/2]");
    assert_eq!(h.t, frac(3, 1));
    assert!(s.hit(&r, frac(7, 2), Param::PosInf).is_none());
    assert!(s.hit(&r, frac(3, 5), frac(3, 1)).is_none());
}

#[test]
fn sphere_reports_a_parameter_within_the_range() {
    // nearer root 5 - sqrt 3, about 3.27, rounds up to 4, past the end 33/10
    let s = Sphere { center: Vec3::new(0, 0, 0), radius: 2 };
    let r = Ray::new(Vec3::new(0, 1, -5), Vec3::new(0, 0, 1));
    let h = s.hit(&r, Param::NegInf, frac(33, 10)).expect("the nearer root lies in range");
    assert_eq!(h.t, frac(33, 10));
    assert_eq!(h.p_den, 10);
    assert_eq!(h.p, Vec3::new(0, 10, -17));
    let h = s.hit(&r, Param::NegInf, Param::PosInf).expect("the ray crosses the sphere");
    assert_eq!(h.t, frac(4, 1));
    // farther root 5 + sqrt 3, about 6.73, rounds down to 6, below the start 67/10
    let h = s.hit(&r, frac(67, 10), Param::PosInf).expect("the farther root lies in range");
    assert_eq!(h.t, frac(67, 10));
    assert!(s.hit(&r, frac(68, 10), Param::PosInf).is_none());
}
