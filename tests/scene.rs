use ray_tracer::buffer::gamma_encode;
use ray_tracer::container::Container;
use ray_tracer::bvh::{BVHNode, Node};
use ray_tracer::color::ONE;
use ray_tracer::face::Face;
use ray_tracer::param::Param;
use ray_tracer::ray::Ray;
use ray_tracer::rect::{XYRect, XZRect, YZRect};
use ray_tracer::sphere::{Sphere, TexCoord};
use ray_tracer::vec3::Vec3;
use ray_tracer::world::World;

fn frac(num: i64, den: i64) -> Param {
    Param::Frac { num, den }
}

#[test]
fn xy_rect_hit_and_miss() {
    let rect = XYRect::new((-1, -1), (1, 1), -5);
    let r = Ray::new(Vec3::new(0, 0, 0), Vec3::new(0, 0, -2));
    let h = rect.hit(&r, frac(0, 1), Param::PosInf).expect("straight ahead");
    assert_eq!(h.t, frac(5, 2));
    assert_eq!(h.p, Vec3::new(0, 0, -10));
    assert_eq!(h.p_den, 2);
    assert_eq!(h.f, Face::Inward);
    assert_eq!(h.normal, Vec3::new(0, 0, 1));
    assert_eq!(h.uv, Some(TexCoord { u: frac(2, 4), v: frac(2, 4) }));
    // beyond the range
    assert!(rect.hit(&r, frac(0, 1), frac(2, 1)).is_none());
    // parallel to the plane
    let flat = Ray::new(Vec3::new(0, 0, 0), Vec3::new(1, 0, 0));
    assert!(rect.hit(&flat, Param::NegInf, Param::PosInf).is_none());
    // crosses the plane outside the rectangle
    let wide = Ray::new(Vec3::new(0, 0, 0), Vec3::new(1, 0, -1));
    assert!(rect.hit(&wide, frac(0, 1), Param::PosInf).is_none());
    // on the edge
    let edge = Ray::new(Vec3::new(0, 0, 0), Vec3::new(1, 1, -5));
    assert!(rect.hit(&edge, frac(0, 1), Param::PosInf).is_some());
}

#[test]
fn xz_and_yz_rects() {
    let floor = XZRect::new((0, 0), (10, 10), 0);
    let down = Ray::new(Vec3::new(3, 4, 5), Vec3::new(0, -1, 0));
    let h = floor.hit(&down, frac(0, 1), Param::PosInf).expect("falls on the floor");
    assert_eq!(h.t, frac(4, 1));
    assert_eq!(h.uv, Some(TexCoord { u: frac(3, 10), v: frac(5, 10) }));
    assert_eq!(h.p, Vec3::new(3, 0, 5));
    assert_eq!(h.f, Face::Inward);
    assert_eq!(h.normal, Vec3::new(0, 1, 0));
    let up = Ray::new(Vec3::new(3, -4, 5), Vec3::new(0, 1, 0));
    let h = floor.hit(&up, frac(0, 1), Param::PosInf).expect("hits from below");
    assert_eq!(h.f, Face::Outward);
    assert_eq!(h.normal, Vec3::new(0, -1, 0));

    let wall = YZRect::new((0, 0), (2, 2), 7);
    let r = Ray::new(Vec3::new(0, 1, 1), Vec3::new(1, 0, 0));
    let h = wall.hit(&r, frac(0, 1), Param::PosInf).expect("hits the wall");
    assert_eq!(h.t, frac(7, 1));
    assert_eq!(h.f, Face::Outward);
    assert_eq!(h.normal, Vec3::new(-1, 0, 0));
    let above = Ray::new(Vec3::new(0, 3, 1), Vec3::new(1, 0, 0));
    assert!(wall.hit(&above, frac(0, 1), Param::PosInf).is_none());
}

#[test]
fn world_finds_nearest_sphere() {
    let mut w = World::new();
    w.add_hittable(Sphere { center: Vec3::new(0, 0, -20), radius: 2 });
    w.add_hittable(Sphere { center: Vec3::new(0, 0, -10), radius: 2 });
    w.add_hittable(Sphere { center: Vec3::new(5, 0, -5), radius: 1 });
    let r = Ray::new(Vec3::new(0, 0, 0), Vec3::new(0, 0, -1));
    let h = w.hit(&r, frac(1, 1000), Param::PosInf).expect("two spheres lie ahead");
    assert_eq!(h.t, frac(8, 1));
    let h = w.hit(&r, frac(9, 1), Param::PosInf).expect("inside the nearer sphere");
    assert_eq!(h.t, frac(12, 1));
    let h = w.hit(&r, frac(13, 1), Param::PosInf).expect("the farther sphere");
    assert_eq!(h.t, frac(18, 1));
    assert!(w.hit(&r, frac(1, 1000), frac(7, 1)).is_none());
    let aside = Ray::new(Vec3::new(0, 0, 0), Vec3::new(1, 0, 0));
    assert!(w.hit(&aside, frac(0, 1), Param::PosInf).is_none());
    w.clear();
    assert!(w.hit(&r, frac(1, 1000), Param::PosInf).is_none());
}

#[test]
fn world_hit_matches_linear_search() {
    let mut w = World::new();
    let spheres = [
        Sphere { center: Vec3::new(3, 1, -30), radius: 5 },
        Sphere { center: Vec3::new(-2, 0, -12), radius: 3 },
        Sphere { center: Vec3::new(0, 2, -12), radius: 4 },
        Sphere { center: Vec3::new(40, 40, 40), radius: 1 },
    ];
    for s in spheres.iter() {
        w.add_hittable(*s);
    }
    let dirs = [(0, 0, -1), (1, 0, -10), (-1, 1, -6), (0, 1, 0), (2, 2, 2), (0, 0, 1)];
    for (x, y, z) in dirs.iter() {
        let r = Ray::new(Vec3::new(0, 0, 0), Vec3::new(*x, *y, *z));
        let got = w.hit(&r, frac(0, 1), Param::PosInf);
        let mut best: Option<(i64, i64)> = None;
        for s in spheres.iter() {
            if let Some(h) = s.hit(&r, frac(0, 1), Param::PosInf) {
                if let Param::Frac { num, den } = h.t {
                    let nearer = match best {
                        None => true,
                        Some((bn, bd)) => (num as i128) * (bd as i128) < (bn as i128) * (den as i128),
                    };
                    if nearer {
                        best = Some((num, den));
                    }
                }
            }
        }
        match (got, best) {
            (None, None) => {}
            (Some(h), Some((n, d))) => assert_eq!(h.t, frac(n, d)),
            _ => panic!("world and linear search disagree"),
        }
    }
}

#[test]
fn gamma_two_takes_square_roots() {
    let mut v = vec![0, ONE, ONE / 4, ONE / 16, 4 * ONE, 1];
    gamma_encode(&mut v);
    assert_eq!(v, vec![0, ONE, ONE / 2, ONE / 4, 2 * ONE, 256]);
}

#[test]
fn picture_layout_is_row_major() {
    let p = ray_tracer::picture::Picture::new(3, 2);
    assert_eq!(p.data.len(), 6);
    assert_eq!(p.at(2, 1), Vec3::new(0, 0, 0));
    let values: Vec<u32> = (0..18).collect();
    let q = ray_tracer::picture::Picture::from_channels(&values, 3, 2);
    assert_eq!((q.width, q.height), (3, 2));
    assert_eq!(q.at(0, 0), Vec3::new(0, 1, 2));
    assert_eq!(q.at(2, 0), Vec3::new(6, 7, 8));
    assert_eq!(q.at(1, 1), Vec3::new(12, 13, 14));
}

fn sample_spheres() -> Vec<Sphere> {
    vec![
        Sphere { center: Vec3::new(3, 1, -30), radius: 5 },
        Sphere { center: Vec3::new(-2, 0, -12), radius: 3 },
        Sphere { center: Vec3::new(0, 2, -12), radius: 4 },
        Sphere { center: Vec3::new(40, 40, 40), radius: 1 },
        Sphere { center: Vec3::new(0, -105, -10), radius: 100 },
        Sphere { center: Vec3::new(7, 0, -9), radius: 2 },
    ]
}

#[test]
fn bvh_agrees_with_linear_search() {
    let spheres = sample_spheres();
    let mut w = World::new();
    for s in spheres.iter() {
        w.add_hittable(*s);
    }
    for _ in 0..5 {
        let b = BVHNode::new(spheres.clone());
        assert_eq!(b.spheres.len(), spheres.len());
        for x in -3..4 {
            for y in -3..4 {
                for z in [-10, -1, 1] {
                    let r = Ray::new(Vec3::new(0, 0, 0), Vec3::new(x, y, z));
                    for (lo, hi) in [(frac(1, 1000), Param::PosInf), (frac(0, 1), frac(15, 1)), (frac(11, 1), frac(40, 1))] {
                        let a = w.hit(&r, lo, hi).map(|h| h.t);
                        let c = b.hit(&r, lo, hi).map(|h| h.t);
                        match (a, c) {
                            (None, None) => {}
                            (Some(Param::Frac { num: n1, den: d1 }), Some(Param::Frac { num: n2, den: d2 })) => {
                                assert_eq!((n1 as i128) * (d2 as i128), (n2 as i128) * (d1 as i128));
                            }
                            other => panic!("hierarchy and linear search disagree: {:?}", other),
                        }
                    }
                }
            }
        }
    }
}

#[test]
fn bvh_over_one_sphere() {
    let b = BVHNode::new(vec![Sphere { center: Vec3::new(0, 0, -5), radius: 1 }]);
    assert_eq!(b.nodes.len(), 2);
    assert_eq!(b.nodes[1], Node::Inner { bbox: b.spheres[0].bounding_box(), left: 0, right: 0 });
    let r = Ray::new(Vec3::new(0, 0, 0), Vec3::new(0, 0, -1));
    assert_eq!(b.hit(&r, frac(0, 1), Param::PosInf).map(|h| h.t), Some(frac(4, 1)));
    assert!(b.hit(&r, frac(3, 1), frac(3, 1)).is_none());
    let away = Ray::new(Vec3::new(0, 0, 0), Vec3::new(0, 1, 0));
    assert!(b.hit(&away, frac(0, 1), Param::PosInf).is_none());
}

#[test]
fn sphere_box_is_one_unit_wider() {
    let s = Sphere { center: Vec3::new(1, 2, 3), radius: 4 };
    let b = s.bounding_box();
    assert_eq!(b.min, Vec3::new(-4, -3, -2));
    assert_eq!(b.max, Vec3::new(6, 7, 8));
}

#[test]
fn cube_nearest_face() {
    let c = ray_tracer::cube::Cube::new(Vec3::new(0, 0, 0), Vec3::new(2, 2, 2));
    let b = c.bounding_box();
    assert_eq!((b.min, b.max), (Vec3::new(0, 0, 0), Vec3::new(2, 2, 2)));
    let r = Ray::new(Vec3::new(-5, 1, 1), Vec3::new(1, 0, 0));
    let h = c.hit(&r, frac(0, 1), Param::PosInf).expect("the ray goes through the cube");
    assert_eq!(h.t, frac(5, 1));
    assert_eq!(h.p, Vec3::new(0, 1, 1));
    assert_eq!(h.normal, Vec3::new(-1, 0, 0));
    let inside = Ray::new(Vec3::new(1, 1, 1), Vec3::new(0, 0, 1));
    let h = c.hit(&inside, frac(0, 1), Param::PosInf).expect("leaves through the top");
    assert_eq!(h.t, frac(1, 1));
    assert_eq!(h.f, Face::Outward);
    let diagonal = Ray::new(Vec3::new(-1, -1, -1), Vec3::new(1, 1, 1));
    let h = c.hit(&diagonal, frac(0, 1), Param::PosInf).expect("enters at a corner");
    assert_eq!(h.t, frac(1, 1));
    let miss = Ray::new(Vec3::new(5, 5, 5), Vec3::new(1, 0, 0));
    assert!(c.hit(&miss, Param::NegInf, Param::PosInf).is_none());
}

#[test]
fn container_searches_after_finalizing() {
    let mut c = Container::new();
    c.add_hittable(Sphere { center: Vec3::new(0, 0, -10), radius: 2 });
    c.add_hittables(&vec![Sphere { center: Vec3::new(0, 0, -20), radius: 2 }, Sphere { center: Vec3::new(9, 9, 9), radius: 1 }]);
    assert_eq!(c.items.len(), 3);
    assert!(c.bounding_box().is_none());
    c.update_metadata();
    let b = c.bounding_box().expect("finalized");
    assert!(b.min.x <= -3 && b.max.x >= 10 && b.min.z <= -23 && b.max.z >= 10);
    let r = Ray::new(Vec3::new(0, 0, 0), Vec3::new(0, 0, -1));
    assert_eq!(c.hit(&r, frac(1, 1000), Param::PosInf).map(|h| h.t), Some(frac(8, 1)));
    c.add_hittable(Sphere { center: Vec3::new(0, 0, -5), radius: 1 });
    assert!(c.bvh.is_none());
    c.update_metadata();
    assert_eq!(c.hit(&r, frac(1, 1000), Param::PosInf).map(|h| h.t), Some(frac(4, 1)));
    c.clear();
    assert!(c.items.is_empty() && c.bvh.is_none());
}

fn leaves_under(b: &BVHNode, k: usize, out: &mut Vec<usize>) {
    match b.nodes[k] {
        Node::Leaf(i) => out.push(i),
        Node::Inner { left, right, .. } => {
            leaves_under(b, left, out);
            leaves_under(b, right, out);
        }
    }
}

#[test]
fn bvh_splits_sorted_halves() {
    // given in decreasing order on every axis
    let spheres: Vec<Sphere> = (0..4).rev().map(|k| Sphere { center: Vec3::new(10 * k, 10 * k, 10 * k), radius: 1 }).collect();
    for _ in 0..10 {
        let b = BVHNode::new(spheres.clone());
        let (left, right) = match b.nodes[b.root] {
            Node::Inner { left, right, .. } => (left, right),
            Node::Leaf(_) => panic!("the root of several spheres is an inner node"),
        };
        let mut l = Vec::new();
        leaves_under(&b, left, &mut l);
        l.sort();
        let mut r = Vec::new();
        leaves_under(&b, right, &mut r);
        r.sort();
        assert_eq!(l, vec![2, 3]);
        assert_eq!(r, vec![0, 1]);
    }
}

#[test]
fn rect_boxes_are_padded_across_their_plane() {
    let b = XYRect::new((0, 1), (2, 3), 5).bounding_box();
    assert_eq!((b.min, b.max), (Vec3::new(0, 1, 4), Vec3::new(2, 3, 6)));
    let b = XZRect::new((0, 1), (2, 3), 5).bounding_box();
    assert_eq!((b.min, b.max), (Vec3::new(0, 4, 1), Vec3::new(2, 6, 3)));
    let b = YZRect::new((0, 1), (2, 3), 5).bounding_box();
    assert_eq!((b.min, b.max), (Vec3::new(4, 0, 1), Vec3::new(6, 2, 3)));
}

#[test]
fn empty_container_gets_no_hierarchy() {
    let mut c = Container::new();
    c.update_metadata();
    assert!(c.bvh.is_none());
    assert!(c.bounding_box().is_none());
}

#[test]
fn bvh_with_given_axes_is_reproducible() {
    let spheres = sample_spheres();
    let axes = vec![2, 0, 1, 1, 2];
    let a = BVHNode::with_axes(spheres.clone(), &axes);
    let b = BVHNode::with_axes(spheres.clone(), &axes);
    assert_eq!(a.nodes, b.nodes);
    assert_eq!(a.root, b.root);
    // the root splits six spheres in halves of three, ordered on the first axis given (z)
    let (left, right) = match a.nodes[a.root] {
        Node::Inner { left, right, .. } => (left, right),
        Node::Leaf(_) => panic!("six spheres have an inner root"),
    };
    let (mut l, mut r) = (Vec::new(), Vec::new());
    leaves_under(&a, left, &mut l);
    leaves_under(&a, right, &mut r);
    assert_eq!((l.len(), r.len()), (3, 3));
    let key = |i: usize| spheres[i].bounding_box().min.z;
    assert!(l.iter().all(|&i| r.iter().all(|&j| key(i) <= key(j))));
}
