use raytracing::aabb::{AABB, MIN_SIZE};
use raytracing::interval::Interval;
use raytracing::num::{fx_div, fx_mul, fx_sqrt, isqrt, ONE};
use raytracing::planar::{Planar, Shape};
use raytracing::ray::Ray;
use raytracing::sphere::Sphere;
use raytracing::vec3::Vec3;

fn v(x: i64, y: i64, z: i64) -> Vec3 {
    Vec3::new(x, y, z)
}

#[test]
fn fixed_point_arithmetic() {
    assert_eq!(fx_mul(3 * ONE, ONE / 2), 3 * ONE / 2);
    assert_eq!(fx_mul(-ONE, ONE / 2), -ONE / 2);
    assert_eq!(fx_div(ONE, 4 * ONE), ONE / 4);
    assert_eq!(fx_div(ONE, -2 * ONE), -ONE / 2);
    assert_eq!(isqrt(15), 3);
    assert_eq!(isqrt(16), 4);
    assert_eq!(fx_sqrt(4 * ONE), 2 * ONE);
    assert_eq!(fx_sqrt(2 * ONE), 92681);
}

#[test]
fn interval_union_contains_either() {
    let a = Interval::new(0, 10);
    let b = Interval::new(20, 30);
    let u = Interval::union(&a, &b);
    assert_eq!(u, Interval::new(0, 30));
    for x in [0, 5, 10, 20, 25, 30] {
        assert!(u.contains(x));
    }
    assert!(!u.contains(31));
    assert_eq!(Interval::union(&Interval::empty(), &a), a);
    assert_eq!(Interval::union(&a, &Interval::empty()), a);
    assert!(!Interval::empty().contains(0));
    assert!(Interval::universe().contains(i64::MIN));
}

#[test]
fn interval_expand_size_and_membership() {
    let a = Interval::new(0, 10);
    assert_eq!(a.expand(8), Interval::new(-4, 14));
    assert_eq!(a.size(), 10);
    assert!(a.contains(0) && a.contains(10));
    assert!(!a.surrounds(0) && !a.surrounds(10) && a.surrounds(5));
    assert_eq!(a.shift(5), Interval::new(5, 15));
    assert_eq!(Interval::default(), Interval::empty());
}

#[test]
fn aabb_pads_degenerate_axes() {
    let b = AABB::from_points(&v(0, 0, 0), &v(ONE, ONE, 0));
    assert_eq!(b.z, Interval::new(-4, 4));
    assert!(b.x.size() >= MIN_SIZE as i128 && b.y.size() >= MIN_SIZE as i128 && b.z.size() >= MIN_SIZE as i128);
    let seven = AABB::new(Interval::new(0, 7), Interval::new(0, 6), Interval::new(0, ONE));
    assert_eq!(seven.x, Interval::new(0, 7));
    assert_eq!(seven.y, Interval::new(-4, 10));
    let flat = AABB::new(Interval::new(7, 7), Interval::new(0, ONE), Interval::new(3, 5));
    assert_eq!(flat.x, Interval::new(3, 11));
    assert_eq!(flat.z, Interval::new(-1, 9));
    assert_eq!(flat.y, Interval::new(0, ONE));
}

#[test]
fn aabb_corners_in_either_order() {
    let a = v(ONE, -2 * ONE, 3 * ONE);
    let b = v(-ONE, 2 * ONE, 0);
    assert_eq!(AABB::from_points(&a, &b), AABB::from_points(&b, &a));
    let bb = AABB::from_points(&a, &b);
    assert_eq!(bb.x, Interval::new(-ONE, ONE));
    assert_eq!(bb.axis_interval(1), Interval::new(-2 * ONE, 2 * ONE));
    assert_eq!(bb.axis_interval(2), Interval::new(0, 3 * ONE));
    assert_eq!(bb.axis_interval(7), bb.x);
}

#[test]
fn aabb_longest_axis_ties() {
    let cube = AABB::from_points(&v(0, 0, 0), &v(ONE, ONE, ONE));
    assert_eq!(cube.longest_axis(), 2);
    let xy = AABB::from_points(&v(0, 0, 0), &v(2 * ONE, 2 * ONE, ONE));
    assert_eq!(xy.longest_axis(), 1);
    let x = AABB::from_points(&v(0, 0, 0), &v(3 * ONE, 2 * ONE, 2 * ONE));
    assert_eq!(x.longest_axis(), 0);
}

#[test]
fn aabb_enclose_and_offset() {
    let a = AABB::from_points(&v(0, 0, 0), &v(ONE, ONE, ONE));
    let b = AABB::from_points(&v(2 * ONE, -ONE, 0), &v(3 * ONE, 0, ONE));
    let u = AABB::enclose(&a, &b);
    assert_eq!(u.x, Interval::new(0, 3 * ONE));
    assert_eq!(u.y, Interval::new(-ONE, ONE));
    assert_eq!(AABB::enclose(&AABB::empty(), &a), a);
    let moved = a.offset(&v(ONE, 0, -ONE));
    assert_eq!(moved.x, Interval::new(ONE, 2 * ONE));
    assert_eq!(moved.z, Interval::new(-ONE, 0));
}

#[test]
fn aabb_slab_test() {
    let b = AABB::from_points(&v(0, 0, 0), &v(ONE, ONE, ONE));
    let all = Interval::new(0, i64::MAX);
    let straight = Ray::new(v(ONE / 2, ONE / 2, -ONE), v(0, 0, ONE), 0);
    assert!(b.hit(&straight, all));
    let beside = Ray::new(v(2 * ONE, ONE / 2, -ONE), v(0, 0, ONE), 0);
    assert!(!b.hit(&beside, all));
    let away = Ray::new(v(ONE / 2, ONE / 2, -ONE), v(0, 0, -ONE), 0);
    assert!(!b.hit(&away, all));
    assert!(!b.hit(&straight, Interval::new(0, ONE / 2)));
    assert!(b.hit(&straight, Interval::new(0, 3 * ONE / 2)));
    let diagonal = Ray::new(v(-ONE, -ONE, -ONE), v(ONE, ONE, ONE), 0);
    assert!(b.hit(&diagonal, all));
    let skew = Ray::new(v(-ONE, 2 * ONE, ONE / 2), v(ONE, ONE, 0), 0);
    assert!(!b.hit(&skew, all));
}

fn unit_sphere(r: i64) -> Sphere {
    Sphere::new(v(0, 0, 0), r, 0)
}

#[test]
fn sphere_round_trip() {
    for r in [ONE, 3 * ONE, 1000 * ONE] {
        let s = unit_sphere(r);
        let ray = Ray::new(v(0, 0, 2 * r), v(0, 0, -ONE), 0);
        let rec = s.hit(&ray, Interval::new(0, i64::MAX)).unwrap();
        assert_eq!(rec.t, r);
        assert_eq!(rec.p, v(0, 0, r));
        assert_eq!(rec.normal, v(0, 0, ONE));
        assert!(rec.front_face);
        assert_eq!((rec.u, rec.v), (16383, 32768));
    }
}

#[test]
fn sphere_surface_coordinates() {
    let s = unit_sphere(2 * ONE);
    let all = Interval::new(66, i64::MAX);
    let from_top = Ray::new(v(0, 5 * ONE, 0), v(0, -ONE, 0), 0);
    let top = s.hit(&from_top, all).unwrap();
    assert_eq!(top.v, ONE);
    let from_below = Ray::new(v(0, -5 * ONE, 0), v(0, ONE, 0), 0);
    assert_eq!(s.hit(&from_below, all).unwrap().v, 0);
    let from_x = Ray::new(v(5 * ONE, 0, 0), v(-ONE, 0, 0), 0);
    let side = s.hit(&from_x, all).unwrap();
    assert_eq!(side.v, 32768);
    assert!((side.u - ONE / 2).abs() <= 2, "{}", side.u);
    let from_minus_x = Ray::new(v(-5 * ONE, 0, 0), v(ONE, 0, 0), 0);
    let back = s.hit(&from_minus_x, all).unwrap();
    assert!(back.u <= 2 || back.u >= ONE - 2, "{}", back.u);
    let diagonal = Ray::new(v(5 * ONE, 0, -5 * ONE), v(-ONE, 0, ONE), 0);
    let d = s.hit(&diagonal, all).unwrap();
    assert!((d.u - 5 * ONE / 8).abs() <= 120, "{}", d.u);
}

#[test]
fn sphere_far_root_from_inside() {
    let s = unit_sphere(2 * ONE);
    let ray = Ray::new(v(0, 0, 0), v(0, 0, -ONE), 0);
    let rec = s.hit(&ray, Interval::new(66, i64::MAX)).unwrap();
    assert_eq!(rec.t, 2 * ONE);
    assert_eq!(rec.p, v(0, 0, -2 * ONE));
    assert!(!rec.front_face);
    assert_eq!(rec.normal, v(0, 0, ONE));
}

#[test]
fn sphere_misses() {
    let s = unit_sphere(ONE);
    let beside = Ray::new(v(2 * ONE, 0, 5 * ONE), v(0, 0, -ONE), 0);
    assert!(s.hit(&beside, Interval::new(0, i64::MAX)).is_none());
    let short = Ray::new(v(0, 0, 5 * ONE), v(0, 0, -ONE), 0);
    assert!(s.hit(&short, Interval::new(0, 3 * ONE)).is_none());
    let flat = Sphere::new(v(0, 0, 0), -ONE, 0);
    assert_eq!(flat.radius, 0);
    assert!(flat.hit(&short, Interval::new(0, i64::MAX)).is_none());
}

#[test]
fn moving_sphere_follows_time() {
    let s = Sphere::new_moving(v(0, 0, 0), v(4 * ONE, 0, 0), ONE, 0);
    let early = Ray::new(v(4 * ONE, 0, 5 * ONE), v(0, 0, -ONE), 0);
    assert!(s.hit(&early, Interval::new(0, i64::MAX)).is_none());
    let late = Ray::new(v(4 * ONE, 0, 5 * ONE), v(0, 0, -ONE), ONE);
    assert_eq!(s.hit(&late, Interval::new(0, i64::MAX)).unwrap().t, 4 * ONE);
    assert_eq!(s.bbox.x, Interval::new(-ONE, 5 * ONE));
}

fn square(shape: Shape) -> Planar {
    Planar::new(v(-ONE, -ONE, 0), v(2 * ONE, 0, 0), v(0, 2 * ONE, 0), 0, shape)
}

#[test]
fn quad_hit_reports_plane_coordinates() {
    let q = square(Shape::Quad);
    assert_eq!(q.normal, v(0, 0, ONE));
    let ray = Ray::new(v(0, 0, ONE), v(0, 0, -ONE), 0);
    let rec = q.hit(&ray, Interval::new(0, i64::MAX)).unwrap();
    assert_eq!(rec.t, ONE);
    assert_eq!(rec.p, v(0, 0, 0));
    assert_eq!((rec.u, rec.v), (ONE / 2, ONE / 2));
    assert!(rec.front_face);
    assert_eq!(rec.normal, v(0, 0, ONE));
    let below = Ray::new(v(0, 0, -ONE), v(0, 0, ONE), 0);
    let back = q.hit(&below, Interval::new(0, i64::MAX)).unwrap();
    assert!(!back.front_face);
    assert_eq!(back.normal, v(0, 0, -ONE));
}

#[test]
fn quad_rejects_outside_and_parallel() {
    let q = square(Shape::Quad);
    let outside = Ray::new(v(2 * ONE, 0, ONE), v(0, 0, -ONE), 0);
    assert!(q.hit(&outside, Interval::new(0, i64::MAX)).is_none());
    let parallel = Ray::new(v(0, 0, ONE), v(ONE, 0, 0), 0);
    assert!(q.hit(&parallel, Interval::new(0, i64::MAX)).is_none());
    let shallow = Ray::new(v(0, 0, 1), v(ONE, 0, -64), 0);
    assert!(q.hit(&shallow, Interval::new(0, i64::MAX)).is_some());
    let too_far = Ray::new(v(0, 0, ONE), v(0, 0, -ONE), 0);
    assert!(q.hit(&too_far, Interval::new(0, ONE / 2)).is_none());
}

#[test]
fn triangle_and_disk_acceptance() {
    let t = square(Shape::Triangle);
    let centre = Ray::new(v(0, 0, ONE), v(0, 0, -ONE), 0);
    assert!(t.hit(&centre, Interval::new(0, i64::MAX)).is_none());
    let corner = Ray::new(v(-ONE / 2, -ONE / 2, ONE), v(0, 0, -ONE), 0);
    let rec = t.hit(&corner, Interval::new(0, i64::MAX)).unwrap();
    assert_eq!((rec.u, rec.v), (ONE / 4, ONE / 4));
    let d = square(Shape::Circle { radius: ONE / 2 });
    let at_q = Ray::new(v(-ONE, -ONE, ONE), v(0, 0, -ONE), 0);
    assert!(d.hit(&at_q, Interval::new(0, i64::MAX)).is_some());
    assert!(d.hit(&centre, Interval::new(0, i64::MAX)).is_none());
}

#[test]
fn ray_accessors_and_at() {
    let r = Ray::new(v(ONE, 0, 0), v(0, 2 * ONE, 0), ONE / 2);
    assert_eq!(r.origin(), v(ONE, 0, 0));
    assert_eq!(r.direction(), v(0, 2 * ONE, 0));
    assert_eq!(r.time(), ONE / 2);
    assert_eq!(r.at(3 * ONE / 2), v(ONE, 3 * ONE, 0));
}

#[test]
fn vector_operations() {
    let a = v(ONE, 2 * ONE, 3 * ONE);
    let b = v(-ONE, 0, ONE);
    assert_eq!(a.add(&b), v(0, 2 * ONE, 4 * ONE));
    assert_eq!(a.sub(&b), v(2 * ONE, 2 * ONE, 2 * ONE));
    assert_eq!(a.dot_fx(&b), 2 * ONE);
    assert_eq!(v(ONE, 0, 0).cross(&v(0, ONE, 0)), v(0, 0, ONE));
    assert_eq!(v(3 * ONE, 4 * ONE, 0).length(), 5 * ONE);
    assert_eq!(v(3 * ONE, 4 * ONE, 0).unit_vector(), v(39321, 52428, 0));
    assert_eq!(v(0, 0, 0).unit_vector(), v(0, 0, 0));
    assert_eq!(v(ONE, -ONE, 0).reflect(&v(0, ONE, 0)), v(ONE, ONE, 0));
    assert!(v(0, 0, 0).near_zero() && !v(1, 0, 0).near_zero());
}
