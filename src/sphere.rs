//! Spheres, static or moving linearly between two centers.
use vstd::prelude::*;
use crate::aabb::{enclose_spec, from_points_spec, AABB};
use crate::interval::Interval;
use crate::num::{clamp, clamp_wide, div_floor, div_spec, fx_div, fx_mul, fx_sqrt, in_range, isqrt, isqrt_spec, mul_spec, ONE, LIMIT};
use crate::primitive::HitRecord;
use crate::ray::{at_spec, Ray};
use crate::vec3::{add_spec, div_vec_spec, dot_spec, scale_spec, sub_spec, Point3, Vec3};

verus! {

#[derive(Clone, Copy, Debug, PartialEq, Eq, Structural)]
pub struct Sphere {
    pub center1: Point3,
    pub radius: i64,
    pub mat: usize,
    pub is_moving: bool,
    pub center_vec: Vec3,
    pub bbox: AABB,
}

pub open spec fn radius_vec(r: int) -> Vec3 {
    Vec3 { x: r as i64, y: r as i64, z: r as i64 }
}

/// The box of a sphere of radius `r` around `c`.
pub open spec fn ball_box(c: Point3, r: int) -> AABB {
    from_points_spec(sub_spec(c, radius_vec(r)), add_spec(c, radius_vec(r)))
}

pub open spec fn center_at(s: Sphere, time: int) -> Point3 {
    if s.is_moving {
        add_spec(s.center1, scale_spec(s.center_vec, time))
    } else {
        s.center1
    }
}

pub open spec fn neg_vec(v: Vec3) -> Vec3 {
    Vec3 { x: -v.x as i64, y: -v.y as i64, z: -v.z as i64 }
}

/// pi, pi / 2 and pi / 4 in fixed point.
pub const PI: i64 = 205887;

pub const HALF_PI: i64 = 102944;

pub const QUARTER_PI: i64 = 51472;

/// The coefficients 0.2447 and 0.0663 of the arctangent approximation.
pub const ATAN_A: i64 = 16037;

pub const ATAN_B: i64 = 4345;

pub open spec fn abs_spec(x: int) -> int {
    if x < 0 {
        -x
    } else {
        x
    }
}

/// The arctangent of `r` in `[-1, 1]` by
/// `pi/4 r - r (|r| - 1) (0.2447 + 0.0663 |r|)`, within 0.0015 radians.
pub open spec fn atan_spec(r: int) -> int {
    let a = abs_spec(r);
    clamp(mul_spec(QUARTER_PI as int, r) - mul_spec(mul_spec(r, a - ONE), ATAN_A + mul_spec(ATAN_B as int, a)))
}

/// The angle of the point `(x, y)`, in `[-pi, pi]`, reduced to an
/// arctangent of a ratio in `[-1, 1]`; zero at the origin.
pub open spec fn atan2_spec(y: int, x: int) -> int {
    if x == 0 && y == 0 {
        0
    } else if abs_spec(y) <= abs_spec(x) {
        let a = atan_spec(div_spec(y, x));
        if x > 0 {
            a
        } else if y >= 0 {
            clamp(a + PI)
        } else {
            clamp(a - PI)
        }
    } else {
        let a = atan_spec(div_spec(x, y));
        if y > 0 {
            clamp(HALF_PI - a)
        } else {
            clamp(-HALF_PI - a)
        }
    }
}

/// `phi / 2 pi` with `phi = atan2(-z, x) + pi`: the angle around the y axis.
pub open spec fn sphere_u(n: Vec3) -> int {
    div_spec(clamp(atan2_spec(-n.z, n.x as int) + PI), 2 * PI)
}

/// `theta / pi` with `theta = acos(-y)`, taken as `atan2(sqrt(1 - y^2), -y)`.
pub open spec fn sphere_v(n: Vec3) -> int {
    let s2 = ONE - mul_spec(n.y as int, n.y as int);
    let s = isqrt_spec((if s2 < 0 {
        0
    } else {
        s2
    }) * ONE);
    div_spec(atan2_spec(s, -n.y), PI as int)
}

fn abs_exec(x: i64) -> (r: i64)
    requires
        in_range(x as int),
    ensures
        r == abs_spec(x as int),
{
    if x < 0 {
        -x
    } else {
        x
    }
}

fn atan_unit(r: i64) -> (a: i64)
    requires
        -ONE <= r <= ONE,
    ensures
        a == atan_spec(r as int),
        in_range(a as int),
{
    let m = abs_exec(r);
    let inner = ATAN_A as i128 + fx_mul(ATAN_B, m) as i128;
    let a = clamp_wide(
        fx_mul(QUARTER_PI, r) as i128 - fx_mul(fx_mul(r, m - ONE), clamp_wide(inner)) as i128,
    );
    a
}

/// A quotient of a smaller by a larger magnitude lies in `[-1, 1]`.
proof fn lemma_ratio(y: int, x: int)
    requires
        x != 0,
        abs_spec(y) <= abs_spec(x),
        in_range(x),
        in_range(y),
    ensures
        -ONE <= div_spec(y, x) <= ONE,
{
    let one = ONE as int;
    if x > 0 {
        assert(-one <= (y * one) / x <= one) by (nonlinear_arith)
            requires
                x > 0,
                -x <= y <= x,
                one > 0,
        {
            vstd::arithmetic::div_mod::lemma_div_is_ordered(y * one, x * one, x);
            vstd::arithmetic::div_mod::lemma_div_is_ordered(-x * one, y * one, x);
            vstd::arithmetic::div_mod::lemma_div_by_multiple(one, x);
            vstd::arithmetic::div_mod::lemma_div_multiples_vanish(-one, x);
            vstd::arithmetic::div_mod::lemma_div_multiples_vanish(one, x);
        }
    } else {
        assert(-one <= (-(y * one)) / (-x) <= one) by (nonlinear_arith)
            requires
                x < 0,
                x <= y <= -x,
                one > 0,
        {
            vstd::arithmetic::div_mod::lemma_div_is_ordered(-(y * one), (-x) * one, -x);
            vstd::arithmetic::div_mod::lemma_div_is_ordered(x * one, -(y * one), -x);
            vstd::arithmetic::div_mod::lemma_div_by_multiple(one, -x);
            vstd::arithmetic::div_mod::lemma_div_multiples_vanish(-one, -x);
            vstd::arithmetic::div_mod::lemma_div_multiples_vanish(one, -x);
        }
    }
}

/// The angle of `(x, y)` in fixed point.
pub fn atan2_fx(y: i64, x: i64) -> (a: i64)
    requires
        in_range(x as int),
        in_range(y as int),
    ensures
        a == atan2_spec(y as int, x as int),
        in_range(a as int),
{
    if x == 0 && y == 0 {
        0
    } else if abs_exec(y) <= abs_exec(x) {
        proof {
            lemma_ratio(y as int, x as int);
        }
        let a = atan_unit(fx_div(y, x));
        if x > 0 {
            a
        } else if y >= 0 {
            clamp_wide(a as i128 + PI as i128)
        } else {
            clamp_wide(a as i128 - PI as i128)
        }
    } else {
        proof {
            lemma_ratio(x as int, y as int);
        }
        let a = atan_unit(fx_div(x, y));
        if y > 0 {
            clamp_wide(HALF_PI as i128 - a as i128)
        } else {
            clamp_wide(-HALF_PI as i128 - a as i128)
        }
    }
}

fn sphere_uv(n: &Vec3) -> (r: (i64, i64))
    requires
        n.wf(),
    ensures
        r.0 == sphere_u(*n),
        r.1 == sphere_v(*n),
{
    let phi = atan2_fx(-n.z, n.x);
    let u = fx_div(clamp_wide(phi as i128 + PI as i128), 2 * PI);
    assert(n.y * n.y >= 0) by (nonlinear_arith);
    let s2 = ONE - fx_mul(n.y, n.y);
    let s = fx_sqrt(if s2 < 0 {
        0
    } else {
        s2
    });
    let theta = atan2_fx(s, -n.y);
    (u, fx_div(theta, PI))
}

/// The record for a hit at parameter `t`: the normal is the outward one,
/// flipped to face the ray.
pub open spec fn sphere_record(s: Sphere, r: Ray, t: int) -> HitRecord {
    let center = center_at(s, r.tm as int);
    let p = at_spec(r, t);
    let outward = div_vec_spec(sub_spec(p, center), s.radius as int);
    let front_face = dot_spec(r.dir, outward) < 0;
    HitRecord {
        p,
        normal: if front_face {
            outward
        } else {
            neg_vec(outward)
        },
        mat: s.mat,
        t: t as i64,
        u: sphere_u(outward) as i64,
        v: sphere_v(outward) as i64,
        front_face,
    }
}

/// The quadratic `|O + tD - C|^2 = r^2` in half-discriminant form: the nearer
/// root if the interval surrounds it, else the farther one, else no hit.
#[verifier::opaque]
pub open spec fn sphere_hit_spec(s: Sphere, r: Ray, t: Interval) -> Option<HitRecord> {
    let center = center_at(s, r.tm as int);
    let oc = sub_spec(center, r.orig);
    let a = dot_spec(r.dir, r.dir);
    let h = dot_spec(r.dir, oc);
    let c = dot_spec(oc, oc) - s.radius * s.radius;
    let disc = h * h - a * c;
    if s.radius == 0 || a == 0 || disc < 0 {
        None
    } else {
        let sq = isqrt_spec(disc);
        let root1 = div_floor((h - sq) * ONE, a);
        let root2 = div_floor((h + sq) * ONE, a);
        if t.surrounds_spec(root1) {
            Some(sphere_record(s, r, root1))
        } else if t.surrounds_spec(root2) {
            Some(sphere_record(s, r, root2))
        } else {
            None
        }
    }
}

impl Sphere {
    pub open spec fn wf(&self) -> bool {
        &&& self.center1.wf()
        &&& self.center_vec.wf()
        &&& 0 <= self.radius <= LIMIT
        &&& self.bbox == if self.is_moving {
            enclose_spec(
                ball_box(self.center1, self.radius as int),
                ball_box(add_spec(self.center1, self.center_vec), self.radius as int),
            )
        } else {
            ball_box(self.center1, self.radius as int)
        }
    }

    /// A static sphere; a negative radius counts as zero.
    pub fn new(center: Point3, radius: i64, mat: usize) -> (r: Sphere)
        requires
            center.wf(),
            radius <= LIMIT,
        ensures
            r.wf(),
            r.center1 == center,
            r.radius == if radius < 0 {
                0
            } else {
                radius
            },
            r.mat == mat,
            !r.is_moving,
    {
        let radius = if radius < 0 {
            0
        } else {
            radius
        };
        let rvec = Vec3::new(radius, radius, radius);
        let bbox = AABB::from_points(&center.sub(&rvec), &center.add(&rvec));
        Sphere {
            center1: center,
            radius,
            mat,
            is_moving: false,
            center_vec: Vec3::zero(),
            bbox,
        }
    }

    /// A sphere moving from `center1` at time 0 to `center2` at time `ONE`.
    pub fn new_moving(center1: Point3, center2: Point3, radius: i64, mat: usize) -> (r: Sphere)
        requires
            center1.wf(),
            center2.wf(),
            radius <= LIMIT,
        ensures
            r.wf(),
            r.center1 == center1,
            r.center_vec == sub_spec(center2, center1),
            r.radius == if radius < 0 {
                0
            } else {
                radius
            },
            r.mat == mat,
            r.is_moving,
    {
        let radius = if radius < 0 {
            0
        } else {
            radius
        };
        let rvec = Vec3::new(radius, radius, radius);
        let center_vec = center2.sub(&center1);
        let c2 = center1.add(&center_vec);
        let box1 = AABB::from_points(&center1.sub(&rvec), &center1.add(&rvec));
        let box2 = AABB::from_points(&c2.sub(&rvec), &c2.add(&rvec));
        Sphere {
            center1,
            radius,
            mat,
            is_moving: true,
            center_vec,
            bbox: AABB::enclose(&box1, &box2),
        }
    }

    fn sphere_center(&self, time: i64) -> (r: Point3)
        requires
            self.wf(),
            0 <= time <= ONE,
        ensures
            r == center_at(*self, time as int),
            r.wf(),
    {
        if self.is_moving {
            self.center1.add(&self.center_vec.scale(time))
        } else {
            self.center1
        }
    }

    fn record(&self, r: &Ray, t: i64, center: &Point3) -> (rec: HitRecord)
        requires
            self.wf(),
            r.wf(),
            self.radius > 0,
            *center == center_at(*self, r.tm as int),
            center.wf(),
        ensures
            rec == sphere_record(*self, *r, t as int),
            rec.wf(),
    {
        let p = r.at(t);
        let outward = p.sub(center).div(self.radius);
        let front_face = r.dir.dot(&outward) < 0;
        let normal = if front_face {
            outward
        } else {
            outward.neg()
        };
        let (u, v) = sphere_uv(&outward);
        HitRecord { p, normal, mat: self.mat, t, u, v, front_face }
    }

    #[verifier::rlimit(40)]
    pub fn hit(&self, r: &Ray, ray_t: Interval) -> (res: Option<HitRecord>)
        requires
            self.wf(),
            r.wf(),
        ensures
            res == sphere_hit_spec(*self, *r, ray_t),
            res matches Some(rec) ==> rec.wf() && rec.mat == self.mat,
    {
        proof {
            reveal(sphere_hit_spec);
        }
        let center = self.sphere_center(r.tm);
        let oc = center.sub(&r.orig);
        let a = r.dir.length_squared();
        let h = r.dir.dot(&oc);
        let oc2 = oc.length_squared();
        proof {
            assert(self.radius * self.radius <= 0x1000000000000000) by (nonlinear_arith)
                requires
                    0 <= self.radius <= 0x40000000,
            ;
        }
        let c = oc2 - (self.radius as i128) * (self.radius as i128);
        proof {
            assert(h * h <= 0x9000000000000000000000000000000) by (nonlinear_arith)
                requires
                    -0x3000000000000000 <= h <= 0x3000000000000000,
            ;
            assert(-0x9000000000000000000000000000000 <= a * c <= 0x9000000000000000000000000000000)
                by (nonlinear_arith)
                requires
                    0 <= a <= 0x3000000000000000,
                    -0x1000000000000000 <= c <= 0x3000000000000000,
            ;
            assert(h * h >= 0) by (nonlinear_arith);
        }
        let disc = h * h - a * c;
        if self.radius == 0 || a == 0 || disc < 0 {
            return None;
        }
        let sq = isqrt(disc as u128);
        proof {
            crate::num::lemma_isqrt_spec(disc as int, sq as int);
            if sq > 0x8000000000000000 {
                assert(sq * sq > 0x8000000000000000 * 0x8000000000000000) by (nonlinear_arith)
                    requires
                        sq > 0x8000000000000000,
                ;
            }
            assert(sq <= 0x8000000000000000);
        }
        let one = ONE as i128;
        let root1 = crate::num::floor_div((h - sq as i128) * one, a);
        let root2 = crate::num::floor_div((h + sq as i128) * one, a);
        if (ray_t.min as i128) < root1 && root1 < (ray_t.max as i128) {
            Some(self.record(r, root1 as i64, &center))
        } else if (ray_t.min as i128) < root2 && root2 < (ray_t.max as i128) {
            Some(self.record(r, root2 as i64, &center))
        } else {
            None
        }
    }
}

/// The parameter of a reported hit, if any.
pub open spec fn t_of(h: Option<HitRecord>) -> Option<int> {
    match h {
        Some(rec) => Some(rec.t as int),
        None => None,
    }
}

/// A reported hit lies on the ray at its parameter.
pub open spec fn on_ray(h: Option<HitRecord>, r: Ray) -> bool {
    h matches Some(rec) ==> rec.p == at_spec(r, rec.t as int)
}

pub proof fn lemma_sphere_on_ray(s: Sphere, r: Ray, t: Interval)
    ensures
        on_ray(sphere_hit_spec(s, r, t), r),
{
    reveal(sphere_hit_spec);
}

/// A sphere reports the least of its roots inside the open interval:
/// lowering the upper end keeps a hit below the new end and drops one at or
/// above it.
pub proof fn lemma_sphere_narrow(s: Sphere, r: Ray, a: i64, b: i64, b2: i64)
    requires
        b2 <= b,
    ensures
        sphere_hit_spec(s, r, Interval { min: a, max: b }) matches Some(rec) ==> a < rec.t < b,
        sphere_hit_spec(s, r, Interval { min: a, max: b }) matches Some(rec) && rec.t < b2 ==> sphere_hit_spec(s, r, Interval { min: a, max: b2 }) == sphere_hit_spec(s, r, Interval { min: a, max: b }),
        sphere_hit_spec(s, r, Interval { min: a, max: b }) matches Some(rec) && rec.t >= b2 ==> sphere_hit_spec(s, r, Interval { min: a, max: b2 }) is None,
        sphere_hit_spec(s, r, Interval { min: a, max: b }) is None ==> sphere_hit_spec(s, r, Interval { min: a, max: b2 }) is None,
{
    reveal(sphere_hit_spec);
    let center = center_at(s, r.tm as int);
    let oc = sub_spec(center, r.orig);
    let aa = dot_spec(r.dir, r.dir);
    let h = dot_spec(r.dir, oc);
    let c = dot_spec(oc, oc) - s.radius * s.radius;
    let disc = h * h - aa * c;
    if !(s.radius == 0 || aa == 0 || disc < 0) {
        crate::num::lemma_isqrt_exists(disc);
        let sq = isqrt_spec(disc);
        assert(aa >= 0) by (nonlinear_arith)
            requires
                aa == r.dir.x * r.dir.x + r.dir.y * r.dir.y + r.dir.z * r.dir.z,
        ;
        assert(((h - sq) * ONE) / aa <= ((h + sq) * ONE) / aa) by (nonlinear_arith)
            requires
                sq >= 0,
                aa > 0,
        {
            vstd::arithmetic::div_mod::lemma_div_is_ordered((h - sq) * ONE, (h + sq) * ONE, aa);
        }
        let root1 = div_floor((h - sq) * ONE, aa);
        let root2 = div_floor((h + sq) * ONE, aa);
        assert(root1 <= root2);
        let hit_a = sphere_hit_spec(s, r, Interval { min: a, max: b });
        if a < root1 && root1 < b {
            assert(hit_a == Some(sphere_record(s, r, root1)));
        } else if a < root2 && root2 < b {
            assert(hit_a == Some(sphere_record(s, r, root2)));
        }
    }
}

/// The surface coordinates where the outward normal is `(0, 0, 1)`: a
/// quarter turn around, halfway down.
proof fn lemma_uv_of_z()
    ensures
        sphere_u(Vec3 { x: 0, y: 0, z: ONE }) == 16383,
        sphere_v(Vec3 { x: 0, y: 0, z: ONE }) == 32768,
{
    let one = ONE as int;
    let n = Vec3 { x: 0, y: 0, z: ONE };
    assert(0 * -one == 0 && 0 * one == 0 && 0 * 0 == 0);
    assert(div_spec(0, -one) == 0);
    assert(div_spec(0, one) == 0);
    assert(mul_spec(QUARTER_PI as int, 0) == 0);
    assert(mul_spec(0, -one) == 0);
    assert(mul_spec(ATAN_B as int, 0) == 0);
    assert(mul_spec(0, ATAN_A as int) == 0);
    assert(atan_spec(0) == 0);
    assert(atan2_spec(-one, 0) == -HALF_PI);
    assert((102943int * 65536int) / 411774int == 16383) by (nonlinear_arith);
    assert(sphere_u(n) == 16383);
    assert(mul_spec(0, 0) == 0);
    assert(one * one == 0x100000000);
    crate::num::lemma_isqrt_spec(one * one, one);
    assert(atan2_spec(one, 0) == HALF_PI);
    assert((102944int * 65536int) / 205887int == 32768) by (nonlinear_arith);
    assert(sphere_v(n) == 32768);
}

/// A ray fired along `-z` from `(0, 0, 2r)` at a sphere of radius `r` about
/// the origin hits it at `t = r`, at `(0, 0, r)`, on the outward side, with
/// normal `(0, 0, 1)`.
pub proof fn lemma_sphere_round_trip(s: Sphere, r: Ray, t: Interval)
    requires
        s.wf(),
        !s.is_moving,
        s.center1 == (Vec3 { x: 0, y: 0, z: 0 }),
        0 < s.radius <= LIMIT / 2,
        r.orig == (Vec3 { x: 0, y: 0, z: (2 * s.radius) as i64 }),
        r.dir == (Vec3 { x: 0, y: 0, z: -ONE as i64 }),
        r.wf(),
        t.surrounds_spec(s.radius as int),
    ensures
        sphere_hit_spec(s, r, t) == Some(
            HitRecord {
                p: Vec3 { x: 0, y: 0, z: s.radius },
                normal: Vec3 { x: 0, y: 0, z: ONE },
                mat: s.mat,
                t: s.radius,
                u: 16383,
                v: 32768,
                front_face: true,
            },
        ),
{
    reveal(sphere_hit_spec);
    let rad = s.radius as int;
    let one = ONE as int;
    let oc = sub_spec(s.center1, r.orig);
    assert(oc == Vec3 { x: 0, y: 0, z: (-2 * rad) as i64 });
    let a = dot_spec(r.dir, r.dir);
    let h = dot_spec(r.dir, oc);
    let c = dot_spec(oc, oc) - rad * rad;
    assert(a == (-one) * (-one));
    assert(a == one * one) by (nonlinear_arith)
        requires
            a == (-one) * (-one),
    ;
    assert(h == 2 * rad * one) by (nonlinear_arith)
        requires
            h == (-one) * (-2 * rad),
    ;
    assert(c == 3 * rad * rad) by (nonlinear_arith)
        requires
            c == (-2 * rad) * (-2 * rad) - rad * rad,
    ;
    let disc = h * h - a * c;
    assert(disc == (rad * one) * (rad * one)) by (nonlinear_arith)
        requires
            disc == h * h - a * c,
            h == 2 * rad * one,
            a == one * one,
            c == 3 * rad * rad,
    ;
    assert(crate::num::is_isqrt(disc, rad * one)) by (nonlinear_arith)
        requires
            disc == (rad * one) * (rad * one),
            rad > 0,
            one > 0,
    ;
    crate::num::lemma_isqrt_spec(disc, rad * one);
    let sq = rad * one;
    assert((h - sq) * one == rad * (one * one)) by (nonlinear_arith)
        requires
            h == 2 * rad * one,
            sq == rad * one,
    ;
    assert(div_floor((h - sq) * one, a) == rad) by (nonlinear_arith)
        requires
            (h - sq) * one == rad * (one * one),
            a == one * one,
            one > 0,
    ;
    let p = at_spec(r, rad);
    assert((rad * (-one)) / one == -rad) by (nonlinear_arith)
        requires
            one > 0,
    ;
    assert(p == Vec3 { x: 0, y: 0, z: rad as i64 });
    let outward = div_vec_spec(sub_spec(p, s.center1), rad);
    assert((rad * one) / rad == one) by (nonlinear_arith)
        requires
            rad > 0,
    ;
    assert(crate::num::div_spec(rad, rad) == one);
    assert(crate::num::div_spec(0, rad) == 0);
    assert(outward == Vec3 { x: 0, y: 0, z: ONE });
    assert(dot_spec(r.dir, outward) == -(one * one)) by (nonlinear_arith)
        requires
            r.dir.x == 0 && r.dir.y == 0 && r.dir.z == -one,
            outward.x == 0 && outward.y == 0 && outward.z == one,
            dot_spec(r.dir, outward) == r.dir.x * outward.x + r.dir.y * outward.y + r.dir.z
                * outward.z,
    ;
    lemma_uv_of_z();
}

} // verus!
