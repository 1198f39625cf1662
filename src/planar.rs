//! Planar shapes: a corner `q` and two edge vectors `u`, `v` spanning a plane.
//! A hit point decomposes as `q + alpha u + beta v`; the shape decides which
//! `(alpha, beta)` it accepts.
use vstd::prelude::*;
use crate::aabb::{enclose_spec, from_points_spec, AABB};
use crate::interval::Interval;
use crate::num::{clamp, clamp_wide, div_floor, floor_div, ONE};
use crate::primitive::HitRecord;
use crate::ray::{at_spec, Ray};
use crate::vec3::{add_spec, cross_spec, dot_spec, sub_spec, unit_spec, Point3, Vec3};

verus! {

#[derive(Clone, Copy, Debug, PartialEq, Eq, Structural)]
pub enum Shape {
    Quad,
    Triangle,
    Circle { radius: i64 },
}

#[derive(Clone, Copy, Debug, PartialEq, Eq, Structural)]
pub struct Planar {
    pub q: Point3,
    pub u: Vec3,
    pub v: Vec3,
    pub n: Vec3,
    pub normal: Vec3,
    pub mat: usize,
    pub bbox: AABB,
    pub shape: Shape,
}

pub open spec fn planar_box(q: Point3, u: Vec3, v: Vec3) -> AABB {
    enclose_spec(
        from_points_spec(q, add_spec(add_spec(q, u), v)),
        from_points_spec(add_spec(q, u), add_spec(q, v)),
    )
}

/// Whether the shape accepts the plane coordinates `an / nn`, `bn / nn`
/// (`alpha`, `beta` are the same rounded to fixed point).
pub open spec fn accepts(shape: Shape, an: int, bn: int, nn: int, alpha: int, beta: int) -> bool {
    match shape {
        Shape::Quad => 0 <= an <= nn && 0 <= bn <= nn,
        Shape::Triangle => an > 0 && bn > 0 && an + bn < nn,
        Shape::Circle { radius } => radius >= 0 && alpha * alpha + beta * beta <= radius * radius,
    }
}

pub open spec fn neg_of(v: Vec3) -> Vec3 {
    Vec3 { x: -v.x as i64, y: -v.y as i64, z: -v.z as i64 }
}

/// Below this, `|unit normal . direction|` (scaled by `ONE * ONE`) counts
/// as parallel: 1e-8 in real units.
pub const PARALLEL: i128 = 43;

/// Intersection with the plane `n . (x - q) = 0`; rays parallel or nearly
/// parallel to the plane miss.
#[verifier::opaque]
pub open spec fn planar_hit_spec(pl: Planar, r: Ray, t: Interval) -> Option<HitRecord> {
    let dn = dot_spec(pl.n, r.dir);
    let du = dot_spec(pl.normal, r.dir);
    if dn == 0 || -PARALLEL < du < PARALLEL {
        None
    } else {
        let tt = div_floor(dot_spec(pl.n, sub_spec(pl.q, r.orig)) * ONE, dn);
        if !t.contains_spec(tt) {
            None
        } else {
            let p = at_spec(r, tt);
            let hp = sub_spec(p, pl.q);
            let nn = dot_spec(pl.n, pl.n);
            let an = dot_spec(pl.n, cross_spec(hp, pl.v));
            let bn = dot_spec(pl.n, cross_spec(pl.u, hp));
            let alpha = clamp(div_floor(an * ONE, nn));
            let beta = clamp(div_floor(bn * ONE, nn));
            if !accepts(pl.shape, an, bn, nn, alpha, beta) {
                None
            } else {
                let front_face = dn < 0;
                Some(
                    HitRecord {
                        p,
                        normal: if front_face {
                            pl.normal
                        } else {
                            neg_of(pl.normal)
                        },
                        mat: pl.mat,
                        t: tt as i64,
                        u: alpha as i64,
                        v: beta as i64,
                        front_face,
                    },
                )
            }
        }
    }
}

impl Planar {
    pub open spec fn wf(&self) -> bool {
        &&& self.q.wf()
        &&& self.u.wf()
        &&& self.v.wf()
        &&& self.n == cross_spec(self.u, self.v)
        &&& self.normal == unit_spec(self.n)
        &&& self.bbox == planar_box(self.q, self.u, self.v)
    }

    pub fn new(q: Point3, u: Vec3, v: Vec3, mat: usize, shape: Shape) -> (r: Planar)
        requires
            q.wf(),
            u.wf(),
            v.wf(),
        ensures
            r.wf(),
            r.q == q,
            r.u == u,
            r.v == v,
            r.mat == mat,
            r.shape == shape,
    {
        let n = u.cross(&v);
        let normal = n.unit_vector();
        let mut planar = Planar { q, u, v, n, normal, mat, bbox: AABB::empty(), shape };
        planar.set_bounding_box();
        planar
    }

    /// The box of the parallelogram, from its two diagonals.
    pub fn set_bounding_box(&mut self)
        requires
            old(self).q.wf(),
            old(self).u.wf(),
            old(self).v.wf(),
        ensures
            *final(self) == (Planar { bbox: planar_box(old(self).q, old(self).u, old(self).v), ..*old(self) }),
    {
        let d1 = AABB::from_points(&self.q, &self.q.add(&self.u).add(&self.v));
        let d2 = AABB::from_points(&self.q.add(&self.u), &self.q.add(&self.v));
        self.bbox = AABB::enclose(&d1, &d2);
    }

    #[verifier::rlimit(40)]
    pub fn hit(&self, r: &Ray, ray_t: Interval) -> (res: Option<HitRecord>)
        requires
            self.wf(),
            r.wf(),
        ensures
            res == planar_hit_spec(*self, *r, ray_t),
            res matches Some(rec) ==> rec.wf() && rec.mat == self.mat,
    {
        proof {
            reveal(planar_hit_spec);
        }
        let dn = self.n.dot(&r.dir);
        proof {
            assert(self.normal.wf()) by {
                assert(self.normal == unit_spec(self.n));
            }
        }
        let du = self.normal.dot(&r.dir);
        if dn == 0 || (-PARALLEL < du && du < PARALLEL) {
            return None;
        }
        let one = ONE as i128;
        let num = self.n.dot(&self.q.sub(&r.orig));
        let tt = floor_div(num * one, dn);
        if !((ray_t.min as i128) <= tt && tt <= (ray_t.max as i128)) {
            return None;
        }
        let t = tt as i64;
        let p = r.at(t);
        let hp = p.sub(&self.q);
        let nn = self.n.length_squared();
        proof {
            if nn == 0 {
                assert(self.n.x * self.n.x >= 0 && self.n.y * self.n.y >= 0 && self.n.z * self.n.z
                    >= 0) by (nonlinear_arith);
                assert(self.n.x * self.n.x == 0 && self.n.y * self.n.y == 0 && self.n.z * self.n.z
                    == 0);
                assert(self.n.x == 0 && self.n.y == 0 && self.n.z == 0) by (nonlinear_arith)
                    requires
                        self.n.x * self.n.x == 0 && self.n.y * self.n.y == 0 && self.n.z
                            * self.n.z == 0,
                ;
                assert(dot_spec(self.n, r.dir) == 0) by (nonlinear_arith)
                    requires
                        self.n.x == 0 && self.n.y == 0 && self.n.z == 0,
                        dot_spec(self.n, r.dir) == self.n.x * r.dir.x + self.n.y * r.dir.y
                            + self.n.z * r.dir.z,
                ;
            }
        }
        let an = self.n.dot(&hp.cross(&self.v));
        let bn = self.n.dot(&self.u.cross(&hp));
        let alpha = clamp_wide(floor_div(an * one, nn));
        let beta = clamp_wide(floor_div(bn * one, nn));
        let ok = match self.shape {
            Shape::Quad => 0 <= an && an <= nn && 0 <= bn && bn <= nn,
            Shape::Triangle => an > 0 && bn > 0 && an + bn < nn,
            Shape::Circle { radius } => {
                proof {
                    crate::num::lemma_mul_in_range(alpha as int, alpha as int);
                    crate::num::lemma_mul_in_range(beta as int, beta as int);
                    assert(radius * radius <= 0x40000000000000000000000000000000) by (
                    nonlinear_arith)
                        requires
                            i64::MIN <= radius <= i64::MAX,
                    ;
                }
                radius >= 0 && (alpha as i128) * (alpha as i128) + (beta as i128) * (beta as i128)
                    <= (radius as i128) * (radius as i128)
            },
        };
        if !ok {
            return None;
        }
        let front_face = dn < 0;
        let normal = if front_face {
            self.normal
        } else {
            self.normal.neg()
        };
        proof {
            assert(self.normal.wf()) by {
                assert(self.normal == unit_spec(self.n));
            }
        }
        Some(HitRecord { p, normal, mat: self.mat, t, u: alpha, v: beta, front_face })
    }
}

} // verus!
