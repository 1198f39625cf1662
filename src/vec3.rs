//! Three-component fixed-point vectors, used for points, directions and colors.
use vstd::prelude::*;
use crate::random::RandomSource;
use crate::num::{
    clamp, clamp_wide, div_spec, fx_div, fx_mul, in_range, isqrt, isqrt_spec, lemma_isqrt_spec, mul_spec, ONE, LIMIT,
};

verus! {

#[derive(Clone, Copy, Debug, PartialEq, Eq, Structural)]
pub struct Vec3 {
    pub x: i64,
    pub y: i64,
    pub z: i64,
}

pub type Point3 = Vec3;

pub type Color = Vec3;

/// A vector whose components are built from exact integer results by saturation.
pub open spec fn clamped(x: int, y: int, z: int) -> Vec3 {
    Vec3 { x: clamp(x) as i64, y: clamp(y) as i64, z: clamp(z) as i64 }
}

/// The exact dot product of the raw components (scaled by `ONE * ONE`).
pub open spec fn dot_spec(a: Vec3, b: Vec3) -> int {
    a.x * b.x + a.y * b.y + a.z * b.z
}

pub open spec fn add_spec(a: Vec3, b: Vec3) -> Vec3 {
    clamped(a.x + b.x, a.y + b.y, a.z + b.z)
}

pub open spec fn sub_spec(a: Vec3, b: Vec3) -> Vec3 {
    clamped(a.x - b.x, a.y - b.y, a.z - b.z)
}

pub open spec fn scale_spec(a: Vec3, s: int) -> Vec3 {
    Vec3 {
        x: mul_spec(a.x as int, s) as i64,
        y: mul_spec(a.y as int, s) as i64,
        z: mul_spec(a.z as int, s) as i64,
    }
}

pub open spec fn mul_each_spec(a: Vec3, b: Vec3) -> Vec3 {
    Vec3 {
        x: mul_spec(a.x as int, b.x as int) as i64,
        y: mul_spec(a.y as int, b.y as int) as i64,
        z: mul_spec(a.z as int, b.z as int) as i64,
    }
}

pub open spec fn div_vec_spec(a: Vec3, s: int) -> Vec3 {
    Vec3 {
        x: div_spec(a.x as int, s) as i64,
        y: div_spec(a.y as int, s) as i64,
        z: div_spec(a.z as int, s) as i64,
    }
}

/// Fixed-point dot product: the exact one rescaled, rounded down, saturated.
pub open spec fn dot_fx_spec(a: Vec3, b: Vec3) -> int {
    clamp(dot_spec(a, b) / (ONE as int))
}

pub open spec fn cross_spec(a: Vec3, b: Vec3) -> Vec3 {
    clamped(
        (a.y * b.z - a.z * b.y) / (ONE as int),
        (a.z * b.x - a.x * b.z) / (ONE as int),
        (a.x * b.y - a.y * b.x) / (ONE as int),
    )
}

/// The vector divided by its length, or zero where the length rounds to zero.
pub open spec fn unit_spec(v: Vec3) -> Vec3 {
    let len = isqrt_spec(dot_spec(v, v));
    if len == 0 {
        Vec3 { x: 0, y: 0, z: 0 }
    } else {
        div_vec_spec(v, len)
    }
}

/// The mirror image of `v` about the plane with normal `n`: `v - 2 (v.n) n`.
pub open spec fn reflect_spec(v: Vec3, n: Vec3) -> Vec3 {
    sub_spec(v, scale_spec(n, clamp(2 * dot_fx_spec(v, n))))
}

/// How many candidates the rejection samplers try before falling back to a
/// fixed point of the ball or disk.
pub const ATTEMPTS: u32 = 64;

/// A nonzero point strictly inside the unit ball.
pub open spec fn in_unit_ball(p: Vec3) -> bool {
    p.wf() && 0 < dot_spec(p, p) < ONE * ONE
}

/// A point strictly inside the unit disk of the xy plane.
pub open spec fn in_unit_disk(p: Vec3) -> bool {
    p.wf() && p.z == 0 && dot_spec(p, p) < ONE * ONE
}

/// A direction obtained by normalizing a point of the unit ball.
pub open spec fn is_unit_draw(u: Vec3) -> bool {
    exists|p: Vec3| in_unit_ball(p) && u == unit_spec(p)
}

pub open spec fn min_one(x: int) -> int {
    if x < ONE {
        x
    } else {
        ONE as int
    }
}

pub open spec fn neg_spec(v: Vec3) -> Vec3 {
    Vec3 { x: -v.x as i64, y: -v.y as i64, z: -v.z as i64 }
}

/// Snell's law for a unit direction `uv` and ratio `e`.
pub open spec fn refract_spec(uv: Vec3, n: Vec3, e: int) -> Vec3 {
    let cos = min_one(dot_fx_spec(neg_spec(uv), n));
    let perp = scale_spec(add_spec(uv, scale_spec(n, cos)), e);
    let k = ONE - dot_fx_spec(perp, perp);
    let par_len = isqrt_spec(clamp(if k < 0 {
        -k
    } else {
        k
    }) * ONE);
    add_spec(perp, scale_spec(n, -par_len))
}

pub fn min_one_exec(x: i64) -> (r: i64)
    ensures
        r == min_one(x as int),
{
    if x < ONE {
        x
    } else {
        ONE
    }
}

pub proof fn lemma_dot_bound(a: Vec3, b: Vec3)
    requires
        a.wf(),
        b.wf(),
    ensures
        -0x3000000000000000 <= dot_spec(a, b) <= 0x3000000000000000,
        a == b ==> dot_spec(a, b) >= 0,
{
    crate::num::lemma_mul_in_range(a.x as int, b.x as int);
    crate::num::lemma_mul_in_range(a.y as int, b.y as int);
    crate::num::lemma_mul_in_range(a.z as int, b.z as int);
    if a == b {
        assert(a.x * a.x >= 0 && a.y * a.y >= 0 && a.z * a.z >= 0) by (nonlinear_arith);
    }
}

impl Vec3 {
    /// Every component lies in the coordinate range.
    pub open spec fn wf(&self) -> bool {
        in_range(self.x as int) && in_range(self.y as int) && in_range(self.z as int)
    }

    pub fn new(x: i64, y: i64, z: i64) -> (r: Vec3)
        ensures
            r == (Vec3 { x, y, z }),
    {
        Vec3 { x, y, z }
    }

    pub fn zero() -> (r: Vec3)
        ensures
            r == (Vec3 { x: 0, y: 0, z: 0 }),
            r.wf(),
    {
        Vec3 { x: 0, y: 0, z: 0 }
    }

    pub fn add(&self, o: &Vec3) -> (r: Vec3)
        requires
            self.wf(),
            o.wf(),
        ensures
            r == add_spec(*self, *o),
            r.wf(),
    {
        Vec3 {
            x: clamp_wide(self.x as i128 + o.x as i128),
            y: clamp_wide(self.y as i128 + o.y as i128),
            z: clamp_wide(self.z as i128 + o.z as i128),
        }
    }

    pub fn sub(&self, o: &Vec3) -> (r: Vec3)
        requires
            self.wf(),
            o.wf(),
        ensures
            r == sub_spec(*self, *o),
            r.wf(),
    {
        Vec3 {
            x: clamp_wide(self.x as i128 - o.x as i128),
            y: clamp_wide(self.y as i128 - o.y as i128),
            z: clamp_wide(self.z as i128 - o.z as i128),
        }
    }

    pub fn neg(&self) -> (r: Vec3)
        requires
            self.wf(),
        ensures
            r == (Vec3 { x: -self.x as i64, y: -self.y as i64, z: -self.z as i64 }),
            r.wf(),
    {
        Vec3 { x: -self.x, y: -self.y, z: -self.z }
    }

    /// Multiplication by a fixed-point scalar.
    pub fn scale(&self, s: i64) -> (r: Vec3)
        requires
            self.wf(),
            in_range(s as int),
        ensures
            r == scale_spec(*self, s as int),
            r.wf(),
    {
        Vec3 { x: fx_mul(self.x, s), y: fx_mul(self.y, s), z: fx_mul(self.z, s) }
    }

    /// Component-wise multiplication (used to filter colors).
    pub fn mul_each(&self, o: &Vec3) -> (r: Vec3)
        requires
            self.wf(),
            o.wf(),
        ensures
            r == mul_each_spec(*self, *o),
            r.wf(),
    {
        Vec3 { x: fx_mul(self.x, o.x), y: fx_mul(self.y, o.y), z: fx_mul(self.z, o.z) }
    }

    /// Division by a nonzero fixed-point scalar.
    pub fn div(&self, s: i64) -> (r: Vec3)
        requires
            self.wf(),
            in_range(s as int),
            s != 0,
        ensures
            r == div_vec_spec(*self, s as int),
            r.wf(),
    {
        Vec3 { x: fx_div(self.x, s), y: fx_div(self.y, s), z: fx_div(self.z, s) }
    }

    /// The exact dot product, scaled by `ONE * ONE`.
    pub fn dot(&self, o: &Vec3) -> (r: i128)
        requires
            self.wf(),
            o.wf(),
        ensures
            r == dot_spec(*self, *o),
            -0x3000000000000000 <= r <= 0x3000000000000000,
    {
        proof {
            lemma_dot_bound(*self, *o);
            crate::num::lemma_mul_in_range(self.x as int, o.x as int);
            crate::num::lemma_mul_in_range(self.y as int, o.y as int);
            crate::num::lemma_mul_in_range(self.z as int, o.z as int);
        }
        (self.x as i128) * (o.x as i128) + (self.y as i128) * (o.y as i128) + (self.z as i128) * (
        o.z as i128)
    }

    /// The dot product as a fixed-point scalar.
    pub fn dot_fx(&self, o: &Vec3) -> (r: i64)
        requires
            self.wf(),
            o.wf(),
        ensures
            r == dot_fx_spec(*self, *o),
            in_range(r as int),
    {
        let d = self.dot(o);
        clamp_wide(crate::num::floor_div(d, ONE as i128))
    }

    /// The exact squared length, scaled by `ONE * ONE`.
    pub fn length_squared(&self) -> (r: i128)
        requires
            self.wf(),
        ensures
            r == dot_spec(*self, *self),
            0 <= r <= 0x3000000000000000,
    {
        proof {
            lemma_dot_bound(*self, *self);
        }
        self.dot(self)
    }

    /// The Euclidean length, rounded down to a fixed-point value.
    pub fn length(&self) -> (r: i64)
        requires
            self.wf(),
        ensures
            r == isqrt_spec(dot_spec(*self, *self)),
            0 <= r <= 2 * LIMIT,
    {
        let n = self.length_squared();
        let s = isqrt(n as u128);
        assert(s <= 2 * LIMIT) by (nonlinear_arith)
            requires
                s * s <= n,
                n <= 0x3000000000000000,
                0 <= s,
        ;
        proof {
            lemma_isqrt_spec(n as int, s as int);
        }
        s as i64
    }

    /// All components are zero.
    pub fn near_zero(&self) -> (r: bool)
        ensures
            r == (self.x == 0 && self.y == 0 && self.z == 0),
    {
        self.x == 0 && self.y == 0 && self.z == 0
    }

    pub fn cross(&self, o: &Vec3) -> (r: Vec3)
        requires
            self.wf(),
            o.wf(),
        ensures
            r == cross_spec(*self, *o),
            r.wf(),
    {
        proof {
            crate::num::lemma_mul_in_range(self.y as int, o.z as int);
            crate::num::lemma_mul_in_range(self.z as int, o.y as int);
            crate::num::lemma_mul_in_range(self.z as int, o.x as int);
            crate::num::lemma_mul_in_range(self.x as int, o.z as int);
            crate::num::lemma_mul_in_range(self.x as int, o.y as int);
            crate::num::lemma_mul_in_range(self.y as int, o.x as int);
        }
        let one = ONE as i128;
        let cx = (self.y as i128) * (o.z as i128) - (self.z as i128) * (o.y as i128);
        let cy = (self.z as i128) * (o.x as i128) - (self.x as i128) * (o.z as i128);
        let cz = (self.x as i128) * (o.y as i128) - (self.y as i128) * (o.x as i128);
        Vec3 {
            x: clamp_wide(crate::num::floor_div(cx, one)),
            y: clamp_wide(crate::num::floor_div(cy, one)),
            z: clamp_wide(crate::num::floor_div(cz, one)),
        }
    }

    /// The vector divided by its length; the zero vector stays zero.
    pub fn unit_vector(&self) -> (r: Vec3)
        requires
            self.wf(),
        ensures
            r == unit_spec(*self),
            r.wf(),
    {
        let len = self.length();
        if len == 0 {
            Vec3::zero()
        } else {
            self.div_wide(len)
        }
    }

    fn div_wide(&self, s: i64) -> (r: Vec3)
        requires
            self.wf(),
            0 < s <= 2 * LIMIT,
        ensures
            r == div_vec_spec(*self, s as int),
            r.wf(),
    {
        let one = ONE as i128;
        Vec3 {
            x: clamp_wide(crate::num::floor_div((self.x as i128) * one, s as i128)),
            y: clamp_wide(crate::num::floor_div((self.y as i128) * one, s as i128)),
            z: clamp_wide(crate::num::floor_div((self.z as i128) * one, s as i128)),
        }
    }

    /// Each component drawn uniformly in `[0, ONE)`.
    pub fn random(rng: &mut RandomSource) -> (r: Vec3)
        ensures
            0 <= r.x < ONE && 0 <= r.y < ONE && 0 <= r.z < ONE,
    {
        Vec3 { x: rng.draw(0, ONE), y: rng.draw(0, ONE), z: rng.draw(0, ONE) }
    }

    /// Each component drawn uniformly in `[min, max)`.
    pub fn random_range(rng: &mut RandomSource, min: i64, max: i64) -> (r: Vec3)
        requires
            min < max,
        ensures
            min <= r.x < max && min <= r.y < max && min <= r.z < max,
    {
        Vec3 { x: rng.draw(min, max), y: rng.draw(min, max), z: rng.draw(min, max) }
    }

    /// A nonzero point of the unit ball, by rejection sampling in the cube
    /// around it.
    pub fn random_in_unit_sphere(rng: &mut RandomSource) -> (r: Vec3)
        ensures
            in_unit_ball(r),
    {
        let mut attempt: u32 = 0;
        while attempt < ATTEMPTS
            decreases ATTEMPTS - attempt,
        {
            let p = Vec3::random_range(rng, -ONE, ONE);
            let lsq = p.length_squared();
            if 0 < lsq && lsq < 0x100000000 {
                return p;
            }
            attempt = attempt + 1;
        }
        Vec3 { x: 0, y: 0, z: 32768 }
    }

    /// A point of the unit disk in the xy plane, by rejection sampling.
    pub fn random_in_unit_disk(rng: &mut RandomSource) -> (r: Vec3)
        ensures
            in_unit_disk(r),
    {
        let mut attempt: u32 = 0;
        while attempt < ATTEMPTS
            decreases ATTEMPTS - attempt,
        {
            let p = Vec3 { x: rng.draw(-ONE, ONE), y: rng.draw(-ONE, ONE), z: 0 };
            if p.length_squared() < 0x100000000 {
                return p;
            }
            attempt = attempt + 1;
        }
        Vec3 { x: 0, y: 0, z: 0 }
    }

    /// A unit vector in a uniformly random direction.
    pub fn random_unit_vector(rng: &mut RandomSource) -> (r: Vec3)
        ensures
            is_unit_draw(r),
            r.wf(),
    {
        let p = Vec3::random_in_unit_sphere(rng);
        let u = p.unit_vector();
        assert(in_unit_ball(p) && u == unit_spec(p));
        u
    }

    /// A random unit vector, flipped into the hemisphere around `normal`.
    pub fn random_on_hemisphere(rng: &mut RandomSource, normal: &Vec3) -> (r: Vec3)
        requires
            normal.wf(),
        ensures
            exists|u: Vec3|
                is_unit_draw(u) && u.wf() && r == if dot_spec(u, *normal) > 0 {
                    u
                } else {
                    neg_spec(u)
                },
    {
        let u = Vec3::random_unit_vector(rng);
        let r = if u.dot(normal) > 0 {
            u
        } else {
            u.neg()
        };
        assert(is_unit_draw(u) && u.wf() && r == if dot_spec(u, *normal) > 0 {
            u
        } else {
            neg_spec(u)
        });
        r
    }

    /// Snell's law for this unit direction about the normal `n`, ratio `e`.
    pub fn refract(&self, n: &Vec3, e: i64) -> (r: Vec3)
        requires
            self.wf(),
            n.wf(),
            in_range(e as int),
        ensures
            r == refract_spec(*self, *n, e as int),
            r.wf(),
    {
        let cos = min_one_exec(self.neg().dot_fx(n));
        let perp = self.add(&n.scale(cos)).scale(e);
        let k = ONE as i128 - perp.dot_fx(&perp) as i128;
        let ak = if k < 0 {
            -k
        } else {
            k
        };
        let par_len = crate::num::fx_sqrt(clamp_wide(ak));
        perp.add(&n.scale(-par_len))
    }

    /// The mirror image about the plane with normal `n`.
    pub fn reflect(&self, n: &Vec3) -> (r: Vec3)
        requires
            self.wf(),
            n.wf(),
        ensures
            r == reflect_spec(*self, *n),
            r.wf(),
    {
        let d = self.dot_fx(n);
        let k = clamp_wide(2 * (d as i128));
        self.sub(&n.scale(k))
    }
}

} // verus!
