//! Participating media of constant density inside a closed convex boundary.
//! The free-flight distance is `-ln(u) / density` for a uniform `u`, drawn
//! statelessly from a hash of the ray so that intersection stays a pure
//! function of its inputs.
use vstd::prelude::*;
use crate::aabb::AABB;
use crate::num::{div_floor, div_spec, isqrt_spec, mul_spec, ONE};
use crate::primitive::HitRecord;
use crate::ray::{at_spec, Ray};
use crate::interval::{sat, Interval};
use crate::vec3::{dot_spec, Vec3};

verus! {

/// The gap kept between the entry point and the search for the exit (0.0001).
pub const MEDIUM_EPS: i64 = 7;

/// ln 2 in fixed point.
pub const LN2: i64 = 45426;

#[derive(Clone, Copy, Debug, PartialEq, Eq, Structural)]
pub struct ConstantMedium {
    pub boundary: usize,
    pub density: i64,
    pub phase_function: usize,
    pub bbox: AABB,
}

pub open spec fn wrap(x: int) -> u64 {
    (x % 0x10000000000000000) as u64
}

/// The splitmix64 finalizer.
#[verifier::opaque]
pub open spec fn mix_spec(x: u64) -> u64 {
    let a = x ^ (x >> 30u64);
    let b = wrap(a as int * 0xbf58476d1ce4e5b9);
    let c = b ^ (b >> 27u64);
    let d = wrap(c as int * 0x94d049bb133111eb);
    d ^ (d >> 31u64)
}

pub open spec fn fold_mix(h: u64, x: i64) -> u64 {
    mix_spec(h ^ (x as u64))
}

/// A draw in `[1, ONE]` determined by the ray and the entry parameter.
#[verifier::opaque]
pub open spec fn draw_spec(r: Ray, t: int) -> int {
    let h = fold_mix(fold_mix(fold_mix(fold_mix(fold_mix(fold_mix(fold_mix(mix_spec(t as i64 as u64),
        r.orig.x), r.orig.y), r.orig.z), r.dir.x), r.dir.y), r.dir.z), r.tm);
    (h >> 48u64) as int + 1
}

/// `u` doubled until it reaches `[ONE, 2 ONE)`, with the number of doublings.
pub open spec fn normalize(u: int, k: int) -> (int, int)
    decreases 2 * (ONE as int) - u,
{
    if u <= 0 || u >= ONE {
        (u, k)
    } else {
        normalize(2 * u, k + 1)
    }
}

/// The binary fraction of `log2(y / ONE)` for `y` in `[ONE, 2 ONE)`, bits
/// from `bit` downward, by repeated squaring.
pub open spec fn log2_bits(y: int, bit: int) -> int
    decreases bit,
{
    if bit <= 0 {
        0
    } else {
        let y2 = (y * y) / (ONE as int);
        if y2 >= 2 * ONE {
            bit + log2_bits(y2 / 2, bit / 2)
        } else {
            log2_bits(y2, bit / 2)
        }
    }
}

/// `-ln(u / ONE)` in fixed point, for `u` in `[1, ONE]`.
#[verifier::opaque]
pub open spec fn neg_log_spec(u: int) -> int {
    let (y, k) = normalize(u, 0);
    mul_spec(k * ONE - log2_bits(y, ONE / 2), LN2 as int)
}

proof fn lemma_log2_bits_bound(y: int, bit: int)
    ensures
        0 <= log2_bits(y, bit),
        bit > 0 ==> log2_bits(y, bit) < 2 * bit,
        y == ONE ==> log2_bits(y, bit) == 0,
    decreases bit,
{
    if bit > 0 {
        let y2 = (y * y) / (ONE as int);
        if y == ONE {
            assert((65536int * 65536int) / 65536int == 65536int) by (nonlinear_arith);
            assert(y2 == ONE);
        }
        if y2 >= 2 * ONE {
            lemma_log2_bits_bound(y2 / 2, bit / 2);
        } else {
            lemma_log2_bits_bound(y2, bit / 2);
        }
    }
}

proof fn lemma_normalize(u: int, k: int)
    requires
        1 <= u < 2 * ONE,
    ensures
        normalize(u, k).1 >= k,
        normalize(u, k).1 == k ==> u >= ONE && normalize(u, k).0 == u,
    decreases 2 * (ONE as int) - u,
{
    if u < ONE {
        lemma_normalize(2 * u, k + 1);
    }
}

/// The free-flight logarithm is never negative, and zero for a draw of one.
pub proof fn lemma_neg_log(u: int)
    requires
        1 <= u <= ONE,
    ensures
        neg_log_spec(u) >= 0,
        u == ONE ==> neg_log_spec(u) == 0,
{
    reveal(neg_log_spec);
    lemma_normalize(u, 0);
    let (y, k) = normalize(u, 0);
    lemma_log2_bits_bound(y, ONE / 2);
    let x = k * ONE - log2_bits(y, ONE / 2);
    if k >= 1 {
        assert(k * ONE >= ONE) by (nonlinear_arith)
            requires
                k >= 1,
        ;
    }
    assert(x >= 0);
    assert(x * LN2 >= 0) by (nonlinear_arith)
        requires
            x >= 0,
    ;
}

#[verifier::opaque]
pub open spec fn medium_hit_spec(m: ConstantMedium, r: Ray, t: Interval, rec1: HitRecord, rec2: Option<HitRecord>) -> Option<HitRecord> {
    match rec2 {
        None => None,
        Some(rec2) => {
            let t1 = if rec1.t < t.min {
                t.min as int
            } else {
                rec1.t as int
            };
            let t2 = if rec2.t > t.max {
                t.max as int
            } else {
                rec2.t as int
            };
            if t1 >= t2 {
                None
            } else {
                let t1 = if t1 < 0 {
                    0
                } else {
                    t1
                };
                let len = isqrt_spec(dot_spec(r.dir, r.dir));
                if len == 0 {
                    None
                } else {
                    let inside = ((t2 - t1) * len) / (ONE as int);
                    let hd = div_spec(neg_log_spec(draw_spec(r, t1)), m.density as int);
                    if m.density == 0 || hd > inside {
                        None
                    } else {
                        let tt = sat(t1 + div_floor(hd * ONE, len));
                        Some(
                            HitRecord {
                                p: at_spec(r, tt),
                                normal: Vec3 { x: ONE, y: 0, z: 0 },
                                mat: m.phase_function,
                                t: tt as i64,
                                u: rec2.u,
                                v: rec2.v,
                                front_face: true,
                            },
                        )
                    }
                }
            }
        },
    }
}

pub fn mix(x: u64) -> (r: u64)
    ensures
        r == mix_spec(x),
{
    proof {
        reveal(mix_spec);
    }
    let a = x ^ (x >> 30u64);
    let b = a.wrapping_mul(0xbf58476d1ce4e5b9);
    let c = b ^ (b >> 27u64);
    let d = c.wrapping_mul(0x94d049bb133111eb);
    d ^ (d >> 31u64)
}

fn draw(r: &Ray, t: i64) -> (u: i64)
    ensures
        u == draw_spec(*r, t as int),
        1 <= u <= ONE,
{
    proof {
        reveal(draw_spec);
    }
    let mut h = mix(t as u64);
    h = mix(h ^ (r.orig.x as u64));
    h = mix(h ^ (r.orig.y as u64));
    h = mix(h ^ (r.orig.z as u64));
    h = mix(h ^ (r.dir.x as u64));
    h = mix(h ^ (r.dir.y as u64));
    h = mix(h ^ (r.dir.z as u64));
    h = mix(h ^ (r.tm as u64));
    assert(h >> 48u64 <= 0xffff) by (bit_vector);
    ((h >> 48u64) as i64) + 1
}

/// `-ln(u / ONE)` in fixed point, by the binary logarithm.
pub fn neg_log(u: i64) -> (r: i64)
    requires
        1 <= u <= ONE,
    ensures
        r == neg_log_spec(u as int),
        crate::num::in_range(r as int),
{
    proof {
        reveal(neg_log_spec);
    }
    let mut y = u;
    let mut k: i64 = 0;
    proof {
        reveal_with_fuel(crate::num::pow2_spec, 17);
        assert(crate::num::pow2_spec(16) == 65536);
    }
    while y < ONE
        invariant
            1 <= y < 2 * ONE,
            0 <= k <= 16,
            y >= crate::num::pow2_spec(k as int),
            crate::num::pow2_spec(16) == 65536,
            normalize(y as int, k as int) == normalize(u as int, 0),
        decreases 2 * ONE - y,
    {
        proof {
            crate::num::lemma_pow2_step(k as int);
        }
        y = 2 * y;
        k = k + 1;
    }
    let ghost y0 = y;
    let mut bits: i64 = 0;
    let mut bit: i64 = ONE / 2;
    while bit > 0
        invariant
            ONE <= y < 2 * ONE,
            0 <= bit <= ONE / 2,
            0 <= bits < ONE,
            bits + log2_bits(y as int, bit as int) == log2_bits(y0 as int, ONE / 2),
            bits + 2 * bit <= ONE,
        decreases bit,
    {
        proof {
            assert(ONE * ONE <= y * y < 4 * ONE * ONE) by (nonlinear_arith)
                requires
                    ONE <= y < 2 * ONE,
            ;
        }
        let y2 = (y * y) / ONE;
        if y2 >= 2 * ONE {
            bits = bits + bit;
            y = y2 / 2;
        } else {
            y = y2;
        }
        bit = bit / 2;
    }
    crate::num::fx_mul(clamp_small(k * ONE - bits), LN2)
}

impl ConstantMedium {
    pub open spec fn wf(&self) -> bool {
        0 <= self.density <= crate::num::LIMIT
    }

    /// Decides the scattering event from the boundary's entry and exit
    /// records: the ray passes through when the sampled free flight exceeds
    /// the distance it travels inside.
    pub fn scatter_within(&self, r: &Ray, ray_t: Interval, rec1: &HitRecord, rec2: Option<HitRecord>) -> (res: Option<HitRecord>)
        requires
            self.wf(),
            r.wf(),
        ensures
            res == medium_hit_spec(*self, *r, ray_t, *rec1, rec2),
            res matches Some(rec) ==> rec.wf() && rec.mat == self.phase_function,
    {
        proof {
            reveal(medium_hit_spec);
        }
        match rec2 {
            None => None,
            Some(rec2) => {
                let t1 = if rec1.t < ray_t.min {
                    ray_t.min
                } else {
                    rec1.t
                };
                let t2 = if rec2.t > ray_t.max {
                    ray_t.max
                } else {
                    rec2.t
                };
                if t1 >= t2 {
                    return None;
                }
                let t1 = if t1 < 0 {
                    0
                } else {
                    t1
                };
                let len = r.dir.length();
                if len == 0 {
                    return None;
                }
                proof {
                    assert(-0x10000000000000000 * 0x80000000 <= (t2 - t1) * len <= 0x10000000000000000 * 0x80000000) by (nonlinear_arith)
                        requires
                            -0x10000000000000000 <= t2 - t1 <= 0x10000000000000000,
                            0 <= len <= 0x80000000,
                    ;
                }
                let inside = crate::num::floor_div((t2 as i128 - t1 as i128) * (len as i128), ONE as i128);
                let u = draw(r, t1);
                let nl = neg_log(u);
                if self.density == 0 {
                    return None;
                }
                let hd = crate::num::fx_div(nl, self.density);
                if hd as i128 > inside {
                    return None;
                }
                let step = crate::num::floor_div((hd as i128) * (ONE as i128), len as i128);
                proof {
                    crate::num::lemma_div_bounded_pub(hd * ONE, len as int);
                }
                let tt = crate::interval::sat_wide(t1 as i128 + step);
                Some(HitRecord {
                    p: r.at(tt),
                    normal: Vec3::new(ONE, 0, 0),
                    mat: self.phase_function,
                    t: tt,
                    u: rec2.u,
                    v: rec2.v,
                    front_face: true,
                })
            },
        }
    }
}

fn clamp_small(x: i64) -> (r: i64)
    requires
        -ONE <= x <= 17 * ONE,
    ensures
        r == x,
        crate::num::in_range(r as int),
{
    x
}

} // verus!
