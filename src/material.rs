//! Materials: how a surface scatters an incoming ray and what it emits.
use vstd::prelude::*;
use crate::num::{clamp, div_spec, fx_div, fx_mul, fx_sqrt, in_range, isqrt_spec, mul_spec, ONE};
use crate::primitive::HitRecord;
use crate::random::RandomSource;
use crate::ray::Ray;
use crate::texture::{lemma_value_wf, texture_wf, value_spec, Texture};
use crate::vec3::{
    add_spec, dot_fx_spec, dot_spec, in_unit_ball, is_unit_draw, min_one, min_one_exec, neg_spec,
    reflect_spec, refract_spec, scale_spec, unit_spec, Color, Vec3,
};

verus! {

pub enum Material {
    Lambertian { tex: Texture },
    Metal { albedo: Color, fuzz: i64 },
    Dielectric { refraction_index: i64 },
    DiffuseLight { tex: Texture },
    Isotropic { tex: Texture },
}

pub open spec fn white() -> Color {
    Vec3 { x: ONE, y: ONE, z: ONE }
}

pub open spec fn zero_vec() -> Vec3 {
    Vec3 { x: 0, y: 0, z: 0 }
}

/// Normal plus a random unit vector, or the normal where they cancel.
pub open spec fn lambert_dir(n: Vec3, u: Vec3) -> Vec3 {
    let s = add_spec(n, u);
    if s == zero_vec() {
        n
    } else {
        s
    }
}

pub open spec fn clamp_fuzz(f: int) -> int {
    if f < 0 {
        0
    } else if f > ONE {
        ONE as int
    } else {
        f
    }
}

/// The mirrored direction, normalized, perturbed by `fuzz * u`.
pub open spec fn metal_dir(d: Vec3, n: Vec3, fuzz: int, u: Vec3) -> Vec3 {
    let reflected = unit_spec(reflect_spec(d, n));
    if fuzz == 0 {
        reflected
    } else {
        add_spec(reflected, scale_spec(u, fuzz))
    }
}

/// The ratio of refraction indices seen by a ray entering or leaving.
pub open spec fn ratio_spec(front_face: bool, ior: int) -> int {
    if front_face {
        div_spec(ONE as int, ior)
    } else {
        ior
    }
}

pub open spec fn cos_spec(unit_d: Vec3, n: Vec3) -> int {
    min_one(dot_fx_spec(neg_spec(unit_d), n))
}

pub open spec fn sin_spec(cos: int) -> int {
    let s2 = ONE - mul_spec(cos, cos);
    isqrt_spec((if s2 < 0 {
        0
    } else {
        s2
    }) * ONE)
}

/// Schlick's approximation of the reflectance.
pub open spec fn reflectance_spec(cos: int, ri: int) -> int {
    let r0 = div_spec(clamp(ONE - ri), clamp(ONE + ri));
    let r0sq = mul_spec(r0, r0);
    let x = clamp(ONE - cos);
    let x5 = mul_spec(mul_spec(mul_spec(mul_spec(x, x), x), x), x);
    clamp(r0sq + mul_spec(clamp(ONE - r0sq), x5))
}

/// The direction a dielectric sends the ray in, given a uniform draw in `[0, ONE)`.
pub open spec fn dielectric_dir(d: Vec3, rec: HitRecord, ior: int, draw: int) -> Vec3 {
    let ri = ratio_spec(rec.front_face, ior);
    let unit_d = unit_spec(d);
    let cos = cos_spec(unit_d, rec.normal);
    let sin = sin_spec(cos);
    if mul_spec(ri, sin) > ONE || reflectance_spec(cos, ri) > draw {
        reflect_spec(unit_d, rec.normal)
    } else {
        refract_spec(unit_d, rec.normal, ri)
    }
}

pub open spec fn continued(rec: HitRecord, r_in: Ray, dir: Vec3) -> Ray {
    Ray { orig: rec.p, dir, tm: r_in.tm }
}

/// What scattering may return, whatever the random draws were.
pub open spec fn scatter_spec(m: Material, r_in: Ray, rec: HitRecord, res: Option<(Ray, Color)>) -> bool {
    match m {
        Material::Lambertian { tex } => exists|u: Vec3|
            is_unit_draw(u) && res == Some(
                (continued(rec, r_in, lambert_dir(rec.normal, u)), value_spec(tex, rec.p)),
            ),
        Material::Metal { albedo, fuzz } => exists|u: Vec3|
            is_unit_draw(u) && ({
                let dir = metal_dir(r_in.dir, rec.normal, clamp_fuzz(fuzz as int), u);
                res == if dot_spec(dir, rec.normal) > 0 {
                    Some((continued(rec, r_in, dir), albedo))
                } else {
                    None
                }
            }),
        Material::Dielectric { refraction_index } => exists|draw: int|
            0 <= draw < ONE && res == Some(
                (
                    continued(
                        rec,
                        r_in,
                        dielectric_dir(r_in.dir, rec, refraction_index as int, draw),
                    ),
                    white(),
                ),
            ),
        Material::DiffuseLight { .. } => res is None,
        Material::Isotropic { tex } => exists|u: Vec3|
            is_unit_draw(u) && res == Some((continued(rec, r_in, u), value_spec(tex, rec.p))),
    }
}

pub open spec fn emitted_spec(m: Material, p: Vec3) -> Color {
    match m {
        Material::DiffuseLight { tex } => value_spec(tex, p),
        _ => zero_vec(),
    }
}

pub open spec fn material_wf(m: Material) -> bool {
    match m {
        Material::Lambertian { tex } => texture_wf(tex),
        Material::Metal { albedo, fuzz } => albedo.wf(),
        Material::Dielectric { refraction_index } => 0 < refraction_index <= crate::num::LIMIT,
        Material::DiffuseLight { tex } => texture_wf(tex),
        Material::Isotropic { tex } => texture_wf(tex),
    }
}

fn reflectance(cos: i64, ri: i64) -> (r: i64)
    requires
        in_range(cos as int),
        0 < ri <= crate::num::LIMIT,
    ensures
        r == reflectance_spec(cos as int, ri as int),
        in_range(r as int),
{
    let r0 = fx_div(
        crate::num::clamp_wide(ONE as i128 - ri as i128),
        crate::num::clamp_wide(ONE as i128 + ri as i128),
    );
    let r0sq = fx_mul(r0, r0);
    let x = crate::num::clamp_wide(ONE as i128 - cos as i128);
    let x5 = fx_mul(fx_mul(fx_mul(fx_mul(x, x), x), x), x);
    crate::num::clamp_wide(
        r0sq as i128 + fx_mul(crate::num::clamp_wide(ONE as i128 - r0sq as i128), x5) as i128,
    )
}

impl Material {
    /// The continuation ray and its attenuation, or `None` where the surface
    /// absorbs the ray.
    pub fn scatter(&self, r_in: &Ray, rec: &HitRecord, rng: &mut RandomSource) -> (res: Option<
        (Ray, Color),
    >)
        requires
            material_wf(*self),
            r_in.wf(),
            rec.wf(),
        ensures
            scatter_spec(*self, *r_in, *rec, res),
            res matches Some((s, a)) ==> s.wf() && a.wf(),
            self matches Material::Metal { fuzz, .. } && clamp_fuzz(fuzz as int) == 0 ==> res
                == (if dot_spec(unit_spec(reflect_spec(r_in.dir, rec.normal)), rec.normal) > 0 {
                Some(
                    (
                        continued(*rec, *r_in, unit_spec(reflect_spec(r_in.dir, rec.normal))),
                        self->albedo,
                    ),
                )
            } else {
                None
            }) && *final(rng) == *old(rng),
            self matches Material::Dielectric { .. } ==> res matches Some((_, a)) && a == white(),
    {
        match self {
            Material::Lambertian { tex } => {
                let u = Vec3::random_unit_vector(rng);
                let s = rec.normal.add(&u);
                let dir = if s.near_zero() {
                    rec.normal
                } else {
                    s
                };
                proof {
                    lemma_value_wf(*tex, rec.p);
                    assert((s.x == 0 && s.y == 0 && s.z == 0) <==> s == zero_vec());
                    assert(lambert_dir(rec.normal, u) == dir);
                }
                let res = Some((Ray::new(rec.p, dir, r_in.tm), tex.value(rec.u, rec.v, &rec.p)));
                assert(is_unit_draw(u) && res == Some(
                    (continued(*rec, *r_in, lambert_dir(rec.normal, u)), value_spec(*tex, rec.p)),
                ));
                res
            },
            Material::Metal { albedo, fuzz } => {
                let f = if *fuzz < 0 {
                    0
                } else if *fuzz > ONE {
                    ONE
                } else {
                    *fuzz
                };
                let reflected = r_in.dir.reflect(&rec.normal).unit_vector();
                let ghost mut w: Vec3;
                let dir = if f == 0 {
                    proof {
                        let p = Vec3 { x: 0, y: 0, z: 32768 };
                        assert(in_unit_ball(p));
                        w = unit_spec(p);
                    }
                    reflected
                } else {
                    let u = Vec3::random_unit_vector(rng);
                    proof {
                        w = u;
                    }
                    reflected.add(&u.scale(f))
                };
                assert(is_unit_draw(w));
                assert(metal_dir(r_in.dir, rec.normal, f as int, w) == dir);
                let res = if dir.dot(&rec.normal) > 0 {
                    Some((Ray::new(rec.p, dir, r_in.tm), *albedo))
                } else {
                    None
                };
                assert(is_unit_draw(w) && ({
                    let dir = metal_dir(r_in.dir, rec.normal, clamp_fuzz(*fuzz as int), w);
                    res == if dot_spec(dir, rec.normal) > 0 {
                        Some((continued(*rec, *r_in, dir), *albedo))
                    } else {
                        None
                    }
                }));
                res
            },
            Material::Dielectric { refraction_index } => {
                let ri = if rec.front_face {
                    fx_div(ONE, *refraction_index)
                } else {
                    *refraction_index
                };
                proof {
                    if rec.front_face {
                        let ior = *refraction_index as int;
                        assert((65536int * 65536int) / ior >= 1) by (nonlinear_arith)
                            requires
                                0 < ior <= 0x40000000,
                        ;
                    }
                }
                let unit_d = r_in.dir.unit_vector();
                let cos = min_one_exec(unit_d.neg().dot_fx(&rec.normal));
                assert(cos * cos >= 0) by (nonlinear_arith);
                let s2 = ONE as i128 - fx_mul(cos, cos) as i128;
                let sin = fx_sqrt(
                    if s2 < 0 {
                        0
                    } else {
                        s2 as i64
                    },
                );
                let draw = rng.draw(0, ONE);
                let dir = if fx_mul(ri, sin) > ONE || reflectance(cos, ri) > draw {
                    unit_d.reflect(&rec.normal)
                } else {
                    unit_d.refract(&rec.normal, ri)
                };
                let res = Some((Ray::new(rec.p, dir, r_in.tm), Vec3::new(ONE, ONE, ONE)));
                assert(0 <= draw < ONE && res == Some(
                    (
                        continued(
                            *rec,
                            *r_in,
                            dielectric_dir(r_in.dir, *rec, *refraction_index as int, draw as int),
                        ),
                        white(),
                    ),
                ));
                res
            },
            Material::DiffuseLight { .. } => None,
            Material::Isotropic { tex } => {
                let u = Vec3::random_unit_vector(rng);
                proof {
                    lemma_value_wf(*tex, rec.p);
                }
                let res = Some((Ray::new(rec.p, u, r_in.tm), tex.value(rec.u, rec.v, &rec.p)));
                assert(is_unit_draw(u) && res == Some(
                    (continued(*rec, *r_in, u), value_spec(*tex, rec.p)),
                ));
                res
            },
        }
    }

    /// Emitted light: the texture's color for a light, black otherwise.
    pub fn emitted(&self, u: i64, v: i64, p: &Vec3) -> (r: Color)
        requires
            material_wf(*self),
            p.wf(),
        ensures
            r == emitted_spec(*self, *p),
            r.wf(),
    {
        match self {
            Material::DiffuseLight { tex } => tex.value(u, v, p),
            _ => Vec3::zero(),
        }
    }
}

} // verus!
