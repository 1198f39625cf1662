//! The path-tracing integrator and the per-pixel reduction.
use vstd::prelude::*;
use crate::interval::Interval;
use crate::material::{emitted_spec, scatter_spec};
use crate::num::{clamp, clamp_wide, fx_sqrt, isqrt_spec, in_range, ONE};
use crate::primitive::{hit_spec, Scene};
use crate::random::RandomSource;
use crate::ray::Ray;
use crate::vec3::{add_spec, mul_each_spec, Color, Vec3};

verus! {

/// The smallest parameter at which a bounce may hit again (0.001), which
/// keeps a ray from hitting the surface it leaves.
pub const T_MIN: i64 = 66;

/// The interval searched by every bounce.
pub open spec fn bounce_interval() -> Interval {
    Interval { min: T_MIN, max: i64::MAX }
}

/// `c` is a possible estimate of the radiance along `r` with `depth` bounces
/// left: each scattered ray's own estimate is one of its possible estimates
/// with one bounce fewer.
pub open spec fn radiance_step(s: Scene, world: int, r: Ray, depth: int, background: Color, c: Color) -> bool
    decreases depth,
{
    if depth <= 0 {
        c == Vec3 { x: 0, y: 0, z: 0 }
    } else {
        match hit_spec(s.objects@, world, r, bounce_interval()) {
            None => c == background,
            Some(rec) => {
                let m = s.materials@[rec.mat as int];
                let emitted = emitted_spec(m, rec.p);
                (scatter_spec(m, r, rec, None) && c == emitted) || exists|scattered: Ray, att: Color, deeper: Color|
                    scatter_spec(m, r, rec, Some((scattered, att))) && deeper.wf() && radiance_step(
                        s,
                        world,
                        scattered,
                        depth - 1,
                        background,
                        deeper,
                    ) && c == add_spec(
                        emitted,
                        mul_each_spec(att, deeper),
                    )
            },
        }
    }
}

/// The radiance carried back along `r` from primitive `world`: black once
/// `depth` bounces are used up, the background on a miss, else emission plus
/// attenuated radiance of the scattered ray.
pub fn ray_color(scene: &Scene, world: usize, r: &Ray, depth: i32, background: &Color, rng: &mut RandomSource) -> (c: Color)
    requires
        scene.wf(),
        world < scene.objects@.len(),
        r.wf(),
        background.wf(),
    ensures
        radiance_step(*scene, world as int, *r, depth as int, *background, c),
        c.wf(),
    decreases depth,
{
    if depth <= 0 {
        return Vec3::zero();
    }
    match scene.hit(world, r, Interval::new(T_MIN, i64::MAX)) {
        None => *background,
        Some(rec) => {
            let m = &scene.materials[rec.mat];
            proof {
                scene.lemma_wf_material(rec.mat as int);
            }
            let emitted = m.emitted(rec.u, rec.v, &rec.p);
            match m.scatter(r, &rec, rng) {
                None => emitted,
                Some((scattered, att)) => {
                    let deeper = ray_color(scene, world, &scattered, depth - 1, background, rng);
                    let c = emitted.add(&att.mul_each(&deeper));
                    assert(scatter_spec(*m, *r, rec, Some((scattered, att))) && deeper.wf()
                        && radiance_step(*scene, world as int, scattered, depth - 1, *background, deeper)
                        && c == add_spec(emitted, mul_each_spec(att, deeper)));
                    c
                },
            }
        },
    }
}

/// The sum of one component over the first `n` colors.
pub open spec fn sum_x(cs: Seq<Color>, n: int) -> int
    decreases n,
{
    if n <= 0 {
        0
    } else {
        sum_x(cs, n - 1) + cs[n - 1].x
    }
}

pub open spec fn sum_y(cs: Seq<Color>, n: int) -> int
    decreases n,
{
    if n <= 0 {
        0
    } else {
        sum_y(cs, n - 1) + cs[n - 1].y
    }
}

pub open spec fn sum_z(cs: Seq<Color>, n: int) -> int
    decreases n,
{
    if n <= 0 {
        0
    } else {
        sum_z(cs, n - 1) + cs[n - 1].z
    }
}

/// The arithmetic mean of the samples, rounded down.
pub fn average(samples: &Vec<Color>) -> (c: Color)
    requires
        0 < samples@.len() <= 0x100000000,
        forall|i: int| 0 <= i < samples@.len() ==> (#[trigger] samples@[i]).wf(),
    ensures
        c.x == clamp(sum_x(samples@, samples@.len() as int) / (samples@.len() as int)),
        c.y == clamp(sum_y(samples@, samples@.len() as int) / (samples@.len() as int)),
        c.z == clamp(sum_z(samples@, samples@.len() as int) / (samples@.len() as int)),
        c.wf(),
{
    let mut sx: i128 = 0;
    let mut sy: i128 = 0;
    let mut sz: i128 = 0;
    let mut i: usize = 0;
    while i < samples.len()
        invariant
            0 <= i <= samples@.len() <= 0x100000000,
            forall|k: int| 0 <= k < samples@.len() ==> (#[trigger] samples@[k]).wf(),
            sx == sum_x(samples@, i as int),
            sy == sum_y(samples@, i as int),
            sz == sum_z(samples@, i as int),
            -(i as int) * 0x40000000 <= sx <= (i as int) * 0x40000000,
            -(i as int) * 0x40000000 <= sy <= (i as int) * 0x40000000,
            -(i as int) * 0x40000000 <= sz <= (i as int) * 0x40000000,
        decreases samples@.len() - i,
    {
        let s = samples[i];
        sx = sx + s.x as i128;
        sy = sy + s.y as i128;
        sz = sz + s.z as i128;
        i = i + 1;
    }
    let n = samples.len() as i128;
    Vec3 {
        x: clamp_wide(crate::num::floor_div(sx, n)),
        y: clamp_wide(crate::num::floor_div(sy, n)),
        z: clamp_wide(crate::num::floor_div(sz, n)),
    }
}

/// The largest channel value before quantization (0.999).
pub const INTENSITY_MAX: i64 = 65470;

/// A linear channel value after the square-root tone curve, clamped to
/// `[0, INTENSITY_MAX]` and scaled to a byte.
pub open spec fn channel_byte(v: int) -> int {
    let g = if v > 0 {
        isqrt_spec(v * ONE)
    } else {
        0
    };
    let c = if g > INTENSITY_MAX {
        INTENSITY_MAX as int
    } else {
        g
    };
    (256 * c) / (ONE as int)
}

pub fn to_byte(v: i64) -> (b: u8)
    requires
        in_range(v as int),
    ensures
        b == channel_byte(v as int),
{
    let g = if v > 0 {
        fx_sqrt(v)
    } else {
        0
    };
    let c = if g > INTENSITY_MAX {
        INTENSITY_MAX
    } else {
        g
    };
    ((256 * c) / ONE) as u8
}

/// The three bytes written for a pixel of linear color `c`.
pub fn color_bytes(c: &Color) -> (r: (u8, u8, u8))
    requires
        c.wf(),
    ensures
        r.0 == channel_byte(c.x as int),
        r.1 == channel_byte(c.y as int),
        r.2 == channel_byte(c.z as int),
{
    (to_byte(c.x), to_byte(c.y), to_byte(c.z))
}

} // verus!
