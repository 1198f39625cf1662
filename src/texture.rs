//! Textures: a color as a function of surface coordinates and position.
use vstd::prelude::*;
use crate::num::{fx_div, fx_mul, in_range, mul_spec, ONE};
use crate::vec3::{Color, Point3};

verus! {

#[derive(Clone, Copy, Debug, PartialEq, Eq, Structural)]
pub struct SolidColor {
    pub albedo: Color,
}

/// A 3-D checkerboard alternating between two textures in cubes of side
/// `1 / inv_scale`.
#[derive(Debug)]
pub struct CheckerTexture {
    pub inv_scale: i64,
    pub even: Box<Texture>,
    pub odd: Box<Texture>,
}

#[derive(Debug)]
pub enum Texture {
    Solid(SolidColor),
    Checker(CheckerTexture),
}

/// The index of the checker cell along one axis.
pub open spec fn cell(inv_scale: int, c: int) -> int {
    mul_spec(inv_scale, c) / (ONE as int)
}

pub open spec fn checker_even(inv_scale: int, p: Point3) -> bool {
    (cell(inv_scale, p.x as int) + cell(inv_scale, p.y as int) + cell(inv_scale, p.z as int)) % 2
        == 0
}

pub open spec fn texture_wf(t: Texture) -> bool
    decreases t,
{
    match t {
        Texture::Solid(s) => s.albedo.wf(),
        Texture::Checker(c) => in_range(c.inv_scale as int) && texture_wf(*c.even) && texture_wf(
            *c.odd,
        ),
    }
}

pub open spec fn value_spec(t: Texture, p: Point3) -> Color
    decreases t,
{
    match t {
        Texture::Solid(s) => s.albedo,
        Texture::Checker(c) => if checker_even(c.inv_scale as int, p) {
            value_spec(*c.even, p)
        } else {
            value_spec(*c.odd, p)
        },
    }
}

pub proof fn lemma_value_wf(t: Texture, p: Point3)
    requires
        texture_wf(t),
    ensures
        value_spec(t, p).wf(),
    decreases t,
{
    match t {
        Texture::Solid(s) => {},
        Texture::Checker(c) => {
            lemma_value_wf(*c.even, p);
            lemma_value_wf(*c.odd, p);
        },
    }
}

impl SolidColor {
    pub fn new(albedo: &Color) -> (r: SolidColor)
        ensures
            r.albedo == *albedo,
    {
        SolidColor { albedo: *albedo }
    }
}

impl CheckerTexture {
    /// A checkerboard with cells of side `scale` (a nonzero fixed-point value).
    pub fn new(scale: i64, even: Texture, odd: Texture) -> (r: CheckerTexture)
        requires
            in_range(scale as int),
            scale != 0,
        ensures
            r.inv_scale == crate::num::div_spec(ONE as int, scale as int),
            *r.even == even,
            *r.odd == odd,
    {
        CheckerTexture { inv_scale: fx_div(ONE, scale), even: Box::new(even), odd: Box::new(odd) }
    }

    /// A checkerboard of two solid colors.
    pub fn from_colors(scale: i64, c1: &Color, c2: &Color) -> (r: CheckerTexture)
        requires
            in_range(scale as int),
            scale != 0,
        ensures
            r.inv_scale == crate::num::div_spec(ONE as int, scale as int),
            *r.even == Texture::Solid(SolidColor { albedo: *c1 }),
            *r.odd == Texture::Solid(SolidColor { albedo: *c2 }),
    {
        CheckerTexture::new(
            scale,
            Texture::Solid(SolidColor::new(c1)),
            Texture::Solid(SolidColor::new(c2)),
        )
    }
}

fn cell_of(inv_scale: i64, c: i64) -> (r: i64)
    requires
        in_range(inv_scale as int),
        in_range(c as int),
    ensures
        r == cell(inv_scale as int, c as int),
        -0x4000 <= r <= 0x4000,
{
    let m = fx_mul(inv_scale, c);
    (crate::num::floor_div(m as i128, ONE as i128)) as i64
}

impl Texture {
    /// The color at surface coordinates `(u, v)` and point `p`.
    pub fn value(&self, u: i64, v: i64, p: &Point3) -> (r: Color)
        requires
            texture_wf(*self),
            p.wf(),
        ensures
            r == value_spec(*self, *p),
            r.wf(),
        decreases *self,
    {
        proof {
            lemma_value_wf(*self, *p);
        }
        match self {
            Texture::Solid(s) => s.albedo,
            Texture::Checker(c) => {
                let xi = cell_of(c.inv_scale, p.x);
                let yi = cell_of(c.inv_scale, p.y);
                let zi = cell_of(c.inv_scale, p.z);
                if (xi + yi + zi) % 2 == 0 {
                    c.even.value(u, v, p)
                } else {
                    c.odd.value(u, v, p)
                }
            },
        }
    }
}

} // verus!
