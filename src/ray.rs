//! Rays: an origin, a direction and a time of sample in `[0, ONE]`.
use vstd::prelude::*;
use crate::num::{clamp_wide, floor_div, ONE};
use crate::vec3::{clamped, Point3, Vec3};

verus! {

#[derive(Clone, Copy, Debug, PartialEq, Eq, Structural)]
pub struct Ray {
    pub orig: Point3,
    pub dir: Vec3,
    pub tm: i64,
}

/// The point at parameter `t` (a fixed-point value), saturated.
pub open spec fn at_spec(r: Ray, t: int) -> Point3 {
    clamped(
        r.orig.x + (t * r.dir.x) / (ONE as int),
        r.orig.y + (t * r.dir.y) / (ONE as int),
        r.orig.z + (t * r.dir.z) / (ONE as int),
    )
}

impl Ray {
    /// Origin and direction in range, time of sample in `[0, ONE]`.
    pub open spec fn wf(&self) -> bool {
        self.orig.wf() && self.dir.wf() && 0 <= self.tm <= ONE
    }

    pub fn new(origin: Point3, direction: Vec3, t: i64) -> (r: Ray)
        ensures
            r == (Ray { orig: origin, dir: direction, tm: t }),
    {
        Ray { orig: origin, dir: direction, tm: t }
    }

    pub fn origin(&self) -> (r: Point3)
        ensures
            r == self.orig,
    {
        self.orig
    }

    pub fn direction(&self) -> (r: Vec3)
        ensures
            r == self.dir,
    {
        self.dir
    }

    pub fn time(&self) -> (r: i64)
        ensures
            r == self.tm,
    {
        self.tm
    }

    /// `origin + t * direction`.
    pub fn at(&self, t: i64) -> (r: Point3)
        requires
            self.wf(),
        ensures
            r == at_spec(*self, t as int),
            r.wf(),
    {
        proof {
            assert(-0x8000000000000000 * 0x40000000 <= t * self.dir.x <= 0x8000000000000000
                * 0x40000000) by (nonlinear_arith)
                requires
                    -0x8000000000000000 <= t <= 0x7fffffffffffffff,
                    -0x40000000 <= self.dir.x <= 0x40000000,
            ;
            assert(-0x8000000000000000 * 0x40000000 <= t * self.dir.y <= 0x8000000000000000
                * 0x40000000) by (nonlinear_arith)
                requires
                    -0x8000000000000000 <= t <= 0x7fffffffffffffff,
                    -0x40000000 <= self.dir.y <= 0x40000000,
            ;
            assert(-0x8000000000000000 * 0x40000000 <= t * self.dir.z <= 0x8000000000000000
                * 0x40000000) by (nonlinear_arith)
                requires
                    -0x8000000000000000 <= t <= 0x7fffffffffffffff,
                    -0x40000000 <= self.dir.z <= 0x40000000,
            ;
        }
        let one = ONE as i128;
        let tt = t as i128;
        let dx = floor_div(tt * (self.dir.x as i128), one);
        let dy = floor_div(tt * (self.dir.y as i128), one);
        let dz = floor_div(tt * (self.dir.z as i128), one);
        proof {
            crate::num::lemma_div_bounded_pub(tt * self.dir.x, one as int);
            crate::num::lemma_div_bounded_pub(tt * self.dir.y, one as int);
            crate::num::lemma_div_bounded_pub(tt * self.dir.z, one as int);
        }
        Vec3 {
            x: clamp_wide(self.orig.x as i128 + dx),
            y: clamp_wide(self.orig.y as i128 + dy),
            z: clamp_wide(self.orig.z as i128 + dz),
        }
    }
}

} // verus!
