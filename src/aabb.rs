//! Axis-aligned bounding boxes: three intervals, padded to a minimum
//! thickness, with an exact slab test.
use vstd::prelude::*;
use crate::interval::{empty_spec, expand_spec, union_spec, universe_spec, Interval};
use crate::num::{in_range, ONE};
use crate::ray::Ray;
use crate::vec3::{Point3, Vec3};

verus! {

/// The minimum thickness of a box along each axis: the least raw size not
/// below 0.0001.
pub const MIN_SIZE: i64 = 7;

/// How much a thinner axis is widened, half on each side.
pub const PAD: i64 = 8;

#[derive(Clone, Copy, Debug, PartialEq, Eq, Structural)]
pub struct AABB {
    pub x: Interval,
    pub y: Interval,
    pub z: Interval,
}

/// The component of a vector along axis `n` (0, 1 or 2).
pub open spec fn comp(v: Vec3, n: int) -> int {
    if n == 1 {
        v.y as int
    } else if n == 2 {
        v.z as int
    } else {
        v.x as int
    }
}

pub open spec fn axis_spec(b: AABB, n: int) -> Interval {
    if n == 1 {
        b.y
    } else if n == 2 {
        b.z
    } else {
        b.x
    }
}

pub open spec fn pad_axis(i: Interval) -> Interval {
    if i.max - i.min < MIN_SIZE {
        expand_spec(i, PAD as int)
    } else {
        i
    }
}

pub open spec fn padded(b: AABB) -> AABB {
    AABB { x: pad_axis(b.x), y: pad_axis(b.y), z: pad_axis(b.z) }
}

pub open spec fn enclose_spec(a: AABB, b: AABB) -> AABB {
    AABB { x: union_spec(a.x, b.x), y: union_spec(a.y, b.y), z: union_spec(a.z, b.z) }
}

pub open spec fn ordered(lo: int, hi: int) -> Interval {
    if lo <= hi {
        Interval { min: lo as i64, max: hi as i64 }
    } else {
        Interval { min: hi as i64, max: lo as i64 }
    }
}

/// The box spanned by two corners, in either order, then padded.
pub open spec fn from_points_spec(a: Point3, b: Point3) -> AABB {
    padded(
        AABB {
            x: ordered(a.x as int, b.x as int),
            y: ordered(a.y as int, b.y as int),
            z: ordered(a.z as int, b.z as int),
        },
    )
}

pub open spec fn size_of(i: Interval) -> int {
    i.max - i.min
}

/// Axis 0 only when strictly longest, then axis 1 when longer than axis 2.
pub open spec fn longest_axis_spec(b: AABB) -> int {
    if size_of(b.x) > size_of(b.y) && size_of(b.x) > size_of(b.z) {
        0
    } else if size_of(b.y) > size_of(b.z) {
        1
    } else {
        2
    }
}

// A ray parameter as a fraction `num / den` of fixed-point values, `den > 0`.
pub open spec fn frac_lt(a: (int, int), b: (int, int)) -> bool {
    a.0 * b.1 < b.0 * a.1
}

pub open spec fn frac_le(a: (int, int), b: (int, int)) -> bool {
    a.0 * b.1 <= b.0 * a.1
}

pub open spec fn slab_lo(i: Interval) -> int {
    if i.min <= i.max {
        i.min as int
    } else {
        i.max as int
    }
}

pub open spec fn slab_hi(i: Interval) -> int {
    if i.min <= i.max {
        i.max as int
    } else {
        i.min as int
    }
}

/// Where a ray with origin `o` and nonzero direction `d` enters the slab.
pub open spec fn entry_spec(i: Interval, o: int, d: int) -> (int, int) {
    if d > 0 {
        ((slab_lo(i) - o) * ONE, d)
    } else {
        ((o - slab_hi(i)) * ONE, -d)
    }
}

/// Where a ray with origin `o` and nonzero direction `d` leaves the slab.
pub open spec fn exit_spec(i: Interval, o: int, d: int) -> (int, int) {
    if d > 0 {
        ((slab_hi(i) - o) * ONE, d)
    } else {
        ((o - slab_lo(i)) * ONE, -d)
    }
}

/// The lower bounds on the ray parameter: index -1 is the interval's own.
pub open spec fn lower_at(b: AABB, r: Ray, t: Interval, k: int) -> (int, int) {
    if k < 0 {
        (t.min as int, 1)
    } else {
        entry_spec(axis_spec(b, k), comp(r.orig, k), comp(r.dir, k))
    }
}

pub open spec fn upper_at(b: AABB, r: Ray, t: Interval, k: int) -> (int, int) {
    if k < 0 {
        (t.max as int, 1)
    } else {
        exit_spec(axis_spec(b, k), comp(r.orig, k), comp(r.dir, k))
    }
}

/// Bound `k` constrains the parameter: the interval, or a non-parallel axis.
pub open spec fn active(r: Ray, k: int) -> bool {
    k < 0 || comp(r.dir, k) != 0
}

/// A ray parallel to the slabs of axis `k` starts between them.
pub open spec fn parallel_inside(b: AABB, r: Ray, k: int) -> bool {
    comp(r.dir, k) == 0 ==> slab_lo(axis_spec(b, k)) <= comp(r.orig, k) <= slab_hi(
        axis_spec(b, k),
    )
}

/// The first `n` axes leave an open range of parameters inside the interval.
pub open spec fn hits_upto(b: AABB, r: Ray, t: Interval, n: int) -> bool {
    &&& forall|k: int| 0 <= k < n ==> parallel_inside(b, r, k)
    &&& forall|j: int, k: int|
        -1 <= j < n && -1 <= k < n && active(r, j) && active(r, k) ==> frac_lt(
            #[trigger] lower_at(b, r, t, j),
            #[trigger] upper_at(b, r, t, k),
        )
}

/// The ray meets the box for an open range of parameters within `t`: every
/// lower bound on the parameter lies below every upper bound.
#[verifier::opaque]
pub open spec fn hit_spec(b: AABB, r: Ray, t: Interval) -> bool {
    hits_upto(b, r, t, 3)
}

proof fn lemma_frac_le_trans(a: (int, int), b: (int, int), c: (int, int))
    requires
        a.1 > 0,
        b.1 > 0,
        c.1 > 0,
        frac_le(a, b),
        frac_le(b, c),
    ensures
        frac_le(a, c),
{
    assert(a.0 * c.1 <= c.0 * a.1) by (nonlinear_arith)
        requires
            a.1 > 0,
            b.1 > 0,
            c.1 > 0,
            a.0 * b.1 <= b.0 * a.1,
            b.0 * c.1 <= c.0 * b.1,
    {
        assert(a.0 * b.1 * c.1 <= b.0 * a.1 * c.1);
        assert(b.0 * c.1 * a.1 <= c.0 * b.1 * a.1);
        assert(a.0 * c.1 * b.1 <= c.0 * a.1 * b.1);
    }
}

proof fn lemma_frac_chain(a: (int, int), b: (int, int), c: (int, int), d: (int, int))
    requires
        a.1 > 0,
        b.1 > 0,
        c.1 > 0,
        d.1 > 0,
        frac_le(a, b),
        frac_lt(b, c),
        frac_le(c, d),
    ensures
        frac_lt(a, d),
{
    assert(a.0 * c.1 < c.0 * a.1) by (nonlinear_arith)
        requires
            a.1 > 0,
            b.1 > 0,
            c.1 > 0,
            a.0 * b.1 <= b.0 * a.1,
            b.0 * c.1 < c.0 * b.1,
    {
        assert(a.0 * b.1 * c.1 <= b.0 * a.1 * c.1);
        assert(b.0 * c.1 * a.1 < c.0 * b.1 * a.1);
        assert(a.0 * c.1 * b.1 < c.0 * a.1 * b.1);
    }
    assert(a.0 * d.1 < d.0 * a.1) by (nonlinear_arith)
        requires
            a.1 > 0,
            c.1 > 0,
            d.1 > 0,
            a.0 * c.1 < c.0 * a.1,
            c.0 * d.1 <= d.0 * c.1,
    {
        assert(a.0 * c.1 * d.1 < c.0 * a.1 * d.1);
        assert(c.0 * d.1 * a.1 <= d.0 * c.1 * a.1);
        assert(a.0 * d.1 * c.1 < d.0 * a.1 * c.1);
    }
}

fn vcomp(v: &Vec3, n: usize) -> (r: i64)
    ensures
        r == comp(*v, n as int),
{
    if n == 1 {
        v.y
    } else if n == 2 {
        v.z
    } else {
        v.x
    }
}

fn pad_interval(i: Interval) -> (r: Interval)
    ensures
        r == pad_axis(i),
{
    if i.size() < MIN_SIZE as i128 {
        i.expand(PAD)
    } else {
        i
    }
}

fn ordered_interval(lo: i64, hi: i64) -> (r: Interval)
    ensures
        r == ordered(lo as int, hi as int),
{
    if lo <= hi {
        Interval::new(lo, hi)
    } else {
        Interval::new(hi, lo)
    }
}

impl AABB {
    pub open spec fn empty_spec() -> AABB {
        AABB { x: empty_spec(), y: empty_spec(), z: empty_spec() }
    }

    /// A box from three intervals, padded to the minimum thickness.
    pub fn new(x: Interval, y: Interval, z: Interval) -> (r: AABB)
        ensures
            r == padded(AABB { x, y, z }),
    {
        let mut aabb = AABB { x, y, z };
        aabb.pad_to_minimums();
        aabb
    }

    /// The box that contains nothing.
    pub fn empty() -> (r: AABB)
        ensures
            r == (AABB { x: empty_spec(), y: empty_spec(), z: empty_spec() }),
    {
        AABB { x: Interval::empty(), y: Interval::empty(), z: Interval::empty() }
    }

    /// The box that contains everything.
    pub fn universe() -> (r: AABB)
        ensures
            r == (AABB { x: universe_spec(), y: universe_spec(), z: universe_spec() }),
    {
        AABB { x: Interval::universe(), y: Interval::universe(), z: Interval::universe() }
    }

    /// The box spanned by two corner points, in either order.
    pub fn from_points(a: &Point3, b: &Point3) -> (r: AABB)
        ensures
            r == from_points_spec(*a, *b),
    {
        let mut aabb = AABB {
            x: ordered_interval(a.x, b.x),
            y: ordered_interval(a.y, b.y),
            z: ordered_interval(a.z, b.z),
        };
        aabb.pad_to_minimums();
        aabb
    }

    /// The smallest box enclosing both.
    pub fn enclose(a: &AABB, b: &AABB) -> (r: AABB)
        ensures
            r == enclose_spec(*a, *b),
    {
        AABB {
            x: Interval::union(&a.x, &b.x),
            y: Interval::union(&a.y, &b.y),
            z: Interval::union(&a.z, &b.z),
        }
    }

    /// The box moved by `offset`.
    pub fn offset(&self, offset: &Vec3) -> (r: AABB)
        ensures
            r == padded(
                AABB {
                    x: Interval {
                        min: crate::interval::sat(self.x.min + offset.x) as i64,
                        max: crate::interval::sat(self.x.max + offset.x) as i64,
                    },
                    y: Interval {
                        min: crate::interval::sat(self.y.min + offset.y) as i64,
                        max: crate::interval::sat(self.y.max + offset.y) as i64,
                    },
                    z: Interval {
                        min: crate::interval::sat(self.z.min + offset.z) as i64,
                        max: crate::interval::sat(self.z.max + offset.z) as i64,
                    },
                },
            ),
    {
        AABB::new(self.x.shift(offset.x), self.y.shift(offset.y), self.z.shift(offset.z))
    }

    /// The interval along axis `n`: 1 is y, 2 is z, any other value x.
    pub fn axis_interval(&self, n: i32) -> (r: Interval)
        ensures
            r == axis_spec(*self, n as int),
    {
        if n == 1 {
            self.y
        } else if n == 2 {
            self.z
        } else {
            self.x
        }
    }

    pub fn longest_axis(&self) -> (r: i32)
        ensures
            r == longest_axis_spec(*self),
    {
        let sx = self.x.size();
        let sy = self.y.size();
        let sz = self.z.size();
        if sx > sy && sx > sz {
            0
        } else if sy > sz {
            1
        } else {
            2
        }
    }

    fn pad_to_minimums(&mut self)
        ensures
            *final(self) == padded(*old(self)),
    {
        self.x = pad_interval(self.x);
        self.y = pad_interval(self.y);
        self.z = pad_interval(self.z);
    }

    /// Slab test: narrows `ray_t` axis by axis and stops as soon as the
    /// remaining range is empty.
    pub fn hit(&self, r: &Ray, ray_t: Interval) -> (res: bool)
        requires
            r.wf(),
        ensures
            res == hit_spec(*self, *r, ray_t),
    {
        proof {
            reveal(hit_spec);
        }
        let ghost b = *self;
        let ghost t = ray_t;
        let mut lo: (i128, i128) = (ray_t.min as i128, 1);
        let mut hi: (i128, i128) = (ray_t.max as i128, 1);
        let ghost mut li: int = -1;
        let ghost mut ui: int = -1;
        let mut axis: usize = 0;
        while axis < 3
            invariant
                r.wf(),
                0 <= axis <= 3,
                -1 <= li < axis,
                -1 <= ui < axis,
                active(*r, li),
                active(*r, ui),
                frac_of(lo) == lower_at(b, *r, t, li),
                frac_of(hi) == upper_at(b, *r, t, ui),
                frac_ok(lo),
                frac_ok(hi),
                axis > 0 ==> frac_lt(frac_of(lo), frac_of(hi)),
                forall|j: int|
                    -1 <= j < axis && active(*r, j) ==> frac_le(
                        #[trigger] lower_at(b, *r, t, j),
                        frac_of(lo),
                    ),
                forall|k: int|
                    -1 <= k < axis && active(*r, k) ==> frac_le(
                        frac_of(hi),
                        #[trigger] upper_at(b, *r, t, k),
                    ),
                forall|k: int| 0 <= k < axis ==> parallel_inside(b, *r, k),
                b == *self,
                t == ray_t,
            decreases 3 - axis,
        {
            proof {
                reveal(hit_spec);
            }
            let ax = self.axis_interval(axis as i32);
            let o = vcomp(&r.orig, axis);
            let d = vcomp(&r.dir, axis);
            if d == 0 {
                if !(ax.min <= ax.max && ax.min <= o && o <= ax.max) && !(ax.max < ax.min
                    && ax.max <= o && o <= ax.min) {
                    assert(!parallel_inside(b, *r, axis as int));
                    return false;
                }
            } else {
                let (entry, exit) = entry_exit(ax, o, d);
                assert(frac_of(entry) == lower_at(b, *r, t, axis as int));
                assert(frac_of(exit) == upper_at(b, *r, t, axis as int));
                if frac_less(lo, entry) {
                    proof {
                        assert forall|j: int|
                            -1 <= j < axis + 1 && active(*r, j) implies frac_le(
                            #[trigger] lower_at(b, *r, t, j),
                            frac_of(entry),
                        ) by {
                            if j < axis {
                                lemma_frac_le_trans(
                                    lower_at(b, *r, t, j),
                                    frac_of(lo),
                                    frac_of(entry),
                                );
                            }
                        }
                        li = axis as int;
                    }
                    lo = entry;
                }
                if frac_less(exit, hi) {
                    proof {
                        assert forall|k: int|
                            -1 <= k < axis + 1 && active(*r, k) implies frac_le(
                            frac_of(exit),
                            #[trigger] upper_at(b, *r, t, k),
                        ) by {
                            if k < axis {
                                lemma_frac_le_trans(
                                    frac_of(exit),
                                    frac_of(hi),
                                    upper_at(b, *r, t, k),
                                );
                            }
                        }
                        ui = axis as int;
                    }
                    hi = exit;
                }
            }
            if !frac_less(lo, hi) {
                assert(!frac_lt(lower_at(b, *r, t, li), upper_at(b, *r, t, ui)));
                return false;
            }
            axis = axis + 1;
        }
        proof {
            assert forall|j: int, k: int|
                -1 <= j < 3 && -1 <= k < 3 && active(*r, j) && active(*r, k) implies frac_lt(
                #[trigger] lower_at(b, *r, t, j),
                #[trigger] upper_at(b, *r, t, k),
            ) by {
                lemma_frac_chain(
                    lower_at(b, *r, t, j),
                    frac_of(lo),
                    frac_of(hi),
                    upper_at(b, *r, t, k),
                );
            }
        }
        true
    }
}

pub open spec fn frac_of(f: (i128, i128)) -> (int, int) {
    (f.0 as int, f.1 as int)
}

/// A fraction whose terms the slab test can cross-multiply without overflow.
pub open spec fn frac_ok(f: (i128, i128)) -> bool {
    -0x2000000000000000000000 <= f.0 <= 0x2000000000000000000000 && 0 < f.1 <= 0x40000000
}

fn frac_less(a: (i128, i128), b: (i128, i128)) -> (r: bool)
    requires
        frac_ok(a),
        frac_ok(b),
    ensures
        r == frac_lt(frac_of(a), frac_of(b)),
{
    proof {
        lemma_cross_bounds(a.0 as int, b.1 as int);
        lemma_cross_bounds(b.0 as int, a.1 as int);
    }
    a.0 * b.1 < b.0 * a.1
}

fn entry_exit(ax: Interval, o: i64, d: i64) -> (r: ((i128, i128), (i128, i128)))
    requires
        in_range(o as int),
        in_range(d as int),
        d != 0,
    ensures
        frac_of(r.0) == entry_spec(ax, o as int, d as int),
        frac_of(r.1) == exit_spec(ax, o as int, d as int),
        frac_ok(r.0),
        frac_ok(r.1),
{
    let slo = if ax.min <= ax.max {
        ax.min
    } else {
        ax.max
    };
    let shi = if ax.min <= ax.max {
        ax.max
    } else {
        ax.min
    };
    let one = ONE as i128;
    if d > 0 {
        (((slo as i128 - o as i128) * one, d as i128), ((shi as i128 - o as i128) * one, d as i128))
    } else {
        (
            ((o as i128 - shi as i128) * one, -(d as i128)),
            ((o as i128 - slo as i128) * one, -(d as i128)),
        )
    }
}

/// The products compared by the slab test fit in 128 bits.
proof fn lemma_cross_bounds(n: int, d: int)
    requires
        -0x2000000000000000000000 <= n <= 0x2000000000000000000000,
        0 < d <= 0x40000000,
    ensures
        -0x800000000000000000000000000000 <= n * d <= 0x800000000000000000000000000000,
{
    assert(-0x800000000000000000000000000000 <= n * d <= 0x800000000000000000000000000000)
        by (nonlinear_arith)
        requires
            -0x2000000000000000000000 <= n <= 0x2000000000000000000000,
            0 < d <= 0x40000000,
    ;
}

pub open spec fn interval_within(a: Interval, b: Interval) -> bool {
    b.min <= a.min && a.min <= a.max && a.max <= b.max
}

/// Box `a` is non-inverted and lies inside box `b`.
pub open spec fn box_within(a: AABB, b: AABB) -> bool {
    interval_within(a.x, b.x) && interval_within(a.y, b.y) && interval_within(a.z, b.z)
}

pub proof fn lemma_within_trans(a: AABB, b: AABB, c: AABB)
    requires
        box_within(a, b),
        box_within(b, c),
    ensures
        box_within(a, c),
{
}

pub open spec fn bounds_nest(a: AABB, b: AABB, r: Ray, t: Interval, k: int) -> bool {
    frac_le(lower_at(b, r, t, k), lower_at(a, r, t, k)) && frac_le(
        upper_at(a, r, t, k),
        upper_at(b, r, t, k),
    )
}

/// A ray that meets a box meets every box around it.
pub proof fn lemma_hit_within(a: AABB, b: AABB, r: Ray, t: Interval)
    requires
        box_within(a, b),
        hit_spec(a, r, t),
    ensures
        hit_spec(b, r, t),
{
    reveal(hit_spec);
    assert forall|k: int| -1 <= k < 3 && active(r, k) implies #[trigger] bounds_nest(a, b, r, t, k) by {
        if k >= 0 {
            let d = comp(r.dir, k);
            let o = comp(r.orig, k);
            let ia = axis_spec(a, k);
            let ib = axis_spec(b, k);
            assert(slab_lo(ib) <= slab_lo(ia) && slab_hi(ia) <= slab_hi(ib));
            if d > 0 {
                assert((slab_lo(ib) - o) * ONE * d <= (slab_lo(ia) - o) * ONE * d) by (nonlinear_arith)
                    requires
                        slab_lo(ib) <= slab_lo(ia),
                        d > 0,
                ;
                assert((slab_hi(ia) - o) * ONE * d <= (slab_hi(ib) - o) * ONE * d) by (nonlinear_arith)
                    requires
                        slab_hi(ia) <= slab_hi(ib),
                        d > 0,
                ;
            } else {
                assert((o - slab_hi(ib)) * ONE * (-d) <= (o - slab_hi(ia)) * ONE * (-d)) by (nonlinear_arith)
                    requires
                        slab_hi(ia) <= slab_hi(ib),
                        d < 0,
                ;
                assert((o - slab_lo(ia)) * ONE * (-d) <= (o - slab_lo(ib)) * ONE * (-d)) by (nonlinear_arith)
                    requires
                        slab_lo(ib) <= slab_lo(ia),
                        d < 0,
                ;
            }
        }
    }
    assert forall|k: int| 0 <= k < 3 implies parallel_inside(b, r, k) by {
        assert(parallel_inside(a, r, k));
    }
    assert forall|j: int, k: int|
        -1 <= j < 3 && -1 <= k < 3 && active(r, j) && active(r, k) implies frac_lt(
        #[trigger] lower_at(b, r, t, j),
        #[trigger] upper_at(b, r, t, k),
    ) by {
        assert(frac_lt(lower_at(a, r, t, j), upper_at(a, r, t, k)));
        assert(bounds_nest(a, b, r, t, j));
        assert(bounds_nest(a, b, r, t, k));
        lemma_frac_chain(lower_at(b, r, t, j), lower_at(a, r, t, j), upper_at(a, r, t, k), upper_at(b, r, t, k));
    }
}

/// Each of two non-inverted boxes lies inside their union.
pub proof fn lemma_enclose_within(a: AABB, b: AABB)
    requires
        a.x.min <= a.x.max && a.y.min <= a.y.max && a.z.min <= a.z.max,
        b.x.min <= b.x.max && b.y.min <= b.y.max && b.z.min <= b.z.max,
    ensures
        box_within(a, enclose_spec(a, b)),
        box_within(b, enclose_spec(a, b)),
{
}

/// A box built from non-inverted intervals within the coordinate range is at
/// least `MIN_SIZE` thick along every axis.
pub proof fn lemma_padded_thickness(b: AABB)
    requires
        b.x.min <= b.x.max,
        b.y.min <= b.y.max,
        b.z.min <= b.z.max,
        in_range(b.x.min as int) && in_range(b.x.max as int),
        in_range(b.y.min as int) && in_range(b.y.max as int),
        in_range(b.z.min as int) && in_range(b.z.max as int),
    ensures
        size_of(padded(b).x) >= MIN_SIZE,
        size_of(padded(b).y) >= MIN_SIZE,
        size_of(padded(b).z) >= MIN_SIZE,
{
}

} // verus!
