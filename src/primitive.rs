//! The scene graph: primitives held in an arena, where every primitive refers
//! to others (its children) only by smaller indices, so the graph is acyclic
//! and immutable once built. Intersection recurses on the index.
use vstd::prelude::*;
use crate::aabb::{enclose_spec, from_points_spec, hit_spec as box_hit_spec, padded, AABB};
use crate::interval::{sat, Interval};
use crate::material::{material_wf, Material};
use crate::num::{clamp, clamp_wide, fx_mul, mul_spec, ONE};
use crate::planar::{planar_hit_spec, Planar, Shape};
use crate::ray::Ray;
use crate::sphere::{sphere_hit_spec, Sphere};
use crate::vec3::{add_spec, sub_spec, Point3, Vec3};
use crate::bvh::BVHNode;
use crate::medium::{medium_hit_spec, ConstantMedium};
use crate::interval::universe_spec;
use crate::texture::{texture_wf, Texture};

verus! {

/// What a successful intersection reports. `normal` faces against the ray;
/// `front_face` records whether the ray hit the outward side; `mat` indexes
/// the scene's materials.
#[derive(Clone, Copy, Debug, PartialEq, Eq, Structural)]
pub struct HitRecord {
    pub p: Point3,
    pub normal: Vec3,
    pub mat: usize,
    pub t: i64,
    pub u: i64,
    pub v: i64,
    pub front_face: bool,
}

impl HitRecord {
    pub open spec fn wf(&self) -> bool {
        self.p.wf() && self.normal.wf()
    }
}

/// An inner primitive moved by `offset`.
#[derive(Clone, Copy, Debug, PartialEq, Eq, Structural)]
pub struct Translate {
    pub object: usize,
    pub offset: Vec3,
    pub bbox: AABB,
}

/// An inner primitive rotated about the y axis by the angle whose sine and
/// cosine are given.
#[derive(Clone, Copy, Debug, PartialEq, Eq, Structural)]
pub struct RotateY {
    pub object: usize,
    pub sin_theta: i64,
    pub cos_theta: i64,
    pub bbox: AABB,
}

/// An unordered collection of primitives with the union of their boxes.
#[derive(Clone, Debug)]
pub struct HittableList {
    pub objects: Vec<usize>,
    pub bbox: AABB,
}

#[derive(Clone, Debug)]
pub enum Hittable {
    Sphere(Sphere),
    Planar(Planar),
    List(HittableList),
    Translate(Translate),
    RotateY(RotateY),
    Bvh(BVHNode),
    Medium(ConstantMedium),
}

/// A frozen scene: primitives and the materials they refer to.
pub struct Scene {
    pub objects: Vec<Hittable>,
    pub materials: Vec<Material>,
}

pub open spec fn box_of(h: Hittable) -> AABB {
    match h {
        Hittable::Sphere(s) => s.bbox,
        Hittable::Planar(p) => p.bbox,
        Hittable::List(l) => l.bbox,
        Hittable::Translate(t) => t.bbox,
        Hittable::RotateY(r) => r.bbox,
        Hittable::Bvh(b) => b.bbox_spec(),
        Hittable::Medium(m) => m.bbox,
    }
}

pub open spec fn translate_box(b: AABB, o: Vec3) -> AABB {
    padded(
        AABB {
            x: Interval { min: sat(b.x.min + o.x) as i64, max: sat(b.x.max + o.x) as i64 },
            y: Interval { min: sat(b.y.min + o.y) as i64, max: sat(b.y.max + o.y) as i64 },
            z: Interval { min: sat(b.z.min + o.z) as i64, max: sat(b.z.max + o.z) as i64 },
        },
    )
}

pub open spec fn rotate_in(sin: int, cos: int, v: Vec3) -> Vec3 {
    Vec3 {
        x: clamp(mul_spec(cos, v.x as int) - mul_spec(sin, v.z as int)) as i64,
        y: v.y,
        z: clamp(mul_spec(sin, v.x as int) + mul_spec(cos, v.z as int)) as i64,
    }
}

pub open spec fn rotate_out(sin: int, cos: int, v: Vec3) -> Vec3 {
    Vec3 {
        x: clamp(mul_spec(cos, v.x as int) + mul_spec(sin, v.z as int)) as i64,
        y: v.y,
        z: clamp(mul_spec(cos, v.z as int) - mul_spec(sin, v.x as int)) as i64,
    }
}

/// The coordinate of corner `i` of box `b` along an axis: bit `k` of `i`
/// picks the upper end of axis `k`.
pub open spec fn corner(b: AABB, i: int) -> Vec3 {
    crate::vec3::clamped(
        if i % 2 == 1 {
            b.x.max as int
        } else {
            b.x.min as int
        },
        if (i / 2) % 2 == 1 {
            b.y.max as int
        } else {
            b.y.min as int
        },
        if (i / 4) % 2 == 1 {
            b.z.max as int
        } else {
            b.z.min as int
        },
    )
}

pub open spec fn min_i(a: int, b: int) -> int {
    if a <= b {
        a
    } else {
        b
    }
}

pub open spec fn max_i(a: int, b: int) -> int {
    if a >= b {
        a
    } else {
        b
    }
}

/// Componentwise minimum and maximum of the first `n` rotated corners.
pub open spec fn corner_lo(b: AABB, sin: int, cos: int, n: int) -> Vec3
    decreases n,
{
    if n <= 0 {
        Vec3 { x: i64::MAX, y: i64::MAX, z: i64::MAX }
    } else {
        let c = rotate_out(sin, cos, corner(b, n - 1));
        let m = corner_lo(b, sin, cos, n - 1);
        Vec3 {
            x: min_i(m.x as int, c.x as int) as i64,
            y: min_i(m.y as int, c.y as int) as i64,
            z: min_i(m.z as int, c.z as int) as i64,
        }
    }
}

pub open spec fn corner_hi(b: AABB, sin: int, cos: int, n: int) -> Vec3
    decreases n,
{
    if n <= 0 {
        Vec3 { x: i64::MIN, y: i64::MIN, z: i64::MIN }
    } else {
        let c = rotate_out(sin, cos, corner(b, n - 1));
        let m = corner_hi(b, sin, cos, n - 1);
        Vec3 {
            x: max_i(m.x as int, c.x as int) as i64,
            y: max_i(m.y as int, c.y as int) as i64,
            z: max_i(m.z as int, c.z as int) as i64,
        }
    }
}

/// The box of the inner box's eight corners, rotated.
pub open spec fn rotate_box(b: AABB, sin: int, cos: int) -> AABB {
    from_points_spec(corner_lo(b, sin, cos, 8), corner_hi(b, sin, cos, 8))
}

/// The union of the boxes of the first `n` listed primitives.
pub open spec fn list_box(s: Seq<Hittable>, objs: Seq<usize>, n: int) -> AABB
    decreases n,
{
    if n <= 0 {
        AABB { x: crate::interval::empty_spec(), y: crate::interval::empty_spec(), z: crate::interval::empty_spec() }
    } else {
        enclose_spec(list_box(s, objs, n - 1), box_of(s[objs[n - 1] as int]))
    }
}

/// Primitive `h`, stored at index `id`, is well formed and refers only to
/// earlier primitives and to existing materials.
pub open spec fn hittable_ok(s: Seq<Hittable>, nmat: int, id: int, h: Hittable) -> bool {
    match h {
        Hittable::Sphere(sp) => sp.wf() && sp.mat < nmat,
        Hittable::Planar(pl) => pl.wf() && pl.mat < nmat,
        Hittable::List(l) => (forall|i: int| 0 <= i < l.objects@.len() ==> #[trigger] l.objects@[i] < id)
            && l.bbox == list_box(s, l.objects@, l.objects@.len() as int),
        Hittable::Translate(t) => t.object < id && t.offset.wf() && t.bbox == translate_box(
            box_of(s[t.object as int]),
            t.offset,
        ),
        Hittable::RotateY(r) => r.object < id && -ONE <= r.sin_theta <= ONE && -ONE <= r.cos_theta
            <= ONE && r.bbox == rotate_box(
            box_of(s[r.object as int]),
            r.sin_theta as int,
            r.cos_theta as int,
        ),
        Hittable::Bvh(b) => b.ok_at(s, id),
        Hittable::Medium(m) => m.boundary < id && m.wf() && m.phase_function < nmat && m.bbox == box_of(
            s[m.boundary as int],
        ),
    }
}

/// The linear scan: each primitive may only report a hit closer than the
/// closest one found so far among the first `n`.
/// `lid` is the index of the list itself, above those of its members.
pub open spec fn list_hit_spec(s: Seq<Hittable>, lid: int, objs: Seq<usize>, n: int, r: Ray, t: Interval) -> Option<HitRecord>
    decreases lid, n,
{
    if lid < 0 || n <= 0 || n > objs.len() {
        None
    } else {
        let prev = list_hit_spec(s, lid, objs, n - 1, r, t);
        let closest = match prev {
            Some(rec) => rec.t,
            None => t.max,
        };
        if objs[n - 1] < lid {
            match hit_spec(s, objs[n - 1] as int, r, Interval { min: t.min, max: closest }) {
                Some(rec) => Some(rec),
                None => prev,
            }
        } else {
            prev
        }
    }
}

/// What intersecting primitive `id` with ray `r` over the open interval `t` reports.
#[verifier::opaque]
pub open spec fn hit_spec(s: Seq<Hittable>, id: int, r: Ray, t: Interval) -> Option<HitRecord>
    decreases id + 1, 0int,
{
    if id < 0 || id >= s.len() {
        None
    } else {
        match s[id] {
            Hittable::Sphere(sp) => sphere_hit_spec(sp, r, t),
            Hittable::Planar(pl) => planar_hit_spec(pl, r, t),
            Hittable::List(l) => list_hit_spec(s, id, l.objects@, l.objects@.len() as int, r, t),
            Hittable::Translate(tr) => if 0 <= tr.object < id {
                let moved = Ray { orig: sub_spec(r.orig, tr.offset), dir: r.dir, tm: r.tm };
                match hit_spec(s, tr.object as int, moved, t) {
                    Some(rec) => Some(HitRecord { p: add_spec(rec.p, tr.offset), ..rec }),
                    None => None,
                }
            } else {
                None
            },
            Hittable::RotateY(ro) => if 0 <= ro.object < id {
                let sin = ro.sin_theta as int;
                let cos = ro.cos_theta as int;
                let turned = Ray { orig: rotate_in(sin, cos, r.orig), dir: rotate_in(sin, cos, r.dir), tm: r.tm };
                match hit_spec(s, ro.object as int, turned, t) {
                    Some(rec) => Some(
                        HitRecord {
                            p: rotate_out(sin, cos, rec.p),
                            normal: rotate_out(sin, cos, rec.normal),
                            ..rec
                        },
                    ),
                    None => None,
                }
            } else {
                None
            },
            Hittable::Bvh(b) => match b {
                BVHNode::Leaf { object, bbox } => if 0 <= object < id && box_hit_spec(bbox, r, t) {
                    hit_spec(s, object as int, r, t)
                } else {
                    None
                },
                BVHNode::Branch { left, right, bbox } => if 0 <= left < id && 0 <= right < id
                    && box_hit_spec(bbox, r, t) {
                    match hit_spec(s, left as int, r, t) {
                        Some(lrec) => match hit_spec(s, right as int, r, Interval { min: t.min, max: lrec.t }) {
                            Some(rrec) => Some(rrec),
                            None => Some(lrec),
                        },
                        None => hit_spec(s, right as int, r, t),
                    }
                } else {
                    None
                },
            },
            Hittable::Medium(md) => if 0 <= md.boundary < id {
                match hit_spec(s, md.boundary as int, r, universe_spec()) {
                    None => None,
                    Some(rec1) => medium_hit_spec(
                        md,
                        r,
                        t,
                        rec1,
                        hit_spec(
                            s,
                            md.boundary as int,
                            r,
                            Interval { min: sat(rec1.t + crate::medium::MEDIUM_EPS) as i64, max: i64::MAX },
                        ),
                    ),
                }
            } else {
                None
            },
        }
    }
}

/// Appending to the scene leaves what earlier primitives see unchanged.
proof fn lemma_list_box_push(s: Seq<Hittable>, h: Hittable, objs: Seq<usize>, n: int)
    requires
        forall|i: int| 0 <= i < objs.len() ==> #[trigger] objs[i] < s.len(),
        n <= objs.len(),
    ensures
        list_box(s.push(h), objs, n) == list_box(s, objs, n),
    decreases n,
{
    if n > 0 {
        lemma_list_box_push(s, h, objs, n - 1);
        assert(s.push(h)[objs[n - 1] as int] == s[objs[n - 1] as int]);
    }
}

proof fn lemma_ok_push(s: Seq<Hittable>, h: Hittable, nm: int, nm2: int, i: int)
    requires
        0 <= i < s.len(),
        nm <= nm2,
        hittable_ok(s, nm, i, s[i]),
    ensures
        hittable_ok(s.push(h), nm2, i, s[i]),
{
    match s[i] {
        Hittable::List(l) => {
            lemma_list_box_push(s, h, l.objects@, l.objects@.len() as int);
        },
        Hittable::Translate(t) => {
            assert(s.push(h)[t.object as int] == s[t.object as int]);
        },
        Hittable::RotateY(r) => {
            assert(s.push(h)[r.object as int] == s[r.object as int]);
        },
        Hittable::Medium(m) => {
            assert(s.push(h)[m.boundary as int] == s[m.boundary as int]);
        },
        Hittable::Bvh(b) => {
            match b {
                BVHNode::Leaf { object, .. } => {
                    assert(s.push(h)[object as int] == s[object as int]);
                },
                BVHNode::Branch { left, right, .. } => {
                    assert(s.push(h)[left as int] == s[left as int]);
                    assert(s.push(h)[right as int] == s[right as int]);
                },
            }
        },
        _ => {},
    }
}

pub proof fn lemma_list_unfold(s: Seq<Hittable>, id: int, l: HittableList, r: Ray, t: Interval)
    requires
        0 <= id < s.len(),
        s[id] == Hittable::List(l),
    ensures
        hit_spec(s, id, r, t) == list_hit_spec(s, id, l.objects@, l.objects@.len() as int, r, t),
{
    reveal(hit_spec);
    reveal_with_fuel(hit_spec, 2);
}

pub proof fn lemma_list_step(s: Seq<Hittable>, lid: int, objs: Seq<usize>, n: int, r: Ray, t: Interval)
    requires
        0 <= lid,
        0 <= n < objs.len(),
        objs[n] < lid,
    ensures
        list_hit_spec(s, lid, objs, n + 1, r, t) == ({
            let prev = list_hit_spec(s, lid, objs, n, r, t);
            let closest = match prev {
                Some(rec) => rec.t,
                None => t.max,
            };
            match hit_spec(s, objs[n] as int, r, Interval { min: t.min, max: closest }) {
                Some(rec) => Some(rec),
                None => prev,
            }
        }),
{
    reveal(hit_spec);
    reveal_with_fuel(list_hit_spec, 2);
}

fn corner_exec(b: &AABB, i: u32) -> (r: Vec3)
    requires
        i < 8,
    ensures
        r == corner(*b, i as int),
        r.wf(),
{
    Vec3 {
        x: clamp_wide(if i % 2 == 1 {
            b.x.max
        } else {
            b.x.min
        } as i128),
        y: clamp_wide(if (i / 2) % 2 == 1 {
            b.y.max
        } else {
            b.y.min
        } as i128),
        z: clamp_wide(if (i / 4) % 2 == 1 {
            b.z.max
        } else {
            b.z.min
        } as i128),
    }
}

fn min64(a: i64, b: i64) -> (r: i64)
    ensures
        r == min_i(a as int, b as int),
{
    if a <= b {
        a
    } else {
        b
    }
}

fn max64(a: i64, b: i64) -> (r: i64)
    ensures
        r == max_i(a as int, b as int),
{
    if a >= b {
        a
    } else {
        b
    }
}

/// The six faces of the box with opposite corners `a` and `b`: for face `k`,
/// its corner and its two edges.
pub open spec fn box_side(a: Point3, b: Point3, k: int) -> (Point3, Vec3, Vec3) {
    let lo = Vec3 {
        x: min_i(a.x as int, b.x as int) as i64,
        y: min_i(a.y as int, b.y as int) as i64,
        z: min_i(a.z as int, b.z as int) as i64,
    };
    let hi = Vec3 {
        x: max_i(a.x as int, b.x as int) as i64,
        y: max_i(a.y as int, b.y as int) as i64,
        z: max_i(a.z as int, b.z as int) as i64,
    };
    let dx = Vec3 { x: clamp(hi.x - lo.x) as i64, y: 0, z: 0 };
    let dy = Vec3 { x: 0, y: clamp(hi.y - lo.y) as i64, z: 0 };
    let dz = Vec3 { x: 0, y: 0, z: clamp(hi.z - lo.z) as i64 };
    let ndx = Vec3 { x: -dx.x as i64, y: 0, z: 0 };
    let ndz = Vec3 { x: 0, y: 0, z: -dz.z as i64 };
    if k == 0 {
        (Vec3 { x: lo.x, y: lo.y, z: hi.z }, dx, dy)
    } else if k == 1 {
        (Vec3 { x: hi.x, y: lo.y, z: hi.z }, ndz, dy)
    } else if k == 2 {
        (Vec3 { x: hi.x, y: lo.y, z: lo.z }, ndx, dy)
    } else if k == 3 {
        (lo, dz, dy)
    } else if k == 4 {
        (Vec3 { x: lo.x, y: hi.y, z: hi.z }, dx, ndz)
    } else {
        (lo, dx, dz)
    }
}

fn rotate_in_exec(sin: i64, cos: i64, v: &Vec3) -> (r: Vec3)
    requires
        -ONE <= sin <= ONE,
        -ONE <= cos <= ONE,
        v.wf(),
    ensures
        r == rotate_in(sin as int, cos as int, *v),
        r.wf(),
{
    Vec3 {
        x: clamp_wide(fx_mul(cos, v.x) as i128 - fx_mul(sin, v.z) as i128),
        y: v.y,
        z: clamp_wide(fx_mul(sin, v.x) as i128 + fx_mul(cos, v.z) as i128),
    }
}

fn rotate_out_exec(sin: i64, cos: i64, v: &Vec3) -> (r: Vec3)
    requires
        -ONE <= sin <= ONE,
        -ONE <= cos <= ONE,
        v.wf(),
    ensures
        r == rotate_out(sin as int, cos as int, *v),
        r.wf(),
{
    Vec3 {
        x: clamp_wide(fx_mul(cos, v.x) as i128 + fx_mul(sin, v.z) as i128),
        y: v.y,
        z: clamp_wide(fx_mul(cos, v.z) as i128 - fx_mul(sin, v.x) as i128),
    }
}

impl Translate {
    /// Primitive `object` of `scene`, moved by `offset`.
    pub fn new(scene: &Scene, object: usize, offset: Vec3) -> (r: Translate)
        requires
            object < scene.objects@.len(),
            offset.wf(),
        ensures
            r.object == object,
            r.offset == offset,
            r.bbox == translate_box(box_of(scene.objects@[object as int]), offset),
    {
        let bbox = scene.bounding_box(object).offset(&offset);
        Translate { object, offset, bbox }
    }
}

impl RotateY {
    /// Primitive `object` of `scene`, rotated about the y axis by the angle
    /// whose sine and cosine are given; the box encloses the eight rotated
    /// corners of the inner box.
    pub fn new(scene: &Scene, object: usize, sin_theta: i64, cos_theta: i64) -> (r: RotateY)
        requires
            object < scene.objects@.len(),
            -ONE <= sin_theta <= ONE,
            -ONE <= cos_theta <= ONE,
        ensures
            r.object == object,
            r.sin_theta == sin_theta,
            r.cos_theta == cos_theta,
            r.bbox == rotate_box(box_of(scene.objects@[object as int]), sin_theta as int, cos_theta as int),
    {
        let b = scene.bounding_box(object);
        let mut lo = Vec3::new(i64::MAX, i64::MAX, i64::MAX);
        let mut hi = Vec3::new(i64::MIN, i64::MIN, i64::MIN);
        let mut i: u32 = 0;
        while i < 8
            invariant
                0 <= i <= 8,
                -ONE <= sin_theta <= ONE,
                -ONE <= cos_theta <= ONE,
                lo == corner_lo(b, sin_theta as int, cos_theta as int, i as int),
                hi == corner_hi(b, sin_theta as int, cos_theta as int, i as int),
            decreases 8 - i,
        {
            let c = rotate_out_exec(sin_theta, cos_theta, &corner_exec(&b, i));
            lo = Vec3::new(min64(lo.x, c.x), min64(lo.y, c.y), min64(lo.z, c.z));
            hi = Vec3::new(max64(hi.x, c.x), max64(hi.y, c.y), max64(hi.z, c.z));
            i = i + 1;
        }
        RotateY { object, sin_theta, cos_theta, bbox: AABB::from_points(&lo, &hi) }
    }
}

impl ConstantMedium {
    /// A medium of the given density (zero: it never scatters) filling
    /// primitive `boundary`, which
    /// must be closed and convex; adds its isotropic phase function, of
    /// texture `tex`, to the scene's materials.
    pub fn new(scene: &mut Scene, boundary: usize, density: i64, tex: Texture) -> (r: ConstantMedium)
        requires
            old(scene).wf(),
            boundary < old(scene).objects@.len(),
            0 <= density <= crate::num::LIMIT,
            texture_wf(tex),
        ensures
            final(scene).wf(),
            final(scene).objects@ == old(scene).objects@,
            final(scene).materials@ == old(scene).materials@.push(Material::Isotropic { tex }),
            r.boundary == boundary,
            r.density == density,
            r.phase_function == old(scene).materials@.len(),
            r.bbox == box_of(old(scene).objects@[boundary as int]),
    {
        let bbox = scene.bounding_box(boundary);
        let phase_function = scene.add_material(Material::Isotropic { tex });
        ConstantMedium { boundary, density, phase_function, bbox }
    }
}

impl HittableList {
    /// The list with no members.
    pub fn empty() -> (r: HittableList)
        ensures
            r.objects@.len() == 0,
            r.bbox == AABB::empty_spec(),
    {
        HittableList { objects: Vec::new(), bbox: AABB::empty() }
    }

    /// The list holding primitive `object` of `scene`.
    pub fn new(scene: &Scene, object: usize) -> (r: HittableList)
        requires
            object < scene.objects@.len(),
        ensures
            r.objects@ == seq![object],
            r.bbox == list_box(scene.objects@, r.objects@, 1),
    {
        let mut l = HittableList::empty();
        l.add(scene, object);
        l
    }

    /// Appends primitive `object` of `scene` and widens the box to enclose it.
    pub fn add(&mut self, scene: &Scene, object: usize)
        requires
            object < scene.objects@.len(),
            old(self).bbox == list_box(scene.objects@, old(self).objects@, old(self).objects@.len() as int),
        ensures
            final(self).objects@ == old(self).objects@.push(object),
            final(self).bbox == list_box(scene.objects@, final(self).objects@, final(self).objects@.len() as int),
    {
        let ghost objs = self.objects@;
        self.bbox = AABB::enclose(&self.bbox, &scene.bounding_box(object));
        self.objects.push(object);
        proof {
            lemma_list_box_prefix(scene.objects@, objs, object);
        }
    }

    /// Removes every member.
    pub fn clear(&mut self)
        ensures
            final(self).objects@.len() == 0,
            final(self).bbox == AABB::empty_spec(),
    {
        self.objects.clear();
        self.bbox = AABB::empty();
    }
}

proof fn lemma_list_box_prefix(s: Seq<Hittable>, objs: Seq<usize>, object: usize)
    ensures
        list_box(s, objs.push(object), objs.len() + 1int) == enclose_spec(
            list_box(s, objs, objs.len() as int),
            box_of(s[object as int]),
        ),
{
    lemma_list_box_same(s, objs, objs.push(object), objs.len() as int);
}

proof fn lemma_list_box_same(s: Seq<Hittable>, a: Seq<usize>, b: Seq<usize>, n: int)
    requires
        n <= a.len(),
        n <= b.len(),
        forall|i: int| 0 <= i < n ==> a[i] == b[i],
    ensures
        list_box(s, a, n) == list_box(s, b, n),
    decreases n,
{
    if n > 0 {
        lemma_list_box_same(s, a, b, n - 1);
    }
}

proof fn lemma_box_side_wf(a: Point3, b: Point3, k: int)
    requires
        a.wf(),
        b.wf(),
    ensures
        box_side(a, b, k).0.wf(),
        box_side(a, b, k).1.wf(),
        box_side(a, b, k).2.wf(),
{
}

/// `h` is face `k` of the box with corners `a`, `b`, a quad of material `mat`.
pub open spec fn is_side(h: Hittable, a: Point3, b: Point3, k: int, mat: usize) -> bool {
    h matches Hittable::Planar(p) && (p.q, p.u, p.v) == box_side(a, b, k) && p.mat == mat && p.shape
        == Shape::Quad
}

/// Adds the six faces of the box with opposite corners `a` and `b`, then a
/// list of them, and returns the index of the list.
pub fn build_box(scene: &mut Scene, a: Point3, b: Point3, mat: usize) -> (id: usize)
    requires
        old(scene).wf(),
        a.wf(),
        b.wf(),
        mat < old(scene).materials@.len(),
    ensures
        final(scene).wf(),
        final(scene).materials@ == old(scene).materials@,
        final(scene).objects@.len() == old(scene).objects@.len() + 7,
        final(scene).objects@.subrange(0, old(scene).objects@.len() as int) == old(scene).objects@,
        id == old(scene).objects@.len() + 6,
        forall|k: int| 0 <= k < 6 ==> is_side(#[trigger] final(scene).objects@[id - 6 + k], a, b, k, mat),
        final(scene).objects@[id as int] matches Hittable::List(l) && l.objects@ == seq![
            (id - 6) as usize, (id - 5) as usize, (id - 4) as usize, (id - 3) as usize, (id - 2) as usize, (id - 1) as usize,
        ],
{
    let lo = Vec3::new(min64(a.x, b.x), min64(a.y, b.y), min64(a.z, b.z));
    let hi = Vec3::new(max64(a.x, b.x), max64(a.y, b.y), max64(a.z, b.z));
    let dx = Vec3::new(clamp_wide(hi.x as i128 - lo.x as i128), 0, 0);
    let dy = Vec3::new(0, clamp_wide(hi.y as i128 - lo.y as i128), 0);
    let dz = Vec3::new(0, 0, clamp_wide(hi.z as i128 - lo.z as i128));
    let ndx = dx.neg();
    let ndz = dz.neg();
    let ghost s0 = scene.objects@;
    let sides: [(Point3, Vec3, Vec3); 6] = [
        (Vec3::new(lo.x, lo.y, hi.z), dx, dy),
        (Vec3::new(hi.x, lo.y, hi.z), ndz, dy),
        (Vec3::new(hi.x, lo.y, lo.z), ndx, dy),
        (lo, dz, dy),
        (Vec3::new(lo.x, hi.y, hi.z), dx, ndz),
        (lo, dx, dz),
    ];
    let mut list = HittableList::empty();
    let mut k: usize = 0;
    while k < 6
        invariant
            0 <= k <= 6,
            scene.wf(),
            scene.materials@ == old(scene).materials@,
            mat < scene.materials@.len(),
            scene.objects@.len() == s0.len() + k,
            scene.objects@.subrange(0, s0.len() as int) == s0,
            forall|j: int| 0 <= j < 6 ==> sides@[j] == #[trigger] box_side(a, b, j),
            forall|j: int| 0 <= j < k ==> is_side(#[trigger] scene.objects@[s0.len() + j], a, b, j, mat),
            list.objects@.len() == k,
            forall|j: int| 0 <= j < k ==> list.objects@[j] == s0.len() + j,
            list.bbox == list_box(scene.objects@, list.objects@, k as int),
            a.wf(),
            b.wf(),
        decreases 6 - k,
    {
        let (q, u, v) = sides[k];
        proof {
            lemma_box_side_wf(a, b, k as int);
        }
        let pl = Planar::new(q, u, v, mat, Shape::Quad);
        let ghost before = scene.objects@;
        let pid = scene.add(Hittable::Planar(pl));
        proof {
            lemma_list_box_frame(before, Hittable::Planar(pl), list.objects@, k as int);
            assert(scene.objects@.subrange(0, s0.len() as int) =~= s0);
        }
        list.add(scene, pid);
        k = k + 1;
    }
    let ghost before = scene.objects@;
    proof {
        assert(list.objects@ =~= seq![
            (before.len() - 6) as usize, (before.len() - 5) as usize, (before.len() - 4) as usize,
            (before.len() - 3) as usize, (before.len() - 2) as usize, (before.len() - 1) as usize,
        ]);
    }
    let id = scene.add(Hittable::List(list));
    proof {
        assert(scene.objects@.subrange(0, s0.len() as int) =~= s0);
        assert forall|j: int| 0 <= j < 6 implies is_side(#[trigger] scene.objects@[id - 6 + j], a, b, j, mat) by {
            assert(scene.objects@[id - 6 + j] == before[s0.len() + j]);
        }
    }
    id
}

proof fn lemma_list_box_frame(s: Seq<Hittable>, h: Hittable, objs: Seq<usize>, n: int)
    requires
        n <= objs.len(),
        forall|i: int| 0 <= i < n ==> #[trigger] objs[i] < s.len(),
    ensures
        list_box(s.push(h), objs, n) == list_box(s, objs, n),
    decreases n,
{
    if n > 0 {
        lemma_list_box_frame(s, h, objs, n - 1);
        assert(s.push(h)[objs[n - 1] as int] == s[objs[n - 1] as int]);
    }
}

impl Scene {
    /// Every primitive is well formed at its index, and so is every material.
    #[verifier::opaque]
    pub open spec fn wf(&self) -> bool {
        &&& forall|i: int| 0 <= i < self.objects@.len() ==> hittable_ok(
            self.objects@,
            self.materials@.len() as int,
            i,
            #[trigger] self.objects@[i],
        )
        &&& forall|i: int| 0 <= i < self.materials@.len() ==> material_wf(#[trigger] self.materials@[i])
    }

    pub proof fn lemma_wf_at(&self, id: int)
        requires
            self.wf(),
            0 <= id < self.objects@.len(),
        ensures
            hittable_ok(self.objects@, self.materials@.len() as int, id, self.objects@[id]),
    {
        reveal(Scene::wf);
    }

    pub proof fn lemma_wf_material(&self, m: int)
        requires
            self.wf(),
            0 <= m < self.materials@.len(),
        ensures
            material_wf(self.materials@[m]),
    {
        reveal(Scene::wf);
    }

    pub fn new() -> (r: Scene)
        ensures
            r.wf(),
            r.objects@.len() == 0,
            r.materials@.len() == 0,
    {
        let r = Scene { objects: Vec::new(), materials: Vec::new() };
        proof {
            reveal(Scene::wf);
        }
        r
    }

    /// Adds a material and returns its index.
    pub fn add_material(&mut self, m: Material) -> (id: usize)
        requires
            old(self).wf(),
            material_wf(m),
        ensures
            final(self).wf(),
            id == old(self).materials@.len(),
            final(self).materials@ == old(self).materials@.push(m),
            final(self).objects@ == old(self).objects@,
    {
        let id = self.materials.len();
        proof {
            reveal(Scene::wf);
        }
        self.materials.push(m);
        proof {
            assert forall|i: int| 0 <= i < self.objects@.len() implies hittable_ok(
                self.objects@,
                self.materials@.len() as int,
                i,
                #[trigger] self.objects@[i],
            ) by {
                assert(hittable_ok(old(self).objects@, old(self).materials@.len() as int, i, self.objects@[i]));
            }
            assert forall|i: int| 0 <= i < self.materials@.len() implies material_wf(#[trigger] self.materials@[i]) by {
                if i < id {
                    assert(material_wf(old(self).materials@[i]));
                }
            }
        }
        id
    }

    /// Adds a primitive, which may refer to primitives already present, and
    /// returns its index.
    pub fn add(&mut self, h: Hittable) -> (id: usize)
        requires
            old(self).wf(),
            hittable_ok(old(self).objects@, old(self).materials@.len() as int, old(self).objects@.len() as int, h),
        ensures
            final(self).wf(),
            id == old(self).objects@.len(),
            final(self).objects@ == old(self).objects@.push(h),
            final(self).materials@ == old(self).materials@,
    {
        let id = self.objects.len();
        let ghost s0 = self.objects@;
        proof {
            reveal(Scene::wf);
        }
        self.objects.push(h);
        proof {
            assert forall|i: int| 0 <= i < self.objects@.len() implies hittable_ok(
                self.objects@,
                self.materials@.len() as int,
                i,
                #[trigger] self.objects@[i],
            ) by {
                if i < id {
                    assert(hittable_ok(s0, self.materials@.len() as int, i, s0[i]));
                    lemma_ok_push(s0, h, self.materials@.len() as int, self.materials@.len() as int, i);
                } else {
                    assert(self.objects@[i] == h);
                    match h {
                        Hittable::List(l) => {
                            lemma_list_box_push(s0, h, l.objects@, l.objects@.len() as int);
                        },
                        Hittable::Translate(t) => {
                            assert(s0.push(h)[t.object as int] == s0[t.object as int]);
                        },
                        Hittable::RotateY(r) => {
                            assert(s0.push(h)[r.object as int] == s0[r.object as int]);
                        },
                        Hittable::Medium(m) => {
                            assert(s0.push(h)[m.boundary as int] == s0[m.boundary as int]);
                        },
                        Hittable::Bvh(b) => {
                            match b {
                                BVHNode::Leaf { object, .. } => {
                                    assert(s0.push(h)[object as int] == s0[object as int]);
                                },
                                BVHNode::Branch { left, right, .. } => {
                                    assert(s0.push(h)[left as int] == s0[left as int]);
                                    assert(s0.push(h)[right as int] == s0[right as int]);
                                },
                            }
                        },
                        _ => {},
                    }
                }
            }
        }
        id
    }

    /// The precomputed box of primitive `id`.
    pub fn bounding_box(&self, id: usize) -> (r: AABB)
        requires
            id < self.objects@.len(),
        ensures
            r == box_of(self.objects@[id as int]),
    {
        match &self.objects[id] {
            Hittable::Sphere(s) => s.bbox,
            Hittable::Planar(p) => p.bbox,
            Hittable::List(l) => l.bbox,
            Hittable::Translate(t) => t.bbox,
            Hittable::RotateY(r) => r.bbox,
            Hittable::Bvh(b) => b.bounding_box(),
            Hittable::Medium(m) => m.bbox,
        }
    }

    /// The closest hit of ray `r` with primitive `id` strictly inside `ray_t`.
    pub fn hit(&self, id: usize, r: &Ray, ray_t: Interval) -> (res: Option<HitRecord>)
        requires
            self.wf(),
            id < self.objects@.len(),
            r.wf(),
        ensures
            res == hit_spec(self.objects@, id as int, *r, ray_t),
            res matches Some(rec) ==> rec.wf() && rec.mat < self.materials@.len(),
        decreases id, 2int,
    {
        proof {
            self.lemma_wf_at(id as int);
            reveal_with_fuel(hit_spec, 1);
        }
        match &self.objects[id] {
            Hittable::Sphere(sp) => sp.hit(r, ray_t),
            Hittable::Planar(pl) => pl.hit(r, ray_t),
            Hittable::List(l) => self.hit_list(id, l, r, ray_t),
            Hittable::Translate(tr) => self.hit_translate(id, tr, r, ray_t),
            Hittable::RotateY(ro) => self.hit_rotate(id, ro, r, ray_t),
            Hittable::Bvh(b) => self.hit_bvh(id, b, r, ray_t),
            Hittable::Medium(m) => self.hit_medium(id, m, r, ray_t),
        }
    }

    fn hit_list(&self, id: usize, l: &HittableList, r: &Ray, ray_t: Interval) -> (res: Option<HitRecord>)
        requires
            self.wf(),
            id < self.objects@.len(),
            self.objects@[id as int] == Hittable::List(*l),
            r.wf(),
        ensures
            res == hit_spec(self.objects@, id as int, *r, ray_t),
            res matches Some(rec) ==> rec.wf() && rec.mat < self.materials@.len(),
        decreases id, 1int,
    {
        proof {
            self.lemma_wf_at(id as int);
        }
        let ghost objs = l.objects@;
        proof {
            lemma_list_unfold(self.objects@, id as int, *l, *r, ray_t);
            reveal_with_fuel(list_hit_spec, 1);
        }
        let mut best: Option<HitRecord> = None;
        let mut closest = ray_t.max;
        let mut i: usize = 0;
        while i < l.objects.len()
            invariant
                self.wf(),
                r.wf(),
                id < self.objects@.len(),
                self.objects@[id as int] == Hittable::List(*l),
                objs == l.objects@,
                0 <= i <= objs.len(),
                forall|k: int| 0 <= k < objs.len() ==> #[trigger] objs[k] < id,
                best == list_hit_spec(self.objects@, id as int, objs, i as int, *r, ray_t),
                closest == match best {
                    Some(rec) => rec.t,
                    None => ray_t.max,
                },
                best matches Some(rec) ==> rec.wf() && rec.mat < self.materials@.len(),
            decreases objs.len() - i,
        {
            let child = l.objects[i];
            assert(objs[i as int] < id);
            let found = self.hit(child, r, Interval::new(ray_t.min, closest));
            proof {
                lemma_list_step(self.objects@, id as int, objs, i as int, *r, ray_t);
            }
            match found {
                Some(rec) => {
                    closest = rec.t;
                    best = Some(rec);
                },
                None => {},
            }
            i = i + 1;
        }
        best
    }

    fn hit_translate(&self, id: usize, tr: &Translate, r: &Ray, ray_t: Interval) -> (res: Option<HitRecord>)
        requires
            self.wf(),
            id < self.objects@.len(),
            self.objects@[id as int] == Hittable::Translate(*tr),
            r.wf(),
        ensures
            res == hit_spec(self.objects@, id as int, *r, ray_t),
            res matches Some(rec) ==> rec.wf() && rec.mat < self.materials@.len(),
        decreases id, 1int,
    {
        proof {
            self.lemma_wf_at(id as int);
            reveal_with_fuel(hit_spec, 1);
        }
        let moved = Ray::new(r.orig.sub(&tr.offset), r.dir, r.tm);
        match self.hit(tr.object, &moved, ray_t) {
            Some(rec) => Some(HitRecord { p: rec.p.add(&tr.offset), ..rec }),
            None => None,
        }
    }

    fn hit_rotate(&self, id: usize, ro: &RotateY, r: &Ray, ray_t: Interval) -> (res: Option<HitRecord>)
        requires
            self.wf(),
            id < self.objects@.len(),
            self.objects@[id as int] == Hittable::RotateY(*ro),
            r.wf(),
        ensures
            res == hit_spec(self.objects@, id as int, *r, ray_t),
            res matches Some(rec) ==> rec.wf() && rec.mat < self.materials@.len(),
        decreases id, 1int,
    {
        proof {
            self.lemma_wf_at(id as int);
            reveal_with_fuel(hit_spec, 1);
        }
        let turned = Ray::new(
            rotate_in_exec(ro.sin_theta, ro.cos_theta, &r.orig),
            rotate_in_exec(ro.sin_theta, ro.cos_theta, &r.dir),
            r.tm,
        );
        match self.hit(ro.object, &turned, ray_t) {
            Some(rec) => Some(
                HitRecord {
                    p: rotate_out_exec(ro.sin_theta, ro.cos_theta, &rec.p),
                    normal: rotate_out_exec(ro.sin_theta, ro.cos_theta, &rec.normal),
                    ..rec
                },
            ),
            None => None,
        }
    }

    fn hit_medium(&self, id: usize, m: &ConstantMedium, r: &Ray, ray_t: Interval) -> (res: Option<HitRecord>)
        requires
            self.wf(),
            id < self.objects@.len(),
            self.objects@[id as int] == Hittable::Medium(*m),
            r.wf(),
        ensures
            res == hit_spec(self.objects@, id as int, *r, ray_t),
            res matches Some(rec) ==> rec.wf() && rec.mat < self.materials@.len(),
        decreases id, 1int,
    {
        proof {
            self.lemma_wf_at(id as int);
            reveal_with_fuel(hit_spec, 1);
        }
        match self.hit(m.boundary, r, Interval::universe()) {
            None => None,
            Some(rec1) => {
                let after = Interval::new(
                    crate::interval::sat_wide(rec1.t as i128 + crate::medium::MEDIUM_EPS as i128),
                    i64::MAX,
                );
                let rec2 = self.hit(m.boundary, r, after);
                m.scatter_within(r, ray_t, &rec1, rec2)
            },
        }
    }

    fn hit_bvh(&self, id: usize, b: &BVHNode, r: &Ray, ray_t: Interval) -> (res: Option<HitRecord>)
        requires
            self.wf(),
            id < self.objects@.len(),
            self.objects@[id as int] == Hittable::Bvh(*b),
            r.wf(),
        ensures
            res == hit_spec(self.objects@, id as int, *r, ray_t),
            res matches Some(rec) ==> rec.wf() && rec.mat < self.materials@.len(),
        decreases id, 1int,
    {
        proof {
            self.lemma_wf_at(id as int);
            reveal_with_fuel(hit_spec, 1);
        }
        match b {
            BVHNode::Leaf { object, bbox } => {
                if !bbox.hit(r, ray_t) {
                    return None;
                }
                self.hit(*object, r, ray_t)
            },
            BVHNode::Branch { left, right, bbox } => {
                if !bbox.hit(r, ray_t) {
                    return None;
                }
                match self.hit(*left, r, ray_t) {
                    Some(lrec) => match self.hit(*right, r, Interval::new(ray_t.min, lrec.t)) {
                        Some(rrec) => Some(rrec),
                        None => Some(lrec),
                    },
                    None => self.hit(*right, r, ray_t),
                }
            },
        }
    }
}

} // verus!
