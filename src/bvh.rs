//! Bounding-volume hierarchy: a binary tree of boxes over scene primitives,
//! built by median split along the longest axis.
use vstd::prelude::*;
use vstd::multiset::Multiset;
use crate::aabb::{axis_spec, box_within, enclose_spec, hit_spec as box_hit_spec, longest_axis_spec, AABB};
use crate::interval::Interval;
use crate::primitive::{box_of, hit_spec, list_hit_spec, Hittable, HittableList, Scene};
use crate::ray::Ray;
use crate::sphere::{lemma_sphere_narrow, lemma_sphere_on_ray, on_ray, t_of};

verus! {

/// A leaf wraps exactly one primitive; a branch has two subtrees. Children
/// are indices into the scene.
#[derive(Clone, Copy, Debug, PartialEq, Eq, Structural)]
pub enum BVHNode {
    Leaf { object: usize, bbox: AABB },
    Branch { left: usize, right: usize, bbox: AABB },
}

impl BVHNode {
    pub open spec fn bbox_spec(&self) -> AABB {
        match *self {
            BVHNode::Leaf { bbox, .. } => bbox,
            BVHNode::Branch { bbox, .. } => bbox,
        }
    }

    /// Children precede the node, and its box is the union of theirs.
    pub open spec fn ok_at(&self, s: Seq<Hittable>, id: int) -> bool {
        match *self {
            BVHNode::Leaf { object, bbox } => object < id && bbox == box_of(s[object as int]),
            BVHNode::Branch { left, right, bbox } => left < id && right < id && bbox == enclose_spec(
                box_of(s[left as int]),
                box_of(s[right as int]),
            ),
        }
    }

    pub fn bounding_box(&self) -> (r: AABB)
        ensures
            r == self.bbox_spec(),
    {
        match self {
            BVHNode::Leaf { bbox, .. } => *bbox,
            BVHNode::Branch { bbox, .. } => *bbox,
        }
    }
}

/// The primitives that the BVH node at `id` covers.
pub open spec fn subtree(s: Seq<Hittable>, id: int) -> Set<usize>
    decreases id,
{
    if 0 <= id < s.len() {
        match s[id] {
            Hittable::Bvh(BVHNode::Leaf { object, .. }) => set![object],
            Hittable::Bvh(BVHNode::Branch { left, right, .. }) => if left < id && right < id {
                subtree(s, left as int).union(subtree(s, right as int))
            } else {
                Set::empty()
            },
            _ => Set::empty(),
        }
    } else {
        Set::empty()
    }
}

/// The node at `id` is a BVH node, and so is every branch below it.
pub open spec fn tree_shape(s: Seq<Hittable>, id: int) -> bool
    decreases id,
{
    if 0 <= id < s.len() {
        match s[id] {
            Hittable::Bvh(BVHNode::Leaf { object, .. }) => object < id,
            Hittable::Bvh(BVHNode::Branch { left, right, .. }) => left < id && right < id
                && tree_shape(s, left as int) && tree_shape(s, right as int),
            _ => false,
        }
    } else {
        false
    }
}

pub proof fn lemma_shape_frame(s: Seq<Hittable>, s2: Seq<Hittable>, id: int)
    requires
        s.len() <= s2.len(),
        s2.subrange(0, s.len() as int) == s,
        tree_shape(s, id),
    ensures
        tree_shape(s2, id),
    decreases id,
{
    assert(s2[id] == s.subrange(0, s.len() as int)[id]);
    match s[id] {
        Hittable::Bvh(BVHNode::Branch { left, right, .. }) => {
            lemma_shape_frame(s, s2, left as int);
            lemma_shape_frame(s, s2, right as int);
        },
        _ => {},
    }
}

/// The depth of the deepest leaf below node `id`, counting from `d`.
pub open spec fn depth_spec(s: Seq<Hittable>, id: int, d: int) -> int
    decreases id,
{
    if 0 <= id < s.len() {
        match s[id] {
            Hittable::Bvh(BVHNode::Branch { left, right, .. }) => if left < id && right < id {
                let l = depth_spec(s, left as int, d + 1);
                let r = depth_spec(s, right as int, d + 1);
                if l >= r {
                    l
                } else {
                    r
                }
            } else {
                d
            },
            _ => d,
        }
    } else {
        d
    }
}

/// The number of halvings, rounding up, that bring `n` down to one.
pub open spec fn ceil_log2(n: int) -> int
    decreases n,
{
    if n <= 1 {
        0
    } else {
        1 + ceil_log2(n - n / 2)
    }
}

proof fn lemma_ceil_log2_monotone(a: int, b: int)
    requires
        a <= b,
    ensures
        0 <= ceil_log2(a) <= ceil_log2(b),
    decreases b,
{
    if a > 1 {
        lemma_ceil_log2_monotone(a - a / 2, b - b / 2);
    } else if b > 1 {
        lemma_ceil_log2_monotone(1, b - b / 2);
    }
}

pub proof fn lemma_depth_frame(s: Seq<Hittable>, s2: Seq<Hittable>, id: int, d: int)
    requires
        s.len() <= s2.len(),
        s2.subrange(0, s.len() as int) == s,
    ensures
        0 <= id < s.len() ==> depth_spec(s2, id, d) == depth_spec(s, id, d),
    decreases id,
{
    if 0 <= id < s.len() {
        assert(s2[id] == s.subrange(0, s.len() as int)[id]);
        match s[id] {
            Hittable::Bvh(BVHNode::Branch { left, right, .. }) => {
                if left < id && right < id {
                    lemma_depth_frame(s, s2, left as int, d + 1);
                    lemma_depth_frame(s, s2, right as int, d + 1);
                }
            },
            _ => {},
        }
    }
}

proof fn lemma_depth_bound(s: Seq<Hittable>, id: int, d: int)
    requires
        id >= 0,
    ensures
        d <= depth_spec(s, id, d) <= d + id,
    decreases id,
{
    if 0 <= id < s.len() {
        match s[id] {
            Hittable::Bvh(BVHNode::Branch { left, right, .. }) => {
                if left < id && right < id {
                    lemma_depth_bound(s, left as int, d + 1);
                    lemma_depth_bound(s, right as int, d + 1);
                }
            },
            _ => {},
        }
    }
}

/// The sort key of primitive `obj`: the lower end of its box along `axis`.
pub open spec fn key(s: Seq<Hittable>, axis: int, obj: usize) -> int {
    axis_spec(box_of(s[obj as int]), axis).min as int
}

pub open spec fn range_ms(v: Seq<usize>, start: int, end: int) -> Multiset<usize> {
    v.subrange(start, end).to_multiset()
}

/// The primitives held by the leaves below node `id`, each as often as it
/// occurs.
pub open spec fn leaves(s: Seq<Hittable>, id: int) -> Multiset<usize>
    decreases id,
{
    if 0 <= id < s.len() {
        match s[id] {
            Hittable::Bvh(BVHNode::Leaf { object, .. }) => Multiset::singleton(object),
            Hittable::Bvh(BVHNode::Branch { left, right, .. }) => if left < id && right < id {
                leaves(s, left as int).add(leaves(s, right as int))
            } else {
                Multiset::empty()
            },
            _ => Multiset::empty(),
        }
    } else {
        Multiset::empty()
    }
}

/// The union of the boxes of `v[start..start + n]`.
pub open spec fn range_box(s: Seq<Hittable>, v: Seq<usize>, start: int, n: int) -> AABB
    decreases n,
{
    if n <= 0 {
        AABB::empty_spec()
    } else {
        enclose_spec(range_box(s, v, start, n - 1), box_of(s[v[start + n - 1] as int]))
    }
}

/// Node `id` is a branch over the median split of `v[start..end]` along
/// `axis`: the left child holds the first half, the right child the second,
/// and no key of the first half exceeds a key of the second.
pub open spec fn median_split(s: Seq<Hittable>, keys: Seq<Hittable>, id: int, v: Seq<usize>, start: int, end: int, axis: int) -> bool {
    let mid = start + (end - start) / 2;
    &&& s[id] matches Hittable::Bvh(BVHNode::Branch { left, right, .. }) && leaves(s, left as int)
        == range_ms(v, start, mid) && leaves(s, right as int) == range_ms(v, mid, end)
    &&& forall|i: int, j: int|
        start <= i < mid <= j < end ==> key(keys, axis, #[trigger] v[i]) <= key(keys, axis, #[trigger] v[j])
}

pub proof fn lemma_leaves_frame(s: Seq<Hittable>, s2: Seq<Hittable>, id: int)
    requires
        s.len() <= s2.len(),
        s2.subrange(0, s.len() as int) == s,
    ensures
        0 <= id < s.len() ==> leaves(s2, id) == leaves(s, id),
    decreases id,
{
    if 0 <= id < s.len() {
        assert(s2[id] == s.subrange(0, s.len() as int)[id]);
        match s[id] {
            Hittable::Bvh(BVHNode::Branch { left, right, .. }) => {
                if left < id && right < id {
                    lemma_leaves_frame(s, s2, left as int);
                    lemma_leaves_frame(s, s2, right as int);
                }
            },
            _ => {},
        }
    }
}

proof fn lemma_swap_range_ms(v: Seq<usize>, i: int, j: int, start: int, end: int)
    requires
        0 <= start <= i < end <= v.len(),
        start <= j < end,
    ensures
        range_ms(v.update(i, v[j]).update(j, v[i]), start, end) == range_ms(v, start, end),
{
    let w = v.update(i, v[j]).update(j, v[i]);
    let a = v.subrange(start, end);
    let a1 = a.update(i - start, v[j]);
    let a2 = a1.update(j - start, v[i]);
    assert(w.subrange(start, end) =~= a2);
    vstd::seq_lib::to_multiset_update(a, i - start, v[j]);
    vstd::seq_lib::to_multiset_update(a1, j - start, v[i]);
    if i == j {
        assert(a2 =~= a);
    } else {
        assert(a1[j - start] == v[j]);
        assert(a2.to_multiset() =~= a.to_multiset().insert(v[j]).remove(v[i]).insert(v[i]).remove(v[j]));
        assert(a.to_multiset().insert(v[j]).remove(v[i]).insert(v[i]).remove(v[j]) =~= a.to_multiset()) by {
            assert(a.to_multiset().count(v[i]) > 0) by {
                assert(a[i - start] == v[i]);
                a.to_multiset_ensures();
            }
        }
    }
}

proof fn lemma_range_ms_split(v: Seq<usize>, start: int, mid: int, end: int)
    requires
        0 <= start <= mid <= end <= v.len(),
    ensures
        range_ms(v, start, end) == range_ms(v, start, mid).add(range_ms(v, mid, end)),
{
    assert(v.subrange(start, end) =~= v.subrange(start, mid) + v.subrange(mid, end));
    vstd::seq_lib::lemma_multiset_commutative(v.subrange(start, mid), v.subrange(mid, end));
}

pub open spec fn range_set(v: Seq<usize>, start: int, end: int) -> Set<usize> {
    v.subrange(start, end).to_set()
}

/// Extending the scene leaves the subtrees of existing nodes unchanged.
pub proof fn lemma_subtree_frame(s: Seq<Hittable>, s2: Seq<Hittable>, id: int)
    requires
        s.len() <= s2.len(),
        s2.subrange(0, s.len() as int) == s,
    ensures
        0 <= id < s.len() ==> subtree(s2, id) == subtree(s, id),
    decreases id,
{
    if 0 <= id < s.len() {
        assert(s2[id] == s.subrange(0, s.len() as int)[id]);
        assert(s2[id] == s[id]);
        match s[id] {
            Hittable::Bvh(BVHNode::Branch { left, right, .. }) => {
                if left < id && right < id {
                    lemma_subtree_frame(s, s2, left as int);
                    lemma_subtree_frame(s, s2, right as int);
                }
            },
            _ => {},
        }
    }
}

proof fn lemma_swap_range_set(v: Seq<usize>, i: int, j: int, start: int, end: int)
    requires
        0 <= start <= i < end <= v.len(),
        start <= j < end,
    ensures
        range_set(v.update(i, v[j]).update(j, v[i]), start, end) == range_set(v, start, end),
        v.update(i, v[j]).update(j, v[i]).len() == v.len(),
{
    let w = v.update(i, v[j]).update(j, v[i]);
    let a = w.subrange(start, end);
    let b = v.subrange(start, end);
    assert forall|x: usize| a.contains(x) implies b.contains(x) by {
        let k = choose|k: int| 0 <= k < a.len() && a[k] == x;
        if k + start == i {
            assert(b[j - start] == x);
        } else if k + start == j {
            assert(b[i - start] == x);
        } else {
            assert(b[k] == x);
        }
    }
    assert forall|x: usize| b.contains(x) implies a.contains(x) by {
        let k = choose|k: int| 0 <= k < b.len() && b[k] == x;
        if k + start == i {
            assert(a[j - start] == x);
        } else if k + start == j {
            assert(a[i - start] == x);
        } else {
            assert(a[k] == x);
        }
    }
    assert(a.to_set() =~= b.to_set());
}

proof fn lemma_range_split(v: Seq<usize>, start: int, mid: int, end: int)
    requires
        0 <= start <= mid <= end <= v.len(),
    ensures
        range_set(v, start, end) == range_set(v, start, mid).union(range_set(v, mid, end)),
{
    let a = v.subrange(start, end);
    let l = v.subrange(start, mid);
    let r = v.subrange(mid, end);
    assert forall|x: usize| a.contains(x) implies l.contains(x) || r.contains(x) by {
        let k = choose|k: int| 0 <= k < a.len() && a[k] == x;
        if k + start < mid {
            assert(l[k] == x);
        } else {
            assert(r[k + start - mid] == x);
        }
    }
    assert forall|x: usize| l.contains(x) || r.contains(x) implies a.contains(x) by {
        if l.contains(x) {
            let k = choose|k: int| 0 <= k < l.len() && l[k] == x;
            assert(a[k] == x);
        } else {
            let k = choose|k: int| 0 <= k < r.len() && r[k] == x;
            assert(a[k + mid - start] == x);
        }
    }
    assert(a.to_set() =~= l.to_set().union(r.to_set()));
}

fn key_of(scene: &Scene, axis: i32, obj: usize) -> (r: i64)
    requires
        obj < scene.objects@.len(),
    ensures
        r == key(scene.objects@, axis as int, obj),
{
    scene.bounding_box(obj).axis_interval(axis).min
}

/// Sorts `objects[start..end]` by the lower end of each box along `axis`.
pub fn sort_by_box(scene: &Scene, objects: &mut Vec<usize>, start: usize, end: usize, axis: i32)
    requires
        start <= end <= old(objects).len(),
        forall|i: int| 0 <= i < old(objects).len() ==> #[trigger] old(objects)@[i] < scene.objects@.len(),
    ensures
        final(objects).len() == old(objects).len(),
        forall|i: int| 0 <= i < final(objects).len() && !(start <= i < end) ==> #[trigger] final(objects)@[i] == old(objects)@[i],
        forall|i: int| 0 <= i < final(objects).len() ==> #[trigger] final(objects)@[i] < scene.objects@.len(),
        range_set(final(objects)@, start as int, end as int) == range_set(old(objects)@, start as int, end as int),
        range_ms(final(objects)@, start as int, end as int) == range_ms(old(objects)@, start as int, end as int),
        forall|i: int, j: int| start <= i < j < end ==> key(scene.objects@, axis as int, #[trigger] final(objects)@[i]) <= key(scene.objects@, axis as int, #[trigger] final(objects)@[j]),
{
    let ghost v0 = objects@;
    let mut i = start;
    while i < end
        invariant
            start <= i <= end <= objects.len(),
            objects.len() == v0.len(),
            forall|k: int| 0 <= k < objects.len() && !(start <= k < end) ==> #[trigger] objects@[k] == v0[k],
            forall|k: int| 0 <= k < objects.len() ==> #[trigger] objects@[k] < scene.objects@.len(),
            range_set(objects@, start as int, end as int) == range_set(v0, start as int, end as int),
            range_ms(objects@, start as int, end as int) == range_ms(v0, start as int, end as int),
            forall|a: int, b: int| start <= a < b < i ==> key(scene.objects@, axis as int, #[trigger] objects@[a]) <= key(scene.objects@, axis as int, #[trigger] objects@[b]),
            forall|a: int, b: int| start <= a < i <= b < end ==> key(scene.objects@, axis as int, #[trigger] objects@[a]) <= key(scene.objects@, axis as int, #[trigger] objects@[b]),
        decreases end - i,
    {
        let mut m = i;
        let mut mk = key_of(scene, axis, objects[i]);
        let mut j = i + 1;
        while j < end
            invariant
                start <= i < j <= end <= objects.len(),
                i <= m < j,
                forall|k: int| 0 <= k < objects.len() ==> #[trigger] objects@[k] < scene.objects@.len(),
                mk == key(scene.objects@, axis as int, objects@[m as int]),
                forall|b: int| i <= b < j ==> mk <= key(scene.objects@, axis as int, #[trigger] objects@[b]),
            decreases end - j,
        {
            let kj = key_of(scene, axis, objects[j]);
            if kj < mk {
                m = j;
                mk = kj;
            }
            j = j + 1;
        }
        let ghost before = objects@;
        let a = objects[i];
        let b = objects[m];
        objects.set(i, b);
        objects.set(m, a);
        proof {
            lemma_swap_range_set(before, i as int, m as int, start as int, end as int);
            lemma_swap_range_ms(before, i as int, m as int, start as int, end as int);
            assert(objects@ == before.update(i as int, before[m as int]).update(m as int, before[i as int]));
        }
        i = i + 1;
    }
}

impl BVHNode {
    /// Builds a hierarchy over `objects[start..end]`, adding its nodes to the
    /// scene, and returns the index of the root. The range is sorted along
    /// the longest axis of its box and split at the median.
    pub fn new(scene: &mut Scene, objects: &mut Vec<usize>, start: usize, end: usize) -> (id: usize)
        requires
            old(scene).wf(),
            start < end <= old(objects).len(),
            forall|i: int| 0 <= i < old(objects).len() ==> #[trigger] old(objects)@[i] < old(scene).objects@.len(),
        ensures
            final(scene).wf(),
            final(scene).materials@ == old(scene).materials@,
            old(scene).objects@.len() <= id < final(scene).objects@.len(),
            final(scene).objects@.subrange(0, old(scene).objects@.len() as int) == old(scene).objects@,
            final(scene).objects@[id as int] is Bvh,
            (end - start == 1) == (final(scene).objects@[id as int] matches Hittable::Bvh(
                BVHNode::Leaf { .. },
            )),
            tree_shape(final(scene).objects@, id as int),
            subtree(final(scene).objects@, id as int) == range_set(old(objects)@, start as int, end as int),
            final(objects).len() == old(objects).len(),
            forall|i: int| 0 <= i < final(objects).len() && !(start <= i < end) ==> #[trigger] final(objects)@[i] == old(objects)@[i],
            forall|i: int| 0 <= i < final(objects).len() ==> #[trigger] final(objects)@[i] < old(scene).objects@.len(),
            range_set(final(objects)@, start as int, end as int) == range_set(old(objects)@, start as int, end as int),
            range_ms(final(objects)@, start as int, end as int) == range_ms(old(objects)@, start as int, end as int),
            leaves(final(scene).objects@, id as int) == range_ms(old(objects)@, start as int, end as int),
            forall|d: int| #[trigger] depth_spec(final(scene).objects@, id as int, d) == d + ceil_log2(end - start),
            end - start >= 2 ==> median_split(
                final(scene).objects@,
                old(scene).objects@,
                id as int,
                final(objects)@,
                start as int,
                end as int,
                longest_axis_spec(range_box(old(scene).objects@, old(objects)@, start as int, end - start)),
            ),
        decreases end - start,
    {
        let ghost s0 = scene.objects@;
        let ghost v0 = objects@;
        if end - start == 1 {
            let object = objects[start];
            let node = BVHNode::Leaf { object, bbox: scene.bounding_box(object) };
            proof {
                scene.lemma_wf_at(0);
            }
            let id = scene.add(Hittable::Bvh(node));
            proof {
                assert(scene.objects@.subrange(0, s0.len() as int) =~= s0);
                assert(v0.subrange(start as int, end as int) =~= Seq::<usize>::empty().push(object));
                vstd::seq_lib::to_multiset_build(Seq::<usize>::empty(), object);
                assert(Seq::<usize>::empty().to_multiset() =~= Multiset::empty()) by {
                    Seq::<usize>::empty().to_multiset_ensures();
                }
                assert(range_ms(v0, start as int, end as int) =~= Multiset::singleton(object));
                assert(range_set(v0, start as int, end as int) =~= set![object]) by {
                    assert(v0.subrange(start as int, end as int) =~= seq![object]);
                    assert(seq![object].to_set() =~= set![object]) by {
                        assert(seq![object][0] == object);
                    }
                }
            }
            return id;
        }
        let mut bbox = AABB::empty();
        let mut i = start;
        while i < end
            invariant
                start <= i <= end <= objects.len(),
                forall|k: int| 0 <= k < objects.len() ==> #[trigger] objects@[k] < scene.objects@.len(),
                objects@ == v0,
                scene.objects@ == s0,
                bbox == range_box(s0, v0, start as int, i - start),
            decreases end - i,
        {
            bbox = AABB::enclose(&bbox, &scene.bounding_box(objects[i]));
            i = i + 1;
        }
        let axis = bbox.longest_axis();
        sort_by_box(scene, objects, start, end, axis);
        let ghost v1 = objects@;
        let ghost ax = axis as int;
        let mid = start + (end - start) / 2;
        let left = BVHNode::new(scene, objects, start, mid);
        let ghost s1 = scene.objects@;
        let ghost v2 = objects@;
        let right = BVHNode::new(scene, objects, mid, end);
        let ghost s2 = scene.objects@;
        proof {
            assert forall|i: int| 0 <= i < objects@.len() implies #[trigger] objects@[i] < s0.len() by {
                if mid <= i < end {
                    let x = objects@[i];
                    assert(objects@.subrange(mid as int, end as int)[i - mid] == x);
                    assert(range_set(objects@, mid as int, end as int).contains(x));
                    assert(range_set(v2, mid as int, end as int).contains(x));
                    let k = choose|k: int| 0 <= k < v2.subrange(mid as int, end as int).len() && v2.subrange(mid as int, end as int)[k] == x;
                    assert(v2[k + mid] == x);
                }
            }
            lemma_subtree_frame(s1, s2, left as int);
            lemma_shape_frame(s1, s2, left as int);
            assert(v2.subrange(mid as int, end as int) =~= v1.subrange(mid as int, end as int));
            lemma_range_split(v1, start as int, mid as int, end as int);
        }
        let bbox = AABB::enclose(&scene.bounding_box(left), &scene.bounding_box(right));
        let node = BVHNode::Branch { left, right, bbox };
        let id = scene.add(Hittable::Bvh(node));
        proof {
            assert(scene.objects@.subrange(0, s0.len() as int) =~= s0) by {
                assert(s1.subrange(0, s0.len() as int) == s0);
                assert(s2.subrange(0, s1.len() as int) == s1);
            }
            let v3 = objects@;
            lemma_range_split(v3, start as int, mid as int, end as int);
            lemma_range_split(v2, start as int, mid as int, end as int);
            assert(v3.subrange(start as int, mid as int) =~= v2.subrange(start as int, mid as int));
            assert(scene.objects@.subrange(0, s2.len() as int) =~= s2);
            lemma_subtree_frame(s2, scene.objects@, left as int);
            lemma_subtree_frame(s2, scene.objects@, right as int);
            lemma_shape_frame(s2, scene.objects@, left as int);
            lemma_shape_frame(s2, scene.objects@, right as int);
            lemma_leaves_frame(s1, s2, left as int);
            lemma_leaves_frame(s2, scene.objects@, left as int);
            lemma_leaves_frame(s2, scene.objects@, right as int);
            lemma_range_ms_split(v3, start as int, mid as int, end as int);
            lemma_range_ms_split(v2, start as int, mid as int, end as int);
            lemma_range_ms_split(v1, start as int, mid as int, end as int);
            assert(v2.subrange(mid as int, end as int) =~= v1.subrange(mid as int, end as int));
            assert(v3.subrange(start as int, mid as int) =~= v2.subrange(start as int, mid as int));
            let sf = scene.objects@;
            assert(sf[id as int] == Hittable::Bvh(node));
            lemma_ceil_log2_monotone((mid - start) as int, (end - mid) as int);
            assert forall|d: int| #[trigger] depth_spec(sf, id as int, d) == d + ceil_log2(end - start) by {
                lemma_depth_frame(s1, s2, left as int, d + 1);
                lemma_depth_frame(s2, sf, left as int, d + 1);
                lemma_depth_frame(s2, sf, right as int, d + 1);
                assert(depth_spec(s1, left as int, d + 1) == d + 1 + ceil_log2(mid - start));
                assert(depth_spec(s2, right as int, d + 1) == d + 1 + ceil_log2(end - mid));
                assert((end - start) - (end - start) / 2 == end - mid);
            }
            assert(leaves(sf, id as int) == leaves(sf, left as int).add(leaves(sf, right as int)));
            assert forall|i: int, j: int| start <= i < mid <= j < end implies key(s0, ax, #[trigger] v3[i]) <= key(s0, ax, #[trigger] v3[j]) by {
                let xi = v3[i];
                let xj = v3[j];
                assert(v3.subrange(start as int, mid as int)[i - start] == xi);
                assert(range_set(v3, start as int, mid as int).contains(xi));
                assert(range_set(v1, start as int, mid as int).contains(xi));
                let ki = choose|k: int| 0 <= k < v1.subrange(start as int, mid as int).len() && v1.subrange(start as int, mid as int)[k] == xi;
                assert(v1[ki + start] == xi);
                assert(v3.subrange(mid as int, end as int)[j - mid] == xj);
                assert(range_set(v3, mid as int, end as int).contains(xj));
                assert(range_set(v2, mid as int, end as int).contains(xj));
                let kj = choose|k: int| 0 <= k < v2.subrange(mid as int, end as int).len() && v2.subrange(mid as int, end as int)[k] == xj;
                assert(v2[kj + mid] == xj);
                assert(v1[kj + mid] == xj);
                assert(key(s0, ax, v1[ki + start]) <= key(s0, ax, v1[kj + mid]));
            }
        }
        id
    }

    /// The depth of the deepest leaf below node `id`, counting from `curr_depth`.
    pub fn depth(scene: &Scene, id: usize, curr_depth: usize) -> (d: usize)
        requires
            id < scene.objects@.len(),
            curr_depth + id <= usize::MAX,
        ensures
            d == depth_spec(scene.objects@, id as int, curr_depth as int),
        decreases id,
    {
        proof {
            lemma_depth_bound(scene.objects@, id as int, curr_depth as int);
        }
        match &scene.objects[id] {
            Hittable::Bvh(BVHNode::Branch { left, right, .. }) => {
                if !(*left < id && *right < id) {
                    return curr_depth;
                }
                let l = BVHNode::depth(scene, *left, curr_depth + 1);
                let r = BVHNode::depth(scene, *right, curr_depth + 1);
                if l >= r {
                    l
                } else {
                    r
                }
            },
            _ => curr_depth,
        }
    }

    /// A hierarchy over the members of `list`; returns the index of the root.
    pub fn from_list(scene: &mut Scene, list: &HittableList) -> (id: usize)
        requires
            old(scene).wf(),
            list.objects@.len() > 0,
            forall|i: int| 0 <= i < list.objects@.len() ==> #[trigger] list.objects@[i] < old(scene).objects@.len(),
        ensures
            final(scene).wf(),
            final(scene).materials@ == old(scene).materials@,
            old(scene).objects@.len() <= id < final(scene).objects@.len(),
            final(scene).objects@.subrange(0, old(scene).objects@.len() as int) == old(scene).objects@,
            tree_shape(final(scene).objects@, id as int),
            subtree(final(scene).objects@, id as int) == list.objects@.to_set(),
            leaves(final(scene).objects@, id as int) == list.objects@.to_multiset(),
            forall|d: int| #[trigger] depth_spec(final(scene).objects@, id as int, d) == d + ceil_log2(list.objects@.len() as int),
    {
        let mut objects = list.objects.clone();
        let n = objects.len();
        proof {
            assert(objects@.subrange(0, n as int) =~= list.objects@);
        }
        BVHNode::new(scene, &mut objects, 0, n)
    }
}

pub open spec fn span(a: i64, b: i64) -> Interval {
    Interval { min: a, max: b }
}

/// `res` is the least parameter at which a member of `set` reports a hit
/// within `(a, b)`, or `None` when none does.
pub open spec fn is_closest(s: Seq<Hittable>, set: Set<usize>, r: Ray, a: i64, b: i64, res: Option<int>) -> bool {
    match res {
        None => forall|x: usize| set.contains(x) ==> (#[trigger] hit_spec(s, x as int, r, span(a, b))) is None,
        Some(m) => (exists|x: usize| set.contains(x) && t_of(#[trigger] hit_spec(s, x as int, r, span(a, b))) == Some(m))
            && forall|x: usize| set.contains(x) ==> (#[trigger] hit_spec(s, x as int, r, span(a, b)) matches Some(q) ==> q.t >= m),
    }
}

/// Every hit that primitive `x` reports lies where its box is hit.
pub open spec fn hits_in_box(s: Seq<Hittable>, x: usize) -> bool {
    forall|r: Ray, t: Interval| (#[trigger] hit_spec(s, x as int, r, t)) is Some ==> box_hit_spec(box_of(s[x as int]), r, t)
}

/// Every member of `set` is a sphere of the scene whose hits lie in its box.
pub open spec fn boxed_spheres(s: Seq<Hittable>, set: Set<usize>) -> bool {
    forall|x: usize| set.contains(x) ==> x < s.len() && (#[trigger] s[x as int]) is Sphere && hits_in_box(s, x)
}

proof fn lemma_closest_unique(s: Seq<Hittable>, set: Set<usize>, r: Ray, a: i64, b: i64, p: Option<int>, q: Option<int>)
    requires
        is_closest(s, set, r, a, b, p),
        is_closest(s, set, r, a, b, q),
    ensures
        p == q,
{
    match p {
        Some(m) => {
            let x = choose|x: usize| set.contains(x) && t_of(hit_spec(s, x as int, r, span(a, b))) == Some(m);
            match q {
                Some(n) => {
                    let y = choose|y: usize| set.contains(y) && t_of(hit_spec(s, y as int, r, span(a, b))) == Some(n);
                    assert(hit_spec(s, y as int, r, span(a, b)) matches Some(w) ==> w.t >= m);
                    assert(hit_spec(s, x as int, r, span(a, b)) matches Some(w) ==> w.t >= n);
                },
                None => {
                    assert(hit_spec(s, x as int, r, span(a, b)) is None);
                },
            }
        },
        None => {
            match q {
                Some(n) => {
                    let y = choose|y: usize| set.contains(y) && t_of(hit_spec(s, y as int, r, span(a, b))) == Some(n);
                    assert(hit_spec(s, y as int, r, span(a, b)) is None);
                },
                None => {},
            }
        },
    }
}

/// The narrowing property of spheres, read through the scene.
proof fn lemma_member_narrow(s: Seq<Hittable>, x: int, r: Ray, a: i64, b: i64, b2: i64)
    requires
        0 <= x < s.len(),
        s[x] is Sphere,
        b2 <= b,
    ensures
        hit_spec(s, x, r, span(a, b)) matches Some(rec) ==> a < rec.t < b,
        hit_spec(s, x, r, span(a, b)) matches Some(rec) && rec.t < b2 ==> hit_spec(s, x, r, span(a, b2)) == hit_spec(s, x, r, span(a, b)),
        hit_spec(s, x, r, span(a, b)) matches Some(rec) && rec.t >= b2 ==> hit_spec(s, x, r, span(a, b2)) is None,
        hit_spec(s, x, r, span(a, b)) is None ==> hit_spec(s, x, r, span(a, b2)) is None,
        hit_spec(s, x, r, span(a, b2)) matches Some(rec) ==> hit_spec(s, x, r, span(a, b)) == Some(rec),
{
    reveal_with_fuel(hit_spec, 1);
    lemma_sphere_narrow(s[x]->Sphere_0, r, a, b, b2);
}

proof fn lemma_sphere_box_sound(sp: crate::sphere::Sphere)
    requires
        sp.wf(),
    ensures
        sp.bbox.x.min <= sp.bbox.x.max && sp.bbox.y.min <= sp.bbox.y.max && sp.bbox.z.min <= sp.bbox.z.max,
{
}

/// The box of every node of a tree over spheres is non-inverted and holds
/// the box of each sphere below it.
proof fn lemma_leaf_within(scene: Scene, id: int, x: usize)
    requires
        scene.wf(),
        tree_shape(scene.objects@, id),
        boxed_spheres(scene.objects@, subtree(scene.objects@, id)),
        subtree(scene.objects@, id).contains(x),
    ensures
        box_within(box_of(scene.objects@[x as int]), box_of(scene.objects@[id])),
    decreases id,
{
    let s = scene.objects@;
    scene.lemma_wf_at(id);
    assert(s[x as int] is Sphere);
    scene.lemma_wf_at(x as int);
    lemma_sphere_box_sound(s[x as int]->Sphere_0);
    match s[id] {
        Hittable::Bvh(BVHNode::Leaf { object, .. }) => {},
        Hittable::Bvh(BVHNode::Branch { left, right, .. }) => {
            lemma_node_box(scene, left as int);
            lemma_node_box(scene, right as int);
            crate::aabb::lemma_enclose_within(box_of(s[left as int]), box_of(s[right as int]));
            if subtree(s, left as int).contains(x) {
                lemma_leaf_within(scene, left as int, x);
                crate::aabb::lemma_within_trans(box_of(s[x as int]), box_of(s[left as int]), box_of(s[id]));
            } else {
                lemma_leaf_within(scene, right as int, x);
                crate::aabb::lemma_within_trans(box_of(s[x as int]), box_of(s[right as int]), box_of(s[id]));
            }
        },
        _ => {},
    }
}

proof fn lemma_node_box(scene: Scene, id: int)
    requires
        scene.wf(),
        tree_shape(scene.objects@, id),
        boxed_spheres(scene.objects@, subtree(scene.objects@, id)),
    ensures
        ({
            let b = box_of(scene.objects@[id]);
            b.x.min <= b.x.max && b.y.min <= b.y.max && b.z.min <= b.z.max
        }),
    decreases id,
{
    let s = scene.objects@;
    scene.lemma_wf_at(id);
    match s[id] {
        Hittable::Bvh(BVHNode::Leaf { object, .. }) => {
            assert(subtree(s, id).contains(object));
            scene.lemma_wf_at(object as int);
            lemma_sphere_box_sound(s[object as int]->Sphere_0);
        },
        Hittable::Bvh(BVHNode::Branch { left, right, .. }) => {
            lemma_node_box(scene, left as int);
            lemma_node_box(scene, right as int);
        },
        _ => {},
    }
}

/// The traversal of a tree over spheres reports the closest hit below it.
proof fn lemma_bvh_closest(scene: Scene, id: int, r: Ray, a: i64, b: i64)
    requires
        scene.wf(),
        tree_shape(scene.objects@, id),
        boxed_spheres(scene.objects@, subtree(scene.objects@, id)),
    ensures
        is_closest(scene.objects@, subtree(scene.objects@, id), r, a, b, t_of(hit_spec(scene.objects@, id, r, span(a, b)))),
    decreases id,
{
    let s = scene.objects@;
    let set = subtree(s, id);
    reveal_with_fuel(hit_spec, 1);
    scene.lemma_wf_at(id);
    let node_box = box_of(s[id]);
    if !box_hit_spec(node_box, r, span(a, b)) {
        assert forall|x: usize| set.contains(x) implies (#[trigger] hit_spec(s, x as int, r, span(a, b))) is None by {
            if hit_spec(s, x as int, r, span(a, b)) is Some {
                lemma_leaf_within(scene, id, x);
                crate::aabb::lemma_hit_within(box_of(s[x as int]), node_box, r, span(a, b));
            }
        }
        match s[id] {
            Hittable::Bvh(BVHNode::Leaf { bbox, .. }) => {
                assert(hit_spec(s, id, r, span(a, b)) is None);
            },
            Hittable::Bvh(BVHNode::Branch { bbox, .. }) => {
                assert(hit_spec(s, id, r, span(a, b)) is None);
            },
            _ => {},
        }
        return;
    }
    match s[id] {
        Hittable::Bvh(BVHNode::Leaf { object, bbox }) => {
            assert(set =~= set![object]);
            assert(hit_spec(s, id, r, span(a, b)) == hit_spec(s, object as int, r, span(a, b)));
        },
        Hittable::Bvh(BVHNode::Branch { left, right, bbox }) => {
            let ls = subtree(s, left as int);
            let rs = subtree(s, right as int);
            assert(set == ls.union(rs));
            assert(boxed_spheres(s, ls));
            assert(boxed_spheres(s, rs));
            lemma_bvh_closest(scene, left as int, r, a, b);
            let lh = hit_spec(s, left as int, r, span(a, b));
            match lh {
                Some(lrec) => {
                    let x0 = choose|x: usize| ls.contains(x) && t_of(hit_spec(s, x as int, r, span(a, b))) == Some(lrec.t as int);
                    lemma_member_narrow(s, x0 as int, r, a, b, b);
                    assert(lrec.t < b);
                    lemma_bvh_closest(scene, right as int, r, a, lrec.t);
                    let rh = hit_spec(s, right as int, r, span(a, lrec.t));
                    assert(hit_spec(s, id, r, span(a, b)) == match rh {
                        Some(rrec) => Some(rrec),
                        None => Some(lrec),
                    });
                    match rh {
                        Some(rrec) => {
                            let y0 = choose|y: usize| rs.contains(y) && t_of(hit_spec(s, y as int, r, span(a, lrec.t))) == Some(rrec.t as int);
                            lemma_member_narrow(s, y0 as int, r, a, b, lrec.t);
                            lemma_member_narrow(s, y0 as int, r, a, lrec.t, lrec.t);
                            assert(rrec.t < lrec.t);
                            assert(set.contains(y0) && t_of(hit_spec(s, y0 as int, r, span(a, b))) == Some(rrec.t as int));
                            assert forall|x: usize| set.contains(x) implies (#[trigger] hit_spec(s, x as int, r, span(a, b)) matches Some(q) ==> q.t >= rrec.t) by {
                                lemma_member_narrow(s, x as int, r, a, b, lrec.t);
                                if ls.contains(x) {
                                } else {
                                    assert(hit_spec(s, x as int, r, span(a, lrec.t)) matches Some(q) ==> q.t >= rrec.t);
                                }
                            }
                        },
                        None => {
                            assert(set.contains(x0));
                            assert forall|x: usize| set.contains(x) implies (#[trigger] hit_spec(s, x as int, r, span(a, b)) matches Some(q) ==> q.t >= lrec.t) by {
                                lemma_member_narrow(s, x as int, r, a, b, lrec.t);
                                if !ls.contains(x) {
                                    assert(hit_spec(s, x as int, r, span(a, lrec.t)) is None);
                                }
                            }
                        },
                    }
                },
                None => {
                    lemma_bvh_closest(scene, right as int, r, a, b);
                    assert(hit_spec(s, id, r, span(a, b)) == hit_spec(s, right as int, r, span(a, b)));
                    let rh = hit_spec(s, right as int, r, span(a, b));
                    match rh {
                        Some(rrec) => {
                            let y0 = choose|y: usize| rs.contains(y) && t_of(hit_spec(s, y as int, r, span(a, b))) == Some(rrec.t as int);
                            assert(set.contains(y0));
                        },
                        None => {},
                    }
                },
            }
        },
        _ => {},
    }
}

proof fn lemma_member_on_ray(s: Seq<Hittable>, x: int, r: Ray, t: Interval)
    requires
        0 <= x < s.len(),
        s[x] is Sphere,
    ensures
        on_ray(hit_spec(s, x, r, t), r),
{
    reveal_with_fuel(hit_spec, 1);
    lemma_sphere_on_ray(s[x]->Sphere_0, r, t);
}

/// What a tree over spheres reports lies on the ray.
proof fn lemma_bvh_on_ray(scene: Scene, id: int, r: Ray, t: Interval)
    requires
        scene.wf(),
        tree_shape(scene.objects@, id),
        boxed_spheres(scene.objects@, subtree(scene.objects@, id)),
    ensures
        on_ray(hit_spec(scene.objects@, id, r, t), r),
    decreases id,
{
    let s = scene.objects@;
    reveal_with_fuel(hit_spec, 1);
    match s[id] {
        Hittable::Bvh(BVHNode::Leaf { object, .. }) => {
            assert(subtree(s, id).contains(object));
            lemma_member_on_ray(s, object as int, r, t);
        },
        Hittable::Bvh(BVHNode::Branch { left, right, .. }) => {
            assert(boxed_spheres(s, subtree(s, left as int)));
            assert(boxed_spheres(s, subtree(s, right as int)));
            lemma_bvh_on_ray(scene, left as int, r, t);
            lemma_bvh_on_ray(scene, right as int, r, t);
            match hit_spec(s, left as int, r, t) {
                Some(lrec) => {
                    lemma_bvh_on_ray(scene, right as int, r, Interval { min: t.min, max: lrec.t });
                },
                None => {},
            }
        },
        _ => {},
    }
}

/// What the linear scan over spheres reports lies on the ray.
proof fn lemma_list_on_ray(s: Seq<Hittable>, lid: int, objs: Seq<usize>, n: int, r: Ray, t: Interval)
    requires
        0 <= lid,
        0 <= n <= objs.len(),
        forall|i: int| 0 <= i < objs.len() ==> #[trigger] objs[i] < lid && objs[i] < s.len() && s[objs[i] as int] is Sphere,
    ensures
        on_ray(list_hit_spec(s, lid, objs, n, r, t), r),
    decreases n,
{
    if n == 0 {
        reveal_with_fuel(list_hit_spec, 1);
        return;
    }
    lemma_list_on_ray(s, lid, objs, n - 1, r, t);
    crate::primitive::lemma_list_step(s, lid, objs, n - 1, r, t);
    let prev = list_hit_spec(s, lid, objs, n - 1, r, t);
    let closest: i64 = match prev {
        Some(rec) => rec.t,
        None => t.max,
    };
    lemma_member_on_ray(s, objs[n - 1] as int, r, Interval { min: t.min, max: closest });
}

pub open spec fn prefix_set(objs: Seq<usize>, n: int) -> Set<usize> {
    Set::new(|x: usize| exists|i: int| 0 <= i < n && objs[i] == x)
}

/// The linear scan reports the closest hit among the first `n` members.
proof fn lemma_list_closest(s: Seq<Hittable>, lid: int, objs: Seq<usize>, n: int, r: Ray, a: i64, b: i64)
    requires
        0 <= lid,
        0 <= n <= objs.len(),
        forall|i: int| 0 <= i < objs.len() ==> #[trigger] objs[i] < lid && objs[i] < s.len() && s[objs[i] as int] is Sphere,
    ensures
        is_closest(s, prefix_set(objs, n), r, a, b, t_of(list_hit_spec(s, lid, objs, n, r, span(a, b)))),
    decreases n,
{
    let set = prefix_set(objs, n);
    if n == 0 {
        reveal_with_fuel(list_hit_spec, 1);
        assert forall|x: usize| set.contains(x) implies (#[trigger] hit_spec(s, x as int, r, span(a, b))) is None by {
        }
        return;
    }
    lemma_list_closest(s, lid, objs, n - 1, r, a, b);
    crate::primitive::lemma_list_step(s, lid, objs, n - 1, r, span(a, b));
    let prev = list_hit_spec(s, lid, objs, n - 1, r, span(a, b));
    let pset = prefix_set(objs, n - 1);
    let last = objs[n - 1];
    assert(s[last as int] is Sphere);
    assert forall|x: usize| set.contains(x) <==> pset.contains(x) || x == last by {
        if set.contains(x) {
            let i = choose|i: int| 0 <= i < n && objs[i] == x;
            if i < n - 1 {
                assert(pset.contains(x));
            }
        }
        if pset.contains(x) {
            let i = choose|i: int| 0 <= i < n - 1 && objs[i] == x;
            assert(set.contains(x));
        }
        if x == last {
            assert(objs[n - 1] == x);
        }
    }
    let closest: i64 = match prev {
        Some(rec) => rec.t,
        None => b,
    };
    match prev {
        Some(prec) => {
            let x0 = choose|x: usize| pset.contains(x) && t_of(hit_spec(s, x as int, r, span(a, b))) == Some(prec.t as int);
            let i0 = choose|i: int| 0 <= i < n - 1 && objs[i] == x0;
            assert(objs[i0] == x0);
            lemma_member_narrow(s, x0 as int, r, a, b, b);
        },
        None => {},
    }
    assert(closest <= b);
    lemma_member_narrow(s, last as int, r, a, b, closest);
    let cur = hit_spec(s, last as int, r, span(a, closest));
    match cur {
        Some(crec) => {
            assert(set.contains(last));
            assert forall|x: usize| set.contains(x) implies (#[trigger] hit_spec(s, x as int, r, span(a, b)) matches Some(q) ==> q.t >= crec.t) by {
                if x != last {
                    assert(pset.contains(x));
                }
            }
        },
        None => {
            match prev {
                Some(prec) => {
                    let x0 = choose|x: usize| pset.contains(x) && t_of(hit_spec(s, x as int, r, span(a, b))) == Some(prec.t as int);
                    assert(set.contains(x0));
                },
                None => {},
            }
            assert forall|x: usize| set.contains(x) implies (#[trigger] hit_spec(s, x as int, r, span(a, b)) matches Some(q) ==> q.t >= closest) by {
                if x != last {
                    assert(pset.contains(x));
                }
            }
        },
    }
}

/// For a hierarchy whose leaves are the spheres of a list, traversing the
/// hierarchy and scanning the list report hits at the same parameter, for
/// every ray and interval, provided that each sphere's hits lie where its box
/// is hit (the premise under which pruning by boxes is sound). Both records
/// then also lie at the same point.
pub proof fn lemma_bvh_matches_list(scene: Scene, bvh: int, list: int, r: Ray, a: i64, b: i64)
    requires
        scene.wf(),
        0 <= list < scene.objects@.len(),
        scene.objects@[list] is List,
        tree_shape(scene.objects@, bvh),
        subtree(scene.objects@, bvh) == scene.objects@[list]->List_0.objects@.to_set(),
        boxed_spheres(scene.objects@, subtree(scene.objects@, bvh)),
    ensures
        t_of(hit_spec(scene.objects@, bvh, r, span(a, b))) == t_of(hit_spec(scene.objects@, list, r, span(a, b))),
        hit_spec(scene.objects@, bvh, r, span(a, b)) matches Some(x) ==> hit_spec(scene.objects@, list, r, span(a, b)) matches Some(y) && x.t == y.t && x.p == y.p,
{
    let s = scene.objects@;
    let l = s[list]->List_0;
    let objs = l.objects@;
    scene.lemma_wf_at(list);
    crate::primitive::lemma_list_unfold(s, list, l, r, span(a, b));
    assert forall|i: int| 0 <= i < objs.len() implies #[trigger] objs[i] < list && objs[i] < s.len() && s[objs[i] as int] is Sphere by {
        assert(objs.to_set().contains(objs[i]));
    }
    lemma_list_closest(s, list, objs, objs.len() as int, r, a, b);
    assert(prefix_set(objs, objs.len() as int) =~= objs.to_set()) by {
        assert forall|x: usize| objs.to_set().contains(x) implies prefix_set(objs, objs.len() as int).contains(x) by {
            let i = choose|i: int| 0 <= i < objs.len() && objs[i] == x;
        }
    }
    lemma_bvh_closest(scene, bvh, r, a, b);
    lemma_bvh_on_ray(scene, bvh, r, span(a, b));
    lemma_list_on_ray(s, list, objs, objs.len() as int, r, span(a, b));
    lemma_closest_unique(
        s,
        objs.to_set(),
        r,
        a,
        b,
        t_of(hit_spec(s, bvh, r, span(a, b))),
        t_of(hit_spec(s, list, r, span(a, b))),
    );
}

} // verus!
