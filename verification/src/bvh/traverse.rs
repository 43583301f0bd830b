//! The nearest-hit query on the flattened tree.

use vstd::prelude::*;
use crate::bvh::builder::{tiles, BuildNode, BuildNodeInner};
use crate::bvh::flatten::{lemma_preorder_len, preorder, FlatNode, FlatNodeInner};
use crate::primitives::aabb::{lemma_meets_enclosing, AABB};
use crate::primitives::{within, Intersect};
use crate::ray::{Hit, Ray};

verus! {

/// The bounding boxes of a list of primitives that all have one.
pub open spec fn boxes_of<P: Intersect>(geometry: Seq<P>) -> Seq<AABB> {
    Seq::new(geometry.len(), |k: int| geometry[k].spec_bounds().unwrap())
}

/// Whether every primitive of the list has a bounding box.
pub open spec fn all_bounded<P: Intersect>(geometry: Seq<P>) -> bool {
    forall|k: int| 0 <= k < geometry.len() ==> (#[trigger] geometry[k]).spec_bounds() is Some
}

/// Position, in the reordered list, of the first primitive below node `i`.
pub open spec fn range_start(tree: Seq<FlatNode>, i: int) -> int
    decreases tree.len() - i,
{
    if 0 <= i < tree.len() {
        match tree[i].inner {
            FlatNodeInner::Leaf { geometry_offset, .. } => geometry_offset as int,
            FlatNodeInner::Interior { left, .. } => if i < left < tree.len() {
                range_start(tree, left as int)
            } else {
                0
            },
        }
    } else {
        0
    }
}

/// Position, in the reordered list, just past the last primitive below node
/// `i`.
pub open spec fn range_end(tree: Seq<FlatNode>, i: int) -> int
    decreases tree.len() - i,
{
    if 0 <= i < tree.len() {
        match tree[i].inner {
            FlatNodeInner::Leaf { geometry_offset, num_primitives } => geometry_offset
                + num_primitives,
            FlatNodeInner::Interior { right, .. } => if i < right < tree.len() {
                range_end(tree, right as int)
            } else {
                0
            },
        }
    } else {
        0
    }
}

/// Whether the subtree at node `i` is sound for primitives with the given
/// boxes: children stand later in the sequence than their parent, a leaf
/// holds at least one primitive, the right child's primitives follow the left
/// child's without a gap, and every node's bounds enclose its children's
/// bounds or its primitives' boxes.
pub open spec fn sound(tree: Seq<FlatNode>, boxes: Seq<AABB>, i: int) -> bool
    decreases tree.len() - i,
{
    &&& 0 <= i < tree.len()
    &&& match tree[i].inner {
        FlatNodeInner::Leaf { geometry_offset, num_primitives } => {
            &&& num_primitives >= 1
            &&& geometry_offset + num_primitives <= boxes.len()
            &&& forall|k: int|
                geometry_offset <= k < geometry_offset + num_primitives ==> tree[i].bounds.encloses(
                    #[trigger] boxes[k],
                )
        },
        FlatNodeInner::Interior { left, right } => {
            &&& i < left < tree.len()
            &&& i < right < tree.len()
            &&& sound(tree, boxes, left as int)
            &&& sound(tree, boxes, right as int)
            &&& range_end(tree, left as int) == range_start(tree, right as int)
            &&& tree[i].bounds.encloses(tree[left as int].bounds)
            &&& tree[i].bounds.encloses(tree[right as int].bounds)
        },
    }
}

/// The ray parameter of a hit.
pub open spec fn time_of(hit: Option<Hit>) -> Option<i64> {
    match hit {
        Some(h) => Some(h.t),
        None => None,
    }
}

/// The smaller of two ray parameters, where there are two.
pub open spec fn sooner(a: Option<i64>, b: Option<i64>) -> Option<i64> {
    match (a, b) {
        (Some(x), Some(y)) => if x < y {
            a
        } else {
            b
        },
        (Some(_), None) => a,
        (None, _) => b,
    }
}

/// The hit of the left subtree if it is strictly nearer than that of the
/// right one, else the hit of the right subtree; the only hit where there is
/// only one.
pub open spec fn nearer(left: Option<Hit>, right: Option<Hit>) -> Option<Hit> {
    match (left, right) {
        (Some(l), Some(r)) => if l.t < r.t {
            left
        } else {
            right
        },
        (Some(_), None) => left,
        (None, _) => right,
    }
}

/// The smallest parameter strictly between `t_min` and `t_max` at which the
/// ray crosses any of the primitives `lo..hi`: what a scan of all of them,
/// each asked about the whole interval, finds.
pub open spec fn nearest_time<P: Intersect>(
    geometry: Seq<P>,
    lo: int,
    hi: int,
    ray: Ray,
    t_min: i64,
    t_max: i64,
) -> Option<i64>
    decreases hi - lo,
{
    if lo >= hi {
        None
    } else {
        sooner(
            nearest_time(geometry, lo, hi - 1, ray, t_min, t_max),
            time_of(within(geometry[hi - 1].first_hit(ray, t_min), t_max)),
        )
    }
}

/// The hit that a leaf with the primitives `lo..hi` reports: each primitive
/// in turn is asked about the interval up to the nearest hit found so far.
pub open spec fn scan<P: Intersect>(
    geometry: Seq<P>,
    lo: int,
    hi: int,
    ray: Ray,
    t_min: i64,
    t_max: i64,
) -> Option<Hit>
    decreases hi - lo,
{
    if lo >= hi {
        None
    } else {
        let before = scan(geometry, lo, hi - 1, ray, t_min, t_max);
        let closest = match before {
            Some(h) => h.t,
            None => t_max,
        };
        match within(geometry[hi - 1].first_hit(ray, t_min), closest) {
            Some(h) => Some(h),
            None => before,
        }
    }
}

/// The hit that the subtree at node `i` reports: none where the ray misses
/// the node's bounds, the nearer of the two children's hits at an interior
/// node, the result of the scan at a leaf.
pub open spec fn walk<P: Intersect>(
    tree: Seq<FlatNode>,
    geometry: Seq<P>,
    i: int,
    ray: Ray,
    t_min: i64,
    t_max: i64,
) -> Option<Hit>
    decreases tree.len() - i,
{
    if !(0 <= i < tree.len()) || !tree[i].bounds.meets(ray) {
        None
    } else {
        match tree[i].inner {
            FlatNodeInner::Interior { left, right } => if i < left < tree.len() && i < right
                < tree.len() {
                nearer(
                    walk(tree, geometry, left as int, ray, t_min, t_max),
                    walk(tree, geometry, right as int, ray, t_min, t_max),
                )
            } else {
                None
            },
            FlatNodeInner::Leaf { geometry_offset, num_primitives } => scan(
                geometry,
                geometry_offset as int,
                geometry_offset + num_primitives,
                ray,
                t_min,
                t_max,
            ),
        }
    }
}

/// What the primitive at place `k` reports for the whole interval, as a ray
/// parameter.
pub open spec fn time_at<P: Intersect>(
    geometry: Seq<P>,
    k: int,
    ray: Ray,
    t_min: i64,
    t_max: i64,
) -> Option<i64> {
    time_of(within(geometry[k].first_hit(ray, t_min), t_max))
}

/// The nearest crossing among `lo..hi` is the least of what the primitives
/// report: one of them reports it, and none reports a smaller parameter. There
/// is none only if no primitive reports a crossing.
pub proof fn lemma_nearest_time<P: Intersect>(
    geometry: Seq<P>,
    lo: int,
    hi: int,
    ray: Ray,
    t_min: i64,
    t_max: i64,
)
    ensures
        match nearest_time(geometry, lo, hi, ray, t_min, t_max) {
            Some(t) => {
                &&& exists|k: int|
                    lo <= k < hi && #[trigger] time_at(geometry, k, ray, t_min, t_max) == Some(t)
                &&& forall|k: int|
                    lo <= k < hi ==> match #[trigger] time_at(geometry, k, ray, t_min, t_max) {
                        Some(other) => t <= other,
                        None => true,
                    }
            },
            None => forall|k: int|
                lo <= k < hi ==> #[trigger] time_at(geometry, k, ray, t_min, t_max) is None,
        },
    decreases hi - lo,
{
    if lo < hi {
        lemma_nearest_time(geometry, lo, hi - 1, ray, t_min, t_max);
        let last = time_at(geometry, hi - 1, ray, t_min, t_max);
        match nearest_time(geometry, lo, hi, ray, t_min, t_max) {
            Some(t) => {
                if last == Some(t) {
                    assert(time_at(geometry, hi - 1, ray, t_min, t_max) == Some(t));
                } else {
                    let k = choose|k: int|
                        lo <= k < hi - 1 && #[trigger] time_at(geometry, k, ray, t_min, t_max)
                            == Some(t);
                    assert(lo <= k < hi && time_at(geometry, k, ray, t_min, t_max) == Some(t));
                }
            },
            None => {},
        }
    }
}

/// A leaf's scan finds the nearest crossing among its primitives, and what it
/// reports is the first hit of one of them.
pub proof fn lemma_scan<P: Intersect>(
    geometry: Seq<P>,
    lo: int,
    hi: int,
    ray: Ray,
    t_min: i64,
    t_max: i64,
)
    ensures
        time_of(scan(geometry, lo, hi, ray, t_min, t_max)) == nearest_time(
            geometry,
            lo,
            hi,
            ray,
            t_min,
            t_max,
        ),
        scan(geometry, lo, hi, ray, t_min, t_max) matches Some(h) ==> h.t < t_max && exists|k: int|
            lo <= k < hi && #[trigger] geometry[k].first_hit(ray, t_min) == Some(h),
    decreases hi - lo,
{
    if lo < hi {
        lemma_scan(geometry, lo, hi - 1, ray, t_min, t_max);
        let found = scan(geometry, lo, hi, ray, t_min, t_max);
        if found is Some && found != scan(geometry, lo, hi - 1, ray, t_min, t_max) {
            assert(geometry[hi - 1].first_hit(ray, t_min) == found);
        }
    }
}

/// The nearest crossing among `lo..hi` is the sooner of those among
/// `lo..mid` and `mid..hi`.
pub proof fn lemma_nearest_split<P: Intersect>(
    geometry: Seq<P>,
    lo: int,
    mid: int,
    hi: int,
    ray: Ray,
    t_min: i64,
    t_max: i64,
)
    requires
        lo <= mid <= hi,
    ensures
        nearest_time(geometry, lo, hi, ray, t_min, t_max) == sooner(
            nearest_time(geometry, lo, mid, ray, t_min, t_max),
            nearest_time(geometry, mid, hi, ray, t_min, t_max),
        ),
    decreases hi - mid,
{
    if mid < hi {
        lemma_nearest_split(geometry, lo, mid, hi - 1, ray, t_min, t_max);
    }
}

/// A ray that misses a box crosses none of the primitives whose boxes it
/// encloses.
pub proof fn lemma_pruned<P: Intersect>(
    geometry: Seq<P>,
    lo: int,
    hi: int,
    bounds: AABB,
    ray: Ray,
    t_min: i64,
    t_max: i64,
)
    requires
        0 <= lo <= hi <= geometry.len(),
        t_min >= 0,
        all_bounded(geometry),
        !bounds.meets(ray),
        forall|k: int| lo <= k < hi ==> bounds.encloses(#[trigger] boxes_of(geometry)[k]),
    ensures
        nearest_time(geometry, lo, hi, ray, t_min, t_max) == None::<i64>,
    decreases hi - lo,
{
    if lo < hi {
        lemma_pruned(geometry, lo, hi - 1, bounds, ray, t_min, t_max);
        let last = geometry[hi - 1];
        if last.first_hit(ray, t_min) is Some {
            last.lemma_crossing_in_bounds(ray, t_min);
            assert(boxes_of(geometry)[hi - 1] == last.spec_bounds().unwrap());
            lemma_meets_enclosing(bounds, last.spec_bounds().unwrap(), ray);
        }
    }
}

/// The primitives below a sound node form a non-empty range of the list, and
/// the node's bounds enclose the boxes of them all.
pub proof fn lemma_range(tree: Seq<FlatNode>, boxes: Seq<AABB>, i: int)
    requires
        sound(tree, boxes, i),
    ensures
        0 <= range_start(tree, i) < range_end(tree, i) <= boxes.len(),
        forall|k: int|
            range_start(tree, i) <= k < range_end(tree, i) ==> tree[i].bounds.encloses(
                #[trigger] boxes[k],
            ),
    decreases tree.len() - i,
{
    match tree[i].inner {
        FlatNodeInner::Leaf { .. } => {},
        FlatNodeInner::Interior { left, right } => {
            lemma_range(tree, boxes, left as int);
            lemma_range(tree, boxes, right as int);
        },
    }
}

/// On a sound tree, and for a ray followed from its origin on, the walk finds
/// the nearest crossing among all primitives below the node.
pub proof fn lemma_walk<P: Intersect>(
    tree: Seq<FlatNode>,
    geometry: Seq<P>,
    i: int,
    ray: Ray,
    t_min: i64,
    t_max: i64,
)
    requires
        all_bounded(geometry),
        sound(tree, boxes_of(geometry), i),
        t_min >= 0,
    ensures
        time_of(walk(tree, geometry, i, ray, t_min, t_max)) == nearest_time(
            geometry,
            range_start(tree, i),
            range_end(tree, i),
            ray,
            t_min,
            t_max,
        ),
    decreases tree.len() - i,
{
    let boxes = boxes_of(geometry);
    lemma_range(tree, boxes, i);
    let (lo, hi) = (range_start(tree, i), range_end(tree, i));
    if !tree[i].bounds.meets(ray) {
        lemma_pruned(geometry, lo, hi, tree[i].bounds, ray, t_min, t_max);
    } else {
        match tree[i].inner {
            FlatNodeInner::Leaf { .. } => {
                lemma_scan(geometry, lo, hi, ray, t_min, t_max);
            },
            FlatNodeInner::Interior { left, right } => {
                lemma_walk(tree, geometry, left as int, ray, t_min, t_max);
                lemma_walk(tree, geometry, right as int, ray, t_min, t_max);
                lemma_range(tree, boxes, left as int);
                lemma_range(tree, boxes, right as int);
                lemma_nearest_split(
                    geometry,
                    lo,
                    range_end(tree, left as int),
                    hi,
                    ray,
                    t_min,
                    t_max,
                );
            },
        }
    }
}

/// What the walk reports is the first hit of one of the primitives below the
/// node, and lies before `t_max`.
pub proof fn lemma_walk_source<P: Intersect>(
    tree: Seq<FlatNode>,
    geometry: Seq<P>,
    i: int,
    ray: Ray,
    t_min: i64,
    t_max: i64,
)
    requires
        sound(tree, boxes_of(geometry), i),
    ensures
        walk(tree, geometry, i, ray, t_min, t_max) matches Some(h) ==> h.t < t_max && exists|
            k: int,
        |
            range_start(tree, i) <= k < range_end(tree, i) && #[trigger] geometry[k].first_hit(
                ray,
                t_min,
            ) == Some(h),
    decreases tree.len() - i,
{
    let boxes = boxes_of(geometry);
    lemma_range(tree, boxes, i);
    if tree[i].bounds.meets(ray) {
        match tree[i].inner {
            FlatNodeInner::Leaf { .. } => {
                lemma_scan(geometry, range_start(tree, i), range_end(tree, i), ray, t_min, t_max);
            },
            FlatNodeInner::Interior { left, right } => {
                lemma_walk_source(tree, geometry, left as int, ray, t_min, t_max);
                lemma_walk_source(tree, geometry, right as int, ray, t_min, t_max);
                lemma_range(tree, boxes, left as int);
                lemma_range(tree, boxes, right as int);
            },
        }
    }
}

/// What the walk reports lies beyond `t_min`, whatever the tree.
pub proof fn lemma_walk_beyond<P: Intersect>(
    tree: Seq<FlatNode>,
    geometry: Seq<P>,
    i: int,
    ray: Ray,
    t_min: i64,
    t_max: i64,
)
    ensures
        walk(tree, geometry, i, ray, t_min, t_max) matches Some(h) ==> t_min < h.t < t_max,
    decreases tree.len() - i,
{
    if 0 <= i < tree.len() && tree[i].bounds.meets(ray) {
        match tree[i].inner {
            FlatNodeInner::Leaf { geometry_offset, num_primitives } => {
                let (lo, hi) = (geometry_offset as int, geometry_offset + num_primitives);
                lemma_scan(geometry, lo, hi, ray, t_min, t_max);
                if let Some(h) = scan(geometry, lo, hi, ray, t_min, t_max) {
                    let k = choose|k: int|
                        lo <= k < hi && #[trigger] geometry[k].first_hit(ray, t_min) == Some(h);
                    geometry[k].lemma_first_hit_beyond(ray, t_min);
                }
            },
            FlatNodeInner::Interior { left, right } => {
                if i < left < tree.len() && i < right < tree.len() {
                    lemma_walk_beyond(tree, geometry, left as int, ray, t_min, t_max);
                    lemma_walk_beyond(tree, geometry, right as int, ray, t_min, t_max);
                }
            },
        }
    }
}

/// A scan up to `t_max` reports what a scan without an upper bound reports,
/// if that lies before `t_max`, and nothing otherwise.
pub proof fn lemma_scan_within<P: Intersect>(
    geometry: Seq<P>,
    lo: int,
    hi: int,
    ray: Ray,
    t_min: i64,
    t_max: i64,
)
    ensures
        scan(geometry, lo, hi, ray, t_min, t_max) == within(
            scan(geometry, lo, hi, ray, t_min, i64::MAX),
            t_max,
        ),
    decreases hi - lo,
{
    if lo < hi {
        lemma_scan_within(geometry, lo, hi - 1, ray, t_min, t_max);
        lemma_scan(geometry, lo, hi - 1, ray, t_min, t_max);
        lemma_scan(geometry, lo, hi - 1, ray, t_min, i64::MAX);
    }
}

/// A walk up to `t_max` reports what a walk without an upper bound reports,
/// if that lies before `t_max`, and nothing otherwise.
pub proof fn lemma_walk_within<P: Intersect>(
    tree: Seq<FlatNode>,
    geometry: Seq<P>,
    i: int,
    ray: Ray,
    t_min: i64,
    t_max: i64,
)
    ensures
        walk(tree, geometry, i, ray, t_min, t_max) == within(
            walk(tree, geometry, i, ray, t_min, i64::MAX),
            t_max,
        ),
    decreases tree.len() - i,
{
    if 0 <= i < tree.len() && tree[i].bounds.meets(ray) {
        match tree[i].inner {
            FlatNodeInner::Leaf { geometry_offset, num_primitives } => {
                lemma_scan_within(
                    geometry,
                    geometry_offset as int,
                    geometry_offset + num_primitives,
                    ray,
                    t_min,
                    t_max,
                );
            },
            FlatNodeInner::Interior { left, right } => {
                if i < left < tree.len() && i < right < tree.len() {
                    lemma_walk_within(tree, geometry, left as int, ray, t_min, t_max);
                    lemma_walk_within(tree, geometry, right as int, ray, t_min, t_max);
                }
            },
        }
    }
}

/// Where a built tree that tiles a list of boxes stands flattened in a node
/// sequence, the sequence is sound from the tree's root on, and the root
/// covers the range that the tree tiles.
pub proof fn lemma_flat_sound(
    node: BuildNode,
    tree: Seq<FlatNode>,
    base: int,
    boxes: Seq<AABB>,
    start: int,
)
    requires
        tiles(node, boxes, start),
        0 <= base,
        base + node.node_count() <= tree.len() <= usize::MAX,
        tree.subrange(base, base + node.node_count()) == preorder(node, base),
    ensures
        sound(tree, boxes, base),
        range_start(tree, base) == start,
        range_end(tree, base) == start + node.primitive_count(),
        tree[base].bounds == node.bounds,
    decreases node,
{
    let flat = preorder(node, base);
    lemma_preorder_len(node, base);
    assert(tree[base] == tree.subrange(base, base + node.node_count())[0]);
    match node.inner {
        BuildNodeInner::Leaf { .. } => {},
        BuildNodeInner::Interior { left, right } => {
            let first = preorder(*left, base + 1);
            lemma_preorder_len(*left, base + 1);
            let second = preorder(*right, base + 1 + first.len());
            lemma_preorder_len(*right, base + 1 + first.len());
            assert(tree.subrange(base + 1, base + 1 + left.node_count()) =~= first) by {
                assert forall|j: int| 0 <= j < first.len() implies tree[base + 1 + j]
                    == first[j] by {
                    assert(tree[base + 1 + j] == flat[1 + j]);
                }
            }
            let at = base + 1 + first.len();
            assert(tree.subrange(at, at + right.node_count()) =~= second) by {
                assert forall|j: int| 0 <= j < second.len() implies tree[at + j]
                    == second[j] by {
                    assert(tree[at + j] == flat[1 + first.len() + j]);
                }
            }
            lemma_flat_sound(*left, tree, base + 1, boxes, start);
            lemma_flat_sound(*right, tree, at, boxes, start + left.primitive_count());
        },
    }
}

/// Scans the primitives `lo..hi` for the nearest crossing strictly between
/// `t_min` and `t_max`.
pub fn scan_leaf<P: Intersect>(
    geometry: &Vec<P>,
    lo: usize,
    hi: usize,
    ray: Ray,
    t_min: i64,
    t_max: i64,
) -> (hit: Option<Hit>)
    requires
        lo <= hi <= geometry.len(),
    ensures
        hit == scan(geometry@, lo as int, hi as int, ray, t_min, t_max),
{
    let mut hit: Option<Hit> = None;
    let mut closest: i64 = t_max;
    let mut k: usize = lo;
    while k < hi
        invariant
            lo <= k <= hi <= geometry.len(),
            hit == scan(geometry@, lo as int, k as int, ray, t_min, t_max),
            closest == match hit {
                Some(h) => h.t,
                None => t_max,
            },
        decreases hi - k,
    {
        if let Some(h) = geometry[k].intersection(ray, t_min, closest) {
            closest = h.t;
            hit = Some(h);
        }
        k += 1;
    }
    hit
}

/// The nearest hit below node `index` of the tree.
pub fn intersect<P: Intersect>(
    tree: &Vec<FlatNode>,
    geometry: &Vec<P>,
    index: usize,
    ray: Ray,
    t_min: i64,
    t_max: i64,
) -> (hit: Option<Hit>)
    requires
        sound(tree@, boxes_of(geometry@), index as int),
    ensures
        hit == walk(tree@, geometry@, index as int, ray, t_min, t_max),
    decreases tree.len() - index,
{
    let node = &tree[index];
    assert(boxes_of(geometry@).len() == geometry.len());
    if node.bounds.has_intersection(ray, t_min, t_max) {
        match node.inner {
            FlatNodeInner::Interior { left, right } => {
                let left_hit = intersect(tree, geometry, left, ray, t_min, t_max);
                let right_hit = intersect(tree, geometry, right, ray, t_min, t_max);
                match (left_hit, right_hit) {
                    (Some(l), Some(r)) => {
                        if l.t < r.t {
                            Some(l)
                        } else {
                            Some(r)
                        }
                    },
                    (Some(l), None) => Some(l),
                    (None, r) => r,
                }
            },
            FlatNodeInner::Leaf { geometry_offset, num_primitives } => {
                scan_leaf(
                    geometry,
                    geometry_offset,
                    geometry_offset + num_primitives,
                    ray,
                    t_min,
                    t_max,
                )
            },
        }
    } else {
        None
    }
}

} // verus!
