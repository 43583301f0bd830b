//! Top-down construction of the hierarchy.

use vstd::prelude::*;
use crate::bvh::sah::{
    as_ints, beats_leaf, bucket_index, bucket_of, center_max, center_min, centroid_range,
    cheaper_than_leaf, cheapest, fill_buckets, first_minimum, lemma_area_bound,
    lemma_center_attained, lemma_center_range, lemma_cheapest, lemma_side_count,
    lemma_span_concat, lemma_span_encloses, lemma_span_same, side, span, split_cost, split_costs,
    tallies, views, window_bounds,
    GeometryInfo, BUCKETS, SPLITS,
};
use crate::primitives::aabb::lemma_union_least;
use crate::primitives::aabb::AABB;
use crate::vector::Axis;

verus! {

/// What hangs below a node of the tree under construction.
#[derive(Debug)]
pub enum BuildNodeInner {
    Interior { left: Box<BuildNode>, right: Box<BuildNode> },
    /// The primitives `geometry_offset .. geometry_offset + num_primitives`
    /// of the reordered list.
    Leaf { geometry_offset: usize, num_primitives: usize },
}

/// A node of the tree under construction, with the bounds of all that hangs
/// below it.
#[derive(Debug)]
pub struct BuildNode {
    pub bounds: AABB,
    pub inner: BuildNodeInner,
}

impl BuildNode {
    /// Number of nodes in the tree rooted here.
    pub open spec fn node_count(self) -> nat
        decreases self,
    {
        match self.inner {
            BuildNodeInner::Interior { left, right } => 1 + left.node_count() + right.node_count(),
            BuildNodeInner::Leaf { .. } => 1,
        }
    }

    /// Number of primitives in the leaves of the tree rooted here.
    pub open spec fn primitive_count(self) -> nat
        decreases self,
    {
        match self.inner {
            BuildNodeInner::Interior { left, right } => left.primitive_count()
                + right.primitive_count(),
            BuildNodeInner::Leaf { num_primitives, .. } => num_primitives as nat,
        }
    }

    /// An interior node over two subtrees; its bounds are the union of
    /// theirs.
    pub fn interior(left: Box<BuildNode>, right: Box<BuildNode>) -> (r: Self)
        ensures
            r == (BuildNode {
                bounds: left.bounds.spec_union(right.bounds),
                inner: BuildNodeInner::Interior { left, right },
            }),
    {
        let bounds = left.bounds.union(right.bounds);
        BuildNode { bounds, inner: BuildNodeInner::Interior { left, right } }
    }

    /// A leaf with the given bounds over the primitives
    /// `geometry_offset .. geometry_offset + num_primitives`.
    pub fn leaf(bounds: AABB, geometry_offset: usize, num_primitives: usize) -> (r: Self)
        ensures
            r == (BuildNode {
                bounds,
                inner: BuildNodeInner::Leaf { geometry_offset, num_primitives },
            }),
    {
        BuildNode { bounds, inner: BuildNodeInner::Leaf { geometry_offset, num_primitives } }
    }
}

/// Whether an item's bucket lies above the split after bucket `best`.
pub open spec fn above(g: GeometryInfo, axis: Axis, lo: int, hi: int, best: int) -> bool {
    bucket_of(g.center(axis), lo, hi) > best
}

/// The items above the split (`upper`) or at and below it, in their order.
pub open spec fn select(
    items: Seq<GeometryInfo>,
    axis: Axis,
    lo: int,
    hi: int,
    best: int,
    upper: bool,
) -> Seq<GeometryInfo>
    decreases items.len(),
{
    if items.len() == 0 {
        Seq::empty()
    } else {
        let rest = select(items.drop_last(), axis, lo, hi, best, upper);
        if above(items.last(), axis, lo, hi, best) == upper {
            rest.push(items.last())
        } else {
            rest
        }
    }
}

/// The cost of every candidate split of a window along `axis`.
pub open spec fn spec_costs(items: Seq<GeometryInfo>, axis: Axis, lo: int, hi: int) -> Seq<int> {
    Seq::new(SPLITS as nat, |i: int| split_cost(tallies(items, axis, lo, hi), i))
}

/// What the builder does with a window of two or more items: `None` to keep
/// it as one leaf, or the window in its new order and the length of its first
/// part.
///
/// The split axis is the longest axis of the window's bounds. Where all
/// centroids agree along it there is nothing to bucket: the window is halved
/// as it stands if it is larger than `threshold`, and kept whole otherwise.
/// Else the cheapest split is taken if the window is larger than `threshold`
/// or the split is cheaper than a single leaf; the items above the split come
/// first, each part in its old order.
pub open spec fn spec_split(items: Seq<GeometryInfo>, threshold: int) -> Option<
    (Seq<GeometryInfo>, int),
> {
    let n = items.len() as int;
    let bounds = span(items);
    let axis = bounds.spec_max_extent();
    let lo = center_min(items, axis);
    let hi = center_max(items, axis);
    if lo == hi {
        if n > threshold {
            Some((items, n / 2))
        } else {
            None
        }
    } else {
        let costs = spec_costs(items, axis, lo, hi);
        let best = cheapest(costs, SPLITS as int);
        if n > threshold || cheaper_than_leaf(bounds.spec_surface_area(), costs[best], n) {
            let upper = select(items, axis, lo, hi, best, true);
            let lower = select(items, axis, lo, hi, best, false);
            Some((upper + lower, upper.len() as int))
        } else {
            None
        }
    }
}

/// The positions that the items had in the list the hierarchy is built from.
pub open spec fn indices(items: Seq<GeometryInfo>) -> Seq<usize> {
    Seq::new(items.len(), |k: int| items[k].index)
}

/// How often `v` occurs in `s`.
pub open spec fn occurrences(s: Seq<usize>, v: usize) -> nat
    decreases s.len(),
{
    if s.len() == 0 {
        0
    } else {
        occurrences(s.drop_last(), v) + if s.last() == v {
            1nat
        } else {
            0nat
        }
    }
}

/// Occurrences add up over concatenation.
pub proof fn lemma_occurrences_concat(a: Seq<usize>, b: Seq<usize>, v: usize)
    ensures
        occurrences(a + b, v) == occurrences(a, v) + occurrences(b, v),
    decreases b.len(),
{
    if b.len() == 0 {
        assert(a + b =~= a);
    } else {
        assert((a + b).drop_last() =~= a + b.drop_last());
        lemma_occurrences_concat(a, b.drop_last(), v);
    }
}

/// The two parts of a selection have all the items between them.
pub proof fn lemma_select_len(
    items: Seq<GeometryInfo>,
    axis: Axis,
    lo: int,
    hi: int,
    best: int,
)
    ensures
        select(items, axis, lo, hi, best, true).len() + select(
            items,
            axis,
            lo,
            hi,
            best,
            false,
        ).len() == items.len(),
    decreases items.len(),
{
    if items.len() > 0 {
        lemma_select_len(items.drop_last(), axis, lo, hi, best);
    }
}

/// An item on one side of the split makes that part of the selection
/// non-empty.
pub proof fn lemma_select_nonempty(
    items: Seq<GeometryInfo>,
    axis: Axis,
    lo: int,
    hi: int,
    best: int,
    upper: bool,
    j: int,
)
    requires
        0 <= j < items.len(),
        above(items[j], axis, lo, hi, best) == upper,
    ensures
        select(items, axis, lo, hi, best, upper).len() > 0,
    decreases items.len(),
{
    if j < items.len() - 1 {
        lemma_select_nonempty(items.drop_last(), axis, lo, hi, best, upper, j);
    }
}

/// Selection keeps every index as often as it occurred.
pub proof fn lemma_select_occurrences(
    items: Seq<GeometryInfo>,
    axis: Axis,
    lo: int,
    hi: int,
    best: int,
    v: usize,
)
    ensures
        occurrences(indices(select(items, axis, lo, hi, best, true)), v) + occurrences(
            indices(select(items, axis, lo, hi, best, false)),
            v,
        ) == occurrences(indices(items), v),
    decreases items.len(),
{
    if items.len() > 0 {
        let rest = items.drop_last();
        lemma_select_occurrences(rest, axis, lo, hi, best, v);
        let up = select(rest, axis, lo, hi, best, true);
        let down = select(rest, axis, lo, hi, best, false);
        assert(indices(items).drop_last() =~= indices(rest));
        assert(indices(up.push(items.last())).drop_last() =~= indices(up));
        assert(indices(down.push(items.last())).drop_last() =~= indices(down));
    }
}

/// The largest centroid falls into the last bucket and the smallest into the
/// first.
pub proof fn lemma_bucket_ends(lo: int, hi: int)
    requires
        lo < hi,
    ensures
        bucket_of(hi, lo, hi) == BUCKETS - 1,
        bucket_of(lo, lo, hi) == 0,
{
    let d = hi - lo;
    assert((12 * d) / d == 12) by (nonlinear_arith)
        requires
            d > 0,
    ;
    assert(0int / d == 0) by (nonlinear_arith)
        requires
            d > 0,
    ;
}

/// A split of a window of two or more items leaves both parts non-empty,
/// drops no item and keeps every index as often as it occurred.
pub proof fn lemma_split_valid(items: Seq<GeometryInfo>, threshold: int)
    requires
        items.len() >= 2,
    ensures
        spec_split(items, threshold) matches Some((arranged, mid)) ==> {
            &&& 0 < mid < items.len()
            &&& arranged.len() == items.len()
            &&& forall|v: usize|
                occurrences(indices(arranged), v) == occurrences(indices(items), v)
        },
{
    let axis = span(items).spec_max_extent();
    let lo = center_min(items, axis);
    let hi = center_max(items, axis);
    if lo != hi && spec_split(items, threshold) is Some {
        let costs = spec_costs(items, axis, lo, hi);
        let best = cheapest(costs, SPLITS as int);
        lemma_cheapest(costs, SPLITS as int);
        let w = lemma_center_attained(items, axis);
        lemma_center_range(items, axis, 0);
        lemma_bucket_ends(lo, hi);
        lemma_select_nonempty(items, axis, lo, hi, best, false, w.0);
        lemma_select_nonempty(items, axis, lo, hi, best, true, w.1);
        lemma_select_len(items, axis, lo, hi, best);
        let upper = select(items, axis, lo, hi, best, true);
        let lower = select(items, axis, lo, hi, best, false);
        assert forall|v: usize|
            occurrences(indices(upper + lower), v) == occurrences(indices(items), v) by {
            lemma_select_occurrences(items, axis, lo, hi, best, v);
            assert(indices(upper + lower) =~= indices(upper) + indices(lower));
            lemma_occurrences_concat(indices(upper), indices(lower), v);
        }
    }
}

/// The tree that the builder makes of a window, whose leaves take their
/// ranges of the reordered list from `offset` on.
pub open spec fn spec_build(items: Seq<GeometryInfo>, offset: int, threshold: int) -> BuildNode
    decreases items.len(),
    via spec_build_decreases
{
    if items.len() > 1 && spec_split(items, threshold) is Some {
        let (arranged, mid) = spec_split(items, threshold).unwrap();
        let left = spec_build(arranged.subrange(0, mid), offset, threshold);
        let right = spec_build(
            arranged.subrange(mid, arranged.len() as int),
            offset + mid,
            threshold,
        );
        BuildNode {
            bounds: left.bounds.spec_union(right.bounds),
            inner: BuildNodeInner::Interior { left: Box::new(left), right: Box::new(right) },
        }
    } else {
        BuildNode {
            bounds: span(items),
            inner: BuildNodeInner::Leaf {
                geometry_offset: offset as usize,
                num_primitives: items.len() as usize,
            },
        }
    }
}

#[via_fn]
proof fn spec_build_decreases(items: Seq<GeometryInfo>, offset: int, threshold: int) {
    if items.len() > 1 && spec_split(items, threshold) is Some {
        lemma_split_valid(items, threshold);
    }
}

/// The order in which the builder leaves the items of a window: that of its
/// leaves, from left to right.
pub open spec fn spec_arrange(items: Seq<GeometryInfo>, threshold: int) -> Seq<GeometryInfo>
    decreases items.len(),
    via spec_arrange_decreases
{
    if items.len() > 1 && spec_split(items, threshold) is Some {
        let (arranged, mid) = spec_split(items, threshold).unwrap();
        spec_arrange(arranged.subrange(0, mid), threshold) + spec_arrange(
            arranged.subrange(mid, arranged.len() as int),
            threshold,
        )
    } else {
        items
    }
}

#[via_fn]
proof fn spec_arrange_decreases(items: Seq<GeometryInfo>, threshold: int) {
    if items.len() > 1 && spec_split(items, threshold) is Some {
        lemma_split_valid(items, threshold);
    }
}

/// The builder neither drops nor adds items.
pub proof fn lemma_arrange_len(items: Seq<GeometryInfo>, threshold: int)
    ensures
        spec_arrange(items, threshold).len() == items.len(),
    decreases items.len(),
{
    if items.len() > 1 && spec_split(items, threshold) is Some {
        lemma_split_valid(items, threshold);
        let (arranged, mid) = spec_split(items, threshold).unwrap();
        lemma_arrange_len(arranged.subrange(0, mid), threshold);
        lemma_arrange_len(arranged.subrange(mid, arranged.len() as int), threshold);
    }
}

/// A tree over `n` primitives has at least one and at most `2n - 1` nodes,
/// and its leaves hold `n` primitives between them.
pub proof fn lemma_build_size(items: Seq<GeometryInfo>, offset: int, threshold: int)
    requires
        1 <= items.len() <= usize::MAX,
    ensures
        1 <= spec_build(items, offset, threshold).node_count() <= 2 * items.len() - 1,
        spec_build(items, offset, threshold).primitive_count() == items.len(),
    decreases items.len(),
{
    if items.len() > 1 && spec_split(items, threshold) is Some {
        lemma_split_valid(items, threshold);
        let (arranged, mid) = spec_split(items, threshold).unwrap();
        lemma_build_size(arranged.subrange(0, mid), offset, threshold);
        lemma_build_size(arranged.subrange(mid, arranged.len() as int), offset + mid, threshold);
    }
}

/// The builder keeps every index as often as it occurred.
pub proof fn lemma_arrange_occurrences(items: Seq<GeometryInfo>, threshold: int, v: usize)
    ensures
        occurrences(indices(spec_arrange(items, threshold)), v) == occurrences(indices(items), v),
    decreases items.len(),
{
    if items.len() > 1 && spec_split(items, threshold) is Some {
        lemma_split_valid(items, threshold);
        let (arranged, mid) = spec_split(items, threshold).unwrap();
        let head = arranged.subrange(0, mid);
        let tail = arranged.subrange(mid, arranged.len() as int);
        lemma_arrange_occurrences(head, threshold, v);
        lemma_arrange_occurrences(tail, threshold, v);
        let first = spec_arrange(head, threshold);
        let second = spec_arrange(tail, threshold);
        assert(indices(first + second) =~= indices(first) + indices(second));
        assert(indices(arranged) =~= indices(head) + indices(tail));
        lemma_occurrences_concat(indices(first), indices(second), v);
        lemma_occurrences_concat(indices(head), indices(tail), v);
    }
}

/// Whether every item stands in `base` at the position that its index names.
pub open spec fn drawn_from(items: Seq<GeometryInfo>, base: Seq<GeometryInfo>) -> bool {
    forall|j: int|
        0 <= j < items.len() ==> {
            &&& (#[trigger] items[j]).index < base.len()
            &&& base[items[j].index as int] == items[j]
        }
}

/// A selection holds only items of the window it was made from.
pub proof fn lemma_select_drawn(
    items: Seq<GeometryInfo>,
    axis: Axis,
    lo: int,
    hi: int,
    best: int,
    upper: bool,
    base: Seq<GeometryInfo>,
)
    requires
        drawn_from(items, base),
    ensures
        drawn_from(select(items, axis, lo, hi, best, upper), base),
    decreases items.len(),
{
    if items.len() > 0 {
        let rest = items.drop_last();
        assert forall|j: int| 0 <= j < rest.len() implies (#[trigger] rest[j]).index < base.len()
            && base[rest[j].index as int] == rest[j] by {
            assert(rest[j] == items[j]);
        }
        lemma_select_drawn(rest, axis, lo, hi, best, upper, base);
        assert(items.last() == items[items.len() - 1]);
    }
}

/// The builder's order holds only items of the window it was given.
pub proof fn lemma_arrange_drawn(
    items: Seq<GeometryInfo>,
    threshold: int,
    base: Seq<GeometryInfo>,
)
    requires
        drawn_from(items, base),
    ensures
        drawn_from(spec_arrange(items, threshold), base),
    decreases items.len(),
{
    if items.len() > 1 && spec_split(items, threshold) is Some {
        lemma_split_valid(items, threshold);
        let (arranged, mid) = spec_split(items, threshold).unwrap();
        let axis = span(items).spec_max_extent();
        let lo = center_min(items, axis);
        let hi = center_max(items, axis);
        if lo != hi {
            let best = cheapest(spec_costs(items, axis, lo, hi), SPLITS as int);
            lemma_select_drawn(items, axis, lo, hi, best, true, base);
            lemma_select_drawn(items, axis, lo, hi, best, false, base);
        }
        assert(drawn_from(arranged, base));
        let head = arranged.subrange(0, mid);
        let tail = arranged.subrange(mid, arranged.len() as int);
        assert forall|j: int| 0 <= j < head.len() implies (#[trigger] head[j]).index < base.len()
            && base[head[j].index as int] == head[j] by {
            assert(head[j] == arranged[j]);
        }
        assert forall|j: int| 0 <= j < tail.len() implies (#[trigger] tail[j]).index < base.len()
            && base[tail[j].index as int] == tail[j] by {
            assert(tail[j] == arranged[mid + j]);
        }
        lemma_arrange_drawn(head, threshold, base);
        lemma_arrange_drawn(tail, threshold, base);
    }
}

/// A selection and its counterpart hold every item of the window between
/// them, and nothing else.
pub proof fn lemma_select_same(
    items: Seq<GeometryInfo>,
    axis: Axis,
    lo: int,
    hi: int,
    best: int,
)
    ensures
        forall|j: int|
            0 <= j < items.len() ==> (select(items, axis, lo, hi, best, true) + select(
                items,
                axis,
                lo,
                hi,
                best,
                false,
            )).contains(#[trigger] items[j]),
        forall|k: int|
            0 <= k < select(items, axis, lo, hi, best, true).len() ==> items.contains(
                #[trigger] select(items, axis, lo, hi, best, true)[k],
            ),
        forall|k: int|
            0 <= k < select(items, axis, lo, hi, best, false).len() ==> items.contains(
                #[trigger] select(items, axis, lo, hi, best, false)[k],
            ),
    decreases items.len(),
{
    if items.len() > 0 {
        let rest = items.drop_last();
        let last = items.last();
        lemma_select_same(rest, axis, lo, hi, best);
        let up = select(items, axis, lo, hi, best, true);
        let down = select(items, axis, lo, hi, best, false);
        let up_rest = select(rest, axis, lo, hi, best, true);
        let down_rest = select(rest, axis, lo, hi, best, false);
        assert forall|j: int| 0 <= j < items.len() implies (up + down).contains(
            #[trigger] items[j],
        ) by {
            if j < items.len() - 1 {
                assert(rest[j] == items[j]);
                let at = choose|at: int|
                    0 <= at < (up_rest + down_rest).len() && (up_rest + down_rest)[at] == rest[j];
                if at < up_rest.len() {
                    assert((up + down)[at] == items[j]);
                } else {
                    assert((up + down)[up.len() + (at - up_rest.len())] == items[j]);
                }
            } else if above(last, axis, lo, hi, best) {
                assert((up + down)[up.len() - 1] == items[j]);
            } else {
                assert((up + down)[up.len() + down.len() - 1] == items[j]);
            }
        }
        assert forall|k: int| 0 <= k < up.len() implies items.contains(#[trigger] up[k]) by {
            if k < up_rest.len() {
                let j = choose|j: int| 0 <= j < rest.len() && rest[j] == up_rest[k];
                assert(items[j] == up[k]);
            } else {
                assert(items[items.len() - 1] == up[k]);
            }
        }
        assert forall|k: int| 0 <= k < down.len() implies items.contains(#[trigger] down[k]) by {
            if k < down_rest.len() {
                let j = choose|j: int| 0 <= j < rest.len() && rest[j] == down_rest[k];
                assert(items[j] == down[k]);
            } else {
                assert(items[items.len() - 1] == down[k]);
            }
        }
    }
}

/// A split leaves the span of the window as it was.
pub proof fn lemma_split_span(items: Seq<GeometryInfo>, threshold: int)
    requires
        items.len() >= 2,
    ensures
        spec_split(items, threshold) matches Some((arranged, mid)) ==> span(arranged) == span(
            items,
        ),
{
    let axis = span(items).spec_max_extent();
    let lo = center_min(items, axis);
    let hi = center_max(items, axis);
    if lo != hi && spec_split(items, threshold) is Some {
        let best = cheapest(spec_costs(items, axis, lo, hi), SPLITS as int);
        lemma_split_valid(items, threshold);
        lemma_select_same(items, axis, lo, hi, best);
        let up = select(items, axis, lo, hi, best, true);
        let down = select(items, axis, lo, hi, best, false);
        assert forall|k: int| 0 <= k < (up + down).len() implies items.contains(
            #[trigger] (up + down)[k],
        ) by {
            if k < up.len() {
                assert((up + down)[k] == up[k]);
            } else {
                assert((up + down)[k] == down[k - up.len()]);
            }
        }
        lemma_span_same(items, up + down);
    }
}

/// The bounds of the tree built over a window are the union of the bounds of
/// the window's items: every node's box is as small as it can be.
pub proof fn lemma_build_bounds(items: Seq<GeometryInfo>, offset: int, threshold: int)
    requires
        items.len() >= 1,
    ensures
        spec_build(items, offset, threshold).bounds == span(items),
    decreases items.len(),
{
    if items.len() > 1 && spec_split(items, threshold) is Some {
        lemma_split_valid(items, threshold);
        lemma_split_span(items, threshold);
        let (arranged, mid) = spec_split(items, threshold).unwrap();
        let head = arranged.subrange(0, mid);
        let tail = arranged.subrange(mid, arranged.len() as int);
        lemma_build_bounds(head, offset, threshold);
        lemma_build_bounds(tail, offset + mid, threshold);
        lemma_span_concat(head, tail);
        assert(head + tail =~= arranged);
    }
}

/// The largest number of primitives in a leaf of the tree rooted at `node`.
pub open spec fn largest_leaf(node: BuildNode) -> nat
    decreases node,
{
    match node.inner {
        BuildNodeInner::Leaf { num_primitives, .. } => num_primitives as nat,
        BuildNodeInner::Interior { left, right } => if largest_leaf(*left) >= largest_leaf(
            *right,
        ) {
            largest_leaf(*left)
        } else {
            largest_leaf(*right)
        },
    }
}

/// No leaf of a built tree holds more primitives than the threshold allows.
pub proof fn lemma_leaf_size(items: Seq<GeometryInfo>, offset: int, threshold: int)
    requires
        1 <= items.len() <= usize::MAX,
        threshold >= 1,
    ensures
        largest_leaf(spec_build(items, offset, threshold)) <= threshold,
    decreases items.len(),
{
    if items.len() > 1 && spec_split(items, threshold) is Some {
        lemma_split_valid(items, threshold);
        let (arranged, mid) = spec_split(items, threshold).unwrap();
        lemma_leaf_size(arranged.subrange(0, mid), offset, threshold);
        lemma_leaf_size(arranged.subrange(mid, arranged.len() as int), offset + mid, threshold);
    }
}

/// Whether the tree rooted at `node` tiles the list of boxes from position
/// `start` on: its leaves, from left to right, take consecutive non-empty
/// ranges; a leaf's bounds enclose the boxes of its range, and an interior
/// node's bounds enclose those of its children.
pub open spec fn tiles(node: BuildNode, boxes: Seq<AABB>, start: int) -> bool
    decreases node,
{
    match node.inner {
        BuildNodeInner::Leaf { geometry_offset, num_primitives } => {
            &&& geometry_offset == start
            &&& num_primitives >= 1
            &&& start + num_primitives <= boxes.len()
            &&& forall|k: int|
                start <= k < start + num_primitives ==> node.bounds.encloses(#[trigger] boxes[k])
        },
        BuildNodeInner::Interior { left, right } => {
            &&& tiles(*left, boxes, start)
            &&& tiles(*right, boxes, start + left.primitive_count())
            &&& node.bounds.encloses(left.bounds)
            &&& node.bounds.encloses(right.bounds)
        },
    }
}

/// The tree built over a window tiles the boxes of the window in its final
/// order.
pub proof fn lemma_build_tiles(
    items: Seq<GeometryInfo>,
    offset: int,
    threshold: int,
    boxes: Seq<AABB>,
)
    requires
        items.len() >= 1,
        0 <= offset,
        offset + items.len() <= boxes.len() <= usize::MAX,
        forall|j: int|
            0 <= j < items.len() ==> #[trigger] boxes[offset + j] == spec_arrange(
                items,
                threshold,
            )[j].bounds,
    ensures
        tiles(spec_build(items, offset, threshold), boxes, offset),
    decreases items.len(),
{
    let node = spec_build(items, offset, threshold);
    if items.len() > 1 && spec_split(items, threshold) is Some {
        lemma_split_valid(items, threshold);
        let (arranged, mid) = spec_split(items, threshold).unwrap();
        let head = arranged.subrange(0, mid);
        let tail = arranged.subrange(mid, arranged.len() as int);
        lemma_arrange_len(head, threshold);
        lemma_arrange_len(tail, threshold);
        lemma_build_size(head, offset, threshold);
        let first = spec_arrange(head, threshold);
        let second = spec_arrange(tail, threshold);
        assert forall|j: int| 0 <= j < head.len() implies #[trigger] boxes[offset + j]
            == first[j].bounds by {
            assert((first + second)[j] == first[j]);
        }
        assert forall|j: int| 0 <= j < tail.len() implies #[trigger] boxes[offset + mid + j]
            == second[j].bounds by {
            assert((first + second)[mid + j] == second[j]);
            assert(boxes[offset + (mid + j)] == (first + second)[mid + j].bounds);
        }
        lemma_build_tiles(head, offset, threshold, boxes);
        lemma_build_tiles(tail, offset + mid, threshold, boxes);
        lemma_union_least(
            spec_build(head, offset, threshold).bounds,
            spec_build(tail, offset + mid, threshold).bounds,
            node.bounds,
        );
    } else {
        assert forall|k: int| offset <= k < offset + items.len() implies node.bounds.encloses(
            #[trigger] boxes[k],
        ) by {
            lemma_span_encloses(items, k - offset);
            assert(boxes[offset + (k - offset)] == items[k - offset].bounds);
        }
    }
}

/// Overwrites `geometry` from position `at` on with the items of `src`.
fn write_back(geometry: &mut Vec<GeometryInfo>, at: usize, src: &Vec<GeometryInfo>)
    requires
        at + src.len() <= old(geometry).len(),
    ensures
        final(geometry)@ == old(geometry)@.subrange(0, at as int) + src@ + old(geometry)@.subrange(
            at + src.len(),
            old(geometry).len() as int,
        ),
{
    let mut j: usize = 0;
    while j < src.len()
        invariant
            j <= src.len(),
            geometry.len() == old(geometry).len(),
            at + src.len() <= geometry.len(),
            geometry@ == old(geometry)@.subrange(0, at as int) + src@.subrange(0, j as int) + old(
                geometry,
            )@.subrange(at + j, old(geometry).len() as int),
        decreases src.len() - j,
    {
        let ghost before = geometry@;
        geometry.set(at + j, src[j]);
        j += 1;
        assert(geometry@ =~= old(geometry)@.subrange(0, at as int) + src@.subrange(0, j as int)
            + old(geometry)@.subrange(at + j, old(geometry).len() as int));
    }
    assert(src@.subrange(0, j as int) =~= src@);
}

/// Reorders the window `lo..hi` of `geometry` so that the items above the
/// split after bucket `best` come first, and returns how many they are.
pub fn partition(
    geometry: &mut Vec<GeometryInfo>,
    lo: usize,
    hi: usize,
    axis: Axis,
    least: i64,
    most: i64,
    best: usize,
) -> (mid: usize)
    requires
        lo < hi <= old(geometry).len(),
        least == center_min(old(geometry)@.subrange(lo as int, hi as int), axis),
        most == center_max(old(geometry)@.subrange(lo as int, hi as int), axis),
        least < most,
    ensures
        mid == select(
            old(geometry)@.subrange(lo as int, hi as int),
            axis,
            least as int,
            most as int,
            best as int,
            true,
        ).len(),
        final(geometry)@ == old(geometry)@.subrange(0, lo as int) + (select(
            old(geometry)@.subrange(lo as int, hi as int),
            axis,
            least as int,
            most as int,
            best as int,
            true,
        ) + select(
            old(geometry)@.subrange(lo as int, hi as int),
            axis,
            least as int,
            most as int,
            best as int,
            false,
        )) + old(geometry)@.subrange(hi as int, old(geometry).len() as int),
{
    let ghost window = geometry@.subrange(lo as int, hi as int);
    let mut upper: Vec<GeometryInfo> = Vec::new();
    let mut lower: Vec<GeometryInfo> = Vec::new();
    let mut i: usize = lo;
    while i < hi
        invariant
            lo <= i <= hi <= geometry.len(),
            geometry@ == old(geometry)@,
            window == geometry@.subrange(lo as int, hi as int),
            least == center_min(window, axis),
            most == center_max(window, axis),
            least < most,
            upper@ == select(
                geometry@.subrange(lo as int, i as int),
                axis,
                least as int,
                most as int,
                best as int,
                true,
            ),
            lower@ == select(
                geometry@.subrange(lo as int, i as int),
                axis,
                least as int,
                most as int,
                best as int,
                false,
            ),
        decreases hi - i,
    {
        let g = geometry[i];
        proof {
            let next = geometry@.subrange(lo as int, i + 1);
            assert(next.drop_last() =~= geometry@.subrange(lo as int, i as int));
            assert(next.last() == g);
            assert(window[i - lo] == g);
            lemma_center_range(window, axis, i - lo);
            lemma_center_attained(window, axis);
        }
        let k: usize = bucket_index(g.centroid(axis), least, most);
        if k > best {
            upper.push(g);
        } else {
            lower.push(g);
        }
        i += 1;
    }
    proof {
        assert(geometry@.subrange(lo as int, hi as int) == window);
        lemma_select_len(window, axis, least as int, most as int, best as int);
    }
    write_back(geometry, lo, &upper);
    write_back(geometry, lo + upper.len(), &lower);
    proof {
        assert(geometry@ =~= old(geometry)@.subrange(0, lo as int) + (upper@ + lower@) + old(
            geometry,
        )@.subrange(hi as int, old(geometry).len() as int));
    }
    upper.len()
}

/// Makes a leaf of the window `lo..hi` of `geometry`: its items' indices are
/// appended to `index_to_geometry` in their present order.
pub fn build_leaf(
    geometry: &Vec<GeometryInfo>,
    lo: usize,
    hi: usize,
    index_to_geometry: &mut Vec<usize>,
    bounds: AABB,
) -> (node: BuildNode)
    requires
        lo <= hi <= geometry.len(),
    ensures
        final(index_to_geometry)@ == old(index_to_geometry)@ + indices(
            geometry@.subrange(lo as int, hi as int),
        ),
        node == (BuildNode {
            bounds,
            inner: BuildNodeInner::Leaf {
                geometry_offset: old(index_to_geometry).len(),
                num_primitives: (hi - lo) as usize,
            },
        }),
{
    let geometry_offset = index_to_geometry.len();
    let mut i: usize = lo;
    while i < hi
        invariant
            lo <= i <= hi <= geometry.len(),
            index_to_geometry@ == old(index_to_geometry)@ + indices(
                geometry@.subrange(lo as int, i as int),
            ),
        decreases hi - i,
    {
        index_to_geometry.push(geometry[i].index);
        i += 1;
        assert(index_to_geometry@ =~= old(index_to_geometry)@ + indices(
            geometry@.subrange(lo as int, i as int),
        ));
    }
    BuildNode::leaf(bounds, geometry_offset, hi - lo)
}

/// Decides what to do with the window `lo..hi` of `geometry`, whose bounds are
/// `bounds`: `None` keeps it as one leaf; otherwise the window is reordered
/// and the length of its first part returned.
pub fn split(
    geometry: &mut Vec<GeometryInfo>,
    lo: usize,
    hi: usize,
    bounds: AABB,
    split_threshold: usize,
) -> (mid: Option<usize>)
    requires
        lo + 2 <= hi <= old(geometry).len(),
        old(geometry).len() <= u32::MAX,
        bounds == span(old(geometry)@.subrange(lo as int, hi as int)),
    ensures
        final(geometry).len() == old(geometry).len(),
        match spec_split(old(geometry)@.subrange(lo as int, hi as int), split_threshold as int) {
            None => mid is None && final(geometry)@ == old(geometry)@,
            Some((arranged, at)) => {
                &&& mid == Some(at as usize)
                &&& 0 < at < hi - lo
                &&& final(geometry)@ == old(geometry)@.subrange(0, lo as int) + arranged + old(
                    geometry,
                )@.subrange(hi as int, old(geometry).len() as int)
            },
        },
{
    let ghost window = geometry@.subrange(lo as int, hi as int);
    let n: usize = hi - lo;
    let split_axis = bounds.max_extent();
    let (least, most) = centroid_range(geometry, lo, hi, split_axis);
    if least == most {
        if n > split_threshold {
            proof {
                assert(geometry@ =~= old(geometry)@.subrange(0, lo as int) + window + old(
                    geometry,
                )@.subrange(hi as int, old(geometry).len() as int));
            }
            return Some(n / 2);
        } else {
            return None;
        }
    }
    let buckets = fill_buckets(geometry, lo, hi, split_axis, least, most);
    proof {
        assert forall|a: int, b: int| 0 <= a <= b <= BUCKETS implies (#[trigger] side(
            views(buckets@),
            a,
            b,
        )).count <= u32::MAX by {
            lemma_side_count(window, split_axis, least as int, most as int, a, b);
        }
    }
    let cost = split_costs(&buckets);
    let min_bucket = first_minimum(&cost);
    proof {
        assert(as_ints(cost@) =~= spec_costs(
            window,
            split_axis,
            least as int,
            most as int,
        ));
        lemma_area_bound(bounds);
        lemma_split_valid(window, split_threshold as int);
    }
    if n > split_threshold || beats_leaf(bounds.surface_area(), cost[min_bucket], n) {
        let mid = partition(geometry, lo, hi, split_axis, least, most, min_bucket);
        Some(mid)
    } else {
        None
    }
}

/// Builds the tree over the window `lo..hi` of `geometry`.
///
/// The window is left in the order of the tree's leaves, whose indices are
/// appended to `index_to_geometry`; `total_nodes` grows by the number of
/// nodes made.
pub fn build(
    geometry: &mut Vec<GeometryInfo>,
    lo: usize,
    hi: usize,
    index_to_geometry: &mut Vec<usize>,
    total_nodes: &mut usize,
    split_threshold: usize,
) -> (node: BuildNode)
    requires
        lo < hi <= old(geometry).len(),
        old(geometry).len() <= u32::MAX,
        *old(total_nodes) + 2 * (hi - lo) <= usize::MAX,
    ensures
        final(geometry)@ == old(geometry)@.subrange(0, lo as int) + spec_arrange(
            old(geometry)@.subrange(lo as int, hi as int),
            split_threshold as int,
        ) + old(geometry)@.subrange(hi as int, old(geometry).len() as int),
        final(index_to_geometry)@ == old(index_to_geometry)@ + indices(
            spec_arrange(old(geometry)@.subrange(lo as int, hi as int), split_threshold as int),
        ),
        node == spec_build(
            old(geometry)@.subrange(lo as int, hi as int),
            old(index_to_geometry).len() as int,
            split_threshold as int,
        ),
        *final(total_nodes) == *old(total_nodes) + node.node_count(),
    decreases hi - lo,
{
    let ghost window = geometry@.subrange(lo as int, hi as int);
    let ghost offset = index_to_geometry.len() as int;
    let ghost threshold = split_threshold as int;
    *total_nodes += 1;
    let bounds = window_bounds(geometry, lo, hi);
    let decision = if hi - lo == 1 {
        None
    } else {
        split(geometry, lo, hi, bounds, split_threshold)
    };
    let mid: usize = match decision {
        None => {
            assert(geometry@ =~= old(geometry)@.subrange(0, lo as int) + window + old(
                geometry,
            )@.subrange(hi as int, old(geometry).len() as int));
            return build_leaf(geometry, lo, hi, index_to_geometry, bounds);
        },
        Some(mid) => mid,
    };
    let ghost (arranged, at) = spec_split(window, threshold).unwrap();
    let ghost halfway = geometry@;
    proof {
        lemma_split_valid(window, threshold);
        assert(halfway.subrange(lo as int, lo + mid) =~= arranged.subrange(0, at));
        assert(halfway.subrange(lo + mid, hi as int) =~= arranged.subrange(
            at,
            arranged.len() as int,
        ));
        lemma_build_size(arranged.subrange(0, at), offset, threshold);
        lemma_arrange_len(arranged.subrange(0, at), threshold);
        lemma_arrange_len(arranged.subrange(at, arranged.len() as int), threshold);
    }
    let left = Box::new(
        build(geometry, lo, lo + mid, index_to_geometry, total_nodes, split_threshold),
    );
    proof {
        assert(geometry@.subrange(lo + mid, hi as int) =~= halfway.subrange(lo + mid, hi as int));
    }
    let right = Box::new(
        build(geometry, lo + mid, hi, index_to_geometry, total_nodes, split_threshold),
    );
    proof {
        let first = spec_arrange(arranged.subrange(0, at), threshold);
        let second = spec_arrange(arranged.subrange(at, arranged.len() as int), threshold);
        assert(geometry@ =~= old(geometry)@.subrange(0, lo as int) + (first + second) + old(
            geometry,
        )@.subrange(hi as int, old(geometry).len() as int));
        assert(indices(first + second) =~= indices(first) + indices(second));
        assert(index_to_geometry@ =~= old(index_to_geometry)@ + indices(first + second));
    }
    BuildNode::interior(left, right)
}

} // verus!
