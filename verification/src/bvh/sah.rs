//! The surface-area heuristic: bucketing of centroids and the cost of each
//! candidate split.

use vstd::prelude::*;
use crate::primitives::aabb::{lemma_extent_product, AABB};
use crate::vector::{Axis, Vec3};

verus! {

/// Number of buckets the centroid range is cut into.
pub const BUCKETS: usize = 12;

/// Number of candidate splits: one between each pair of adjacent buckets.
pub const SPLITS: usize = 11;

/// What the builder knows of one primitive while it works.
#[derive(Clone, Copy, Debug, PartialEq, Eq, Structural)]
pub struct GeometryInfo {
    /// Position of the primitive in the list the hierarchy is built from.
    pub index: usize,
    pub bounds: AABB,
}

impl GeometryInfo {
    /// Twice the centroid coordinate along `axis`. Doubling keeps the value on
    /// the lattice; bucketing only depends on ratios of centroid differences.
    pub open spec fn center(self, axis: Axis) -> int {
        self.bounds.min.spec_axis(axis) + self.bounds.max.spec_axis(axis)
    }

    /// Twice the centroid coordinate along `axis`.
    pub fn centroid(&self, axis: Axis) -> (r: i64)
        ensures
            r == self.center(axis),
    {
        self.bounds.min.axis(axis) as i64 + self.bounds.max.axis(axis) as i64
    }
}

/// The union of the bounds of all `items` (of a non-empty sequence).
pub open spec fn span(items: Seq<GeometryInfo>) -> AABB
    decreases items.len(),
{
    if items.len() <= 1 {
        items[0].bounds
    } else {
        span(items.drop_last()).spec_union(items.last().bounds)
    }
}

/// The smallest doubled centroid coordinate among `items`.
pub open spec fn center_min(items: Seq<GeometryInfo>, axis: Axis) -> int
    decreases items.len(),
{
    if items.len() <= 1 {
        items[0].center(axis)
    } else {
        let rest = center_min(items.drop_last(), axis);
        let c = items.last().center(axis);
        if c < rest {
            c
        } else {
            rest
        }
    }
}

/// The largest doubled centroid coordinate among `items`.
pub open spec fn center_max(items: Seq<GeometryInfo>, axis: Axis) -> int
    decreases items.len(),
{
    if items.len() <= 1 {
        items[0].center(axis)
    } else {
        let rest = center_max(items.drop_last(), axis);
        let c = items.last().center(axis);
        if c > rest {
            c
        } else {
            rest
        }
    }
}

/// The bucket of a centroid coordinate `c` in the range `lo..=hi`: the range
/// is cut into `BUCKETS` equal parts, and `hi` itself falls into the last.
pub open spec fn bucket_of(c: int, lo: int, hi: int) -> int {
    let b = (BUCKETS * (c - lo)) / (hi - lo);
    if b >= BUCKETS {
        BUCKETS - 1
    } else {
        b
    }
}

/// A number of primitives and the union of their bounds. The bounds mean
/// nothing while the count is zero.
pub struct Tally {
    pub count: nat,
    pub bounds: AABB,
}

impl Tally {
    /// The tally of no primitives.
    pub open spec fn empty() -> Tally {
        Tally {
            count: 0,
            bounds: AABB { min: Vec3 { x: 0, y: 0, z: 0 }, max: Vec3 { x: 0, y: 0, z: 0 } },
        }
    }

    /// The tally with one more primitive in it.
    pub open spec fn absorb(self, bounds: AABB) -> Tally {
        Tally {
            count: self.count + 1,
            bounds: if self.count == 0 {
                bounds
            } else {
                self.bounds.spec_union(bounds)
            },
        }
    }

    /// The tally of two groups taken together.
    pub open spec fn merge(self, other: Tally) -> Tally {
        if self.count == 0 {
            other
        } else if other.count == 0 {
            self
        } else {
            Tally { count: self.count + other.count, bounds: self.bounds.spec_union(other.bounds) }
        }
    }

    /// Primitive count times surface area: what the group adds to a split's
    /// cost.
    pub open spec fn weight(self) -> int {
        if self.count == 0 {
            0
        } else {
            self.count * self.bounds.spec_surface_area()
        }
    }
}

/// The tally of the `items` that fall into bucket `k`.
pub open spec fn gather(items: Seq<GeometryInfo>, axis: Axis, lo: int, hi: int, k: int) -> Tally
    decreases items.len(),
{
    if items.len() == 0 {
        Tally::empty()
    } else {
        let rest = gather(items.drop_last(), axis, lo, hi, k);
        if bucket_of(items.last().center(axis), lo, hi) == k {
            rest.absorb(items.last().bounds)
        } else {
            rest
        }
    }
}

/// The tallies of all buckets, in bucket order.
pub open spec fn tallies(items: Seq<GeometryInfo>, axis: Axis, lo: int, hi: int) -> Seq<Tally> {
    Seq::new(BUCKETS as nat, |k: int| gather(items, axis, lo, hi, k))
}

/// The buckets `from..to` taken together.
pub open spec fn side(table: Seq<Tally>, from: int, to: int) -> Tally
    decreases to - from,
{
    if from >= to {
        Tally::empty()
    } else {
        side(table, from, to - 1).merge(table[to - 1])
    }
}

/// The cost of splitting after bucket `i`, without the constant traversal
/// cost and before division by the parent's surface area:
/// `left_count * left_area + right_count * right_area`.
pub open spec fn split_cost(table: Seq<Tally>, i: int) -> int {
    side(table, 0, i + 1).weight() + side(table, i + 1, table.len() as int).weight()
}

/// The first split among `0..upto` whose cost no other of them undercuts.
pub open spec fn cheapest(costs: Seq<int>, upto: int) -> int
    decreases upto,
{
    if upto <= 1 {
        0
    } else {
        let best = cheapest(costs, upto - 1);
        if costs[upto - 1] < costs[best] {
            upto - 1
        } else {
            best
        }
    }
}

/// Whether a split of cost `1/8 + cost / area` is cheaper than a leaf that
/// holds all `n` primitives, whose cost is `n`.
pub open spec fn cheaper_than_leaf(area: int, cost: int, n: int) -> bool {
    area > 0 && area + 8 * cost < 8 * n * area
}

/// A bucket of the surface-area heuristic.
#[derive(Clone, Copy, Debug)]
pub struct SAHBucket {
    pub count: usize,
    pub bounds: AABB,
}

impl View for SAHBucket {
    type V = Tally;

    open spec fn view(&self) -> Tally {
        Tally { count: self.count as nat, bounds: self.bounds }
    }
}

impl Default for SAHBucket {
    fn default() -> (r: Self)
        ensures
            r@ == Tally::empty(),
    {
        SAHBucket { count: 0, bounds: AABB::default() }
    }
}

impl SAHBucket {
    /// Adds one primitive with the given bounds.
    pub fn absorb(&self, bounds: AABB) -> (r: SAHBucket)
        requires
            self.count < usize::MAX,
        ensures
            r@ == self@.absorb(bounds),
    {
        SAHBucket {
            count: self.count + 1,
            bounds: if self.count == 0 {
                bounds
            } else {
                self.bounds.union(bounds)
            },
        }
    }

    /// The two buckets taken together.
    pub fn merge(&self, other: &SAHBucket) -> (r: SAHBucket)
        requires
            self.count + other.count <= usize::MAX,
        ensures
            r@ == self@.merge(other@),
    {
        if self.count == 0 {
            *other
        } else if other.count == 0 {
            *self
        } else {
            SAHBucket { count: self.count + other.count, bounds: self.bounds.union(other.bounds) }
        }
    }
}

/// The entries of `costs` as mathematical integers.
pub open spec fn as_ints(costs: Seq<i128>) -> Seq<int> {
    Seq::new(costs.len(), |i: int| costs[i] as int)
}

/// The tallies that a row of buckets stands for.
pub open spec fn views(buckets: Seq<SAHBucket>) -> Seq<Tally> {
    Seq::new(buckets.len(), |k: int| buckets[k]@)
}

/// The doubled centroid of every item lies between the smallest and the
/// largest one.
pub proof fn lemma_center_range(items: Seq<GeometryInfo>, axis: Axis, j: int)
    requires
        0 <= j < items.len(),
    ensures
        center_min(items, axis) <= items[j].center(axis) <= center_max(items, axis),
    decreases items.len(),
{
    if items.len() > 1 && j < items.len() - 1 {
        lemma_center_range(items.drop_last(), axis, j);
    }
}

/// The smallest and the largest doubled centroid are attained by items.
pub proof fn lemma_center_attained(items: Seq<GeometryInfo>, axis: Axis) -> (w: (int, int))
    requires
        items.len() > 0,
    ensures
        0 <= w.0 < items.len(),
        0 <= w.1 < items.len(),
        items[w.0].center(axis) == center_min(items, axis),
        items[w.1].center(axis) == center_max(items, axis),
    decreases items.len(),
{
    if items.len() <= 1 {
        (0, 0)
    } else {
        let rest = lemma_center_attained(items.drop_last(), axis);
        let c = items.last().center(axis);
        let a = if c < center_min(items.drop_last(), axis) {
            items.len() - 1
        } else {
            rest.0
        };
        let b = if c > center_max(items.drop_last(), axis) {
            items.len() - 1
        } else {
            rest.1
        };
        (a, b)
    }
}

/// The span of a window encloses the bounds of each of its items.
pub proof fn lemma_span_encloses(items: Seq<GeometryInfo>, j: int)
    requires
        0 <= j < items.len(),
    ensures
        span(items).encloses(items[j].bounds),
    decreases items.len(),
{
    if items.len() > 1 && j < items.len() - 1 {
        lemma_span_encloses(items.drop_last(), j);
    }
}

/// Every box that encloses the bounds of each item encloses the span: the
/// span is the least box around the items.
pub proof fn lemma_span_least(items: Seq<GeometryInfo>, outer: AABB)
    requires
        items.len() > 0,
        forall|j: int| 0 <= j < items.len() ==> outer.encloses(#[trigger] items[j].bounds),
    ensures
        outer.encloses(span(items)),
    decreases items.len(),
{
    if items.len() > 1 {
        let rest = items.drop_last();
        assert forall|j: int| 0 <= j < rest.len() implies outer.encloses(
            #[trigger] rest[j].bounds,
        ) by {
            assert(rest[j] == items[j]);
        }
        lemma_span_least(rest, outer);
        assert(items.last() == items[items.len() - 1]);
    }
}

/// Two windows with the same items, in whatever order, have the same span.
pub proof fn lemma_span_same(a: Seq<GeometryInfo>, b: Seq<GeometryInfo>)
    requires
        a.len() > 0,
        b.len() > 0,
        forall|j: int| 0 <= j < a.len() ==> b.contains(#[trigger] a[j]),
        forall|k: int| 0 <= k < b.len() ==> a.contains(#[trigger] b[k]),
    ensures
        span(a) == span(b),
{
    assert forall|j: int| 0 <= j < a.len() implies span(b).encloses(#[trigger] a[j].bounds) by {
        let k = choose|k: int| 0 <= k < b.len() && b[k] == a[j];
        lemma_span_encloses(b, k);
    }
    assert forall|k: int| 0 <= k < b.len() implies span(a).encloses(#[trigger] b[k].bounds) by {
        let j = choose|j: int| 0 <= j < a.len() && a[j] == b[k];
        lemma_span_encloses(a, j);
    }
    lemma_span_least(a, span(b));
    lemma_span_least(b, span(a));
}

/// The span of two windows put together is the union of their spans.
pub proof fn lemma_span_concat(a: Seq<GeometryInfo>, b: Seq<GeometryInfo>)
    requires
        a.len() > 0,
        b.len() > 0,
    ensures
        span(a + b) == span(a).spec_union(span(b)),
    decreases b.len(),
{
    assert((a + b).drop_last() =~= a + b.drop_last());
    assert((a + b).last() == b.last());
    if b.len() > 1 {
        lemma_span_concat(a, b.drop_last());
    } else {
        assert(a + b.drop_last() =~= a);
    }
}

/// The cheapest split costs no more than any candidate, and less than every
/// candidate before it.
pub proof fn lemma_cheapest(costs: Seq<int>, upto: int)
    requires
        upto >= 1,
    ensures
        0 <= cheapest(costs, upto) < upto,
        forall|i: int| 0 <= i < upto ==> costs[cheapest(costs, upto)] <= #[trigger] costs[i],
        forall|i: int|
            0 <= i < cheapest(costs, upto) ==> costs[cheapest(costs, upto)] < #[trigger] costs[i],
    decreases upto,
{
    if upto > 1 {
        lemma_cheapest(costs, upto - 1);
    }
}

/// Taking two groups together adds their counts.
pub proof fn lemma_merge_count(a: Tally, b: Tally)
    ensures
        a.merge(b).count == a.count + b.count,
{
}

/// One more primitive in bucket `k` adds one to the count of every run of
/// buckets that holds `k`, and nothing to the others.
pub proof fn lemma_side_bump(before: Seq<Tally>, after: Seq<Tally>, k: int, from: int, to: int)
    requires
        before.len() == after.len(),
        0 <= from <= to <= before.len(),
        forall|j: int| 0 <= j < before.len() && j != k ==> after[j].count == before[j].count,
        0 <= k < before.len() ==> after[k].count == before[k].count + 1,
    ensures
        side(after, from, to).count == side(before, from, to).count + if from <= k < to {
            1nat
        } else {
            0nat
        },
    decreases to - from,
{
    if from < to {
        lemma_side_bump(before, after, k, from, to - 1);
        lemma_merge_count(side(before, from, to - 1), before[to - 1]);
        lemma_merge_count(side(after, from, to - 1), after[to - 1]);
    }
}

/// No run of buckets holds more primitives than there are items.
pub proof fn lemma_side_count(
    items: Seq<GeometryInfo>,
    axis: Axis,
    lo: int,
    hi: int,
    from: int,
    to: int,
)
    requires
        0 <= from <= to <= BUCKETS,
    ensures
        side(tallies(items, axis, lo, hi), from, to).count <= items.len(),
    decreases items.len(), to - from,
{
    if items.len() == 0 {
        if from < to {
            lemma_side_count(items, axis, lo, hi, from, to - 1);
            lemma_merge_count(
                side(tallies(items, axis, lo, hi), from, to - 1),
                tallies(items, axis, lo, hi)[to - 1],
            );
        }
    } else {
        let rest = items.drop_last();
        lemma_side_count(rest, axis, lo, hi, from, to);
        lemma_side_bump(
            tallies(rest, axis, lo, hi),
            tallies(items, axis, lo, hi),
            bucket_of(items.last().center(axis), lo, hi),
            from,
            to,
        );
    }
}

/// The surface area of a box stays below `2^67` in magnitude.
pub proof fn lemma_area_bound(b: AABB)
    ensures
        -0x8_0000_0000_0000_0000 < b.spec_surface_area() < 0x8_0000_0000_0000_0000,
{
    lemma_extent_product(b.extent(Axis::X), b.extent(Axis::Y));
    lemma_extent_product(b.extent(Axis::X), b.extent(Axis::Z));
    lemma_extent_product(b.extent(Axis::Y), b.extent(Axis::Z));
}

/// The weight of a group of fewer than `2^32` primitives stays below `2^99` in
/// magnitude.
pub proof fn lemma_weight_bound(t: Tally)
    requires
        t.count <= u32::MAX,
    ensures
        -0x8_0000_0000_0000_0000_0000_0000 <= t.weight() <= 0x8_0000_0000_0000_0000_0000_0000,
{
    lemma_area_bound(t.bounds);
    let c = t.count as int;
    let a = t.bounds.spec_surface_area();
    assert(-0x8_0000_0000_0000_0000_0000_0000 <= c * a <= 0x8_0000_0000_0000_0000_0000_0000)
        by (nonlinear_arith)
        requires
            0 <= c <= 0x1_0000_0000,
            -0x8_0000_0000_0000_0000 < a < 0x8_0000_0000_0000_0000,
    ;
}

/// The union of the bounds of the window `lo..hi` of `geometry`.
pub fn window_bounds(geometry: &Vec<GeometryInfo>, lo: usize, hi: usize) -> (r: AABB)
    requires
        lo < hi <= geometry.len(),
    ensures
        r == span(geometry@.subrange(lo as int, hi as int)),
{
    let mut bounds = geometry[lo].bounds;
    let mut i: usize = lo + 1;
    while i < hi
        invariant
            lo < i <= hi <= geometry.len(),
            bounds == span(geometry@.subrange(lo as int, i as int)),
        decreases hi - i,
    {
        proof {
            let next = geometry@.subrange(lo as int, i + 1);
            assert(next.drop_last() =~= geometry@.subrange(lo as int, i as int));
        }
        bounds = bounds.union(geometry[i].bounds);
        i += 1;
    }
    bounds
}

/// The smallest and the largest doubled centroid coordinate in the window
/// `lo..hi` of `geometry`.
pub fn centroid_range(geometry: &Vec<GeometryInfo>, lo: usize, hi: usize, axis: Axis) -> (r: (
    i64,
    i64,
))
    requires
        lo < hi <= geometry.len(),
    ensures
        r.0 == center_min(geometry@.subrange(lo as int, hi as int), axis),
        r.1 == center_max(geometry@.subrange(lo as int, hi as int), axis),
{
    let mut least: i64 = geometry[lo].centroid(axis);
    let mut most: i64 = least;
    let mut i: usize = lo + 1;
    while i < hi
        invariant
            lo < i <= hi <= geometry.len(),
            least == center_min(geometry@.subrange(lo as int, i as int), axis),
            most == center_max(geometry@.subrange(lo as int, i as int), axis),
        decreases hi - i,
    {
        proof {
            let next = geometry@.subrange(lo as int, i + 1);
            assert(next.drop_last() =~= geometry@.subrange(lo as int, i as int));
        }
        let c: i64 = geometry[i].centroid(axis);
        if c < least {
            least = c;
        }
        if c > most {
            most = c;
        }
        i += 1;
    }
    (least, most)
}

/// The bucket that the doubled centroid coordinate `c` falls into.
pub fn bucket_index(c: i64, lo: i64, hi: i64) -> (r: usize)
    requires
        lo <= c <= hi,
        lo < hi,
        -0x1_0000_0000 <= lo,
        hi <= 0x1_0000_0000,
    ensures
        r == bucket_of(c as int, lo as int, hi as int),
        r < BUCKETS,
{
    let num: u64 = 12 * ((c - lo) as u64);
    let den: u64 = (hi - lo) as u64;
    let b: u64 = num / den;
    if b >= 12 {
        11
    } else {
        b as usize
    }
}

/// Sorts the window `lo..hi` of `geometry` into buckets along `axis`.
pub fn fill_buckets(
    geometry: &Vec<GeometryInfo>,
    lo: usize,
    hi: usize,
    axis: Axis,
    least: i64,
    most: i64,
) -> (buckets: Vec<SAHBucket>)
    requires
        lo < hi <= geometry.len(),
        least == center_min(geometry@.subrange(lo as int, hi as int), axis),
        most == center_max(geometry@.subrange(lo as int, hi as int), axis),
        least < most,
    ensures
        views(buckets@) == tallies(
            geometry@.subrange(lo as int, hi as int),
            axis,
            least as int,
            most as int,
        ),
{
    let ghost window = geometry@.subrange(lo as int, hi as int);
    let mut buckets: Vec<SAHBucket> = Vec::new();
    while buckets.len() < BUCKETS
        invariant
            buckets.len() <= BUCKETS,
            forall|k: int| 0 <= k < buckets.len() ==> (#[trigger] buckets[k])@ == Tally::empty(),
        decreases BUCKETS - buckets.len(),
    {
        buckets.push(SAHBucket::default());
    }
    let mut i: usize = lo;
    while i < hi
        invariant
            lo <= i <= hi <= geometry.len(),
            window == geometry@.subrange(lo as int, hi as int),
            least == center_min(window, axis),
            most == center_max(window, axis),
            least < most,
            buckets.len() == BUCKETS,
            forall|k: int|
                0 <= k < BUCKETS ==> (#[trigger] buckets[k])@ == gather(
                    geometry@.subrange(lo as int, i as int),
                    axis,
                    least as int,
                    most as int,
                    k,
                ),
            forall|k: int| 0 <= k < BUCKETS ==> (#[trigger] buckets[k]).count <= i - lo,
        decreases hi - i,
    {
        let g = geometry[i];
        proof {
            let next = geometry@.subrange(lo as int, i + 1);
            assert(next.drop_last() =~= geometry@.subrange(lo as int, i as int));
            assert(next.last() == g);
            assert(window[i - lo] == g);
            lemma_center_range(window, axis, i - lo);
            lemma_center_attained(window, axis);
        }
        let k: usize = bucket_index(g.centroid(axis), least, most);
        let grown = buckets[k].absorb(g.bounds);
        buckets.set(k, grown);
        i += 1;
    }
    proof {
        assert(geometry@.subrange(lo as int, i as int) == window);
        assert(views(buckets@) =~= tallies(window, axis, least as int, most as int));
    }
    buckets
}

/// The buckets `from..to` taken together.
pub fn merge_range(buckets: &Vec<SAHBucket>, from: usize, to: usize) -> (r: SAHBucket)
    requires
        from <= to <= buckets.len(),
        forall|a: int, b: int|
            0 <= a <= b <= buckets.len() ==> (#[trigger] side(views(buckets@), a, b)).count
                <= usize::MAX,
    ensures
        r@ == side(views(buckets@), from as int, to as int),
{
    let mut acc = SAHBucket::default();
    let mut k: usize = from;
    while k < to
        invariant
            from <= k <= to <= buckets.len(),
            acc@ == side(views(buckets@), from as int, k as int),
            forall|a: int, b: int|
                0 <= a <= b <= buckets.len() ==> (#[trigger] side(views(buckets@), a, b)).count
                    <= usize::MAX,
        decreases to - k,
    {
        proof {
            lemma_merge_count(
                side(views(buckets@), from as int, k as int),
                views(buckets@)[k as int],
            );
            assert(side(views(buckets@), from as int, k + 1).count <= usize::MAX);
        }
        acc = acc.merge(&buckets[k]);
        k += 1;
    }
    acc
}

/// Primitive count times surface area of a bucket.
pub fn weight(bucket: &SAHBucket) -> (r: i128)
    requires
        bucket.count <= u32::MAX,
    ensures
        r == bucket@.weight(),
        -0x8_0000_0000_0000_0000_0000_0000 <= r <= 0x8_0000_0000_0000_0000_0000_0000,
{
    proof {
        lemma_weight_bound(bucket@);
        lemma_area_bound(bucket.bounds);
    }
    if bucket.count == 0 {
        0
    } else {
        (bucket.count as i128) * bucket.bounds.surface_area()
    }
}

/// The cost of each candidate split of a row of buckets.
pub fn split_costs(buckets: &Vec<SAHBucket>) -> (costs: Vec<i128>)
    requires
        buckets.len() == BUCKETS,
        forall|a: int, b: int|
            0 <= a <= b <= BUCKETS ==> (#[trigger] side(views(buckets@), a, b)).count
                <= u32::MAX,
    ensures
        costs.len() == SPLITS,
        forall|i: int| 0 <= i < SPLITS ==> costs[i] == split_cost(views(buckets@), i),
        forall|i: int|
            0 <= i < SPLITS ==> -0x10_0000_0000_0000_0000_0000_0000 <= #[trigger] costs[i]
                <= 0x10_0000_0000_0000_0000_0000_0000,
{
    let mut costs: Vec<i128> = Vec::new();
    let mut i: usize = 0;
    while i < SPLITS
        invariant
            i <= SPLITS,
            costs.len() == i,
            buckets.len() == BUCKETS,
            forall|a: int, b: int|
                0 <= a <= b <= BUCKETS ==> (#[trigger] side(views(buckets@), a, b)).count
                    <= u32::MAX,
            forall|j: int| 0 <= j < i ==> costs[j] == split_cost(views(buckets@), j),
            forall|j: int|
                0 <= j < i ==> -0x10_0000_0000_0000_0000_0000_0000 <= #[trigger] costs[j]
                    <= 0x10_0000_0000_0000_0000_0000_0000,
        decreases SPLITS - i,
    {
        let left = merge_range(buckets, 0, i + 1);
        let right = merge_range(buckets, i + 1, BUCKETS);
        let cost: i128 = weight(&left) + weight(&right);
        costs.push(cost);
        i += 1;
    }
    costs
}

/// The first entry of `costs` that no other entry undercuts.
pub fn first_minimum(costs: &Vec<i128>) -> (best: usize)
    requires
        costs.len() > 0,
    ensures
        best == cheapest(as_ints(costs@), costs.len() as int),
        best < costs.len(),
        forall|i: int| 0 <= i < costs.len() ==> costs[best as int] <= costs[i],
        forall|i: int| 0 <= i < best ==> costs[best as int] < costs[i],
{
    let mut best: usize = 0;
    let mut i: usize = 1;
    while i < costs.len()
        invariant
            1 <= i <= costs.len(),
            best < i,
            best == cheapest(as_ints(costs@), i as int),
            forall|j: int| 0 <= j < i ==> costs[best as int] <= costs[j],
            forall|j: int| 0 <= j < best ==> costs[best as int] < costs[j],
        decreases costs.len() - i,
    {
        if costs[i] < costs[best] {
            best = i;
        }
        i += 1;
    }
    best
}

/// Whether splitting at cost `1/8 + cost / area` beats a single leaf of `n`
/// primitives.
pub fn beats_leaf(area: i128, cost: i128, n: usize) -> (r: bool)
    requires
        -0x8_0000_0000_0000_0000 < area < 0x8_0000_0000_0000_0000,
        -0x10_0000_0000_0000_0000_0000_0000 <= cost <= 0x10_0000_0000_0000_0000_0000_0000,
        n <= u32::MAX,
    ensures
        r == cheaper_than_leaf(area as int, cost as int, n as int),
{
    if area <= 0 {
        return false;
    }
    let wide: i128 = 8 * (n as i128);
    assert(0 <= wide * area <= 0x40_0000_0000_0000_0000_0000_0000) by (nonlinear_arith)
        requires
            0 <= wide <= 0x8_0000_0000,
            0 < area < 0x8_0000_0000_0000_0000,
    ;
    assert(8 * n * area == wide * area) by (nonlinear_arith)
        requires
            wide == 8 * n,
    ;
    area + 8 * cost < wide * area
}

} // verus!
