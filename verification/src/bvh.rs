//! The bounding volume hierarchy.

use vstd::prelude::*;
use crate::bvh::builder::{
    build, drawn_from, indices, largest_leaf, lemma_arrange_drawn, lemma_arrange_len,
    lemma_arrange_occurrences, lemma_build_bounds, lemma_build_size, lemma_build_tiles,
    lemma_leaf_size, occurrences, spec_arrange, spec_build,
};
use crate::bvh::flatten::{flatten, preorder, FlatNode};
use crate::bvh::order::{each_once, lemma_each_once_distinct, lemma_identity, reorder};
use crate::bvh::sah::{span, GeometryInfo};
use crate::bvh::traverse::{
    all_bounded, boxes_of, intersect, lemma_flat_sound, lemma_walk, lemma_walk_beyond,
    lemma_walk_source, lemma_walk_within, nearest_time, range_end, range_start, sound, time_of,
    walk,
};
use crate::primitives::aabb::AABB;
use crate::primitives::Intersect;
use crate::ray::{Hit, Ray};

pub mod builder;
pub mod flatten;
pub mod order;
pub mod sah;
pub mod traverse;

verus! {

/// A window with more primitives than this is always split.
pub const SPLIT_THRESHOLD: usize = 64;

/// The largest number of primitives a hierarchy is built over: node counts
/// and split costs are then sure to fit the machine's integers.
pub const MAX_PRIMITIVES: usize = 0x7fff_ffff;

/// What the builder starts from: for each primitive its position in the list
/// and its bounding box.
pub open spec fn infos_of<P: Intersect>(geometry: Seq<P>) -> Seq<GeometryInfo> {
    Seq::new(
        geometry.len(),
        |i: int| GeometryInfo { index: i as usize, bounds: geometry[i].spec_bounds().unwrap() },
    )
}

/// A bounding volume hierarchy over a list of primitives.
pub struct BVH<P: Intersect> {
    /// The primitives, reordered so that each leaf's primitives stand
    /// together.
    geometry: Vec<P>,
    /// The tree, flattened in pre-order; node 0 is the root.
    tree: Vec<FlatNode>,
    /// For each place of `geometry`, the position that its primitive had in
    /// the list the hierarchy was built from.
    order: Vec<usize>,
}

impl<P: Intersect> BVH<P> {
    #[verifier::type_invariant]
    spec fn well_formed(self) -> bool {
        &&& all_bounded(self.geometry@)
        &&& sound(self.tree@, boxes_of(self.geometry@), 0)
        &&& range_start(self.tree@, 0) == 0
        &&& range_end(self.tree@, 0) == self.geometry@.len()
    }

    /// The primitives in the order in which the hierarchy keeps them.
    pub closed spec fn primitives(&self) -> Seq<P> {
        self.geometry@
    }

    /// The nodes of the flattened tree.
    pub closed spec fn nodes(&self) -> Seq<FlatNode> {
        self.tree@
    }

    /// For each kept primitive, its position in the list the hierarchy was
    /// built from.
    pub closed spec fn permutation(&self) -> Seq<usize> {
        self.order@
    }

    /// Builds the hierarchy over `geometry`.
    ///
    /// The tree is the one that the surface-area heuristic yields for the
    /// primitives' bounding boxes, laid out in pre-order. The primitives are
    /// kept in the order of the tree's leaves, which names every position of
    /// `geometry` exactly once.
    pub fn new(geometry: Vec<P>) -> (bvh: Self)
        requires
            1 <= geometry.len() <= MAX_PRIMITIVES,
            all_bounded(geometry@),
        ensures
            bvh.nodes() == preorder(
                spec_build(infos_of(geometry@), 0, SPLIT_THRESHOLD as int),
                0,
            ),
            bvh.nodes().len() == spec_build(
                infos_of(geometry@),
                0,
                SPLIT_THRESHOLD as int,
            ).node_count(),
            bvh.permutation() == indices(spec_arrange(infos_of(geometry@), SPLIT_THRESHOLD as int)),
            each_once(bvh.permutation(), geometry.len() as int),
            bvh.primitives().len() == geometry.len(),
            forall|k: int|
                0 <= k < geometry.len() ==> #[trigger] bvh.primitives()[k]
                    == geometry[bvh.permutation()[k] as int],
            sound(bvh.nodes(), boxes_of(bvh.primitives()), 0),
            range_start(bvh.nodes(), 0) == 0,
            range_end(bvh.nodes(), 0) == geometry.len(),
            bvh.nodes()[0].bounds == span(infos_of(geometry@)),
            largest_leaf(spec_build(infos_of(geometry@), 0, SPLIT_THRESHOLD as int))
                <= SPLIT_THRESHOLD,
    {
        let split_threshold: usize = SPLIT_THRESHOLD;
        let n: usize = geometry.len();
        let ghost start = infos_of(geometry@);
        let mut total_nodes: usize = 0;
        let mut index_to_geometry: Vec<usize> = Vec::new();
        let mut build_geometry: Vec<GeometryInfo> = Vec::new();
        let mut index: usize = 0;
        while index < n
            invariant
                index <= n,
                n == geometry.len(),
                all_bounded(geometry@),
                start == infos_of(geometry@),
                build_geometry@ == start.subrange(0, index as int),
            decreases n - index,
        {
            let bounds = geometry[index].bounds().unwrap();
            build_geometry.push(GeometryInfo { index, bounds });
            index += 1;
            assert(build_geometry@ =~= start.subrange(0, index as int));
        }
        assert(build_geometry@ =~= start);
        assert(build_geometry@.subrange(0, n as int) =~= start);

        let root = build(
            &mut build_geometry,
            0,
            n,
            &mut index_to_geometry,
            &mut total_nodes,
            split_threshold,
        );
        let ghost shape = root;
        let ghost arranged = spec_arrange(start, split_threshold as int);
        proof {
            lemma_build_size(start, 0, split_threshold as int);
            lemma_build_bounds(start, 0, split_threshold as int);
            lemma_leaf_size(start, 0, split_threshold as int);
            lemma_arrange_len(start, split_threshold as int);
            assert(index_to_geometry@ =~= indices(arranged));
            assert forall|v: usize|
                #[trigger] occurrences(index_to_geometry@, v) == if v < n {
                    1nat
                } else {
                    0nat
                } by {
                lemma_arrange_occurrences(start, split_threshold as int, v);
                lemma_identity(indices(start));
            }
            lemma_each_once_distinct(index_to_geometry@, n as int);
        }

        let tree = flatten(root, total_nodes);

        let ghost given = geometry@;
        let geometry = reorder(geometry, &index_to_geometry);
        proof {
            let boxes = boxes_of(geometry@);
            assert(drawn_from(start, start)) by {
                assert forall|j: int| 0 <= j < start.len() implies (#[trigger] start[j]).index
                    < start.len() && start[start[j].index as int] == start[j] by {}
            }
            lemma_arrange_drawn(start, split_threshold as int, start);
            assert forall|j: int| 0 <= j < n implies #[trigger] boxes[0 + j]
                == arranged[j].bounds by {
                assert(geometry@[j] == given[index_to_geometry@[j] as int]);
                assert(index_to_geometry@[j] == arranged[j].index);
                assert(start[arranged[j].index as int] == arranged[j]);
            }
            lemma_build_tiles(start, 0, split_threshold as int, boxes);
            assert(tree@.subrange(0, 0 + shape.node_count() as int) =~= tree@);
            lemma_flat_sound(shape, tree@, 0, boxes, 0);
            assert forall|k: int| 0 <= k < geometry@.len() implies (
            #[trigger] geometry@[k]).spec_bounds() is Some by {
                assert(geometry@[k] == given[index_to_geometry@[k] as int]);
            }
        }
        BVH { geometry, tree, order: index_to_geometry }
    }

    /// The primitives in the order in which the hierarchy keeps them.
    pub fn geometry(&self) -> (r: &Vec<P>)
        ensures
            r@ == self.primitives(),
    {
        &self.geometry
    }

    /// The nodes of the flattened tree; node 0 is the root.
    pub fn tree(&self) -> (r: &Vec<FlatNode>)
        ensures
            r@ == self.nodes(),
    {
        &self.tree
    }

    /// For each kept primitive, its position in the list the hierarchy was
    /// built from.
    pub fn order(&self) -> (r: &Vec<usize>)
        ensures
            r@ == self.permutation(),
    {
        &self.order
    }
}

/// A hierarchy is itself a primitive: hierarchies can hang in hierarchies.
impl<P: Intersect> Intersect for BVH<P> {
    closed spec fn first_hit(&self, ray: Ray, t_min: i64) -> Option<Hit> {
        walk(self.tree@, self.geometry@, 0, ray, t_min, i64::MAX)
    }

    closed spec fn spec_bounds(&self) -> Option<AABB> {
        if self.tree@.len() > 0 {
            Some(self.tree@[0].bounds)
        } else {
            None
        }
    }

    proof fn lemma_first_hit_beyond(&self, ray: Ray, t_min: i64) {
        lemma_walk_beyond(self.tree@, self.geometry@, 0, ray, t_min, i64::MAX);
    }

    proof fn lemma_crossing_in_bounds(&self, ray: Ray, t_min: i64) {
    }

    /// The nearest crossing of `ray` with any primitive at a parameter
    /// strictly between `t_min` and `t_max`.
    ///
    /// What is returned is the first hit beyond `t_min` of one of the
    /// primitives, found by walking the tree. For a ray followed from its
    /// origin on (`t_min >= 0`), no primitive is crossed at a smaller
    /// parameter within the interval, and a hit is returned whenever some
    /// primitive is crossed there.
    fn intersection(&self, ray: Ray, t_min: i64, t_max: i64) -> (r: Option<Hit>)
        ensures
            r == walk(self.nodes(), self.primitives(), 0, ray, t_min, t_max),
            r matches Some(h) ==> t_min < h.t < t_max && exists|k: int|
                0 <= k < self.primitives().len() && #[trigger] self.primitives()[k].first_hit(
                    ray,
                    t_min,
                ) == Some(h),
            t_min >= 0 ==> time_of(r) == nearest_time(
                self.primitives(),
                0,
                self.primitives().len() as int,
                ray,
                t_min,
                t_max,
            ),
    {
        proof {
            use_type_invariant(self);
            lemma_walk_source(self.tree@, self.geometry@, 0, ray, t_min, t_max);
            lemma_walk_beyond(self.tree@, self.geometry@, 0, ray, t_min, t_max);
            lemma_walk_within(self.tree@, self.geometry@, 0, ray, t_min, t_max);
            if t_min >= 0 {
                lemma_walk(self.tree@, self.geometry@, 0, ray, t_min, t_max);
            }
        }
        intersect(&self.tree, &self.geometry, 0, ray, t_min, t_max)
    }

    /// Whether `ray` crosses any primitive at a parameter strictly between
    /// `t_min` and `t_max`.
    fn has_intersection(&self, ray: Ray, t_min: i64, t_max: i64) -> (r: bool)
        ensures
            r == walk(self.nodes(), self.primitives(), 0, ray, t_min, t_max).is_some(),
    {
        self.intersection(ray, t_min, t_max).is_some()
    }

    /// The bounds of the whole hierarchy: those of its root.
    fn bounds(&self) -> (r: Option<AABB>)
        ensures
            r == Some(self.nodes()[0].bounds),
    {
        proof {
            use_type_invariant(self);
        }
        Some(self.tree[0].bounds)
    }
}

} // verus!
