//! Spatial density as a cloud of weighted points.

use rand::rngs::ThreadRng;
use vstd::prelude::*;

use crate::chance::{draw_index, index_weights, total_weight, weighted_index, WeightedDraw};
use crate::geo::{BoundingBox, Place, ProjPoint};

verus! {

/// A place and its weight: the number of people, or of shops, that it
/// stands for.
#[derive(Copy, Clone, Debug, PartialEq, Eq, Structural)]
pub struct WeightedPlace {
    pub place: Place,
    pub weight: u32,
}

/// Why a cloud of weighted points could not be built.
#[derive(Copy, Clone, Debug, PartialEq, Eq, Structural)]
pub enum DensityError {
    /// No point is left, or no point that is left has any weight.
    EmptyDistribution,
    /// The weights of the points add up to more than 32 bits can hold.
    TooHeavy,
}

/// A cloud of weighted points, from which points are drawn by weight.
pub struct DensityClusters {
    dist: WeightedDraw,
    places: Vec<Place>,
    weights: Vec<u32>,
}

/// The rows that lie within `bounds`, in their order; all rows where there
/// are no bounds.
pub open spec fn kept(rows: Seq<WeightedPlace>, bounds: Option<BoundingBox>) -> Seq<WeightedPlace>
    decreases rows.len(),
{
    if rows.len() == 0 {
        Seq::empty()
    } else if keeps(rows.last(), bounds) {
        kept(rows.drop_last(), bounds).push(rows.last())
    } else {
        kept(rows.drop_last(), bounds)
    }
}

/// Whether `row` lies within `bounds`.
pub open spec fn keeps(row: WeightedPlace, bounds: Option<BoundingBox>) -> bool {
    match bounds {
        Some(b) => b.contains(row.place.geo),
        None => true,
    }
}

/// The weights of a list of rows.
pub open spec fn weights_of(rows: Seq<WeightedPlace>) -> Seq<u32> {
    Seq::new(rows.len(), |i: int| rows[i].weight)
}

/// The square of a distance of `radius` metres.
pub open spec fn squared(radius: u32) -> int {
    radius * radius
}

/// A sum of weights is at least the sum of the first few of them.
proof fn lemma_total_weight_prefix(weights: Seq<u32>, n: int)
    requires
        0 <= n <= weights.len(),
    ensures
        total_weight(weights.take(n)) <= total_weight(weights),
    decreases weights.len(),
{
    if n == weights.len() {
        assert(weights.take(n) =~= weights);
    } else {
        assert(weights.drop_last().take(n) =~= weights.take(n));
        lemma_total_weight_prefix(weights.drop_last(), n);
    }
}

/// A sum of weights is at least as large as each of them.
proof fn lemma_total_weight_bounds(weights: Seq<u32>)
    ensures
        forall|i: int| 0 <= i < weights.len() ==> #[trigger] weights[i] <= total_weight(weights),
    decreases weights.len(),
{
    if weights.len() > 0 {
        let front = weights.drop_last();
        lemma_total_weight_bounds(front);
        assert forall|i: int| 0 <= i < weights.len() implies #[trigger] weights[i] <= total_weight(
            weights,
        ) by {
            if i < front.len() {
                assert(front[i] == weights[i]);
            }
        }
    }
}

proof fn lemma_kept_prefix(rows: Seq<WeightedPlace>, bounds: Option<BoundingBox>, n: int)
    requires
        0 <= n <= rows.len(),
    ensures
        kept(rows.take(n), bounds).len() <= kept(rows, bounds).len(),
        kept(rows.take(n), bounds) == kept(rows, bounds).take(
            kept(rows.take(n), bounds).len() as int,
        ),
    decreases rows.len(),
{
    if n == rows.len() {
        assert(rows.take(n) =~= rows);
        assert(kept(rows, bounds).take(kept(rows, bounds).len() as int) =~= kept(rows, bounds));
    } else {
        let front = rows.drop_last();
        assert(front.take(n) =~= rows.take(n));
        lemma_kept_prefix(front, bounds, n);
        let short = kept(rows.take(n), bounds);
        assert(kept(rows, bounds).take(short.len() as int) =~= kept(front, bounds).take(
            short.len() as int,
        ));
    }
}

impl DensityClusters {
    #[verifier::type_invariant]
    spec fn inv(&self) -> bool {
        &&& self.places@.len() == self.weights@.len()
        &&& index_weights(self.dist) == self.weights@
        &&& total_weight(self.weights@) <= u32::MAX
    }

    /// The points of the cloud with their weights.
    pub closed spec fn clusters(&self) -> Seq<WeightedPlace> {
        Seq::new(
            self.places@.len(),
            |i: int| WeightedPlace { place: self.places@[i], weight: self.weights@[i] },
        )
    }

    /// `place` is a point of the cloud, and it has some weight.
    pub open spec fn holds(&self, place: Place) -> bool {
        exists|i: int|
            0 <= i < self.clusters().len() && (#[trigger] self.clusters()[i]).place == place
                && self.clusters()[i].weight > 0
    }

    /// `place` is a point of the cloud, it has some weight, and it lies no
    /// farther than `radius` metres from `from` in the plane.
    pub open spec fn holds_within(&self, place: Place, from: ProjPoint, radius: u32) -> bool {
        exists|i: int|
            0 <= i < self.clusters().len() && (#[trigger] self.clusters()[i]).place == place
                && self.clusters()[i].weight > 0 && place.proj.dist2(from) <= squared(radius)
    }

    /// No point of the cloud that lies within `radius` metres of `from` has
    /// any weight.
    pub open spec fn bare_within(&self, from: ProjPoint, radius: u32) -> bool {
        forall|i: int|
            0 <= i < self.clusters().len() && (#[trigger] self.clusters()[i]).place.proj.dist2(from)
                <= squared(radius) ==> self.clusters()[i].weight == 0
    }

    /// What `from_rows` gives for `rows` and `bounds`: the points of the
    /// cloud, or the reason why there is none.
    pub open spec fn from_rows_result(rows: Seq<WeightedPlace>, bounds: Option<BoundingBox>) -> Result<
        Seq<WeightedPlace>,
        DensityError,
    > {
        let total = total_weight(weights_of(kept(rows, bounds)));
        if total == 0 {
            Err(DensityError::EmptyDistribution)
        } else if total > u32::MAX {
            Err(DensityError::TooHeavy)
        } else {
            Ok(kept(rows, bounds))
        }
    }

    /// Builds the cloud from the rows of a density file. Where `bounds` are
    /// given, rows that lie outside of them are left out.
    #[verifier::rlimit(50)]
    pub fn from_rows(rows: &Vec<WeightedPlace>, bounds: Option<BoundingBox>) -> (r: Result<
        DensityClusters,
        DensityError,
    >)
        ensures
            match (r, Self::from_rows_result(rows@, bounds)) {
                (Ok(d), Ok(clusters)) => d.clusters() == clusters,
                (Err(e), Err(f)) => e == f,
                _ => false,
            },
    {
        let mut places: Vec<Place> = Vec::new();
        let mut weights: Vec<u32> = Vec::new();
        let mut sum: u64 = 0;
        let mut i: usize = 0;
        while i < rows.len()
            invariant
                i <= rows@.len(),
                places@.len() == weights@.len(),
                weights@ == weights_of(kept(rows@.take(i as int), bounds)),
                forall|k: int|
                    0 <= k < places@.len() ==> #[trigger] places@[k] == kept(
                        rows@.take(i as int),
                        bounds,
                    )[k].place,
                sum == total_weight(weights@),
                sum <= u32::MAX,
            decreases rows.len() - i,
        {
            let row = rows[i];
            let inside = match bounds {
                Some(b) => b.is_inside(row.place.geo),
                None => true,
            };
            proof {
                assert(rows@.take(i + 1).drop_last() =~= rows@.take(i as int));
                assert(rows@.take(i + 1).last() == row);
            }
            if inside {
                let ghost before = weights@;
                places.push(row.place);
                weights.push(row.weight);
                sum = sum + row.weight as u64;
                proof {
                    assert(weights@.drop_last() =~= before);
                    assert(weights@ =~= weights_of(kept(rows@.take(i + 1), bounds)));
                }
                if sum > 0xffff_ffff {
                    proof {
                        lemma_kept_prefix(rows@, bounds, i + 1);
                        let part = kept(rows@.take(i + 1), bounds);
                        let all = kept(rows@, bounds);
                        assert(weights_of(all).take(part.len() as int) =~= weights_of(part));
                        lemma_total_weight_prefix(weights_of(all), part.len() as int);
                    }
                    return Err(DensityError::TooHeavy);
                }
            }
            i += 1;
        }
        proof {
            assert(rows@.take(i as int) =~= rows@);
        }
        match weighted_index(&weights) {
            Ok(dist) => {
                let d = DensityClusters { dist, places, weights };
                proof {
                    assert(d.clusters() =~= kept(rows@, bounds));
                }
                Ok(d)
            },
            Err(_) => Err(DensityError::EmptyDistribution),
        }
    }

    /// The number of points.
    pub fn len(&self) -> (n: usize)
        ensures
            n == self.clusters().len(),
    {
        self.places.len()
    }

    /// The point at position `i` with its weight.
    pub fn get(&self, i: usize) -> (r: Option<WeightedPlace>)
        ensures
            r == if i < self.clusters().len() {
                Some(self.clusters()[i as int])
            } else {
                None
            },
    {
        proof {
            use_type_invariant(self);
        }
        if i < self.places.len() {
            Some(WeightedPlace { place: self.places[i], weight: self.weights[i] })
        } else {
            None
        }
    }

    /// Return a random point from the distribution. The chance of a point is
    /// in proportion to its weight.
    pub fn sample_point(&self, rng: &mut ThreadRng) -> (r: Place)
        ensures
            self.holds(r),
    {
        proof {
            use_type_invariant(self);
        }
        let i = draw_index(&self.dist, rng);
        proof {
            assert(self.clusters()[i as int].place == self.places@[i as int]);
        }
        self.places[i]
    }

    /// Sample a point within a radius from a given point. The chance of a
    /// point is in proportion to its weight among the points in reach.
    /// Returns None if no destination point can be created because there
    /// aren't any or the sum of weights is zero.
    ///
    /// The points in reach are found by going through all points, with exact
    /// distances on whole metres: a tree of the `kdtree` crate would find
    /// them faster, but takes floating-point coordinates only.
    #[verifier::rlimit(50)]
    pub fn sample_point_within(&self, rng: &mut ThreadRng, from: ProjPoint, within_radius: u32) -> (r:
        Option<Place>)
        ensures
            match r {
                Some(p) => self.holds_within(p, from, within_radius),
                None => self.bare_within(from, within_radius),
            },
    {
        proof {
            use_type_invariant(self);
        }
        assert(0 <= within_radius * within_radius <= 0xffff_ffff * 0xffff_ffff) by (nonlinear_arith)
            requires
                0 <= within_radius <= 0xffff_ffff,
        ;
        let reach: u128 = (within_radius as u64 * within_radius as u64) as u128;
        // Get the points within the given radius.
        let mut hits: Vec<usize> = Vec::new();
        let mut local: Vec<u32> = Vec::new();
        let mut i: usize = 0;
        while i < self.places.len()
            invariant
                i <= self.places@.len(),
                self.places@.len() == self.weights@.len(),
                total_weight(self.weights@) <= u32::MAX,
                reach == squared(within_radius),
                hits@.len() == local@.len(),
                forall|j: int|
                    0 <= j < hits@.len() ==> (#[trigger] hits@[j]) < i
                        && self.places@[hits@[j] as int].proj.dist2(from) <= reach && local@[j]
                        == self.weights@[hits@[j] as int],
                forall|k: int|
                    0 <= k < i && (#[trigger] self.places@[k]).proj.dist2(from) <= reach
                        ==> exists|j: int| 0 <= j < hits@.len() && #[trigger] hits@[j] == k,
                total_weight(local@) <= total_weight(self.weights@.take(i as int)),
            decreases self.places.len() - i,
        {
            let ghost hits_before = hits@;
            let ghost local_before = local@;
            proof {
                assert(self.weights@.take(i + 1).drop_last() =~= self.weights@.take(i as int));
            }
            if self.places[i].proj.squared_distance(&from) <= reach {
                hits.push(i);
                local.push(self.weights[i]);
                proof {
                    assert(local@.drop_last() =~= local_before);
                    assert forall|k: int|
                        0 <= k < i + 1 && (#[trigger] self.places@[k]).proj.dist2(from)
                            <= reach implies exists|j: int|
                        0 <= j < hits@.len() && #[trigger] hits@[j] == k by {
                        if k < i {
                            let j = choose|j: int|
                                0 <= j < hits_before.len() && #[trigger] hits_before[j] == k;
                            assert(hits@[j] == k);
                        } else {
                            assert(hits@[hits_before.len() as int] == k);
                        }
                    }
                }
            } else {
                proof {
                    assert forall|k: int|
                        0 <= k < i + 1 && (#[trigger] self.places@[k]).proj.dist2(from)
                            <= reach implies exists|j: int|
                        0 <= j < hits@.len() && #[trigger] hits@[j] == k by {
                        let j = choose|j: int|
                            0 <= j < hits_before.len() && #[trigger] hits_before[j] == k;
                        assert(hits@[j] == k);
                    }
                }
            }
            i += 1;
        }
        proof {
            lemma_total_weight_prefix(self.weights@, i as int);
        }
        match weighted_index(&local) {
            Ok(distribution) => {
                let j = draw_index(&distribution, rng);
                let at = hits[j];
                proof {
                    assert(self.clusters()[at as int].place == self.places@[at as int]);
                }
                Some(self.places[at])
            },
            Err(_) => {
                proof {
                    lemma_total_weight_bounds(local@);
                    assert forall|k: int|
                        0 <= k < self.clusters().len() && (#[trigger] self.clusters()[k]).place.proj.dist2(
                            from,
                        ) <= squared(within_radius) implies self.clusters()[k].weight == 0 by {
                        assert(self.places@[k].proj.dist2(from) <= reach);
                        let j = choose|j: int| 0 <= j < hits@.len() && #[trigger] hits@[j] == k;
                        assert(local@[j] <= total_weight(local@));
                    }
                }
                None
            },
        }
    }
}

} // verus!
