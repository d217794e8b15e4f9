//! Strategies that draw the two ends of a route.
//!
//! A strategy draws from clouds of weighted points, or from the plane
//! without regard to density. For the latter this file holds the rules by
//! which uniform draws become a point of a rectangle and a distance within a
//! disk; a uniform draw is given as a number of 32 bits, which stands for
//! the fraction of 2^32 that it is.

use rand::rngs::ThreadRng;
use vstd::prelude::*;

use crate::chance::{thread_rng, toss};
use crate::density::{DensityClusters, DensityError, WeightedPlace};
use crate::geo::{BoundingBox, GeoPoint, Place};

verus! {

/// A strategy that draws sources, and for a source a destination.
pub trait Sampling {
    /// Draws the place where a route starts.
    fn gen_source(&mut self) -> Place;

    /// Draws the place where a route that starts at `source` ends. There may
    /// be none in reach of `source`; then source and destination are both
    /// drawn anew.
    fn gen_destination(&mut self, source: Place) -> Option<Place>;
}

/// The point between `low` and `high` that lies the fraction `t` of the way
/// from `low` to `high`, rounded towards `low`.
pub open spec fn part_way(low: int, high: int, t: int) -> int {
    if low <= high {
        low + ((high - low) * t) / 0x1_0000_0000
    } else {
        low - ((low - high) * t) / 0x1_0000_0000
    }
}

/// The sum of two uniform draws, folded at its middle: more often large than
/// small, as the distance from the centre is for the points of a disk.
pub open spec fn folded_sum(r1: int, r2: int) -> int {
    if r1 + r2 > 0x1_0000_0000 {
        0x2_0000_0000 - (r1 + r2)
    } else {
        r1 + r2
    }
}

/// The distance from the centre of a disk of radius `reach` that two uniform
/// draws give.
pub open spec fn radius_of(reach: int, r1: int, r2: int) -> int {
    (reach * folded_sum(r1, r2)) / 0x1_0000_0000
}

/// The number between `low` and `high` that the uniform draw `t` gives.
pub fn uniform_between(low: i32, high: i32, t: u32) -> (r: i32)
    ensures
        r == part_way(low as int, high as int, t as int),
        low <= high ==> low <= r <= high,
        high <= low ==> high <= r <= low,
{
    if low <= high {
        let span: u64 = (high as i64 - low as i64) as u64;
        assert(span * t <= 0xffff_ffff * 0xffff_ffff) by (nonlinear_arith)
            requires
                span <= 0xffff_ffff,
                t <= 0xffff_ffff,
        ;
        let step: u64 = (span * (t as u64)) / 0x1_0000_0000u64;
        assert(step <= span) by (nonlinear_arith)
            requires
                step == (span * t) / 0x1_0000_0000,
                t < 0x1_0000_0000,
                span >= 0,
        ;
        (low as i64 + step as i64) as i32
    } else {
        let span: u64 = (low as i64 - high as i64) as u64;
        assert(span * t <= 0xffff_ffff * 0xffff_ffff) by (nonlinear_arith)
            requires
                span <= 0xffff_ffff,
                t <= 0xffff_ffff,
        ;
        let step: u64 = (span * (t as u64)) / 0x1_0000_0000u64;
        assert(step <= span) by (nonlinear_arith)
            requires
                step == (span * t) / 0x1_0000_0000,
                t < 0x1_0000_0000,
                span >= 0,
        ;
        (low as i64 - step as i64) as i32
    }
}

/// The point of the rectangle `bounds` that two uniform draws give, one for
/// the latitude and one for the longitude.
pub fn uniform_point(bounds: &BoundingBox, t_lat: u32, t_lon: u32) -> (p: GeoPoint)
    ensures
        p.raw_lat == part_way(bounds.sw.raw_lat as int, bounds.ne.raw_lat as int, t_lat as int),
        p.raw_lon == part_way(bounds.sw.raw_lon as int, bounds.ne.raw_lon as int, t_lon as int),
        bounds.sw.raw_lat <= bounds.ne.raw_lat && bounds.sw.raw_lon <= bounds.ne.raw_lon
            ==> bounds.contains(p),
{
    GeoPoint {
        raw_lat: uniform_between(bounds.sw.raw_lat, bounds.ne.raw_lat, t_lat),
        raw_lon: uniform_between(bounds.sw.raw_lon, bounds.ne.raw_lon, t_lon),
    }
}

/// The distance from the centre of a point that is drawn uniformly from a
/// disk of radius `reach`, as two uniform draws give it: their sum, or what
/// their sum lacks to two where it is above one, times the radius. The
/// distance is never more than the radius.
pub fn disk_radius(reach: u64, r1: u32, r2: u32) -> (r: u64)
    ensures
        r == radius_of(reach as int, r1 as int, r2 as int),
        r <= reach,
{
    let u: u64 = r1 as u64 + r2 as u64;
    let folded: u64 = if u > 0x1_0000_0000u64 {
        0x2_0000_0000u64 - u
    } else {
        u
    };
    assert(reach * folded <= 0xffff_ffff_ffff_ffff * 0x1_0000_0000) by (nonlinear_arith)
        requires
            reach <= 0xffff_ffff_ffff_ffff,
            0 <= folded <= 0x1_0000_0000,
    ;
    let scaled: u128 = (reach as u128) * (folded as u128);
    let r: u128 = scaled / 0x1_0000_0000u128;
    assert(r <= reach) by (nonlinear_arith)
        requires
            r == (reach * folded) / 0x1_0000_0000,
            0 <= folded <= 0x1_0000_0000,
            reach >= 0,
    ;
    r as u64
}

/// What is done next once a source and, where there is one in reach, a
/// destination have been drawn.
#[derive(Copy, Clone, Debug, PartialEq, Eq, Structural)]
pub enum Step {
    /// The route from `from` to `to` is asked for.
    Ask { from: Place, to: Place },
    /// There is no destination in reach of the source: source and
    /// destination are both drawn anew.
    DrawAgain,
}

/// Decides what is done with a draw: a pair of source and destination goes
/// to the routing engine, a source without a destination is dropped and
/// drawn anew.
pub fn next_step(source: Place, destination: Option<Place>) -> (s: Step)
    ensures
        s == match destination {
            Some(d) => (Step::Ask { from: source, to: d }),
            None => Step::DrawAgain,
        },
{
    match destination {
        Some(d) => Step::Ask { from: source, to: d },
        None => Step::DrawAgain,
    }
}

/// Draws both ends of a route from one cloud of weighted points.
pub struct Weighted {
    rng: ThreadRng,
    density: DensityClusters,
    /// Maximum distance in meters between source and destination points.
    max_dist: u32,
}

/// Draws each end of a route from one of two clouds of weighted points, that
/// of the population or that of the points of interest, as a fair coin
/// decides.
pub struct Complex {
    rng: ThreadRng,
    /// Maximum distance in meters between source and destination points.
    max_dist: u32,
    density_population: DensityClusters,
    density_poi: DensityClusters,
}

impl Weighted {
    /// The cloud that both ends are drawn from.
    pub closed spec fn density(&self) -> DensityClusters {
        self.density
    }

    /// The largest distance in metres between source and destination.
    pub closed spec fn reach(&self) -> u32 {
        self.max_dist
    }

    /// A strategy over the given cloud.
    pub fn new(density: DensityClusters, max_dist: u32) -> (w: Self)
        ensures
            w.density() == density,
            w.reach() == max_dist,
    {
        Weighted { rng: thread_rng(), density, max_dist }
    }

    /// A strategy over the cloud that the rows of a density file give.
    pub fn from_rows(rows: &Vec<WeightedPlace>, bounds: Option<BoundingBox>, max_dist: u32) -> (r:
        Result<Self, DensityError>)
        ensures
            match (r, DensityClusters::from_rows_result(rows@, bounds)) {
                (Ok(w), Ok(clusters)) => w.density().clusters() == clusters && w.reach() == max_dist,
                (Err(e), Err(f)) => e == f,
                _ => false,
            },
    {
        match DensityClusters::from_rows(rows, bounds) {
            Ok(density) => Ok(Weighted { rng: thread_rng(), density, max_dist }),
            Err(e) => Err(e),
        }
    }
}

impl Sampling for Weighted {
    fn gen_source(&mut self) -> (r: Place)
        ensures
            final(self).density() == old(self).density(),
            final(self).reach() == old(self).reach(),
            old(self).density().holds(r),
    {
        self.density.sample_point(&mut self.rng)
    }

    fn gen_destination(&mut self, source: Place) -> (r: Option<Place>)
        ensures
            final(self).density() == old(self).density(),
            final(self).reach() == old(self).reach(),
            match r {
                Some(p) => old(self).density().holds_within(p, source.proj, old(self).reach()),
                None => old(self).density().bare_within(source.proj, old(self).reach()),
            },
    {
        self.density.sample_point_within(&mut self.rng, source.proj, self.max_dist)
    }
}

impl Complex {
    /// The cloud of the population.
    pub closed spec fn population(&self) -> DensityClusters {
        self.density_population
    }

    /// The cloud of the points of interest.
    pub closed spec fn poi(&self) -> DensityClusters {
        self.density_poi
    }

    /// The largest distance in metres between source and destination.
    pub closed spec fn reach(&self) -> u32 {
        self.max_dist
    }

    /// A strategy over the two given clouds.
    pub fn new(population: DensityClusters, poi: DensityClusters, max_dist: u32) -> (c: Self)
        ensures
            c.population() == population,
            c.poi() == poi,
            c.reach() == max_dist,
    {
        Complex {
            rng: thread_rng(),
            max_dist,
            density_population: population,
            density_poi: poi,
        }
    }

    /// A strategy over the clouds that the rows of two density files give.
    /// The file of the population is looked at first.
    pub fn from_rows(
        population: &Vec<WeightedPlace>,
        poi: &Vec<WeightedPlace>,
        bounds: Option<BoundingBox>,
        max_dist: u32,
    ) -> (r: Result<Self, DensityError>)
        ensures
            match DensityClusters::from_rows_result(population@, bounds) {
                Err(f) => r == Err::<Self, DensityError>(f),
                Ok(first) => match DensityClusters::from_rows_result(poi@, bounds) {
                    Err(f) => r == Err::<Self, DensityError>(f),
                    Ok(second) => match r {
                        Ok(c) => c.population().clusters() == first && c.poi().clusters() == second
                            && c.reach() == max_dist,
                        Err(_) => false,
                    },
                },
            },
    {
        let density_population = match DensityClusters::from_rows(population, bounds) {
            Ok(d) => d,
            Err(e) => {
                return Err(e);
            },
        };
        let density_poi = match DensityClusters::from_rows(poi, bounds) {
            Ok(d) => d,
            Err(e) => {
                return Err(e);
            },
        };
        Ok(Complex { rng: thread_rng(), max_dist, density_population, density_poi })
    }
}

impl Sampling for Complex {
    fn gen_source(&mut self) -> (r: Place)
        ensures
            final(self).population() == old(self).population(),
            final(self).poi() == old(self).poi(),
            final(self).reach() == old(self).reach(),
            old(self).population().holds(r) || old(self).poi().holds(r),
    {
        if toss(&mut self.rng) {
            self.density_population.sample_point(&mut self.rng)
        } else {
            self.density_poi.sample_point(&mut self.rng)
        }
    }

    fn gen_destination(&mut self, source: Place) -> (r: Option<Place>)
        ensures
            final(self).population() == old(self).population(),
            final(self).poi() == old(self).poi(),
            final(self).reach() == old(self).reach(),
            match r {
                Some(p) => old(self).population().holds_within(p, source.proj, old(self).reach())
                    || old(self).poi().holds_within(p, source.proj, old(self).reach()),
                None => old(self).population().bare_within(source.proj, old(self).reach()) || old(
                    self,
                ).poi().bare_within(source.proj, old(self).reach()),
            },
    {
        if toss(&mut self.rng) {
            self.density_population.sample_point_within(&mut self.rng, source.proj, self.max_dist)
        } else {
            self.density_poi.sample_point_within(&mut self.rng, source.proj, self.max_dist)
        }
    }
}

} // verus!
