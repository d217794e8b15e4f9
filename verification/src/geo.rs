//! Geographic and projected points, and axis-aligned boxes of both.

use vstd::prelude::*;

verus! {

/// A geographic position (latitude, longitude) in millionths of a degree.
#[derive(Copy, Clone, Debug, PartialEq, Eq, Hash, Structural)]
pub struct GeoPoint {
    pub raw_lat: i32,
    pub raw_lon: i32,
}

/// A position in the projected plane (easting, northing) in whole metres.
#[derive(Copy, Clone, Debug, PartialEq, Eq, Hash, Structural)]
pub struct ProjPoint {
    pub east: i32,
    pub north: i32,
}

/// A place that is known both ways: by its geographic position and by the
/// projection of that position into the plane.
#[derive(Copy, Clone, Debug, PartialEq, Eq, Hash, Structural)]
pub struct Place {
    pub geo: GeoPoint,
    pub proj: ProjPoint,
}

/// A geographic rectangle given by its south-west and north-east corners.
/// It does not wrap around the 180th meridian.
#[derive(Copy, Clone, Debug, PartialEq, Eq, Structural)]
pub struct BoundingBox {
    pub sw: GeoPoint,
    pub ne: GeoPoint,
}

/// A rectangle in the projected plane.
#[derive(Copy, Clone, Debug, PartialEq, Eq, Structural)]
pub struct BoundingBox3035 {
    pub sw: ProjPoint,
    pub ne: ProjPoint,
}

/// The four corners of a geographic rectangle.
#[derive(Copy, Clone, Debug, PartialEq, Eq, Structural)]
pub struct Corners {
    pub sw: GeoPoint,
    pub ne: GeoPoint,
    pub se: GeoPoint,
    pub nw: GeoPoint,
}

/// The smaller of two numbers.
pub open spec fn min2(a: int, b: int) -> int {
    if a <= b {
        a
    } else {
        b
    }
}

/// The larger of two numbers.
pub open spec fn max2(a: int, b: int) -> int {
    if a >= b {
        a
    } else {
        b
    }
}

/// The smallest of four numbers.
pub open spec fn min4(a: int, b: int, c: int, d: int) -> int {
    min2(min2(a, b), min2(c, d))
}

/// The largest of four numbers.
pub open spec fn max4(a: int, b: int, c: int, d: int) -> int {
    max2(max2(a, b), max2(c, d))
}

fn min_i32(a: i32, b: i32) -> (r: i32)
    ensures
        r == min2(a as int, b as int),
{
    if a <= b {
        a
    } else {
        b
    }
}

fn max_i32(a: i32, b: i32) -> (r: i32)
    ensures
        r == max2(a as int, b as int),
{
    if a >= b {
        a
    } else {
        b
    }
}

impl GeoPoint {
    /// A position from its latitude and longitude in millionths of a degree.
    pub fn new(raw_lat: i32, raw_lon: i32) -> (p: Self)
        ensures
            p.raw_lat == raw_lat,
            p.raw_lon == raw_lon,
    {
        GeoPoint { raw_lat, raw_lon }
    }

    /// Latitude in millionths of a degree.
    pub fn lat(&self) -> (r: i32)
        ensures
            r == self.raw_lat,
    {
        self.raw_lat
    }

    /// Longitude in millionths of a degree.
    pub fn lon(&self) -> (r: i32)
        ensures
            r == self.raw_lon,
    {
        self.raw_lon
    }
}

impl ProjPoint {
    /// A position from its easting and northing in metres.
    pub fn new(east: i32, north: i32) -> (p: Self)
        ensures
            p.east == east,
            p.north == north,
    {
        ProjPoint { east, north }
    }

    /// The square of the distance to `other`, in square metres.
    pub open spec fn dist2(self, other: ProjPoint) -> int {
        (self.east - other.east) * (self.east - other.east) + (self.north - other.north) * (
        self.north - other.north)
    }

    /// Computes the square of the distance to `other`.
    pub fn squared_distance(&self, other: &ProjPoint) -> (d: u128)
        ensures
            d == self.dist2(*other),
    {
        let dx: i64 = self.east as i64 - other.east as i64;
        let dy: i64 = self.north as i64 - other.north as i64;
        assert(-0xffff_ffff <= dx <= 0xffff_ffff);
        assert(-0xffff_ffff <= dy <= 0xffff_ffff);
        assert(0 <= dx * dx <= 0xffff_ffff * 0xffff_ffff) by (nonlinear_arith)
            requires
                -0xffff_ffff <= dx <= 0xffff_ffff,
        ;
        assert(0 <= dy * dy <= 0xffff_ffff * 0xffff_ffff) by (nonlinear_arith)
            requires
                -0xffff_ffff <= dy <= 0xffff_ffff,
        ;
        let ax: u64 = if dx >= 0 {
            dx as u64
        } else {
            (-dx) as u64
        };
        let ay: u64 = if dy >= 0 {
            dy as u64
        } else {
            (-dy) as u64
        };
        assert(ax * ax == dx * dx) by (nonlinear_arith)
            requires
                ax == dx || ax == -dx,
        ;
        assert(ay * ay == dy * dy) by (nonlinear_arith)
            requires
                ay == dy || ay == -dy,
        ;
        (ax * ax) as u128 + (ay * ay) as u128
    }
}

impl Place {
    /// A place from its geographic position and the projection of it.
    pub fn new(geo: GeoPoint, proj: ProjPoint) -> (p: Self)
        ensures
            p.geo == geo,
            p.proj == proj,
    {
        Place { geo, proj }
    }
}

impl BoundingBox {
    /// A rectangle from its south-west and north-east corners.
    pub fn new(sw: GeoPoint, ne: GeoPoint) -> (b: Self)
        ensures
            b.sw == sw,
            b.ne == ne,
    {
        BoundingBox { sw, ne }
    }

    /// Whether `point` lies in the closed rectangle.
    pub open spec fn contains(self, point: GeoPoint) -> bool {
        &&& self.sw.raw_lat <= point.raw_lat <= self.ne.raw_lat
        &&& self.sw.raw_lon <= point.raw_lon <= self.ne.raw_lon
    }

    /// Whether the rectangle is the smallest one that holds all of `points`:
    /// it holds each of them, and each of its four sides passes through one.
    pub open spec fn is_envelope_of(self, points: Seq<GeoPoint>) -> bool {
        &&& forall|k: int| 0 <= k < points.len() ==> self.contains(#[trigger] points[k])
        &&& exists|k: int| 0 <= k < points.len() && (#[trigger] points[k]).raw_lat == self.sw.raw_lat
        &&& exists|k: int| 0 <= k < points.len() && (#[trigger] points[k]).raw_lon == self.sw.raw_lon
        &&& exists|k: int| 0 <= k < points.len() && (#[trigger] points[k]).raw_lat == self.ne.raw_lat
        &&& exists|k: int| 0 <= k < points.len() && (#[trigger] points[k]).raw_lon == self.ne.raw_lon
    }

    /// Tests whether `point` lies in the closed rectangle.
    pub fn is_inside(&self, point: GeoPoint) -> (r: bool)
        ensures
            r == self.contains(point),
    {
        point.raw_lat >= self.sw.raw_lat && point.raw_lon >= self.sw.raw_lon && point.raw_lat
            <= self.ne.raw_lat && point.raw_lon <= self.ne.raw_lon
    }

    /// The four corners, those on the diagonal first.
    pub fn corners(&self) -> (c: Corners)
        ensures
            c.sw == self.sw,
            c.ne == self.ne,
            c.se == (GeoPoint { raw_lat: self.sw.raw_lat, raw_lon: self.ne.raw_lon }),
            c.nw == (GeoPoint { raw_lat: self.ne.raw_lat, raw_lon: self.sw.raw_lon }),
    {
        Corners {
            sw: self.sw,
            ne: self.ne,
            se: GeoPoint { raw_lat: self.sw.raw_lat, raw_lon: self.ne.raw_lon },
            nw: GeoPoint { raw_lat: self.ne.raw_lat, raw_lon: self.sw.raw_lon },
        }
    }
}

impl BoundingBox3035 {
    /// Whether `point` lies in the closed rectangle.
    pub open spec fn contains(self, point: ProjPoint) -> bool {
        &&& self.sw.east <= point.east <= self.ne.east
        &&& self.sw.north <= point.north <= self.ne.north
    }

    /// The smallest rectangle that holds the projections of the four corners
    /// of a geographic rectangle. A projection bends the sides of the
    /// rectangle, so the projections of two opposite corners do not span it.
    pub fn enclosing(sw: ProjPoint, ne: ProjPoint, se: ProjPoint, nw: ProjPoint) -> (b: Self)
        ensures
            b.sw.east == min4(sw.east as int, ne.east as int, se.east as int, nw.east as int),
            b.sw.north == min4(sw.north as int, ne.north as int, se.north as int, nw.north as int),
            b.ne.east == max4(sw.east as int, ne.east as int, se.east as int, nw.east as int),
            b.ne.north == max4(sw.north as int, ne.north as int, se.north as int, nw.north as int),
            b.contains(sw),
            b.contains(ne),
            b.contains(se),
            b.contains(nw),
    {
        BoundingBox3035 {
            sw: ProjPoint {
                east: min_i32(min_i32(sw.east, ne.east), min_i32(se.east, nw.east)),
                north: min_i32(min_i32(sw.north, ne.north), min_i32(se.north, nw.north)),
            },
            ne: ProjPoint {
                east: max_i32(max_i32(sw.east, ne.east), max_i32(se.east, nw.east)),
                north: max_i32(max_i32(sw.north, ne.north), max_i32(se.north, nw.north)),
            },
        }
    }

    /// Extent from west to east, in metres.
    pub fn width(&self) -> (w: i64)
        ensures
            w == self.ne.east - self.sw.east,
    {
        self.ne.east as i64 - self.sw.east as i64
    }

    /// Extent from south to north, in metres.
    pub fn height(&self) -> (h: i64)
        ensures
            h == self.ne.north - self.sw.north,
    {
        self.ne.north as i64 - self.sw.north as i64
    }
}

} // verus!
