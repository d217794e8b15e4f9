//! Routes, and the binary layout of a collection of routes.
//!
//! A collection is one header followed by the routes. The header says how
//! many routes follow. While a collection is being written that number is
//! zero; `finish` puts the true number in its place.

use vstd::prelude::*;
use vstd::utf8::*;

use crate::geo::GeoPoint;
use crate::geojson_writer::{
    collection_head, collection_tail, feature_tail, line_head, line_tail, positions, property,
    GeoJsonWriter,
};
use crate::network::{Network, NetworkView, OsmNodeId};
use crate::wire::{
    get_i32, get_i64s, get_str, get_u16, get_u64, i32_bytes, i64s_bytes, lemma_i64s_bytes,
    lemma_parse_i32, lemma_parse_i64s, lemma_parse_str, lemma_parse_u16, lemma_parse_u64, parse_i32,
    parse_i64s, parse_str, parse_u16, parse_u64, put_i32, put_i64, put_str, put_u16, put_u64,
    str_bytes, u16_bytes, u64_bytes, DecodeError,
};

verus! {

/// The major version of the layout that this library writes and reads.
pub const FORMAT_MAJOR: u16 = 0;

/// The minor version of the layout that this library writes.
pub const FORMAT_MINOR: u16 = 2;

/// A geographic position in millionths of a degree.
#[derive(Copy, Clone, Debug, PartialEq, Eq, Structural)]
pub struct LatLon32 {
    pub raw_lat: i32,
    pub raw_lon: i32,
}

/// The shortest path between two points, as the routing engine found it.
#[derive(Clone, Debug, PartialEq, Eq)]
pub struct Route {
    pub start_coord: LatLon32,
    pub end_coord: LatLon32,
    /// The nodes of the road network along the path, in order.
    pub node_ids: Vec<OsmNodeId>,
    /// The length of the path in metres: the bit pattern of the 64-bit
    /// IEEE 754 number that holds it.
    pub distance_bits: u64,
}

/// What a route holds.
pub struct RouteView {
    pub start_coord: LatLon32,
    pub end_coord: LatLon32,
    pub node_ids: Seq<OsmNodeId>,
    pub distance_bits: u64,
}

/// The header of a collection of routes.
#[derive(Clone, Debug, PartialEq, Eq)]
pub struct RouteCollectionHeader {
    major_version: u16,
    minor_version: u16,
    pub osrm_file: String,
    scenario: String,
    number_of_routes: u64,
}

/// What a header holds.
pub struct HeaderView {
    pub major_version: u16,
    pub minor_version: u16,
    pub osrm_file: Seq<char>,
    pub scenario: Seq<char>,
    pub number_of_routes: u64,
}

/// Writes a collection of routes into memory. What it has written so far is
/// what a reader finds where the collection is never finished: a header that
/// announces no route. Only `finish` puts the number of routes in the header.
pub struct RouteCollectionWriter {
    image: Vec<u8>,
    header: RouteCollectionHeader,
    written: Ghost<Seq<RouteView>>,
}

/// Reads a collection of routes from memory, one route after the other.
pub struct RouteCollectionReader {
    bytes: Vec<u8>,
    pos: usize,
    header: RouteCollectionHeader,
    route_index: u64,
}

/// Why a collection of routes could not be written or read.
#[derive(Copy, Clone, Debug, PartialEq, Eq, Structural)]
pub enum RouteError {
    /// The bytes do not hold what the layout asks for.
    Decode(DecodeError),
    /// The collection was written in a layout that this library cannot read.
    VersionMismatch,
    /// The collection holds as many routes as its header can count.
    TooManyRoutes,
}

/// The nodes of the network that `ids` name, each by its position; none
/// where the network does not know a node.
pub open spec fn path_nodes(net: NetworkView, ids: Seq<OsmNodeId>) -> Option<Seq<int>>
    decreases ids.len(),
{
    if ids.len() == 0 {
        Some(Seq::empty())
    } else {
        match (path_nodes(net, ids.drop_last()), net.node_of(ids.last())) {
            (Some(front), Some(k)) => Some(front.push(k)),
            _ => None,
        }
    }
}

/// Where the nodes at the given positions lie.
pub open spec fn node_points(net: NetworkView, at: Seq<int>) -> Seq<GeoPoint> {
    Seq::new(at.len(), |i: int| net.nodes[at[i]].point())
}

/// A route as a GeoJSON collection of one line with the properties
/// `distance` and `distance_bee_line`.
pub open spec fn route_geojson(
    points: Seq<GeoPoint>,
    distance: Seq<char>,
    distance_bee_line: Seq<char>,
) -> Seq<char> {
    collection_head() + line_head() + positions(points) + line_tail() + property(
        "distance"@,
        distance,
    ) + ","@ + property("distance_bee_line"@, distance_bee_line) + feature_tail()
        + collection_tail()
}

/// The identifiers of a list of nodes as plain numbers.
pub open spec fn raw_ids(ids: Seq<OsmNodeId>) -> Seq<i64> {
    Seq::new(ids.len(), |i: int| ids[i].0)
}

/// The nodes that a list of plain numbers names.
pub open spec fn osm_ids(raw: Seq<i64>) -> Seq<OsmNodeId> {
    Seq::new(raw.len(), |i: int| OsmNodeId(raw[i]))
}

/// The bytes of one route: the two ends, the number of nodes, the nodes, the
/// distance.
pub open spec fn route_bytes(r: RouteView) -> Seq<u8> {
    i32_bytes(r.start_coord.raw_lat) + i32_bytes(r.start_coord.raw_lon) + i32_bytes(
        r.end_coord.raw_lat,
    ) + i32_bytes(r.end_coord.raw_lon) + u64_bytes(r.node_ids.len() as u64) + i64s_bytes(
        raw_ids(r.node_ids),
    ) + u64_bytes(r.distance_bits)
}

/// The bytes of a list of routes, one route after the other.
pub open spec fn routes_bytes(routes: Seq<RouteView>) -> Seq<u8>
    decreases routes.len(),
{
    if routes.len() == 0 {
        Seq::empty()
    } else {
        routes_bytes(routes.drop_last()) + route_bytes(routes.last())
    }
}

/// The bytes of a header: the two version numbers, the two names, the number
/// of routes.
pub open spec fn header_bytes(h: HeaderView) -> Seq<u8> {
    u16_bytes(h.major_version) + u16_bytes(h.minor_version) + str_bytes(h.osrm_file) + str_bytes(
        h.scenario,
    ) + u64_bytes(h.number_of_routes)
}

/// The bytes of a collection: the header, then the routes.
pub open spec fn collection_bytes(h: HeaderView, routes: Seq<RouteView>) -> Seq<u8> {
    header_bytes(h) + routes_bytes(routes)
}

/// Reads one route at `pos`; gives the route and where it ends.
pub open spec fn parse_route(s: Seq<u8>, pos: int) -> Result<(RouteView, int), DecodeError> {
    match parse_i32(s, pos) {
        Err(e) => Err(e),
        Ok((start_lat, after_start_lat)) => match parse_i32(s, after_start_lat) {
            Err(e) => Err(e),
            Ok((start_lon, after_start_lon)) => match parse_i32(s, after_start_lon) {
                Err(e) => Err(e),
                Ok((end_lat, after_end_lat)) => match parse_i32(s, after_end_lat) {
                    Err(e) => Err(e),
                    Ok((end_lon, after_end_lon)) => match parse_i64s(s, after_end_lon) {
                        Err(e) => Err(e),
                        Ok((ids, after_ids)) => match parse_u64(s, after_ids) {
                            Err(e) => Err(e),
                            Ok((distance_bits, after_distance)) => Ok(
                                (
                                    RouteView {
                                        start_coord: LatLon32 {
                                            raw_lat: start_lat,
                                            raw_lon: start_lon,
                                        },
                                        end_coord: LatLon32 { raw_lat: end_lat, raw_lon: end_lon },
                                        node_ids: osm_ids(ids),
                                        distance_bits,
                                    },
                                    after_distance,
                                ),
                            ),
                        },
                    },
                },
            },
        },
    }
}

/// Reads a header at `pos`; gives the header and where it ends.
pub open spec fn parse_header(s: Seq<u8>, pos: int) -> Result<(HeaderView, int), DecodeError> {
    match parse_u16(s, pos) {
        Err(e) => Err(e),
        Ok((major_version, after_major)) => match parse_u16(s, after_major) {
            Err(e) => Err(e),
            Ok((minor_version, after_minor)) => match parse_str(s, after_minor) {
                Err(e) => Err(e),
                Ok((osrm_file, after_file)) => match parse_str(s, after_file) {
                    Err(e) => Err(e),
                    Ok((scenario, after_scenario)) => match parse_u64(s, after_scenario) {
                        Err(e) => Err(e),
                        Ok((number_of_routes, after_count)) => Ok(
                            (
                                HeaderView {
                                    major_version,
                                    minor_version,
                                    osrm_file,
                                    scenario,
                                    number_of_routes,
                                },
                                after_count,
                            ),
                        ),
                    },
                },
            },
        },
    }
}

/// What a reader that stands at `pos` gives when it is asked for `n` routes,
/// one after the other. A route that cannot be read gives its error, and the
/// reader stays where it is.
pub open spec fn parse_routes(s: Seq<u8>, pos: int, n: nat) -> Seq<Result<RouteView, RouteError>>
    decreases n,
{
    if n == 0 {
        Seq::empty()
    } else {
        match parse_route(s, pos) {
            Ok((r, end)) => seq![Ok(r)] + parse_routes(s, end, (n - 1) as nat),
            Err(e) => seq![Err(RouteError::Decode(e))] + parse_routes(s, pos, (n - 1) as nat),
        }
    }
}

/// A reader that is asked for `n` routes gives `n` routes or errors.
pub proof fn lemma_parse_routes_len(s: Seq<u8>, pos: int, n: nat)
    ensures
        parse_routes(s, pos, n).len() == n,
    decreases n,
{
    if n > 0 {
        match parse_route(s, pos) {
            Ok((_, end)) => lemma_parse_routes_len(s, end, (n - 1) as nat),
            Err(_) => lemma_parse_routes_len(s, pos, (n - 1) as nat),
        }
    }
}

/// The names of a header can be written: the number of their bytes fits in
/// 64 bits.
pub open spec fn header_fits(h: HeaderView) -> bool {
    encode_utf8(h.osrm_file).len() <= u64::MAX && encode_utf8(h.scenario).len() <= u64::MAX
}

/// A route can be written: the number of its nodes fits in 64 bits.
pub open spec fn route_fits(r: RouteView) -> bool {
    r.node_ids.len() <= u64::MAX
}

/// The number of bytes that a header takes does not depend on the number of
/// routes that it announces.
pub proof fn lemma_header_len(h: HeaderView, n: u64)
    ensures
        header_bytes(HeaderView { number_of_routes: n, ..h }).len() == header_bytes(h).len(),
        header_bytes(h).len() == 2 + 2 + str_bytes(h.osrm_file).len() + str_bytes(h.scenario).len()
            + 8,
        header_bytes(HeaderView { number_of_routes: n, ..h }) == header_bytes(h).subrange(
            0,
            header_bytes(h).len() - 8,
        ) + u64_bytes(n),
{
    vstd::bytes::lemma_auto_spec_u16_to_from_le_bytes();
    vstd::bytes::lemma_auto_spec_u64_to_from_le_bytes();
    assert(u16_bytes(h.major_version).len() == 2);
    assert(u16_bytes(h.minor_version).len() == 2);
    let front = u16_bytes(h.major_version) + u16_bytes(h.minor_version) + str_bytes(h.osrm_file)
        + str_bytes(h.scenario);
    assert(header_bytes(h).subrange(0, header_bytes(h).len() - 8) =~= front);
}

/// The number of bytes that a route takes.
pub proof fn lemma_route_len(r: RouteView)
    ensures
        route_bytes(r).len() == 4 + 4 + 4 + 4 + 8 + 8 * r.node_ids.len() + 8,
{
    vstd::bytes::lemma_auto_spec_u32_to_from_le_bytes();
    vstd::bytes::lemma_auto_spec_u64_to_from_le_bytes();
    lemma_i64s_bytes(raw_ids(r.node_ids));
    assert(i32_bytes(r.start_coord.raw_lat).len() == 4);
    assert(i32_bytes(r.start_coord.raw_lon).len() == 4);
    assert(i32_bytes(r.end_coord.raw_lat).len() == 4);
    assert(i32_bytes(r.end_coord.raw_lon).len() == 4);
}

/// What was written as a route is read as that route.
#[verifier::rlimit(50)]
pub proof fn lemma_parse_route(s: Seq<u8>, pos: int, r: RouteView)
    requires
        0 <= pos,
        route_fits(r),
        pos + route_bytes(r).len() <= s.len(),
        s.subrange(pos, pos + route_bytes(r).len()) == route_bytes(r),
    ensures
        parse_route(s, pos) == Ok::<(RouteView, int), DecodeError>(
            (r, pos + route_bytes(r).len()),
        ),
{
    lemma_route_len(r);
    vstd::bytes::lemma_auto_spec_u32_to_from_le_bytes();
    vstd::bytes::lemma_auto_spec_u64_to_from_le_bytes();
    let ids = raw_ids(r.node_ids);
    lemma_i64s_bytes(ids);
    let n = r.node_ids.len() as int;
    let whole = route_bytes(r);
    let a = i32_bytes(r.start_coord.raw_lat);
    let b = i32_bytes(r.start_coord.raw_lon);
    let c = i32_bytes(r.end_coord.raw_lat);
    let d = i32_bytes(r.end_coord.raw_lon);
    let list = u64_bytes(n as u64) + i64s_bytes(ids);
    let tail = u64_bytes(r.distance_bits);
    assert(a.len() == 4 && b.len() == 4 && c.len() == 4 && d.len() == 4);
    assert(whole =~= a + b + c + d + list + tail);
    assert(s.subrange(pos, pos + 4) =~= a) by {
        assert(whole.subrange(0, 4) =~= a);
        assert(s.subrange(pos, pos + 4) =~= whole.subrange(0, 4));
    }
    assert(s.subrange(pos + 4, pos + 8) =~= b) by {
        assert(whole.subrange(4, 8) =~= b);
        assert(s.subrange(pos + 4, pos + 8) =~= whole.subrange(4, 8));
    }
    assert(s.subrange(pos + 8, pos + 12) =~= c) by {
        assert(whole.subrange(8, 12) =~= c);
        assert(s.subrange(pos + 8, pos + 12) =~= whole.subrange(8, 12));
    }
    assert(s.subrange(pos + 12, pos + 16) =~= d) by {
        assert(whole.subrange(12, 16) =~= d);
        assert(s.subrange(pos + 12, pos + 16) =~= whole.subrange(12, 16));
    }
    assert(s.subrange(pos + 16, pos + 16 + 8 + 8 * n) =~= list) by {
        assert(whole.subrange(16, 16 + 8 + 8 * n) =~= list);
        assert(s.subrange(pos + 16, pos + 16 + 8 + 8 * n) =~= whole.subrange(16, 16 + 8 + 8 * n));
    }
    assert(s.subrange(pos + 24 + 8 * n, pos + 32 + 8 * n) =~= tail) by {
        assert(whole.subrange(24 + 8 * n, 32 + 8 * n) =~= tail);
        assert(s.subrange(pos + 24 + 8 * n, pos + 32 + 8 * n) =~= whole.subrange(
            24 + 8 * n,
            32 + 8 * n,
        ));
    }
    lemma_parse_i32(s, pos, r.start_coord.raw_lat);
    lemma_parse_i32(s, pos + 4, r.start_coord.raw_lon);
    lemma_parse_i32(s, pos + 8, r.end_coord.raw_lat);
    lemma_parse_i32(s, pos + 12, r.end_coord.raw_lon);
    lemma_parse_i64s(s, pos + 16, ids);
    lemma_parse_u64(s, pos + 24 + 8 * n, r.distance_bits);
    assert(osm_ids(ids) =~= r.node_ids);
}

/// What was written as a header is read as that header, whatever follows it.
#[verifier::rlimit(50)]
pub proof fn lemma_parse_header(s: Seq<u8>, h: HeaderView)
    requires
        header_fits(h),
        header_bytes(h).len() <= s.len(),
        s.subrange(0, header_bytes(h).len() as int) == header_bytes(h),
    ensures
        parse_header(s, 0) == Ok::<(HeaderView, int), DecodeError>(
            (h, header_bytes(h).len() as int),
        ),
{
    lemma_header_len(h, h.number_of_routes);
    vstd::bytes::lemma_auto_spec_u16_to_from_le_bytes();
    vstd::bytes::lemma_auto_spec_u64_to_from_le_bytes();
    let whole = header_bytes(h);
    let a = u16_bytes(h.major_version);
    let b = u16_bytes(h.minor_version);
    let c = str_bytes(h.osrm_file);
    let d = str_bytes(h.scenario);
    let e = u64_bytes(h.number_of_routes);
    assert(a.len() == 2 && b.len() == 2);
    let lc = c.len() as int;
    let ld = d.len() as int;
    assert(s.subrange(0, 2) =~= a) by {
        assert(whole.subrange(0, 2) =~= a);
        assert(s.subrange(0, 2) =~= whole.subrange(0, 2));
    }
    assert(s.subrange(2, 4) =~= b) by {
        assert(whole.subrange(2, 4) =~= b);
        assert(s.subrange(2, 4) =~= whole.subrange(2, 4));
    }
    assert(s.subrange(4, 4 + lc) =~= c) by {
        assert(whole.subrange(4, 4 + lc) =~= c);
        assert(s.subrange(4, 4 + lc) =~= whole.subrange(4, 4 + lc));
    }
    assert(s.subrange(4 + lc, 4 + lc + ld) =~= d) by {
        assert(whole.subrange(4 + lc, 4 + lc + ld) =~= d);
        assert(s.subrange(4 + lc, 4 + lc + ld) =~= whole.subrange(4 + lc, 4 + lc + ld));
    }
    assert(s.subrange(4 + lc + ld, 4 + lc + ld + 8) =~= e) by {
        assert(whole.subrange(4 + lc + ld, 4 + lc + ld + 8) =~= e);
        assert(s.subrange(4 + lc + ld, 4 + lc + ld + 8) =~= whole.subrange(
            4 + lc + ld,
            4 + lc + ld + 8,
        ));
    }
    lemma_parse_u16(s, 0, h.major_version);
    lemma_parse_u16(s, 2, h.minor_version);
    lemma_parse_str(s, 4, h.osrm_file);
    lemma_parse_str(s, 4 + lc, h.scenario);
    lemma_parse_u64(s, 4 + lc + ld, h.number_of_routes);
}

/// The bytes of a list of routes start with the bytes of the first route.
pub proof fn lemma_routes_bytes_front(routes: Seq<RouteView>)
    requires
        routes.len() > 0,
    ensures
        routes_bytes(routes) == route_bytes(routes[0]) + routes_bytes(routes.skip(1)),
    decreases routes.len(),
{
    if routes.len() == 1 {
        assert(routes.drop_last() =~= Seq::<RouteView>::empty());
        assert(routes.skip(1) =~= Seq::<RouteView>::empty());
        assert(routes_bytes(routes) =~= route_bytes(routes[0]) + routes_bytes(routes.skip(1)));
    } else {
        let front = routes.drop_last();
        lemma_routes_bytes_front(front);
        assert(front.skip(1) =~= routes.skip(1).drop_last());
        assert(front[0] == routes[0]);
        assert(routes.skip(1).last() == routes.last());
        assert(routes_bytes(routes) =~= route_bytes(routes[0]) + routes_bytes(routes.skip(1)));
    }
}

/// Routes that were written one after the other are read back as they were.
#[verifier::rlimit(50)]
pub proof fn lemma_parse_routes(s: Seq<u8>, pos: int, routes: Seq<RouteView>)
    requires
        0 <= pos,
        forall|i: int| 0 <= i < routes.len() ==> route_fits(#[trigger] routes[i]),
        pos + routes_bytes(routes).len() <= s.len(),
        s.subrange(pos, pos + routes_bytes(routes).len()) == routes_bytes(routes),
    ensures
        parse_routes(s, pos, routes.len()) == Seq::new(
            routes.len(),
            |i: int| Ok::<RouteView, RouteError>(routes[i]),
        ),
    decreases routes.len(),
{
    let expected = Seq::new(routes.len(), |i: int| Ok::<RouteView, RouteError>(routes[i]));
    if routes.len() == 0 {
        assert(parse_routes(s, pos, 0) =~= expected);
    } else {
        let first = routes[0];
        let rest = routes.skip(1);
        lemma_routes_bytes_front(routes);
        let all = routes_bytes(routes);
        let l = route_bytes(first).len() as int;
        assert(s.subrange(pos, pos + l) =~= route_bytes(first)) by {
            assert(all.subrange(0, l) =~= route_bytes(first));
            assert(s.subrange(pos, pos + l) =~= all.subrange(0, l));
        }
        lemma_parse_route(s, pos, first);
        assert(s.subrange(pos + l, pos + l + routes_bytes(rest).len()) =~= routes_bytes(rest)) by {
            assert(all.subrange(l, all.len() as int) =~= routes_bytes(rest));
            assert(s.subrange(pos + l, pos + l + routes_bytes(rest).len()) =~= all.subrange(
                l,
                all.len() as int,
            ));
        }
        assert forall|i: int| 0 <= i < rest.len() implies route_fits(#[trigger] rest[i]) by {
            assert(rest[i] == routes[i + 1]);
        }
        lemma_parse_routes(s, pos + l, rest);
        assert(parse_routes(s, pos, routes.len()) =~= expected);
    }
}

/// Reading back what was written: a collection that was finished, so that
/// its header announces its routes, gives its header and exactly those
/// routes, in the order in which they were written.
pub proof fn lemma_round_trip(h: HeaderView, routes: Seq<RouteView>)
    requires
        header_fits(h),
        h.number_of_routes == routes.len(),
        forall|i: int| 0 <= i < routes.len() ==> route_fits(#[trigger] routes[i]),
    ensures
        parse_header(collection_bytes(h, routes), 0) == Ok::<(HeaderView, int), DecodeError>(
            (h, header_bytes(h).len() as int),
        ),
        parse_routes(
            collection_bytes(h, routes),
            header_bytes(h).len() as int,
            h.number_of_routes as nat,
        ) == Seq::new(routes.len(), |i: int| Ok::<RouteView, RouteError>(routes[i])),
{
    let s = collection_bytes(h, routes);
    let hl = header_bytes(h).len() as int;
    assert(s.subrange(0, hl) =~= header_bytes(h));
    lemma_parse_header(s, h);
    assert(s.subrange(hl, hl + routes_bytes(routes).len()) =~= routes_bytes(routes));
    lemma_parse_routes(s, hl, routes);
}

/// A collection that was not finished holds no route for a reader, whatever
/// was written to it: its header still announces none.
pub proof fn lemma_unfinished_is_empty(h: HeaderView, routes: Seq<RouteView>)
    requires
        header_fits(h),
        h.number_of_routes == 0,
    ensures
        parse_header(collection_bytes(h, routes), 0) == Ok::<(HeaderView, int), DecodeError>(
            (h, header_bytes(h).len() as int),
        ),
        parse_routes(
            collection_bytes(h, routes),
            header_bytes(h).len() as int,
            h.number_of_routes as nat,
        ) == Seq::<Result<RouteView, RouteError>>::empty(),
{
    let s = collection_bytes(h, routes);
    let hl = header_bytes(h).len() as int;
    assert(s.subrange(0, hl) =~= header_bytes(h));
    lemma_parse_header(s, h);
}

impl LatLon32 {
    /// A position from its latitude and longitude in millionths of a degree.
    pub fn new(raw_lat: i32, raw_lon: i32) -> (p: Self)
        ensures
            p.raw_lat == raw_lat,
            p.raw_lon == raw_lon,
    {
        LatLon32 { raw_lat, raw_lon }
    }

    /// The position as a geographic point.
    pub fn as_point4326(&self) -> (p: GeoPoint)
        ensures
            p.raw_lat == self.raw_lat,
            p.raw_lon == self.raw_lon,
    {
        GeoPoint { raw_lat: self.raw_lat, raw_lon: self.raw_lon }
    }
}

impl View for Route {
    type V = RouteView;

    open spec fn view(&self) -> RouteView {
        RouteView {
            start_coord: self.start_coord,
            end_coord: self.end_coord,
            node_ids: self.node_ids@,
            distance_bits: self.distance_bits,
        }
    }
}

impl Route {
    /// The line that the route follows through `network`: where each of its
    /// nodes lies. There is none where the network does not know one of the
    /// nodes.
    pub fn line(&self, network: &Network) -> (r: Option<Vec<GeoPoint>>)
        requires
            network.wf(),
        ensures
            match (r, path_nodes(network@, self@.node_ids)) {
                (Some(points), Some(at)) => points@ == node_points(network@, at),
                (None, None) => true,
                _ => false,
            },
    {
        let mut points: Vec<GeoPoint> = Vec::new();
        let ghost mut at: Seq<int> = Seq::empty();
        let mut i: usize = 0;
        while i < self.node_ids.len()
            invariant
                network.wf(),
                i <= self.node_ids@.len(),
                path_nodes(network@, self.node_ids@.take(i as int)) == Some(at),
                points@ == node_points(network@, at),
            decreases self.node_ids.len() - i,
        {
            proof {
                assert(self.node_ids@.take(i + 1).drop_last() =~= self.node_ids@.take(i as int));
                assert(self.node_ids@.take(i + 1).last() == self.node_ids@[i as int]);
                crate::network::lemma_last_node(network@.nodes, self.node_ids@[i as int]);
            }
            match network.get_node(self.node_ids[i]) {
                Some(node) => {
                    points.push(node.as_point4326());
                    proof {
                        let k = network@.node_of(self.node_ids@[i as int]).unwrap();
                        at = at.push(k);
                        assert(points@ =~= node_points(network@, at));
                    }
                },
                None => {
                    proof {
                        lemma_path_nodes_prefix(network@, self.node_ids@, i + 1);
                    }
                    return None;
                },
            }
            i += 1;
        }
        proof {
            assert(self.node_ids@.take(i as int) =~= self.node_ids@);
        }
        Some(points)
    }

    /// Writes the route as a GeoJSON collection of one line through the
    /// nodes of the route. `distance` and `distance_bee_line` are written as
    /// they stand, as the properties of these names. There is no line where
    /// the network does not know one of the nodes.
    pub fn write_to_geojson(&self, network: &Network, distance: &str, distance_bee_line: &str) -> (r:
        Option<String>)
        requires
            network.wf(),
        ensures
            match (r, path_nodes(network@, self@.node_ids)) {
                (Some(text), Some(at)) => text@ == route_geojson(
                    node_points(network@, at),
                    distance@,
                    distance_bee_line@,
                ),
                (None, None) => true,
                _ => false,
            },
    {
        let coords = match self.line(network) {
            Some(coords) => coords,
            None => {
                return None;
            },
        };
        let mut writer = GeoJsonWriter::new();
        let mut ls = writer.add_line_string(coords.as_slice());
        ls.add_property("distance", distance);
        ls.add_property("distance_bee_line", distance_bee_line);
        ls.finish();
        let text = writer.finish();
        proof {
            let at = path_nodes(network@, self@.node_ids).unwrap();
            assert(text@ =~= route_geojson(node_points(network@, at), distance@, distance_bee_line@));
        }
        Some(text)
    }

    /// Appends the bytes of the route to `out`.
    pub fn encode(&self, out: &mut Vec<u8>)
        ensures
            final(out)@ == old(out)@ + route_bytes(self@),
            route_fits(self@),
    {
        put_i32(out, self.start_coord.raw_lat);
        put_i32(out, self.start_coord.raw_lon);
        put_i32(out, self.end_coord.raw_lat);
        put_i32(out, self.end_coord.raw_lon);
        put_u64(out, self.node_ids.len() as u64);
        let ghost head = out@;
        let ghost ids = raw_ids(self.node_ids@);
        let mut i: usize = 0;
        while i < self.node_ids.len()
            invariant
                i <= self.node_ids@.len(),
                ids == raw_ids(self.node_ids@),
                out@ == head + i64s_bytes(ids.take(i as int)),
            decreases self.node_ids.len() - i,
        {
            put_i64(out, self.node_ids[i].0);
            proof {
                assert(ids.take(i + 1).drop_last() =~= ids.take(i as int));
                assert(ids.take(i + 1).last() == self.node_ids@[i as int].0);
                assert(out@ =~= head + i64s_bytes(ids.take(i + 1)));
            }
            i += 1;
        }
        proof {
            assert(ids.take(i as int) =~= ids);
        }
        put_u64(out, self.distance_bits);
        assert(out@ =~= old(out)@ + route_bytes(self@));
    }

    /// Reads a route from `bytes` at `pos`; gives the route and where it ends.
    pub fn decode(bytes: &[u8], pos: usize) -> (r: Result<(Route, usize), DecodeError>)
        ensures
            match (r, parse_route(bytes@, pos as int)) {
                (Ok((x, end)), Ok((y, to))) => x@ == y && end == to && end <= bytes@.len(),
                (Err(e), Err(f)) => e == f,
                _ => false,
            },
    {
        let (start_lat, after_start_lat) = match get_i32(bytes, pos) {
            Ok(found) => found,
            Err(e) => {
                return Err(e);
            },
        };
        let (start_lon, after_start_lon) = match get_i32(bytes, after_start_lat) {
            Ok(found) => found,
            Err(e) => {
                return Err(e);
            },
        };
        let (end_lat, after_end_lat) = match get_i32(bytes, after_start_lon) {
            Ok(found) => found,
            Err(e) => {
                return Err(e);
            },
        };
        let (end_lon, after_end_lon) = match get_i32(bytes, after_end_lat) {
            Ok(found) => found,
            Err(e) => {
                return Err(e);
            },
        };
        let (raw, after_ids) = match get_i64s(bytes, after_end_lon) {
            Ok(found) => found,
            Err(e) => {
                return Err(e);
            },
        };
        let (distance_bits, after_distance) = match get_u64(bytes, after_ids) {
            Ok(found) => found,
            Err(e) => {
                return Err(e);
            },
        };
        let mut node_ids: Vec<OsmNodeId> = Vec::new();
        let mut i: usize = 0;
        while i < raw.len()
            invariant
                i <= raw@.len(),
                node_ids@ == osm_ids(raw@.take(i as int)),
            decreases raw.len() - i,
        {
            node_ids.push(OsmNodeId(raw[i]));
            assert(node_ids@ =~= osm_ids(raw@.take(i + 1)));
            i += 1;
        }
        assert(raw@.take(i as int) =~= raw@);
        Ok(
            (
                Route {
                    start_coord: LatLon32 { raw_lat: start_lat, raw_lon: start_lon },
                    end_coord: LatLon32 { raw_lat: end_lat, raw_lon: end_lon },
                    node_ids,
                    distance_bits,
                },
                after_distance,
            ),
        )
    }
}

impl View for RouteCollectionHeader {
    type V = HeaderView;

    closed spec fn view(&self) -> HeaderView {
        HeaderView {
            major_version: self.major_version,
            minor_version: self.minor_version,
            osrm_file: self.osrm_file@,
            scenario: self.scenario@,
            number_of_routes: self.number_of_routes,
        }
    }
}

impl RouteCollectionHeader {
    /// The header of a collection that is about to be written.
    pub fn new(osrm_file: String, scenario: String) -> (h: Self)
        ensures
            h@ == (HeaderView {
                major_version: FORMAT_MAJOR,
                minor_version: FORMAT_MINOR,
                osrm_file: osrm_file@,
                scenario: scenario@,
                number_of_routes: 0,
            }),
    {
        RouteCollectionHeader {
            major_version: FORMAT_MAJOR,
            minor_version: FORMAT_MINOR,
            osrm_file,
            scenario,
            number_of_routes: 0,
        }
    }

    /// The major version of the layout of the collection.
    pub fn major_version(&self) -> (r: u16)
        ensures
            r == self@.major_version,
    {
        self.major_version
    }

    /// The minor version of the layout of the collection.
    pub fn minor_version(&self) -> (r: u16)
        ensures
            r == self@.minor_version,
    {
        self.minor_version
    }

    /// The name of the file that holds the road network.
    pub fn osrm_file(&self) -> (r: &String)
        ensures
            r@ == self@.osrm_file,
    {
        &self.osrm_file
    }

    /// The name of the scenario that the routes were sampled for.
    pub fn scenario(&self) -> (r: &String)
        ensures
            r@ == self@.scenario,
    {
        &self.scenario
    }

    /// The number of routes that the collection holds.
    pub fn number_of_routes(&self) -> (r: u64)
        ensures
            r == self@.number_of_routes,
    {
        self.number_of_routes
    }

    /// Appends the bytes of the header to `out`.
    pub fn encode(&self, out: &mut Vec<u8>)
        ensures
            final(out)@ == old(out)@ + header_bytes(self@),
            header_fits(self@),
    {
        put_u16(out, self.major_version);
        put_u16(out, self.minor_version);
        put_str(out, self.osrm_file.as_str());
        put_str(out, self.scenario.as_str());
        put_u64(out, self.number_of_routes);
        assert(out@ =~= old(out)@ + header_bytes(self@));
    }

    /// Reads a header from the start of `bytes`; gives the header and where
    /// it ends.
    pub fn decode(bytes: &[u8]) -> (r: Result<(RouteCollectionHeader, usize), DecodeError>)
        ensures
            match (r, parse_header(bytes@, 0)) {
                (Ok((x, end)), Ok((y, to))) => x@ == y && end == to && end <= bytes@.len(),
                (Err(e), Err(f)) => e == f,
                _ => false,
            },
    {
        let (major_version, after_major) = match get_u16(bytes, 0) {
            Ok(found) => found,
            Err(e) => {
                return Err(e);
            },
        };
        let (minor_version, after_minor) = match get_u16(bytes, after_major) {
            Ok(found) => found,
            Err(e) => {
                return Err(e);
            },
        };
        let (osrm_file, after_file) = match get_str(bytes, after_minor) {
            Ok(found) => found,
            Err(e) => {
                return Err(e);
            },
        };
        let (scenario, after_scenario) = match get_str(bytes, after_file) {
            Ok(found) => found,
            Err(e) => {
                return Err(e);
            },
        };
        let (number_of_routes, after_count) = match get_u64(bytes, after_scenario) {
            Ok(found) => found,
            Err(e) => {
                return Err(e);
            },
        };
        Ok(
            (
                RouteCollectionHeader {
                    major_version,
                    minor_version,
                    osrm_file,
                    scenario,
                    number_of_routes,
                },
                after_count,
            ),
        )
    }
}

/// Where the network does not know the first few nodes of a path, it does
/// not know the path.
proof fn lemma_path_nodes_prefix(net: NetworkView, ids: Seq<OsmNodeId>, n: int)
    requires
        0 <= n <= ids.len(),
        path_nodes(net, ids.take(n)) is None,
    ensures
        path_nodes(net, ids) is None,
    decreases ids.len(),
{
    if n == ids.len() {
        assert(ids.take(n) =~= ids);
    } else {
        assert(ids.drop_last().take(n) =~= ids.take(n));
        lemma_path_nodes_prefix(net, ids.drop_last(), n);
    }
}

/// The routes of a list with one more route at its end.
proof fn lemma_routes_bytes_push(routes: Seq<RouteView>, r: RouteView)
    ensures
        routes_bytes(routes.push(r)) == routes_bytes(routes) + route_bytes(r),
{
    assert(routes.push(r).drop_last() =~= routes);
}

impl RouteCollectionWriter {
    /// The header as it stands.
    pub closed spec fn header_view(&self) -> HeaderView {
        self.header@
    }

    /// The routes written so far.
    pub closed spec fn written(&self) -> Seq<RouteView> {
        self.written@
    }

    /// The bytes written so far.
    pub closed spec fn image(&self) -> Seq<u8> {
        self.image@
    }

    /// The header counts the routes written so far, and the bytes written so
    /// far are a header that announces no route, followed by those routes.
    pub closed spec fn wf(&self) -> bool {
        &&& self.header@.number_of_routes == self.written@.len()
        &&& header_fits(self.header@)
        &&& forall|i: int| 0 <= i < self.written@.len() ==> route_fits(#[trigger] self.written@[i])
        &&& self.image@ == collection_bytes(
            HeaderView { number_of_routes: 0, ..self.header@ },
            self.written@,
        )
    }

    /// What has been written so far: a header that announces no route, then
    /// the routes written, in the order in which they were written.
    pub proof fn lemma_image(&self)
        requires
            self.wf(),
        ensures
            self.header_view().number_of_routes == self.written().len(),
            self.image() == collection_bytes(
                HeaderView { number_of_routes: 0, ..self.header_view() },
                self.written(),
            ),
    {
    }

    /// Once the collection is finished, a reader finds in it the header
    /// with the number of routes written, and then exactly the routes
    /// written, in the order in which they were written.
    pub proof fn lemma_finished_reads_back(&self)
        requires
            self.wf(),
        ensures
            self.header_view().number_of_routes == self.written().len(),
            parse_header(
                collection_bytes(self.header_view(), self.written()),
                0,
            ) == Ok::<(HeaderView, int), DecodeError>(
                (self.header_view(), header_bytes(self.header_view()).len() as int),
            ),
            parse_routes(
                collection_bytes(self.header_view(), self.written()),
                header_bytes(self.header_view()).len() as int,
                self.header_view().number_of_routes as nat,
            ) == Seq::new(
                self.written().len(),
                |i: int| Ok::<RouteView, RouteError>(self.written()[i]),
            ),
    {
        lemma_round_trip(self.header@, self.written@);
    }

    /// As long as the collection is not finished, a reader finds in it a
    /// header that announces no route, and so no route, whatever was written.
    pub proof fn lemma_unfinished_reads_empty(&self)
        requires
            self.wf(),
        ensures
            parse_header(self.image(), 0) == Ok::<(HeaderView, int), DecodeError>(
                (
                    HeaderView { number_of_routes: 0, ..self.header_view() },
                    header_bytes(self.header_view()).len() as int,
                ),
            ),
            parse_routes(
                self.image(),
                header_bytes(self.header_view()).len() as int,
                0,
            ) == Seq::<Result<RouteView, RouteError>>::empty(),
    {
        let zero = HeaderView { number_of_routes: 0, ..self.header@ };
        lemma_header_len(zero, self.header@.number_of_routes);
        lemma_unfinished_is_empty(zero, self.written@);
    }

    /// Starts a collection: writes a header that announces no route.
    pub fn new(osrm_file: String, scenario: String) -> (w: Self)
        ensures
            w.wf(),
            w.written() == Seq::<RouteView>::empty(),
            w.image() == header_bytes(w.header_view()),
            w.header_view() == (HeaderView {
                major_version: FORMAT_MAJOR,
                minor_version: FORMAT_MINOR,
                osrm_file: osrm_file@,
                scenario: scenario@,
                number_of_routes: 0,
            }),
    {
        let header = RouteCollectionHeader::new(osrm_file, scenario);
        let mut image: Vec<u8> = Vec::new();
        header.encode(&mut image);
        let w = RouteCollectionWriter { image, header, written: Ghost(Seq::empty()) };
        proof {
            assert(w.image@ =~= collection_bytes(w.header@, Seq::empty()));
            assert(w.image@ =~= header_bytes(w.header@));
        }
        w
    }

    /// The header as it stands: it counts the routes written so far.
    pub fn header(&self) -> (h: &RouteCollectionHeader)
        ensures
            h@ == self.header_view(),
    {
        &self.header
    }

    /// The bytes written so far.
    pub fn as_bytes(&self) -> (b: &Vec<u8>)
        ensures
            b@ == self.image(),
    {
        &self.image
    }

    /// Writes one route after those written before, and hands it back.
    pub fn write_route(&mut self, route: Route) -> (r: Result<Route, RouteError>)
        requires
            old(self).wf(),
        ensures
            final(self).wf(),
            match r {
                Ok(back) => {
                    &&& back == route
                    &&& old(self).written().len() < u64::MAX
                    &&& final(self).written() == old(self).written().push(route@)
                    &&& final(self).image() == old(self).image() + route_bytes(route@)
                    &&& final(self).header_view() == (HeaderView {
                        number_of_routes: (old(self).header_view().number_of_routes + 1) as u64,
                        ..old(self).header_view()
                    })
                },
                Err(e) => {
                    &&& e == RouteError::TooManyRoutes
                    &&& old(self).written().len() == u64::MAX
                    &&& final(self).written() == old(self).written()
                    &&& final(self).image() == old(self).image()
                    &&& final(self).header_view() == old(self).header_view()
                },
            },
    {
        if self.header.number_of_routes == u64::MAX {
            return Err(RouteError::TooManyRoutes);
        }
        route.encode(&mut self.image);
        self.header.number_of_routes = self.header.number_of_routes + 1;
        proof {
            lemma_routes_bytes_push(self.written@, route@);
            self.written@ = self.written@.push(route@);
            assert(self.image@ =~= collection_bytes(
                HeaderView { number_of_routes: 0, ..self.header@ },
                self.written@,
            ));
        }
        Ok(route)
    }

    /// Finishes the collection: goes back to its start and writes the header
    /// again, now with the number of routes written. Gives the bytes of the
    /// finished collection.
    pub fn finish(self) -> (bytes: Vec<u8>)
        requires
            self.wf(),
        ensures
            bytes@ == collection_bytes(self.header_view(), self.written()),
    {
        let mut head: Vec<u8> = Vec::new();
        self.header.encode(&mut head);
        let ghost before = self.image@;
        let ghost zero = HeaderView { number_of_routes: 0, ..self.header@ };
        proof {
            lemma_header_len(zero, self.header@.number_of_routes);
            assert(head@ =~= header_bytes(self.header@));
            assert(head@.len() == header_bytes(zero).len());
        }
        let mut image = self.image;
        let mut i: usize = 0;
        while i < head.len()
            invariant
                i <= head@.len(),
                head@.len() <= before.len(),
                image@.len() == before.len(),
                forall|k: int| 0 <= k < i ==> image@[k] == head@[k],
                forall|k: int| i <= k < before.len() ==> image@[k] == before[k],
            decreases head.len() - i,
        {
            image.set(i, head[i]);
            i += 1;
        }
        proof {
            assert(image@ =~= head@ + before.skip(head@.len() as int));
            assert(before.skip(head@.len() as int) =~= routes_bytes(self.written@));
        }
        image
    }
}

impl RouteCollectionReader {
    /// The reader stands inside its bytes and has not given more routes than
    /// the header announces.
    pub closed spec fn wf(&self) -> bool {
        self.pos <= self.bytes@.len() && self.route_index <= self.header@.number_of_routes
    }

    /// The header of the collection.
    pub closed spec fn header_view(&self) -> HeaderView {
        self.header@
    }

    /// What the reader has yet to give, in the order in which it gives it.
    pub closed spec fn pending(&self) -> Seq<Result<RouteView, RouteError>> {
        parse_routes(
            self.bytes@,
            self.pos as int,
            (self.header@.number_of_routes - self.route_index) as nat,
        )
    }

    /// Opens a collection: reads its header. A collection whose major version
    /// is not the one that this library writes is refused.
    pub fn new(bytes: Vec<u8>) -> (r: Result<Self, RouteError>)
        ensures
            match parse_header(bytes@, 0) {
                Err(e) => r == Err::<Self, RouteError>(RouteError::Decode(e)),
                Ok((h, end)) => if h.major_version != FORMAT_MAJOR {
                    r == Err::<Self, RouteError>(RouteError::VersionMismatch)
                } else {
                    match r {
                        Ok(reader) => {
                            &&& reader.wf()
                            &&& reader.header_view() == h
                            &&& reader.pending() == parse_routes(
                                bytes@,
                                end,
                                h.number_of_routes as nat,
                            )
                            &&& reader.pending().len() == h.number_of_routes
                        },
                        Err(_) => false,
                    }
                },
            },
    {
        let (header, pos) = match RouteCollectionHeader::decode(bytes.as_slice()) {
            Ok(found) => found,
            Err(e) => {
                return Err(RouteError::Decode(e));
            },
        };
        if header.major_version != FORMAT_MAJOR {
            return Err(RouteError::VersionMismatch);
        }
        proof {
            lemma_parse_routes_len(bytes@, pos as int, header@.number_of_routes as nat);
        }
        Ok(RouteCollectionReader { bytes, pos, header, route_index: 0 })
    }

    /// The header of the collection.
    pub fn header(&self) -> (h: &RouteCollectionHeader)
        ensures
            h@ == self.header_view(),
    {
        &self.header
    }

    /// Gives the next route, or the reason why it cannot be read; nothing
    /// once the reader has given as many routes as the header announces.
    pub fn next(&mut self) -> (r: Option<Result<Route, RouteError>>)
        requires
            old(self).wf(),
        ensures
            final(self).wf(),
            final(self).header_view() == old(self).header_view(),
            match r {
                None => old(self).pending().len() == 0 && final(self).pending() == old(
                    self,
                ).pending(),
                Some(item) => {
                    &&& old(self).pending().len() > 0
                    &&& final(self).pending() == old(self).pending().skip(1)
                    &&& match (item, old(self).pending()[0]) {
                        (Ok(route), Ok(expected)) => route@ == expected,
                        (Err(e), Err(f)) => e == f,
                        _ => false,
                    }
                },
            },
    {
        if self.route_index >= self.header.number_of_routes {
            return None;
        }
        let ghost n = (self.header@.number_of_routes - self.route_index) as nat;
        let ghost rest = match parse_route(self.bytes@, self.pos as int) {
            Ok((_, end)) => parse_routes(self.bytes@, end, (n - 1) as nat),
            Err(_) => parse_routes(self.bytes@, self.pos as int, (n - 1) as nat),
        };
        proof {
            assert(old(self).pending().skip(1) =~= rest);
        }
        self.route_index = self.route_index + 1;
        match Route::decode(self.bytes.as_slice(), self.pos) {
            Ok((route, end)) => {
                self.pos = end;
                Some(Ok(route))
            },
            Err(e) => Some(Err(RouteError::Decode(e))),
        }
    }
}

} // verus!
