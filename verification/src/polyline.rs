//! The split of a network into polylines: chains of edges that run from one
//! junction or dead end to the next.

use std::collections::HashMap;
use std::collections::HashSet;
use vstd::prelude::*;

use crate::geo::GeoPoint;
use crate::geojson_writer::{
    collection_head, collection_tail, decimal, feature_tail, format_number, line_head, line_tail,
    positions, property, GeoJsonWriter,
};
use crate::network::{FullEdge, Network, OsmNodeId};

verus! {

/// A point of a polyline: a node and where it lies.
#[derive(Copy, Clone, Debug, PartialEq, Eq, Structural)]
pub struct PolyPoint {
    pub id: OsmNodeId,
    pub point: GeoPoint,
}

/// A chain of nodes, each joined to the next by an edge of the network.
pub struct Polyline {
    pub points: Vec<PolyPoint>,
}

/// The polylines of a network, and for each edge the polyline it lies on.
pub struct PolylineCollection {
    pub polylines: Vec<Polyline>,
    /// Which polyline does an edge belong to? From the two ends of the edge,
    /// packed into one key, to the polyline's position in `polylines`.
    membership: HashMap<u128, u32>,
}

/// One end of an edge as seen from the other: the edge leads from `from` to
/// `to`, or from `to` to `from`, and `from` lies at `at`.
pub struct HalfEdge {
    pub from: OsmNodeId,
    pub to: OsmNodeId,
    pub at: GeoPoint,
}

/// Both views of every edge: the edge seen from its first end, then the same
/// edge seen from its second end, then the next edge. Direction plays no part
/// in a polyline, so each edge counts once for each of its ends.
pub open spec fn half_edges(edges: Seq<FullEdge>) -> Seq<HalfEdge> {
    Seq::new(
        2 * edges.len(),
        |k: int|
            if k % 2 == 0 {
                HalfEdge {
                    from: edges[k / 2].a.osm_node_id,
                    to: edges[k / 2].b.osm_node_id,
                    at: edges[k / 2].a.point(),
                }
            } else {
                HalfEdge {
                    from: edges[k / 2].b.osm_node_id,
                    to: edges[k / 2].a.osm_node_id,
                    at: edges[k / 2].b.point(),
                }
            },
    )
}

/// The neighbours of node `id`, one for each end of an edge that lies at
/// `id`, in the order of the edges.
pub open spec fn neighbors(h: Seq<HalfEdge>, id: OsmNodeId) -> Seq<OsmNodeId>
    decreases h.len(),
{
    if h.len() == 0 {
        Seq::empty()
    } else if h.last().from == id {
        neighbors(h.drop_last(), id).push(h.last().to)
    } else {
        neighbors(h.drop_last(), id)
    }
}

/// The number of edge ends at node `id`.
pub open spec fn degree(h: Seq<HalfEdge>, id: OsmNodeId) -> nat {
    neighbors(h, id).len()
}

/// Where node `id` lies: the position that the first edge at `id` gives it.
pub open spec fn first_at(h: Seq<HalfEdge>, id: OsmNodeId) -> Option<GeoPoint>
    decreases h.len(),
{
    if h.len() == 0 {
        None
    } else {
        match first_at(h.drop_last(), id) {
            Some(p) => Some(p),
            None => if h.last().from == id {
                Some(h.last().at)
            } else {
                None
            },
        }
    }
}

/// The number of edges that join `u` and `v`, as seen from `u`: the number
/// of half edges that lead from `u` to `v`. An edge from a node to itself
/// counts twice.
pub open spec fn count_to(h: Seq<HalfEdge>, u: OsmNodeId, v: OsmNodeId) -> nat
    decreases h.len(),
{
    if h.len() == 0 {
        0
    } else if h.last().from == u && h.last().to == v {
        count_to(h.drop_last(), u, v) + 1
    } else {
        count_to(h.drop_last(), u, v)
    }
}

/// An edge joins `u` and `v`.
pub open spec fn linked(h: Seq<HalfEdge>, u: OsmNodeId, v: OsmNodeId) -> bool {
    exists|k: int| 0 <= k < h.len() && (#[trigger] h[k]).from == u && h[k].to == v
}

/// The step of `points` at position `t`: the node there and the node that
/// comes next.
pub open spec fn step(points: Seq<PolyPoint>, t: int) -> (OsmNodeId, OsmNodeId) {
    (points[t].id, points[t + 1].id)
}

/// `points` passes from `a` straight on to `b`.
pub open spec fn has_segment(points: Seq<PolyPoint>, a: OsmNodeId, b: OsmNodeId) -> bool {
    exists|t: int| 0 <= t < points.len() - 1 && #[trigger] step(points, t) == (a, b)
}

/// The edge between `a` and `b` is the edge between `c` and `d`.
pub open spec fn same_edge(a: OsmNodeId, b: OsmNodeId, c: OsmNodeId, d: OsmNodeId) -> bool {
    (a == c && b == d) || (a == d && b == c)
}

/// `p` and `q` pass along the same edge somewhere, in whichever direction.
pub open spec fn shares_edge(p: Seq<PolyPoint>, q: Seq<PolyPoint>) -> bool {
    exists|s: int, t: int|
        #![trigger step(p, s), step(q, t)]
        0 <= s < p.len() - 1 && 0 <= t < q.len() - 1 && same_edge(
            step(p, s).0,
            step(p, s).1,
            step(q, t).0,
            step(q, t).1,
        )
}

/// `points` is a polyline of the network with the half edges `h`.
pub open spec fn is_polyline(h: Seq<HalfEdge>, points: Seq<PolyPoint>) -> bool {
    // It has at least one edge.
    &&& points.len() >= 2
    // Each node lies where the network has it.
    &&& forall|t: int|
        0 <= t < points.len() ==> first_at(h, (#[trigger] points[t]).id) == Some(points[t].point)
    // Each node is joined to the next by an edge.
    &&& forall|t: int|
        0 <= t < points.len() - 1 ==> linked(h, (#[trigger] step(points, t)).0, step(points, t).1)
    // Between its ends it passes only through nodes where two edge ends meet.
    &&& forall|t: int| 0 < t < points.len() - 1 ==> degree(h, (#[trigger] points[t]).id) == 2
    // It passes through no node twice; only its last node may close a loop.
    &&& forall|s: int, t: int|
        0 <= s < t < points.len() - 1 ==> (#[trigger] points[s]).id != (#[trigger] points[t]).id
    // It ends at a junction or at a dead end, unless it is a closed loop: of
    // the nodes that it has passed through, it can only meet its first again.
    &&& (degree(h, points.last().id) != 2 || points.last().id == points[0].id)
    // It starts at a junction or at a dead end, unless it is a closed loop.
    &&& (degree(h, points[0].id) != 2 || points.last().id == points[0].id)
    // It passes along the edge between two nodes twice only where the
    // network has two edges between them.
    &&& forall|s: int, t: int|
        #![trigger step(points, s), step(points, t)]
        0 <= s < t < points.len() - 1 && same_edge(
            step(points, s).0,
            step(points, s).1,
            step(points, t).0,
            step(points, t).1,
        ) ==> count_to(h, step(points, s).0, step(points, s).1) >= 2 && count_to(
            h,
            step(points, t).0,
            step(points, t).1,
        ) >= 2
}

/// A polyline passes through no node twice, but that it may end where it
/// has started.
pub proof fn lemma_node_once(h: Seq<HalfEdge>, points: Seq<PolyPoint>, s: int, t: int)
    requires
        is_polyline(h, points),
        0 <= s < t < points.len(),
        points[s].id == points[t].id,
    ensures
        s == 0,
        t == points.len() - 1,
{
    if t < points.len() - 1 {
        assert(points[s].id != points[t].id);
    } else if s > 0 {
        // a node between the ends is a plain link, so the polyline is closed
        assert(degree(h, points[s].id) == 2);
        assert(points[0].id != points[s].id);
    }
}

/// Two lists of points that pass along the same edge share an edge.
proof fn lemma_shared(p: Seq<PolyPoint>, q: Seq<PolyPoint>, s: int, t: int)
    requires
        0 <= s < p.len() - 1,
        0 <= t < q.len() - 1,
        same_edge(p[s].id, p[s + 1].id, q[t].id, q[t + 1].id) || same_edge(
            q[t].id,
            q[t + 1].id,
            p[s].id,
            p[s + 1].id,
        ),
    ensures
        shares_edge(p, q),
{
    assert(same_edge(step(p, s).0, step(p, s).1, step(q, t).0, step(q, t).1));
}

/// Where the points of a polyline lie.
pub open spec fn point_positions(points: Seq<PolyPoint>) -> Seq<GeoPoint> {
    Seq::new(points.len(), |t: int| points[t].point)
}

/// A polyline as a feature of a GeoJSON collection: a line through its
/// points, with its position in the collection as the property `id`.
pub open spec fn polyline_feature(points: Seq<PolyPoint>, id: nat) -> Seq<char> {
    line_head() + positions(point_positions(points)) + line_tail() + property("id"@, decimal(id))
        + feature_tail()
}

/// The first `n` polylines as features of a GeoJSON collection, with commas
/// between them.
pub open spec fn polyline_features(lines: Seq<Seq<PolyPoint>>, n: nat) -> Seq<char>
    decreases n,
{
    if n == 0 {
        Seq::empty()
    } else if n == 1 {
        polyline_feature(lines[0], 0)
    } else {
        polyline_features(lines, (n - 1) as nat) + ","@ + polyline_feature(
            lines[n - 1],
            (n - 1) as nat,
        )
    }
}

/// The polylines as a GeoJSON collection.
pub open spec fn polylines_geojson(lines: Seq<Seq<PolyPoint>>) -> Seq<char> {
    collection_head() + polyline_features(lines, lines.len()) + collection_tail()
}

/// The key under which the edge from `a` to `b` is filed.
pub open spec fn edge_key(a: OsmNodeId, b: OsmNodeId) -> u128 {
    ((a.0 + 0x8000_0000_0000_0000) * 0x1_0000_0000_0000_0000 + (b.0 + 0x8000_0000_0000_0000)) as u128
}

fn make_edge_key(a: OsmNodeId, b: OsmNodeId) -> (k: u128)
    ensures
        k == edge_key(a, b),
{
    let high: u128 = (a.0 as i128 + 0x8000_0000_0000_0000i128) as u128;
    let low: u128 = (b.0 as i128 + 0x8000_0000_0000_0000i128) as u128;
    high * 0x1_0000_0000_0000_0000u128 + low
}

proof fn lemma_edge_key_injective(a: OsmNodeId, b: OsmNodeId, c: OsmNodeId, d: OsmNodeId)
    requires
        edge_key(a, b) == edge_key(c, d),
    ensures
        a == c,
        b == d,
{
}

proof fn lemma_neighbors_linked(h: Seq<HalfEdge>, id: OsmNodeId, j: int)
    requires
        0 <= j < neighbors(h, id).len(),
    ensures
        linked(h, id, neighbors(h, id)[j]),
    decreases h.len(),
{
    let front = h.drop_last();
    if h.last().from == id && j == neighbors(front, id).len() {
        assert(h[h.len() - 1].from == id && h[h.len() - 1].to == neighbors(h, id)[j]);
    } else {
        lemma_neighbors_linked(front, id, j);
        let k = choose|k: int|
            0 <= k < front.len() && (#[trigger] front[k]).from == id && front[k].to == neighbors(
                front,
                id,
            )[j];
        assert(h[k] == front[k]);
    }
}

proof fn lemma_first_at_some(h: Seq<HalfEdge>, k: int)
    requires
        0 <= k < h.len(),
    ensures
        first_at(h, h[k].from) is Some,
    decreases h.len(),
{
    if k < h.len() - 1 {
        let front = h.drop_last();
        assert(front[k] == h[k]);
        lemma_first_at_some(front, k);
    }
}

proof fn lemma_first_at_neighbors(h: Seq<HalfEdge>, id: OsmNodeId)
    ensures
        first_at(h, id) is Some <==> neighbors(h, id).len() > 0,
    decreases h.len(),
{
    if h.len() > 0 {
        lemma_first_at_neighbors(h.drop_last(), id);
    }
}

/// In the half edges of a list of edges, an edge that joins `u` to `v`
/// also joins `v` to `u`.
pub proof fn lemma_linked_symmetric(edges: Seq<FullEdge>, u: OsmNodeId, v: OsmNodeId)
    requires
        linked(half_edges(edges), u, v),
    ensures
        linked(half_edges(edges), v, u),
{
    let h = half_edges(edges);
    let k = choose|k: int| 0 <= k < h.len() && (#[trigger] h[k]).from == u && h[k].to == v;
    if k % 2 == 0 {
        assert(h[k + 1].from == v && h[k + 1].to == u);
    } else {
        assert(h[k - 1].from == v && h[k - 1].to == u);
    }
}

proof fn lemma_linked_neighbors(h: Seq<HalfEdge>, k: int)
    requires
        0 <= k < h.len(),
    ensures
        exists|j: int|
            0 <= j < neighbors(h, h[k].from).len() && #[trigger] neighbors(h, h[k].from)[j]
                == h[k].to,
    decreases h.len(),
{
    let id = h[k].from;
    let front = h.drop_last();
    if k == h.len() - 1 {
        let j = neighbors(front, id).len() as int;
        assert(neighbors(h, id)[j] == h[k].to);
    } else {
        assert(front[k] == h[k]);
        lemma_linked_neighbors(front, k);
        let j = choose|j: int|
            0 <= j < neighbors(front, id).len() && #[trigger] neighbors(front, id)[j] == h[k].to;
        assert(neighbors(h, id)[j] == h[k].to);
    }
}

/// The number of times that `v` comes in `s`.
spec fn occurrences(s: Seq<OsmNodeId>, v: OsmNodeId) -> nat
    decreases s.len(),
{
    if s.len() == 0 {
        0
    } else if s.last() == v {
        occurrences(s.drop_last(), v) + 1
    } else {
        occurrences(s.drop_last(), v)
    }
}

proof fn lemma_occurrences_neighbors(h: Seq<HalfEdge>, u: OsmNodeId, v: OsmNodeId)
    ensures
        occurrences(neighbors(h, u), v) == count_to(h, u, v),
    decreases h.len(),
{
    if h.len() > 0 {
        let front = h.drop_last();
        lemma_occurrences_neighbors(front, u, v);
        if h.last().from == u {
            assert(neighbors(h, u).drop_last() =~= neighbors(front, u));
        }
    }
}

proof fn lemma_occurrences_pair(s: Seq<OsmNodeId>, v: OsmNodeId)
    requires
        s.len() == 2,
    ensures
        occurrences(s, v) == (if s[0] == v {
            1nat
        } else {
            0nat
        }) + (if s[1] == v {
            1nat
        } else {
            0nat
        }),
{
    reveal_with_fuel(occurrences, 3);
    let one = s.drop_last();
    assert(one.len() == 1);
    assert(one.last() == s[0]);
    assert(s.last() == s[1]);
    assert(occurrences(one.drop_last(), v) == 0);
}

/// As many half edges lead from `u` to `v` as lead back, and the half edges
/// that lead from a node to itself come in pairs.
proof fn lemma_count_symmetric(edges: Seq<FullEdge>, u: OsmNodeId, v: OsmNodeId)
    ensures
        count_to(half_edges(edges), u, v) == count_to(half_edges(edges), v, u),
        count_to(half_edges(edges), u, u) % 2 == 0,
    decreases edges.len(),
{
    reveal_with_fuel(count_to, 3);
    let h = half_edges(edges);
    if edges.len() > 0 {
        let fewer = edges.drop_last();
        lemma_count_symmetric(fewer, u, v);
        let h1 = h.drop_last();
        let h0 = h1.drop_last();
        assert(h0 =~= half_edges(fewer));
        let e = edges.last();
        let n = edges.len() as int;
        assert(h.last() == h[2 * n - 1]);
        assert(h1.last() == h[2 * n - 2]);
        assert(h.last().from == e.b.osm_node_id && h.last().to == e.a.osm_node_id);
        assert(h1.last().from == e.a.osm_node_id && h1.last().to == e.b.osm_node_id);
    }
}

proof fn lemma_linked_count(h: Seq<HalfEdge>, u: OsmNodeId, v: OsmNodeId)
    requires
        linked(h, u, v),
    ensures
        count_to(h, u, v) >= 1,
    decreases h.len(),
{
    let k = choose|k: int| 0 <= k < h.len() && (#[trigger] h[k]).from == u && h[k].to == v;
    if k < h.len() - 1 {
        let front = h.drop_last();
        assert(front[k] == h[k]);
        lemma_linked_count(front, u, v);
    }
}

/// Where both edges at a plain link `y` lead to `z`, both edges at the plain
/// link `z` lead to `y`.
proof fn lemma_double_link(edges: Seq<FullEdge>, y: OsmNodeId, z: OsmNodeId)
    requires
        degree(half_edges(edges), y) == 2,
        degree(half_edges(edges), z) == 2,
        neighbors(half_edges(edges), y)[0] == z,
        neighbors(half_edges(edges), y)[1] == z,
    ensures
        neighbors(half_edges(edges), z)[0] == y,
        neighbors(half_edges(edges), z)[1] == y,
{
    let h = half_edges(edges);
    lemma_occurrences_pair(neighbors(h, y), z);
    lemma_occurrences_neighbors(h, y, z);
    lemma_count_symmetric(edges, y, z);
    lemma_occurrences_neighbors(h, z, y);
    lemma_occurrences_pair(neighbors(h, z), y);
}

/// Where an edge leads from a plain link back to itself, both edges at the
/// node do.
proof fn lemma_self_link(edges: Seq<FullEdge>, u: OsmNodeId)
    requires
        degree(half_edges(edges), u) == 2,
        linked(half_edges(edges), u, u),
    ensures
        neighbors(half_edges(edges), u)[0] == u,
        neighbors(half_edges(edges), u)[1] == u,
{
    let h = half_edges(edges);
    lemma_linked_count(h, u, u);
    lemma_count_symmetric(edges, u, u);
    lemma_occurrences_neighbors(h, u, u);
    lemma_occurrences_pair(neighbors(h, u), u);
}

/// For each node at the end of an edge: where it lies, and its neighbours.
struct Adjacency {
    ids: Vec<OsmNodeId>,
    points: Vec<GeoPoint>,
    nbrs: Vec<Vec<OsmNodeId>>,
    /// From a node's identifier to its position in the three lists.
    pos: HashMap<i64, usize>,
}

impl Adjacency {
    /// The lists hold what the half edges `h` say of each node.
    spec fn wf(&self, h: Seq<HalfEdge>) -> bool {
        &&& self.ids@.len() == self.points@.len()
        &&& self.ids@.len() == self.nbrs@.len()
        &&& forall|k: int|
            0 <= k < self.ids@.len() ==> self.pos@.contains_key((#[trigger] self.ids@[k]).0)
                && self.pos@[self.ids@[k].0] == k
        &&& forall|id: i64|
            match #[trigger] first_at(h, OsmNodeId(id)) {
                Some(p) => {
                    &&& self.pos@.contains_key(id)
                    &&& self.pos@[id] < self.ids@.len()
                    &&& self.ids@[self.pos@[id] as int] == OsmNodeId(id)
                    &&& self.points@[self.pos@[id] as int] == p
                    &&& self.nbrs@[self.pos@[id] as int]@ == neighbors(h, OsmNodeId(id))
                },
                None => !self.pos@.contains_key(id),
            }
    }

    /// Every neighbour of a node is itself a node of the lists.
    spec fn closed(&self) -> bool {
        forall|k: int, j: int|
            0 <= k < self.nbrs@.len() && 0 <= j < self.nbrs@[k]@.len() ==> self.pos@.contains_key(
                (#[trigger] self.nbrs@[k]@[j]).0,
            )
    }

    /// What the lists hold of the node at position `k`.
    proof fn lemma_node(&self, h: Seq<HalfEdge>, k: int)
        requires
            self.wf(h),
            0 <= k < self.ids@.len(),
        ensures
            self.pos@.contains_key(self.ids@[k].0),
            self.pos@[self.ids@[k].0] == k,
            self.nbrs@[k]@ == neighbors(h, self.ids@[k]),
            first_at(h, self.ids@[k]) == Some(self.points@[k]),
            degree(h, self.ids@[k]) == self.nbrs@[k]@.len(),
    {
        let id = self.ids@[k];
        assert(id == OsmNodeId(id.0));
        assert(self.pos@.contains_key(id.0));
        let probe = first_at(h, OsmNodeId(id.0));
    }

    /// Where the edges at every node of the lists are filed, the edges at
    /// every node are: a node that is not in the lists has no edges.
    proof fn lemma_all_covered(&self, m: Map<u128, u32>, h: Seq<HalfEdge>)
        requires
            self.wf(h),
            forall|i: int| 0 <= i < self.ids@.len() ==> node_covered(m, h, #[trigger] self.ids@[i]),
        ensures
            forall|id: OsmNodeId| #[trigger] node_covered(m, h, id),
    {
        assert forall|id: OsmNodeId| #[trigger] node_covered(m, h, id) by {
            assert(id == OsmNodeId(id.0));
            lemma_first_at_neighbors(h, id);
            if first_at(h, OsmNodeId(id.0)) is Some {
                let i = self.pos@[id.0] as int;
                assert(self.ids@[i] == id);
            }
        }
    }

    /// Takes note of one half edge.
    #[verifier::rlimit(50)]
    fn touch(&mut self, Ghost(h): Ghost<Seq<HalfEdge>>, id: OsmNodeId, point: GeoPoint, other: OsmNodeId)
        requires
            old(self).wf(h),
        ensures
            final(self).wf(h.push(HalfEdge { from: id, to: other, at: point })),
    {
        let ghost h2 = h.push(HalfEdge { from: id, to: other, at: point });
        proof {
            assert(h2.drop_last() == h);
            assert(id == OsmNodeId(id.0));
            lemma_first_at_neighbors(h, id);
        }
        let at: Option<usize> = match self.pos.get(&id.0) {
            Some(k) => Some(*k),
            None => None,
        };
        match at {
            Some(k) => {
                assert(first_at(h, OsmNodeId(id.0)) is Some);
                self.nbrs[k].push(other);
                proof {
                    assert forall|x: i64|
                        match #[trigger] first_at(h2, OsmNodeId(x)) {
                            Some(p) => {
                                &&& self.pos@.contains_key(x)
                                &&& self.pos@[x] < self.ids@.len()
                                &&& self.ids@[self.pos@[x] as int] == OsmNodeId(x)
                                &&& self.points@[self.pos@[x] as int] == p
                                &&& self.nbrs@[self.pos@[x] as int]@ == neighbors(h2, OsmNodeId(x))
                            },
                            None => !self.pos@.contains_key(x),
                        } by {
                        assert(first_at(h2, OsmNodeId(x)) == match first_at(h, OsmNodeId(x)) {
                            Some(p) => Some(p),
                            None => if id == OsmNodeId(x) {
                                Some(point)
                            } else {
                                None
                            },
                        });
                        if x != id.0 {
                            assert(neighbors(h2, OsmNodeId(x)) == neighbors(h, OsmNodeId(x)));
                            if first_at(h, OsmNodeId(x)) is Some {
                                assert(self.pos@[x] != k);
                            }
                        }
                    }
                }
            },
            None => {
                assert(first_at(h, OsmNodeId(id.0)) is None);
                let k: usize = self.ids.len();
                self.ids.push(id);
                self.points.push(point);
                let mut list: Vec<OsmNodeId> = Vec::new();
                list.push(other);
                self.nbrs.push(list);
                self.pos.insert(id.0, k);
                proof {
                    assert(neighbors(h, id) =~= Seq::<OsmNodeId>::empty());
                    assert(list@ =~= neighbors(h2, id));
                    assert forall|x: i64|
                        match #[trigger] first_at(h2, OsmNodeId(x)) {
                            Some(p) => {
                                &&& self.pos@.contains_key(x)
                                &&& self.pos@[x] < self.ids@.len()
                                &&& self.ids@[self.pos@[x] as int] == OsmNodeId(x)
                                &&& self.points@[self.pos@[x] as int] == p
                                &&& self.nbrs@[self.pos@[x] as int]@ == neighbors(h2, OsmNodeId(x))
                            },
                            None => !self.pos@.contains_key(x),
                        } by {
                        assert(first_at(h2, OsmNodeId(x)) == match first_at(h, OsmNodeId(x)) {
                            Some(p) => Some(p),
                            None => if id == OsmNodeId(x) {
                                Some(point)
                            } else {
                                None
                            },
                        });
                        if x != id.0 {
                            assert(neighbors(h2, OsmNodeId(x)) == neighbors(h, OsmNodeId(x)));
                        }
                    }
                    assert forall|i: int| 0 <= i < self.ids@.len() implies self.pos@.contains_key(
                        (#[trigger] self.ids@[i]).0,
                    ) && self.pos@[self.ids@[i].0] == i by {
                        if i < k {
                            assert(self.ids@[i] == old(self).ids@[i]);
                            assert(old(self).pos@.contains_key(old(self).ids@[i].0));
                        }
                    }
                }
            },
        }
    }

    /// Gathers the neighbours of every node from the edges of a network.
    #[verifier::rlimit(50)]
    fn build(edges: &Vec<FullEdge>) -> (adj: Adjacency)
        ensures
            adj.wf(half_edges(edges@)),
            adj.closed(),
    {
        let ghost h = half_edges(edges@);
        let mut adj = Adjacency {
            ids: Vec::new(),
            points: Vec::new(),
            nbrs: Vec::new(),
            pos: HashMap::new(),
        };
        let mut i: usize = 0;
        while i < edges.len()
            invariant
                i <= edges@.len(),
                h == half_edges(edges@),
                adj.wf(h.take(2 * i)),
            decreases edges.len() - i,
        {
            let e = edges[i];
            let ghost h0 = h.take(2 * i);
            adj.touch(Ghost(h0), e.a.osm_node_id, e.a.as_point4326(), e.b.osm_node_id);
            proof {
                assert(h.take(2 * i + 1) =~= h0.push(h[2 * i]));
            }
            let ghost h1 = h.take(2 * i + 1);
            adj.touch(Ghost(h1), e.b.osm_node_id, e.b.as_point4326(), e.a.osm_node_id);
            proof {
                assert(h.take(2 * i + 2) =~= h1.push(h[2 * i + 1]));
            }
            i += 1;
        }
        proof {
            assert(h.take(2 * i) =~= h);
            assert forall|k: int, j: int|
                0 <= k < adj.nbrs@.len() && 0 <= j < adj.nbrs@[k]@.len() implies adj.pos@.contains_key(
                (#[trigger] adj.nbrs@[k]@[j]).0,
            ) by {
                let id = adj.ids@[k];
                assert(adj.pos@.contains_key(id.0));
                assert(id == OsmNodeId(id.0));
                let probe = first_at(h, OsmNodeId(id.0));
                assert(adj.nbrs@[k]@ == neighbors(h, id));
                lemma_neighbors_linked(h, id, j);
                let n = adj.nbrs@[k]@[j];
                lemma_linked_symmetric(edges@, id, n);
                let t = choose|t: int| 0 <= t < h.len() && (#[trigger] h[t]).from == n && h[t].to == id;
                lemma_first_at_some(h, t);
                assert(n == OsmNodeId(n.0));
                assert(first_at(h, OsmNodeId(n.0)) is Some);
            }
        }
        adj
    }
}

/// `points` passes from one end of the edge filed under `key` straight on
/// to the other.
spec fn filed(points: Seq<PolyPoint>, key: u128) -> bool {
    exists|t: int|
        0 <= t < points.len() - 1 && edge_key((#[trigger] step(points, t)).0, step(points, t).1) == key
}

proof fn lemma_filed_push(points: Seq<PolyPoint>, p: PolyPoint, key: u128)
    requires
        filed(points, key),
    ensures
        filed(points.push(p), key),
{
    let t = choose|t: int|
        0 <= t < points.len() - 1 && edge_key((#[trigger] step(points, t)).0, step(points, t).1) == key;
    let longer = points.push(p);
    assert(longer[t] == points[t]);
    assert(longer[t + 1] == points[t + 1]);
    assert(step(longer, t) == step(points, t));
}

proof fn lemma_filed_segment(points: Seq<PolyPoint>, a: OsmNodeId, b: OsmNodeId)
    requires
        filed(points, edge_key(a, b)),
    ensures
        has_segment(points, a, b),
{
    let t = choose|t: int|
        0 <= t < points.len() - 1 && edge_key((#[trigger] step(points, t)).0, step(points, t).1)
            == edge_key(a, b);
    lemma_edge_key_injective(points[t].id, points[t + 1].id, a, b);
    assert(step(points, t) == (a, b));
}

/// The edge between `u` and `v` is filed in `m`, one way or the other.
spec fn covered(m: Map<u128, u32>, u: OsmNodeId, v: OsmNodeId) -> bool {
    m.contains_key(edge_key(u, v)) || m.contains_key(edge_key(v, u))
}

/// The edges between node `id` and all of its neighbours are filed in `m`.
spec fn node_covered(m: Map<u128, u32>, h: Seq<HalfEdge>, id: OsmNodeId) -> bool {
    forall|j: int| 0 <= j < neighbors(h, id).len() ==> covered(m, id, #[trigger] neighbors(h, id)[j])
}

/// Every edge that `points` passes along is filed in `m`, the way `points`
/// passes along it.
spec fn filed_all(m: Map<u128, u32>, points: Seq<PolyPoint>) -> bool {
    forall|t: int|
        0 <= t < points.len() - 1 ==> m.contains_key(
            edge_key((#[trigger] step(points, t)).0, step(points, t).1),
        )
}

/// At every node that `points` passes through between its ends, all edges
/// are filed in `m`.
spec fn interior_covered(m: Map<u128, u32>, h: Seq<HalfEdge>, points: Seq<PolyPoint>) -> bool {
    forall|t: int| 0 < t < points.len() - 1 ==> node_covered(m, h, (#[trigger] points[t]).id)
}

/// Where `points` starts at a plain link in a chain, all edges at that node
/// are filed in `m`; unless the node is `excl`, the node from which polylines
/// are being started right now.
spec fn start_covered(
    m: Map<u128, u32>,
    h: Seq<HalfEdge>,
    points: Seq<PolyPoint>,
    excl: Option<OsmNodeId>,
) -> bool {
    degree(h, points[0].id) == 2 && Some(points[0].id) != excl ==> node_covered(
        m,
        h,
        points[0].id,
    )
}

/// What holds of each polyline while the collection is being built.
#[verifier::opaque]
spec fn line_ok(
    m: Map<u128, u32>,
    h: Seq<HalfEdge>,
    points: Seq<PolyPoint>,
    excl: Option<OsmNodeId>,
) -> bool {
    &&& is_polyline(h, points)
    &&& filed_all(m, points)
    &&& interior_covered(m, h, points)
    &&& start_covered(m, h, points, excl)
}

/// The state between two polylines, while the collection is being built.
#[verifier::opaque]
spec fn state_inv(
    m: Map<u128, u32>,
    lines: Seq<Seq<PolyPoint>>,
    h: Seq<HalfEdge>,
    excl: Option<OsmNodeId>,
) -> bool {
    &&& forall|key: u128| #[trigger] m.contains_key(key) ==> m[key] < lines.len() && filed(
        lines[m[key] as int],
        key,
    )
    &&& forall|i: int| 0 <= i < lines.len() ==> line_ok(m, h, #[trigger] lines[i], excl)
    &&& forall|i: int, j: int|
        0 <= i < j < lines.len() ==> !shares_edge(#[trigger] lines[i], #[trigger] lines[j])
    &&& 2 * lines.len() <= covered_count(m, h)
}

/// One map files all that another files.
spec fn grown(before: Map<u128, u32>, after: Map<u128, u32>) -> bool {
    forall|key: u128| #[trigger] before.contains_key(key) ==> after.contains_key(key)
}

proof fn lemma_node_covered_kept(
    before: Map<u128, u32>,
    after: Map<u128, u32>,
    h: Seq<HalfEdge>,
    id: OsmNodeId,
)
    requires
        grown(before, after),
        node_covered(before, h, id),
    ensures
        node_covered(after, h, id),
{
    assert forall|j: int| 0 <= j < neighbors(h, id).len() implies covered(
        after,
        id,
        #[trigger] neighbors(h, id)[j],
    ) by {
        assert(covered(before, id, neighbors(h, id)[j]));
    }
}

proof fn lemma_line_ok_kept(
    before: Map<u128, u32>,
    after: Map<u128, u32>,
    h: Seq<HalfEdge>,
    points: Seq<PolyPoint>,
    excl: Option<OsmNodeId>,
)
    requires
        grown(before, after),
        line_ok(before, h, points, excl),
    ensures
        line_ok(after, h, points, excl),
{
    reveal(line_ok);
    assert forall|t: int| 0 < t < points.len() - 1 implies node_covered(
        after,
        h,
        (#[trigger] points[t]).id,
    ) by {
        lemma_node_covered_kept(before, after, h, points[t].id);
    }
    if degree(h, points[0].id) == 2 && Some(points[0].id) != excl {
        lemma_node_covered_kept(before, after, h, points[0].id);
    }
}

proof fn lemma_line_filed(
    m: Map<u128, u32>,
    h: Seq<HalfEdge>,
    points: Seq<PolyPoint>,
    excl: Option<OsmNodeId>,
)
    requires
        line_ok(m, h, points, excl),
    ensures
        filed_all(m, points),
{
    reveal(line_ok);
}

/// While polylines are started from one node, the state holds with that
/// node set apart; once all edges at the node are filed, or where the node is
/// no plain link in a chain, it holds without.
proof fn lemma_state_settled(
    m: Map<u128, u32>,
    lines: Seq<Seq<PolyPoint>>,
    h: Seq<HalfEdge>,
    start: OsmNodeId,
)
    requires
        state_inv(m, lines, h, Some(start)),
        degree(h, start) != 2 || node_covered(m, h, start),
    ensures
        state_inv(m, lines, h, None),
{
    reveal(line_ok);
    reveal(state_inv);
    assert forall|i: int| 0 <= i < lines.len() implies line_ok(m, h, #[trigger] lines[i], None) by {
        assert(line_ok(m, h, lines[i], Some(start)));
    }
}

proof fn lemma_state_set_apart(
    m: Map<u128, u32>,
    lines: Seq<Seq<PolyPoint>>,
    h: Seq<HalfEdge>,
    start: OsmNodeId,
)
    requires
        state_inv(m, lines, h, None),
    ensures
        state_inv(m, lines, h, Some(start)),
{
    reveal(line_ok);
    reveal(state_inv);
    assert forall|i: int| 0 <= i < lines.len() implies line_ok(
        m,
        h,
        #[trigger] lines[i],
        Some(start),
    ) by {
        assert(line_ok(m, h, lines[i], None));
    }
}

/// At a plain link in a chain that a polyline touches, all edges are filed.
proof fn lemma_occurrence_covered(
    m: Map<u128, u32>,
    h: Seq<HalfEdge>,
    points: Seq<PolyPoint>,
    excl: Option<OsmNodeId>,
    u: int,
)
    requires
        line_ok(m, h, points, excl),
        0 <= u < points.len(),
        degree(h, points[u].id) == 2,
        Some(points[u].id) != excl,
    ensures
        node_covered(m, h, points[u].id),
{
    reveal(line_ok);
    if u == 0 {
    } else if u < points.len() - 1 {
    } else {
        assert(points[0].id == points[u].id);
    }
}

/// A walk that has come to a plain link `c` along an edge that was not filed
/// goes on along an edge that was not filed either.
#[verifier::rlimit(50)]
proof fn lemma_fresh_step(
    m: Map<u128, u32>,
    lines: Seq<Seq<PolyPoint>>,
    h: Seq<HalfEdge>,
    excl: Option<OsmNodeId>,
    prev: OsmNodeId,
    c: OsmNodeId,
    next: OsmNodeId,
)
    requires
        state_inv(m, lines, h, excl),
        degree(h, c) == 2,
        Some(c) != excl,
        exists|j: int| 0 <= j < neighbors(h, c).len() && #[trigger] neighbors(h, c)[j] == prev,
        !covered(m, prev, c),
    ensures
        !covered(m, c, next),
{
    reveal(state_inv);
    if covered(m, c, next) {
        let key = if m.contains_key(edge_key(c, next)) {
            edge_key(c, next)
        } else {
            edge_key(next, c)
        };
        assert(m.contains_key(key));
        let i = m[key] as int;
        let points = lines[i];
        assert(filed(points, key));
        let t = choose|t: int|
            0 <= t < points.len() - 1 && edge_key((#[trigger] step(points, t)).0, step(points, t).1)
                == key;
        if key == edge_key(c, next) {
            lemma_edge_key_injective(points[t].id, points[t + 1].id, c, next);
        } else {
            lemma_edge_key_injective(points[t].id, points[t + 1].id, next, c);
        }
        let u = if points[t].id == c {
            t
        } else {
            t + 1
        };
        assert(points[u].id == c);
        assert(line_ok(m, h, points, excl));
        lemma_occurrence_covered(m, h, points, excl, u);
        let j = choose|j: int| 0 <= j < neighbors(h, c).len() && #[trigger] neighbors(h, c)[j] == prev;
        assert(covered(m, c, neighbors(h, c)[j]));
    }
}

/// One end of an edge is a neighbour of the other.
proof fn lemma_neighbor_back(edges: Seq<FullEdge>, u: OsmNodeId, v: OsmNodeId)
    requires
        linked(half_edges(edges), u, v),
    ensures
        exists|j: int|
            0 <= j < neighbors(half_edges(edges), v).len() && #[trigger] neighbors(
                half_edges(edges),
                v,
            )[j] == u,
{
    let h = half_edges(edges);
    lemma_linked_symmetric(edges, u, v);
    let k = choose|k: int| 0 <= k < h.len() && (#[trigger] h[k]).from == v && h[k].to == u;
    lemma_linked_neighbors(h, k);
}

/// The number of half edges whose edge is filed in `m`.
spec fn covered_count(m: Map<u128, u32>, h: Seq<HalfEdge>) -> nat
    decreases h.len(),
{
    if h.len() == 0 {
        0
    } else if covered(m, h.last().from, h.last().to) {
        covered_count(m, h.drop_last()) + 1
    } else {
        covered_count(m, h.drop_last())
    }
}

proof fn lemma_covered_count_grows(before: Map<u128, u32>, after: Map<u128, u32>, h: Seq<HalfEdge>)
    requires
        grown(before, after),
    ensures
        covered_count(before, h) <= covered_count(after, h) <= h.len(),
    decreases h.len(),
{
    if h.len() > 0 {
        lemma_covered_count_grows(before, after, h.drop_last());
    }
}

/// Where one more half edge is filed, the count goes up by one at least.
proof fn lemma_covered_count_one(
    before: Map<u128, u32>,
    after: Map<u128, u32>,
    h: Seq<HalfEdge>,
    k: int,
)
    requires
        grown(before, after),
        0 <= k < h.len(),
        !covered(before, h[k].from, h[k].to),
        covered(after, h[k].from, h[k].to),
    ensures
        covered_count(before, h) + 1 <= covered_count(after, h),
        covered_count(before, h) + 1 <= h.len(),
    decreases h.len(),
{
    let front = h.drop_last();
    if k == h.len() - 1 {
        lemma_covered_count_grows(before, after, front);
    } else {
        assert(front[k] == h[k]);
        lemma_covered_count_one(before, after, front, k);
    }
}

/// Where two more half edges are filed, the count goes up by two at least.
proof fn lemma_covered_count_two(
    before: Map<u128, u32>,
    after: Map<u128, u32>,
    h: Seq<HalfEdge>,
    k: int,
    l: int,
)
    requires
        grown(before, after),
        0 <= k < l < h.len(),
        !covered(before, h[k].from, h[k].to),
        covered(after, h[k].from, h[k].to),
        !covered(before, h[l].from, h[l].to),
        covered(after, h[l].from, h[l].to),
    ensures
        covered_count(before, h) + 2 <= covered_count(after, h),
        covered_count(before, h) + 2 <= h.len(),
    decreases h.len(),
{
    let front = h.drop_last();
    assert(front[k] == h[k]);
    if l == h.len() - 1 {
        lemma_covered_count_one(before, after, front, k);
    } else {
        assert(front[l] == h[l]);
        lemma_covered_count_two(before, after, front, k, l);
    }
}

/// An edge that is newly filed makes for two newly filed half edges.
proof fn lemma_covered_count_edge(
    before: Map<u128, u32>,
    after: Map<u128, u32>,
    edges: Seq<FullEdge>,
    u: OsmNodeId,
    v: OsmNodeId,
)
    requires
        grown(before, after),
        linked(half_edges(edges), u, v),
        !covered(before, u, v),
        covered(after, u, v),
    ensures
        covered_count(before, half_edges(edges)) + 2 <= covered_count(after, half_edges(edges)),
        covered_count(before, half_edges(edges)) + 2 <= 2 * edges.len(),
{
    let h = half_edges(edges);
    let k = choose|k: int| 0 <= k < h.len() && (#[trigger] h[k]).from == u && h[k].to == v;
    if k % 2 == 0 {
        assert(h[k + 1].from == v && h[k + 1].to == u);
        lemma_covered_count_two(before, after, h, k, k + 1);
    } else {
        assert(h[k - 1].from == v && h[k - 1].to == u);
        lemma_covered_count_two(before, after, h, k - 1, k);
    }
}

/// At every node that is no plain link in a chain, all edges are filed in
/// `m`.
spec fn junctions_covered(m: Map<u128, u32>, h: Seq<HalfEdge>) -> bool {
    forall|id: OsmNodeId| degree(h, id) != 2 ==> #[trigger] node_covered(m, h, id)
}

proof fn lemma_junctions_covered_kept(
    before: Map<u128, u32>,
    after: Map<u128, u32>,
    h: Seq<HalfEdge>,
)
    requires
        grown(before, after),
        junctions_covered(before, h),
    ensures
        junctions_covered(after, h),
{
    assert forall|id: OsmNodeId| degree(h, id) != 2 implies #[trigger] node_covered(after, h, id) by {
        assert(node_covered(before, h, id));
        lemma_node_covered_kept(before, after, h, id);
    }
}

/// Each neighbour of the point at position `t` is the point before it or
/// the point after it.
spec fn slots_within(h: Seq<HalfEdge>, points: Seq<PolyPoint>, t: int) -> bool {
    forall|j: int|
        0 <= j < neighbors(h, points[t].id).len() ==> #[trigger] neighbors(h, points[t].id)[j]
            == points[t - 1].id || neighbors(h, points[t].id)[j] == points[t + 1].id
}

/// What holds of the points of a walk before its next step: they lie where
/// the network has them, each is joined to the next, all but the first are
/// plain links in a chain, and no node comes twice.
#[verifier::opaque]
spec fn walk_points(h: Seq<HalfEdge>, points: Seq<PolyPoint>) -> bool {
    &&& points.len() >= 1
    &&& forall|t: int|
        0 <= t < points.len() ==> first_at(h, (#[trigger] points[t]).id) == Some(points[t].point)
    &&& forall|t: int|
        0 <= t < points.len() - 1 ==> linked(h, (#[trigger] step(points, t)).0, step(points, t).1)
    &&& forall|t: int| 0 < t < points.len() ==> degree(h, (#[trigger] points[t]).id) == 2
    &&& forall|s: int, t: int|
        0 <= s < t < points.len() ==> (#[trigger] points[s]).id != (#[trigger] points[t]).id
    &&& forall|t: int| 0 < t < points.len() - 1 ==> #[trigger] slots_within(h, points, t)
}

/// The nodes that a walk has passed through are those in `set`, and all of
/// them are nodes of the network.
#[verifier::opaque]
spec fn walk_set(set: Set<i64>, dom: Set<i64>, points: Seq<PolyPoint>) -> bool {
    &&& forall|t: int| 0 <= t < points.len() ==> set.contains((#[trigger] points[t]).id.0)
    &&& forall|x: i64| #[trigger]
        set.contains(x) ==> dom.contains(x) && exists|t: int|
            0 <= t < points.len() && (#[trigger] points[t]).id.0 == x
}

/// What holds of the step that a walk is about to take, from `prev` to `cur`.
#[verifier::opaque]
spec fn walk_pending(
    h: Seq<HalfEdge>,
    m0: Map<u128, u32>,
    m: Map<u128, u32>,
    points: Seq<PolyPoint>,
    prev: OsmNodeId,
    cur: OsmNodeId,
    first: OsmNodeId,
    second: OsmNodeId,
) -> bool {
    &&& points.len() >= 1
    &&& points.last().id == prev
    &&& points[0].id == first
    &&& linked(h, prev, cur)
    &&& !covered(m0, prev, cur)
    &&& points.len() == 1 ==> prev == first && cur == second
    &&& points.len() >= 2 ==> m.contains_key(edge_key(first, second))
    &&& points.len() >= 2 ==> forall|s: int|
        0 <= s < neighbors(h, prev).len() ==> #[trigger] neighbors(h, prev)[s] == points[points.len()
            - 2].id || neighbors(h, prev)[s] == cur
}

/// What holds of the edges that a walk has passed along: they were not filed
/// before the walk, and are filed now under the polyline of the walk.
#[verifier::opaque]
spec fn walk_filed(
    h: Seq<HalfEdge>,
    m0: Map<u128, u32>,
    m: Map<u128, u32>,
    lines: Seq<Seq<PolyPoint>>,
    poly_id: u32,
    points: Seq<PolyPoint>,
) -> bool {
    &&& grown(m0, m)
    &&& filed_all(m, points)
    &&& interior_covered(m, h, points)
    &&& forall|t: int|
        0 <= t < points.len() - 1 ==> !covered(m0, (#[trigger] step(points, t)).0, step(points, t).1)
    &&& forall|key: u128| #[trigger]
        m.contains_key(key) ==> (m[key] < poly_id && filed(lines[m[key] as int], key)) || (m[key]
            == poly_id && filed(points, key))
}

/// What holds of the points of a walk after a step, whether or not the walk
/// goes on from the node that it has reached.
#[verifier::opaque]
spec fn walk_reached(h: Seq<HalfEdge>, points: Seq<PolyPoint>) -> bool {
    &&& points.len() >= 2
    &&& forall|t: int|
        0 <= t < points.len() ==> first_at(h, (#[trigger] points[t]).id) == Some(points[t].point)
    &&& forall|t: int|
        0 <= t < points.len() - 1 ==> linked(h, (#[trigger] step(points, t)).0, step(points, t).1)
    &&& forall|t: int| 0 < t < points.len() - 1 ==> degree(h, (#[trigger] points[t]).id) == 2
    &&& forall|s: int, t: int|
        0 <= s < t < points.len() - 1 ==> (#[trigger] points[s]).id != (#[trigger] points[t]).id
    &&& forall|t: int| 0 < t < points.len() - 1 ==> #[trigger] slots_within(h, points, t)
}

proof fn lemma_walk_start(
    h: Seq<HalfEdge>,
    m0: Map<u128, u32>,
    lines: Seq<Seq<PolyPoint>>,
    set: Set<i64>,
    dom: Set<i64>,
    points: Seq<PolyPoint>,
    poly_id: u32,
    first: OsmNodeId,
    second: OsmNodeId,
)
    requires
        state_inv(m0, lines, h, Some(first)),
        poly_id == lines.len(),
        points.len() == 1,
        points[0].id == first,
        first_at(h, first) == Some(points[0].point),
        set == Set::<i64>::empty().insert(first.0),
        dom.contains(first.0),
        linked(h, first, second),
        !covered(m0, first, second),
    ensures
        walk_points(h, points),
        walk_set(set, dom, points),
        walk_pending(h, m0, m0, points, first, second, first, second),
        walk_filed(h, m0, m0, lines, poly_id, points),
{
    reveal(state_inv);
    reveal(walk_points);
    reveal(walk_set);
    reveal(walk_pending);
    reveal(walk_filed);
    assert(points[0].id.0 == first.0);
}

proof fn lemma_walk_push(
    h: Seq<HalfEdge>,
    m0: Map<u128, u32>,
    m: Map<u128, u32>,
    m2: Map<u128, u32>,
    lines: Seq<Seq<PolyPoint>>,
    poly_id: u32,
    before: Seq<PolyPoint>,
    after: Seq<PolyPoint>,
    prev: OsmNodeId,
    point: PolyPoint,
    first: OsmNodeId,
    second: OsmNodeId,
)
    requires
        walk_points(h, before),
        walk_pending(h, m0, m, before, prev, point.id, first, second),
        walk_filed(h, m0, m, lines, poly_id, before),
        first_at(h, point.id) == Some(point.point),
        after == before.push(point),
        m2 == m.insert(edge_key(prev, point.id), poly_id),
    ensures
        walk_reached(h, after),
        walk_filed(h, m0, m2, lines, poly_id, after),
        m2.contains_key(edge_key(first, second)),
        after.last() == point,
        after[0].id == first,
        after[after.len() - 2].id == prev,
{
    lemma_walk_push_points(h, m0, m, before, after, prev, point, first, second);
    lemma_walk_push_filed(h, m0, m, m2, lines, poly_id, before, after, prev, point, first, second);
    lemma_walk_push_covered(h, m0, m, m2, lines, poly_id, before, after, prev, point, first, second);
    reveal(walk_filed);
}

/// After a step, the points of a walk are still in order.
#[verifier::rlimit(50)]
proof fn lemma_walk_push_points(
    h: Seq<HalfEdge>,
    m0: Map<u128, u32>,
    m: Map<u128, u32>,
    before: Seq<PolyPoint>,
    after: Seq<PolyPoint>,
    prev: OsmNodeId,
    point: PolyPoint,
    first: OsmNodeId,
    second: OsmNodeId,
)
    requires
        walk_points(h, before),
        walk_pending(h, m0, m, before, prev, point.id, first, second),
        first_at(h, point.id) == Some(point.point),
        after == before.push(point),
    ensures
        walk_reached(h, after),
        after.last() == point,
        after[0].id == first,
        after[after.len() - 2].id == prev,
{
    reveal(walk_points);
    reveal(walk_pending);
    reveal(walk_reached);
    let t0 = before.len() - 1;
    assert(after[t0] == before[t0]);
    assert(after[0] == before[0]);
    assert forall|t: int| 0 <= t < after.len() implies first_at(h, (#[trigger] after[t]).id)
        == Some(after[t].point) by {
        if t < before.len() {
            assert(after[t] == before[t]);
        }
    }
    assert forall|t: int| 0 <= t < after.len() - 1 implies linked(
        h,
        (#[trigger] step(after, t)).0,
        step(after, t).1,
    ) by {
        if t < before.len() - 1 {
            assert(after[t] == before[t]);
            assert(after[t + 1] == before[t + 1]);
            assert(step(after, t) == step(before, t));
        }
    }
    assert forall|t: int| 0 < t < after.len() - 1 implies degree(h, (#[trigger] after[t]).id)
        == 2 by {
        assert(after[t] == before[t]);
    }
    assert forall|s: int, t: int| 0 <= s < t < after.len() - 1 implies (#[trigger] after[s]).id != (
    #[trigger] after[t]).id by {
        assert(after[s] == before[s]);
        assert(after[t] == before[t]);
    }
    assert forall|t: int| 0 < t < after.len() - 1 implies #[trigger] slots_within(h, after, t) by {
        assert(after[t] == before[t]);
        assert(after[t - 1] == before[t - 1]);
        if t < before.len() - 1 {
            assert(after[t + 1] == before[t + 1]);
            assert(slots_within(h, before, t));
        } else {
            assert(after[t + 1] == point);
        }
    }
}

/// After a step, the edges of a walk are filed under its polyline, and were
/// not filed before the walk.
#[verifier::rlimit(50)]
proof fn lemma_walk_push_filed(
    h: Seq<HalfEdge>,
    m0: Map<u128, u32>,
    m: Map<u128, u32>,
    m2: Map<u128, u32>,
    lines: Seq<Seq<PolyPoint>>,
    poly_id: u32,
    before: Seq<PolyPoint>,
    after: Seq<PolyPoint>,
    prev: OsmNodeId,
    point: PolyPoint,
    first: OsmNodeId,
    second: OsmNodeId,
)
    requires
        walk_pending(h, m0, m, before, prev, point.id, first, second),
        walk_filed(h, m0, m, lines, poly_id, before),
        after == before.push(point),
        m2 == m.insert(edge_key(prev, point.id), poly_id),
    ensures
        grown(m0, m2),
        grown(m, m2),
        filed_all(m2, after),
        m2.contains_key(edge_key(first, second)),
        forall|t: int|
            0 <= t < after.len() - 1 ==> !covered(m0, (#[trigger] step(after, t)).0, step(after, t).1),
        forall|key: u128| #[trigger]
            m2.contains_key(key) ==> (m2[key] < poly_id && filed(lines[m2[key] as int], key)) || (
            m2[key] == poly_id && filed(after, key)),
{
    reveal(walk_pending);
    reveal(walk_filed);
    let cur = point.id;
    let t0 = before.len() - 1;
    assert(after[t0] == before[t0]);
    assert(step(after, t0) == (prev, cur));
    assert(filed(after, edge_key(prev, cur)));
    assert(grown(m, m2));
    assert forall|key: u128| #[trigger] m2.contains_key(key) implies (m2[key] < poly_id && filed(
        lines[m2[key] as int],
        key,
    )) || (m2[key] == poly_id && filed(after, key)) by {
        if key != edge_key(prev, cur) {
            assert(m.contains_key(key));
            if m[key] == poly_id {
                lemma_filed_push(before, point, key);
            }
        }
    }
    assert forall|t: int| 0 <= t < after.len() - 1 implies m2.contains_key(
        edge_key((#[trigger] step(after, t)).0, step(after, t).1),
    ) by {
        if t < before.len() - 1 {
            assert(after[t] == before[t]);
            assert(after[t + 1] == before[t + 1]);
            assert(step(after, t) == step(before, t));
        }
    }
    assert forall|t: int| 0 <= t < after.len() - 1 implies !covered(
        m0,
        (#[trigger] step(after, t)).0,
        step(after, t).1,
    ) by {
        if t < before.len() - 1 {
            assert(after[t] == before[t]);
            assert(after[t + 1] == before[t + 1]);
            assert(step(after, t) == step(before, t));
        }
    }
    if before.len() == 1 {
        assert(edge_key(prev, cur) == edge_key(first, second));
    }
}

/// After a step, all edges are filed at every node that the walk has left
/// behind.
#[verifier::rlimit(50)]
proof fn lemma_walk_push_covered(
    h: Seq<HalfEdge>,
    m0: Map<u128, u32>,
    m: Map<u128, u32>,
    m2: Map<u128, u32>,
    lines: Seq<Seq<PolyPoint>>,
    poly_id: u32,
    before: Seq<PolyPoint>,
    after: Seq<PolyPoint>,
    prev: OsmNodeId,
    point: PolyPoint,
    first: OsmNodeId,
    second: OsmNodeId,
)
    requires
        walk_pending(h, m0, m, before, prev, point.id, first, second),
        walk_filed(h, m0, m, lines, poly_id, before),
        after == before.push(point),
        m2 == m.insert(edge_key(prev, point.id), poly_id),
    ensures
        interior_covered(m2, h, after),
{
    reveal(walk_pending);
    reveal(walk_filed);
    let cur = point.id;
    assert(grown(m, m2));
    assert forall|t: int| 0 < t < after.len() - 1 implies node_covered(
        m2,
        h,
        (#[trigger] after[t]).id,
    ) by {
        assert(after[t] == before[t]);
        if t < before.len() - 1 {
            lemma_node_covered_kept(m, m2, h, before[t].id);
        } else {
            // the node that the walk has just left
            assert(after[t].id == prev);
            assert(after[t - 1] == before[t - 1]);
            assert(step(before, t - 1) == (before[t - 1].id, before[t].id));
            assert(m.contains_key(edge_key(before[t - 1].id, before[t].id)));
            assert forall|s: int| 0 <= s < neighbors(h, prev).len() implies covered(
                m2,
                prev,
                #[trigger] neighbors(h, prev)[s],
            ) by {
                if neighbors(h, prev)[s] == before[before.len() - 2].id {
                    assert(m2.contains_key(edge_key(before[t - 1].id, prev)));
                } else {
                    assert(m2.contains_key(edge_key(prev, cur)));
                }
            }
        }
    }
}

/// A walk ends where it reaches a node that is no plain link in a chain, or
/// a node that it has passed through before, at position `again`; that node
/// can only be the first. A walk that has started at a plain link, when all
/// junctions and dead ends have been dealt with, can only end where it has
/// started.
#[verifier::rlimit(50)]
proof fn lemma_walk_ends(
    edges: Seq<FullEdge>,
    m0: Map<u128, u32>,
    m: Map<u128, u32>,
    lines: Seq<Seq<PolyPoint>>,
    poly_id: u32,
    points: Seq<PolyPoint>,
    again: Option<int>,
)
    requires
        walk_reached(half_edges(edges), points),
        walk_filed(half_edges(edges), m0, m, lines, poly_id, points),
        degree(half_edges(edges), points[0].id) != 2 || junctions_covered(m0, half_edges(edges)),
        match again {
            Some(s) => 0 <= s < points.len() - 1 && points[s].id == points.last().id && degree(
                half_edges(edges),
                points.last().id,
            ) == 2,
            None => degree(half_edges(edges), points.last().id) != 2,
        },
    ensures
        is_polyline(half_edges(edges), points),
{
    let h = half_edges(edges);
    lemma_walk_twice(edges, points);
    match again {
        Some(s) => {
            lemma_walk_meets_first(edges, points, s);
        },
        None => {
            lemma_walk_stops(edges, m0, m, lines, poly_id, points);
        },
    }
    reveal(walk_reached);
}

/// A walk that has come back to a plain link that it has passed through
/// before has come back to its first node: both edges at a node between the
/// ends of the walk are edges of the walk already.
#[verifier::rlimit(50)]
proof fn lemma_walk_meets_first(edges: Seq<FullEdge>, points: Seq<PolyPoint>, s: int)
    requires
        walk_reached(half_edges(edges), points),
        0 <= s < points.len() - 1,
        points[s].id == points.last().id,
        degree(half_edges(edges), points.last().id) == 2,
    ensures
        s == 0,
{
    reveal(walk_reached);
    let h = half_edges(edges);
    let n = points.len() as int;
    let last = points.last().id;
    let prev = points[n - 2].id;
    assert(step(points, n - 2) == (prev, last));
    assert(linked(h, prev, last));
    lemma_neighbor_back(edges, prev, last);
    let back = choose|j: int| 0 <= j < neighbors(h, last).len() && #[trigger] neighbors(h, last)[j]
        == prev;
    if s >= 1 {
        if s < n - 2 {
            assert(slots_within(h, points, s));
            assert(neighbors(h, points[s].id)[back] == prev);
            assert(prev == points[s - 1].id || prev == points[s + 1].id);
            assert(s + 1 == n - 2);
            assert(slots_within(h, points, n - 2));
            assert(degree(h, prev) == 2);
            assert(neighbors(h, prev)[0] == last);
            assert(neighbors(h, prev)[1] == last);
            lemma_double_link(edges, prev, last);
            assert(step(points, s - 1) == (points[s - 1].id, points[s].id));
            assert(linked(h, points[s - 1].id, points[s].id));
            lemma_neighbor_back(edges, points[s - 1].id, points[s].id);
            assert(points[s - 1].id == prev);
            assert(false);
        } else {
            assert(last == prev);
            lemma_self_link(edges, prev);
            assert(step(points, s - 1) == (points[s - 1].id, points[s].id));
            assert(linked(h, points[s - 1].id, points[s].id));
            lemma_neighbor_back(edges, points[s - 1].id, points[s].id);
            assert(points[s - 1].id == prev);
            assert(false);
        }
    }
}

/// A walk that has started at a plain link, when all junctions and dead
/// ends have been dealt with, does not stop at a junction or a dead end: the
/// edge by which it has come there would be filed already.
proof fn lemma_walk_stops(
    edges: Seq<FullEdge>,
    m0: Map<u128, u32>,
    m: Map<u128, u32>,
    lines: Seq<Seq<PolyPoint>>,
    poly_id: u32,
    points: Seq<PolyPoint>,
)
    requires
        walk_reached(half_edges(edges), points),
        walk_filed(half_edges(edges), m0, m, lines, poly_id, points),
        degree(half_edges(edges), points[0].id) != 2 || junctions_covered(m0, half_edges(edges)),
        degree(half_edges(edges), points.last().id) != 2,
    ensures
        degree(half_edges(edges), points[0].id) != 2,
{
    reveal(walk_reached);
    reveal(walk_filed);
    let h = half_edges(edges);
    let n = points.len() as int;
    let last = points.last().id;
    let prev = points[n - 2].id;
    assert(step(points, n - 2) == (prev, last));
    assert(linked(h, prev, last));
    assert(!covered(m0, prev, last));
    lemma_neighbor_back(edges, prev, last);
    let back = choose|j: int| 0 <= j < neighbors(h, last).len() && #[trigger] neighbors(h, last)[j]
        == prev;
    if degree(h, points[0].id) == 2 {
        assert(node_covered(m0, h, last));
        assert(covered(m0, last, neighbors(h, last)[back]));
        assert(false);
    }
}

/// A walk passes along the edge between two nodes twice only where it goes
/// from its first node to the next and straight back, along two edges that
/// join the two.
#[verifier::rlimit(50)]
proof fn lemma_walk_twice(edges: Seq<FullEdge>, points: Seq<PolyPoint>)
    requires
        walk_reached(half_edges(edges), points),
    ensures
        forall|s: int, t: int|
            #![trigger step(points, s), step(points, t)]
            0 <= s < t < points.len() - 1 && same_edge(
                step(points, s).0,
                step(points, s).1,
                step(points, t).0,
                step(points, t).1,
            ) ==> count_to(half_edges(edges), step(points, s).0, step(points, s).1) >= 2
                && count_to(half_edges(edges), step(points, t).0, step(points, t).1) >= 2,
{
    reveal(walk_reached);
    let h = half_edges(edges);
    let n = points.len() as int;
    assert forall|s: int, t: int|
        #![trigger step(points, s), step(points, t)]
        0 <= s < t < n - 1 && same_edge(
            step(points, s).0,
            step(points, s).1,
            step(points, t).0,
            step(points, t).1,
        ) implies count_to(h, step(points, s).0, step(points, s).1) >= 2 && count_to(
        h,
        step(points, t).0,
        step(points, t).1,
    ) >= 2 by {
        // No node comes twice before the last, so the walk can only have
        // turned round at the node before its last.
        assert(points[s].id != points[t].id);
        if s + 1 < t {
            assert(points[s + 1].id != points[t].id);
        }
        assert(t == s + 1);
        if s + 2 < n - 1 {
            assert(points[s].id != points[s + 2].id);
        }
        assert(s + 2 == n - 1);
        let turn = points[s + 1].id;
        let back = points[s].id;
        assert(slots_within(h, points, s + 1));
        assert(degree(h, turn) == 2);
        assert(neighbors(h, turn)[0] == back);
        assert(neighbors(h, turn)[1] == back);
        lemma_occurrences_pair(neighbors(h, turn), back);
        lemma_occurrences_neighbors(h, turn, back);
        lemma_count_symmetric(edges, turn, back);
    }
}

#[verifier::rlimit(50)]
proof fn lemma_walk_advance(
    edges: Seq<FullEdge>,
    m0: Map<u128, u32>,
    m_before: Map<u128, u32>,
    m: Map<u128, u32>,
    lines: Seq<Seq<PolyPoint>>,
    seen: Set<i64>,
    set: Set<i64>,
    dom: Set<i64>,
    before: Seq<PolyPoint>,
    after: Seq<PolyPoint>,
    prev: OsmNodeId,
    point: PolyPoint,
    next: OsmNodeId,
    first: OsmNodeId,
    second: OsmNodeId,
)
    requires
        state_inv(m0, lines, half_edges(edges), Some(first)),
        walk_points(half_edges(edges), before),
        walk_set(seen, dom, before),
        walk_pending(half_edges(edges), m0, m_before, before, prev, point.id, first, second),
        walk_reached(half_edges(edges), after),
        after == before.push(point),
        m.contains_key(edge_key(first, second)),
        degree(half_edges(edges), point.id) == 2,
        !seen.contains(point.id.0),
        seen.finite(),
        dom.finite(),
        dom.contains(point.id.0),
        set == seen.insert(point.id.0),
        (neighbors(half_edges(edges), point.id)[0] == prev && next == neighbors(
            half_edges(edges),
            point.id,
        )[1]) || (neighbors(half_edges(edges), point.id)[0] != prev && next == neighbors(
            half_edges(edges),
            point.id,
        )[0]),
    ensures
        walk_points(half_edges(edges), after),
        walk_set(set, dom, after),
        walk_pending(half_edges(edges), m0, m, after, point.id, next, first, second),
        set.len() == seen.len() + 1,
        set.len() <= dom.len(),
{
    reveal(walk_points);
    reveal(walk_set);
    reveal(walk_pending);
    reveal(walk_reached);
    let h = half_edges(edges);
    let cur = point.id;
    assert(before.len() >= 1 && before.last().id == prev && before[0].id == first && linked(
        h,
        prev,
        cur,
    ) && !covered(m0, prev, cur));
    let slot: int = if neighbors(h, cur)[0] == prev {
        1
    } else {
        0
    };
    lemma_neighbors_linked(h, cur, slot);
    lemma_neighbor_back(edges, prev, cur);
    let back_slot = choose|s: int|
        0 <= s < neighbors(h, cur).len() && #[trigger] neighbors(h, cur)[s] == prev;
    assert(back_slot == 0 || back_slot == 1);
    assert(seen.contains(before[0].id.0));
    assert(cur != first);
    lemma_fresh_step(m0, lines, h, Some(first), prev, cur, next);
    assert(after[after.len() - 2] == before[before.len() - 1]);
    assert(after[0] == before[0]);
    assert forall|s: int| 0 <= s < neighbors(h, cur).len() implies #[trigger] neighbors(h, cur)[s]
        == after[after.len() - 2].id || neighbors(h, cur)[s] == next by {}
    assert forall|t: int| 0 < t < after.len() implies degree(h, (#[trigger] after[t]).id) == 2 by {
        if t < before.len() {
            assert(after[t] == before[t]);
        }
    }
    assert forall|s: int, t: int| 0 <= s < t < after.len() implies (#[trigger] after[s]).id != (
    #[trigger] after[t]).id by {
        assert(after[s] == before[s]);
        if t < before.len() {
            assert(after[t] == before[t]);
        } else {
            assert(seen.contains(before[s].id.0));
        }
    }
    assert forall|t: int| 0 <= t < after.len() implies set.contains((#[trigger] after[t]).id.0) by {
        if t < before.len() {
            assert(after[t] == before[t]);
            assert(seen.contains(before[t].id.0));
        }
    }
    assert forall|x: i64| #[trigger] set.contains(x) implies dom.contains(x) && exists|t: int|
        0 <= t < after.len() && (#[trigger] after[t]).id.0 == x by {
        if x == cur.0 {
            assert(after[after.len() - 1].id.0 == x);
        } else {
            assert(seen.contains(x));
            let t = choose|t: int| 0 <= t < before.len() && (#[trigger] before[t]).id.0 == x;
            assert(after[t] == before[t]);
        }
    }
    assert(set.subset_of(dom));
    vstd::set_lib::lemma_len_subset(set, dom);
}

proof fn lemma_walk_done(
    edges: Seq<FullEdge>,
    m0: Map<u128, u32>,
    m: Map<u128, u32>,
    lines_before: Seq<Seq<PolyPoint>>,
    lines: Seq<Seq<PolyPoint>>,
    line: Seq<PolyPoint>,
    poly_id: u32,
    first: OsmNodeId,
    second: OsmNodeId,
)
    requires
        state_inv(m0, lines_before, half_edges(edges), Some(first)),
        poly_id == lines_before.len(),
        walk_filed(half_edges(edges), m0, m, lines_before, poly_id, line),
        is_polyline(half_edges(edges), line),
        line[0].id == first,
        lines == lines_before.push(line),
        linked(half_edges(edges), first, second),
        !covered(m0, first, second),
        m.contains_key(edge_key(first, second)),
    ensures
        state_inv(m, lines, half_edges(edges), Some(first)),
        grown(m0, m),
        covered(m, first, second),
{
    reveal(state_inv);
    let h = half_edges(edges);
    lemma_walk_done_filed(h, m0, m, lines_before, lines, line, poly_id, first);
    lemma_walk_done_lines(h, m0, m, lines_before, lines, line, poly_id, first);
    lemma_walk_done_apart(h, m0, m, lines_before, lines, line, poly_id, first);
    assert(grown(m0, m)) by {
        reveal(walk_filed);
    }
    lemma_covered_count_edge(m0, m, edges, first, second);
}

/// As long as an edge is not filed, there is room for one more polyline.
proof fn lemma_room(
    edges: Seq<FullEdge>,
    m: Map<u128, u32>,
    lines: Seq<Seq<PolyPoint>>,
    excl: Option<OsmNodeId>,
    u: OsmNodeId,
    v: OsmNodeId,
)
    requires
        state_inv(m, lines, half_edges(edges), excl),
        linked(half_edges(edges), u, v),
        !covered(m, u, v),
    ensures
        lines.len() + 1 <= edges.len(),
{
    reveal(state_inv);
    let after = m.insert(edge_key(u, v), 0u32);
    lemma_covered_count_edge(m, after, edges, u, v);
}

#[verifier::rlimit(50)]
proof fn lemma_walk_done_filed(
    h: Seq<HalfEdge>,
    m0: Map<u128, u32>,
    m: Map<u128, u32>,
    lines_before: Seq<Seq<PolyPoint>>,
    lines: Seq<Seq<PolyPoint>>,
    line: Seq<PolyPoint>,
    poly_id: u32,
    first: OsmNodeId,
)
    requires
        poly_id == lines_before.len(),
        walk_filed(h, m0, m, lines_before, poly_id, line),
        lines == lines_before.push(line),
    ensures
        forall|key: u128| #[trigger]
            m.contains_key(key) ==> m[key] < lines.len() && filed(lines[m[key] as int], key),
{
    reveal(walk_filed);
    assert forall|key: u128| #[trigger] m.contains_key(key) implies m[key] < lines.len() && filed(
        lines[m[key] as int],
        key,
    ) by {
        if m[key] < poly_id {
            assert(lines[m[key] as int] == lines_before[m[key] as int]);
        } else {
            assert(lines[m[key] as int] == line);
        }
    }
}

#[verifier::rlimit(50)]
proof fn lemma_walk_done_lines(
    h: Seq<HalfEdge>,
    m0: Map<u128, u32>,
    m: Map<u128, u32>,
    lines_before: Seq<Seq<PolyPoint>>,
    lines: Seq<Seq<PolyPoint>>,
    line: Seq<PolyPoint>,
    poly_id: u32,
    first: OsmNodeId,
)
    requires
        state_inv(m0, lines_before, h, Some(first)),
        poly_id == lines_before.len(),
        walk_filed(h, m0, m, lines_before, poly_id, line),
        is_polyline(h, line),
        line[0].id == first,
        lines == lines_before.push(line),
    ensures
        forall|i: int| 0 <= i < lines.len() ==> line_ok(m, h, #[trigger] lines[i], Some(first)),
{
    reveal(line_ok);
    reveal(state_inv);
    reveal(walk_filed);
    assert forall|i: int| 0 <= i < lines.len() implies line_ok(m, h, #[trigger] lines[i], Some(first)) by {
        if i < poly_id {
            assert(lines[i] == lines_before[i]);
            assert(line_ok(m0, h, lines_before[i], Some(first)));
            lemma_line_ok_kept(m0, m, h, lines[i], Some(first));
        } else {
            assert(lines[i] == line);
        }
    }
}

#[verifier::rlimit(50)]
proof fn lemma_walk_done_apart(
    h: Seq<HalfEdge>,
    m0: Map<u128, u32>,
    m: Map<u128, u32>,
    lines_before: Seq<Seq<PolyPoint>>,
    lines: Seq<Seq<PolyPoint>>,
    line: Seq<PolyPoint>,
    poly_id: u32,
    first: OsmNodeId,
)
    requires
        state_inv(m0, lines_before, h, Some(first)),
        poly_id == lines_before.len(),
        walk_filed(h, m0, m, lines_before, poly_id, line),
        lines == lines_before.push(line),
    ensures
        forall|i: int, j: int|
            0 <= i < j < lines.len() ==> !shares_edge(#[trigger] lines[i], #[trigger] lines[j]),
{
    reveal(state_inv);
    assert forall|i: int, j: int| 0 <= i < j < lines.len() implies !shares_edge(
        #[trigger] lines[i],
        #[trigger] lines[j],
    ) by {
        assert(lines[i] == lines_before[i]);
        if j < poly_id {
            assert(lines[j] == lines_before[j]);
        } else {
            assert(lines[j] == line);
            let p = lines_before[i];
            assert(line_ok(m0, h, p, Some(first)));
            lemma_line_filed(m0, h, p, Some(first));
            lemma_no_shared_edge(m0, m, h, lines_before, p, line, poly_id);
        }
    }
}

/// A polyline whose edges were all filed before a walk shares no edge with
/// the polyline of the walk.
proof fn lemma_no_shared_edge(
    m0: Map<u128, u32>,
    m: Map<u128, u32>,
    h: Seq<HalfEdge>,
    lines_before: Seq<Seq<PolyPoint>>,
    p: Seq<PolyPoint>,
    line: Seq<PolyPoint>,
    poly_id: u32,
)
    requires
        filed_all(m0, p),
        walk_filed(h, m0, m, lines_before, poly_id, line),
    ensures
        !shares_edge(p, line),
{
    reveal(walk_filed);
    if shares_edge(p, line) {
        let (s, t) = choose|s: int, t: int|
            #![trigger step(p, s), step(line, t)]
            0 <= s < p.len() - 1 && 0 <= t < line.len() - 1 && same_edge(
                step(p, s).0,
                step(p, s).1,
                step(line, t).0,
                step(line, t).1,
            );
        assert(m0.contains_key(edge_key(step(p, s).0, step(p, s).1)));
        assert(!covered(m0, step(line, t).0, step(line, t).1));
    }
}

impl Polyline {
    /// The number of points.
    pub fn len(&self) -> (n: usize)
        ensures
            n == self.points@.len(),
    {
        self.points.len()
    }

    /// Writes the polyline as a feature of a GeoJSON collection, with `id` as
    /// its property `id`.
    pub fn write_feature(&self, writer: &mut GeoJsonWriter, id: usize)
        ensures
            final(writer).text() == old(writer).text() + old(writer).lead() + polyline_feature(
                self.points@,
                id as nat,
            ),
            !final(writer).open(),
            !final(writer).is_first(),
    {
        let mut coords: Vec<GeoPoint> = Vec::new();
        let mut t: usize = 0;
        while t < self.points.len()
            invariant
                t <= self.points@.len(),
                coords@ == point_positions(self.points@.take(t as int)),
            decreases self.points.len() - t,
        {
            coords.push(self.points[t].point);
            assert(coords@ =~= point_positions(self.points@.take(t + 1)));
            t += 1;
        }
        assert(self.points@.take(t as int) =~= self.points@);
        let number = format_number(id as u64);
        let mut ls = writer.add_line_string(coords.as_slice());
        ls.add_property("id", number.as_str());
        ls.finish();
        assert(writer.text() =~= old(writer).text() + old(writer).lead() + polyline_feature(
            self.points@,
            id as nat,
        ));
    }
}

impl View for PolylineCollection {
    type V = Seq<Seq<PolyPoint>>;

    /// The polylines, each as the list of its points.
    closed spec fn view(&self) -> Seq<Seq<PolyPoint>> {
        Seq::new(self.polylines@.len(), |i: int| self.polylines@[i].points@)
    }
}

impl PolylineCollection {
    /// The position of the polyline that the edge between `u` and `v` is filed under: the one
    /// filed for the way from `u` to `v`, else the one for the way back.
    pub closed spec fn lookup(&self, u: OsmNodeId, v: OsmNodeId) -> Option<u32> {
        if self.membership@.contains_key(edge_key(u, v)) {
            Some(self.membership@[edge_key(u, v)])
        } else if self.membership@.contains_key(edge_key(v, u)) {
            Some(self.membership@[edge_key(v, u)])
        } else {
            None
        }
    }

    /// Every edge is filed under a polyline that passes along it.
    pub closed spec fn wf(&self) -> bool {
        forall|key: u128| #[trigger]
            self.membership@.contains_key(key) ==> self.membership@[key] < self.polylines@.len()
                && filed(self.polylines@[self.membership@[key] as int].points@, key)
    }

    /// The collection is the split of the network with the half edges `h`
    /// into polylines.
    pub open spec fn splits(&self, h: Seq<HalfEdge>) -> bool {
        // Every edge that is filed is filed under a polyline that passes
        // along it.
        &&& self.wf()
        // Each polyline is a polyline of the network.
        &&& forall|i: int| 0 <= i < self@.len() ==> is_polyline(h, #[trigger] self@[i])
        // No two polylines pass along the same edge.
        &&& forall|i: int, j: int|
            0 <= i < j < self@.len() ==> !shares_edge(#[trigger] self@[i], #[trigger] self@[j])
        // Every edge of the network is found, whichever way it is asked for.
        &&& forall|k: int|
            0 <= k < h.len() ==> self.lookup((#[trigger] h[k]).from, h[k].to) is Some
        // Every step of a polyline is found under that polyline.
        &&& forall|i: int, t: int|
            0 <= i < self@.len() && 0 <= t < self@[i].len() - 1 ==> self.lookup(
                (#[trigger] step(self@[i], t)).0,
                step(self@[i], t).1,
            ) == Some(i as u32)
    }

    /// Every edge of the network lies on a polyline: the polyline that it is
    /// found under passes along it, one way or the other.
    pub proof fn lemma_edge_on_polyline(&self, h: Seq<HalfEdge>, k: int)
        requires
            self.splits(h),
            0 <= k < h.len(),
        ensures
            match self.lookup(h[k].from, h[k].to) {
                Some(i) => i < self@.len() && (has_segment(self@[i as int], h[k].from, h[k].to)
                    || has_segment(self@[i as int], h[k].to, h[k].from)),
                None => false,
            },
    {
        self.lemma_lookup(h[k].from, h[k].to);
    }

    /// Every edge lies on one polyline only, and once: where step `s` of
    /// polyline `i` and step `t` of polyline `j` pass along the edge between
    /// the same two nodes, and are not one and the same step, they are steps
    /// of one polyline, and the network has two edges between the two nodes.
    pub proof fn lemma_step_once(&self, h: Seq<HalfEdge>, i: int, s: int, j: int, t: int)
        requires
            self.splits(h),
            0 <= i < self@.len(),
            0 <= s < self@[i].len() - 1,
            0 <= j < self@.len(),
            0 <= t < self@[j].len() - 1,
            same_edge(
                step(self@[i], s).0,
                step(self@[i], s).1,
                step(self@[j], t).0,
                step(self@[j], t).1,
            ),
            i != j || s != t,
        ensures
            i == j,
            count_to(h, step(self@[i], s).0, step(self@[i], s).1) >= 2,
    {
        assert(is_polyline(h, self@[i]));
    }

    /// Once the collection is built, each of its polylines is a polyline of
    /// the network, and no two of them pass along the same edge.
    proof fn lemma_built_lines(&self, h: Seq<HalfEdge>)
        requires
            state_inv(self.membership@, self@, h, None),
        ensures
            self.wf(),
            forall|i: int| 0 <= i < self@.len() ==> is_polyline(h, #[trigger] self@[i]),
            forall|i: int, j: int|
                0 <= i < j < self@.len() ==> !shares_edge(#[trigger] self@[i], #[trigger] self@[j]),
    {
        reveal(state_inv);
        reveal(line_ok);
        assert forall|i: int| 0 <= i < self@.len() implies is_polyline(h, #[trigger] self@[i]) by {
            assert(line_ok(self.membership@, h, self@[i], None));
        }
        assert forall|key: u128| #[trigger]
            self.membership@.contains_key(key) implies self.membership@[key]
            < self.polylines@.len() && filed(
            self.polylines@[self.membership@[key] as int].points@,
            key,
        ) by {
            assert(self@[self.membership@[key] as int]
                == self.polylines@[self.membership@[key] as int].points@);
        }
    }

    /// Once the edges at every node are filed, every edge of the network is
    /// found.
    proof fn lemma_built_filed(&self, h: Seq<HalfEdge>)
        requires
            forall|id: OsmNodeId| #[trigger] node_covered(self.membership@, h, id),
        ensures
            forall|k: int|
                0 <= k < h.len() ==> self.lookup((#[trigger] h[k]).from, h[k].to) is Some,
    {
        assert forall|k: int| 0 <= k < h.len() implies self.lookup(
            (#[trigger] h[k]).from,
            h[k].to,
        ) is Some by {
            let u = h[k].from;
            lemma_linked_neighbors(h, k);
            let j = choose|j: int|
                0 <= j < neighbors(h, u).len() && #[trigger] neighbors(h, u)[j] == h[k].to;
            assert(node_covered(self.membership@, h, u));
            assert(covered(self.membership@, u, neighbors(h, u)[j]));
        }
    }

    /// Once the collection is built, every step of a polyline is found under
    /// that polyline.
    #[verifier::rlimit(50)]
    proof fn lemma_built_steps(&self, h: Seq<HalfEdge>)
        requires
            state_inv(self.membership@, self@, h, None),
        ensures
            forall|i: int, t: int|
                0 <= i < self@.len() && 0 <= t < self@[i].len() - 1 ==> self.lookup(
                    (#[trigger] step(self@[i], t)).0,
                    step(self@[i], t).1,
                ) == Some(i as u32),
    {
        reveal(state_inv);
        let m = self.membership@;
        assert forall|i: int, t: int| 0 <= i < self@.len() && 0 <= t < self@[i].len() - 1 implies self.lookup(
            (#[trigger] step(self@[i], t)).0,
            step(self@[i], t).1,
        ) == Some(i as u32) by {
            let line = self@[i];
            assert(line_ok(m, h, line, None));
            lemma_line_filed(m, h, line, None);
            let key = edge_key(line[t].id, line[t + 1].id);
            assert(m.contains_key(key));
            let j = m[key] as int;
            assert(filed(self@[j], key));
            let s = choose|s: int|
                0 <= s < self@[j].len() - 1 && edge_key(
                    (#[trigger] step(self@[j], s)).0,
                    step(self@[j], s).1,
                ) == key;
            lemma_edge_key_injective(self@[j][s].id, self@[j][s + 1].id, line[t].id, line[t + 1].id);
            if i < j {
                lemma_shared(self@[i], self@[j], t, s);
            } else if j < i {
                lemma_shared(self@[j], self@[i], s, t);
            }
        }
    }

    /// Splits the given network into polylines.
    ///
    /// Each polyline starts at a node and follows the edges until the line
    /// ends, reaches a junction, or comes back to where it started. Polylines
    /// start first from every node that is no plain link in a chain, then
    /// from the nodes that are left, which lie on closed loops. Every edge of
    /// the network ends up filed under a polyline that passes along it, no
    /// two polylines pass along the same edge, and no polyline passes along
    /// an edge twice: only where two edges join the same two nodes does a
    /// polyline go from the one to the other and back.
    #[verifier::rlimit(50)]
    pub fn new(net: &Network) -> (r: PolylineCollection)
        requires
            net.wf(),
        ensures
            r.splits(half_edges(net@.full_edges())),
    {
        let edges = net.edges();
        let ghost h = half_edges(edges@);
        assert(edges@.len() <= 0x1_0000_0000);
        let adj = Adjacency::build(&edges);
        let mut r = PolylineCollection { polylines: Vec::new(), membership: HashMap::new() };
        let n: usize = adj.ids.len();
        proof {
            reveal(state_inv);
            assert(r@ =~= Seq::<Seq<PolyPoint>>::empty());
            assert(state_inv(r.membership@, r@, h, None));
        }
        // Start from nowhere (only one neighbor) or from an intersection (more
        // than two neighbors).
        let mut k: usize = 0;
        while k < n
            invariant
                k <= n,
                n == adj.ids@.len(),
                h == half_edges(edges@),
                edges@.len() <= 0x1_0000_0000,
                adj.wf(h),
                adj.closed(),
                state_inv(r.membership@, r@, h, None),
                forall|i: int|
                    0 <= i < k && adj.nbrs@[i]@.len() != 2 ==> node_covered(
                        r.membership@,
                        h,
                        #[trigger] adj.ids@[i],
                    ),
            decreases n - k,
        {
            let m: usize = adj.nbrs[k].len();
            let ghost start = adj.ids@[k as int];
            proof {
                adj.lemma_node(h, k as int);
            }
            if m != 2 {
                let ghost at_entry = r.membership@;
                proof {
                    lemma_state_set_apart(r.membership@, r@, h, start);
                }
                let mut j: usize = 0;
                while j < m
                    invariant
                        j <= m,
                        k < n,
                        n == adj.ids@.len(),
                        m == adj.nbrs@[k as int]@.len(),
                        m != 2,
                        start == adj.ids@[k as int],
                        adj.nbrs@[k as int]@ == neighbors(h, start),
                        h == half_edges(edges@),
                        edges@.len() <= 0x1_0000_0000,
                        adj.wf(h),
                        adj.closed(),
                        state_inv(r.membership@, r@, h, Some(start)),
                        grown(at_entry, r.membership@),
                        forall|t: int|
                            0 <= t < j ==> covered(
                                r.membership@,
                                start,
                                #[trigger] neighbors(h, start)[t],
                            ),
                    decreases m - j,
                {
                    let ghost before = r.membership@;
                    r.follow(&adj, Ghost(edges@), k, j);
                    proof {
                        assert forall|t: int| 0 <= t < j + 1 implies covered(
                            r.membership@,
                            start,
                            #[trigger] neighbors(h, start)[t],
                        ) by {
                            if t < j {
                                assert(covered(before, start, neighbors(h, start)[t]));
                            }
                        }
                    }
                    j += 1;
                }
                proof {
                    lemma_state_settled(r.membership@, r@, h, start);
                    assert forall|i: int|
                        0 <= i < k + 1 && adj.nbrs@[i]@.len() != 2 implies node_covered(
                        r.membership@,
                        h,
                        #[trigger] adj.ids@[i],
                    ) by {
                        if i < k {
                            lemma_node_covered_kept(at_entry, r.membership@, h, adj.ids@[i]);
                        }
                    }
                }
            }
            k += 1;
        }
        proof {
            assert forall|id: OsmNodeId| degree(h, id) != 2 implies #[trigger] node_covered(
                r.membership@,
                h,
                id,
            ) by {
                assert(id == OsmNodeId(id.0));
                lemma_first_at_neighbors(h, id);
                if first_at(h, OsmNodeId(id.0)) is Some {
                    let i = adj.pos@[id.0] as int;
                    assert(adj.ids@[i] == id);
                }
            }
        }
        // Add the polylines that have no clear start or end.
        let mut k: usize = 0;
        while k < n
            invariant
                k <= n,
                n == adj.ids@.len(),
                h == half_edges(edges@),
                edges@.len() <= 0x1_0000_0000,
                adj.wf(h),
                adj.closed(),
                junctions_covered(r.membership@, h),
                state_inv(r.membership@, r@, h, None),
                forall|i: int|
                    0 <= i < n && adj.nbrs@[i]@.len() != 2 ==> node_covered(
                        r.membership@,
                        h,
                        #[trigger] adj.ids@[i],
                    ),
                forall|i: int|
                    0 <= i < k && adj.nbrs@[i]@.len() == 2 ==> node_covered(
                        r.membership@,
                        h,
                        #[trigger] adj.ids@[i],
                    ),
            decreases n - k,
        {
            let ghost start = adj.ids@[k as int];
            proof {
                adj.lemma_node(h, k as int);
            }
            if adj.nbrs[k].len() == 2 {
                let ghost at_entry = r.membership@;
                proof {
                    lemma_state_set_apart(r.membership@, r@, h, start);
                }
                r.follow(&adj, Ghost(edges@), k, 0);
                let ghost middle = r.membership@;
                proof {
                    lemma_junctions_covered_kept(at_entry, middle, h);
                }
                r.follow(&adj, Ghost(edges@), k, 1);
                proof {
                    lemma_junctions_covered_kept(middle, r.membership@, h);
                    assert(covered(middle, start, neighbors(h, start)[0]));
                    assert forall|t: int| 0 <= t < neighbors(h, start).len() implies covered(
                        r.membership@,
                        start,
                        #[trigger] neighbors(h, start)[t],
                    ) by {}
                    lemma_state_settled(r.membership@, r@, h, start);
                    assert forall|i: int| 0 <= i < n && i != k && node_covered(
                        at_entry,
                        h,
                        adj.ids@[i],
                    ) implies node_covered(r.membership@, h, #[trigger] adj.ids@[i]) by {
                        lemma_node_covered_kept(at_entry, r.membership@, h, adj.ids@[i]);
                    }
                }
            }
            k += 1;
        }
        proof {
            assert(edges@ == net@.full_edges());
            adj.lemma_all_covered(r.membership@, h);
            r.lemma_built_lines(h);
            r.lemma_built_filed(h);
            r.lemma_built_steps(h);
        }
        r
    }

    /// The number of polylines.
    pub fn len(&self) -> (n: usize)
        ensures
            n == self@.len(),
    {
        self.polylines.len()
    }

    /// The points of the polyline at position `i`.
    pub fn points(&self, i: usize) -> (r: &Vec<PolyPoint>)
        requires
            i < self@.len(),
        ensures
            r@ == self@[i as int],
    {
        &self.polylines[i].points
    }

    /// The polyline that an edge is found under passes along that edge, one
    /// way or the other.
    pub proof fn lemma_lookup(&self, u: OsmNodeId, v: OsmNodeId)
        requires
            self.wf(),
        ensures
            match self.lookup(u, v) {
                Some(i) => i < self@.len() && (has_segment(self@[i as int], u, v) || has_segment(
                    self@[i as int],
                    v,
                    u,
                )),
                None => true,
            },
    {
        match self.lookup(u, v) {
            Some(i) => {
                assert(self@[i as int] == self.polylines@[i as int].points@);
                if self.membership@.contains_key(edge_key(u, v)) {
                    lemma_filed_segment(self@[i as int], u, v);
                } else {
                    lemma_filed_segment(self@[i as int], v, u);
                }
            },
            None => {},
        }
    }

    /// Writes the polylines as a GeoJSON collection: each polyline becomes a
    /// line with its position in the collection as the property `id`.
    pub fn write_to_geojson(&self) -> (r: String)
        ensures
            r@ == polylines_geojson(self@),
    {
        let mut writer = GeoJsonWriter::new();
        let mut i: usize = 0;
        while i < self.polylines.len()
            invariant
                i <= self.polylines@.len(),
                writer.text() == collection_head() + polyline_features(self@, i as nat),
                writer.is_first() == (i == 0),
                !writer.open(),
            decreases self.polylines.len() - i,
        {
            let ghost before = writer.text();
            self.polylines[i].write_feature(&mut writer, i);
            proof {
                assert(self@[i as int] == self.polylines@[i as int].points@);
                if i == 0 {
                    assert(writer.text() =~= before + polyline_feature(self@[0], 0));
                } else {
                    assert(writer.text() =~= before + ","@ + polyline_feature(self@[i as int], i as nat));
                }
                assert(writer.text() =~= collection_head() + polyline_features(self@, (i + 1) as nat));
            }
            i += 1;
        }
        let text = writer.finish();
        assert(text@ =~= polylines_geojson(self@));
        text
    }

    /// Return the id of the polyline that contains the given edge: its
    /// position in `polylines`. The edge is looked for as given, then reversed.
    pub fn lookup_edge(&self, edge: (OsmNodeId, OsmNodeId)) -> (r: Option<u32>)
        requires
            self.wf(),
        ensures
            r == self.lookup(edge.0, edge.1),
            match r {
                Some(i) => i < self@.len() && (has_segment(self@[i as int], edge.0, edge.1)
                    || has_segment(self@[i as int], edge.1, edge.0)),
                None => true,
            },
    {
        let forth = make_edge_key(edge.0, edge.1);
        match self.membership.get(&forth) {
            Some(i) => {
                proof {
                    lemma_filed_segment(self.polylines@[*i as int].points@, edge.0, edge.1);
                }
                return Some(*i);
            },
            None => {},
        }
        let back = make_edge_key(edge.1, edge.0);
        match self.membership.get(&back) {
            Some(i) => {
                proof {
                    lemma_filed_segment(self.polylines@[*i as int].points@, edge.1, edge.0);
                }
                Some(*i)
            },
            None => None,
        }
    }

    /// Builds the polyline that starts at node `k` of `adj` and leaves it for
    /// its neighbour `j`, unless the edge between the two is filed already.
    #[verifier::rlimit(50)]
    fn follow(&mut self, adj: &Adjacency, Ghost(edges): Ghost<Seq<FullEdge>>, k: usize, j: usize)
        requires
            adj.wf(half_edges(edges)),
            adj.closed(),
            k < adj.ids@.len(),
            j < adj.nbrs@[k as int]@.len(),
            state_inv(
                old(self).membership@,
                old(self)@,
                half_edges(edges),
                Some(adj.ids@[k as int]),
            ),
            adj.nbrs@[k as int]@.len() != 2 || junctions_covered(
                old(self).membership@,
                half_edges(edges),
            ),
            edges.len() <= 0x1_0000_0000,
        ensures
            state_inv(
                final(self).membership@,
                final(self)@,
                half_edges(edges),
                Some(adj.ids@[k as int]),
            ),
            grown(old(self).membership@, final(self).membership@),
            covered(final(self).membership@, adj.ids@[k as int], adj.nbrs@[k as int]@[j as int]),
    {
        let ghost h = half_edges(edges);
        let ghost filed_before = self.membership@;
        let ghost lines_before = self@;
        let first_id = adj.ids[k];
        let second_id = adj.nbrs[k][j];
        let forth = make_edge_key(first_id, second_id);
        let back = make_edge_key(second_id, first_id);
        if self.membership.contains_key(&forth) || self.membership.contains_key(&back) {
            return ;
        }
        proof {
            adj.lemma_node(h, k as int);
            lemma_neighbors_linked(h, first_id, j as int);
            lemma_room(edges, filed_before, lines_before, Some(first_id), first_id, second_id);
            assert(lines_before.len() == self.polylines@.len());
        }
        let poly_id: u32 = self.polylines.len() as u32;
        let mut set: HashSet<i64> = HashSet::new();
        set.insert(first_id.0);
        let mut points: Vec<PolyPoint> = Vec::new();
        points.push(PolyPoint { id: first_id, point: adj.points[k] });
        let mut prev_id = first_id;
        let mut cur: usize = match adj.pos.get(&second_id.0) {
            Some(c) => *c,
            None => {
                return ;
            },
        };
        proof {
            adj.lemma_node(h, k as int);
            lemma_neighbors_linked(h, first_id, j as int);
            assert(second_id == OsmNodeId(second_id.0));
            let probe = first_at(h, OsmNodeId(second_id.0));
            assert(poly_id == lines_before.len());
            lemma_walk_start(
                h,
                filed_before,
                lines_before,
                set@,
                adj.pos@.dom(),
                points@,
                poly_id,
                first_id,
                second_id,
            );
        }
        loop
            invariant_except_break
                cur < adj.ids@.len(),
                walk_points(h, points@),
                walk_set(set@, adj.pos@.dom(), points@),
                walk_pending(
                    h,
                    filed_before,
                    self.membership@,
                    points@,
                    prev_id,
                    adj.ids@[cur as int],
                    first_id,
                    second_id,
                ),
            invariant
                h == half_edges(edges),
                adj.wf(h),
                adj.closed(),
                self@ == lines_before,
                poly_id == self.polylines@.len(),
                poly_id == lines_before.len(),
                state_inv(filed_before, lines_before, h, Some(first_id)),
                degree(h, first_id) != 2 || junctions_covered(filed_before, h),
                set@.finite(),
                walk_filed(h, filed_before, self.membership@, lines_before, poly_id, points@),
            ensures
                is_polyline(h, points@),
                points@[0].id == first_id,
                self.membership@.contains_key(edge_key(first_id, second_id)),
            decreases adj.pos@.dom().len() - set@.len(),
        {
            let ghost before = points@;
            let ghost members = self.membership@;
            let cur_id = adj.ids[cur];
            proof {
                adj.lemma_node(h, cur as int);
            }
            let point = PolyPoint { id: cur_id, point: adj.points[cur] };
            points.push(point);
            self.membership.insert(make_edge_key(prev_id, cur_id), poly_id);
            proof {
                assert(self@ =~= lines_before);
                lemma_walk_push(
                    h,
                    filed_before,
                    members,
                    self.membership@,
                    lines_before,
                    poly_id,
                    before,
                    points@,
                    prev_id,
                    point,
                    first_id,
                    second_id,
                );
            }
            if adj.nbrs[cur].len() != 2 {
                proof {
                    lemma_walk_ends(
                        edges,
                        filed_before,
                        self.membership@,
                        lines_before,
                        poly_id,
                        points@,
                        None,
                    );
                }
                break ;
            }
            if set.contains(&cur_id.0) {
                proof {
                    reveal(walk_set);
                    let s = choose|s: int|
                        0 <= s < before.len() && (#[trigger] before[s]).id.0 == cur_id.0;
                    assert(points@[s] == before[s]);
                    lemma_walk_ends(
                        edges,
                        filed_before,
                        self.membership@,
                        lines_before,
                        poly_id,
                        points@,
                        Some(s),
                    );
                }
                break ;
            }
            let ghost seen = set@;
            set.insert(cur_id.0);
            let n0 = adj.nbrs[cur][0];
            let n1 = adj.nbrs[cur][1];
            let next_id = if n0 == prev_id {
                n1
            } else {
                n0
            };
            proof {
                let slot: int = if n0 == prev_id {
                    1
                } else {
                    0
                };
                assert(next_id == adj.nbrs@[cur as int]@[slot]);
                assert(adj.pos@.contains_key(next_id.0));
                lemma_walk_advance(
                    edges,
                    filed_before,
                    members,
                    self.membership@,
                    lines_before,
                    seen,
                    set@,
                    adj.pos@.dom(),
                    before,
                    points@,
                    prev_id,
                    point,
                    next_id,
                    first_id,
                    second_id,
                );
            }
            prev_id = cur_id;
            cur = match adj.pos.get(&next_id.0) {
                Some(c) => *c,
                None => {
                    break ;
                },
            };
            proof {
                assert(next_id == OsmNodeId(next_id.0));
                let probe = first_at(h, OsmNodeId(next_id.0));
                assert(adj.ids@[cur as int] == next_id);
            }
        }
        let ghost line = points@;
        self.polylines.push(Polyline { points });
        proof {
            assert(self@ =~= lines_before.push(line));
            lemma_walk_done(
                edges,
                filed_before,
                self.membership@,
                lines_before,
                self@,
                line,
                poly_id,
                first_id,
                second_id,
            );
        }
    }
}

} // verus!
