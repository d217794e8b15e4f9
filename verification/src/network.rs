//! The road network: nodes, directed edges, and a traffic counter per edge.

use std::collections::HashMap;
use vstd::prelude::*;

use crate::geo::{BoundingBox, GeoPoint};
use crate::geojson_writer::{
    collection_head, collection_tail, decimal, feature_tail, format_number, line_head, line_tail,
    positions, property, GeoJsonWriter,
};
use crate::polyline::{half_edges, PolylineCollection};

verus! {

/// Identifier of a node in the OpenStreetMap data set.
#[derive(Copy, Clone, Debug, PartialEq, Eq, Hash, Structural)]
pub struct OsmNodeId(pub i64);

/// Position of a node in the network's list of nodes.
#[derive(Copy, Clone, Debug, PartialEq, Eq, Hash, Structural)]
pub struct NodeId(pub u32);

/// Position of an edge in the network's list of edges.
#[derive(Copy, Clone, Debug, PartialEq, Eq, Hash, Structural)]
pub struct EdgeId(pub u32);

/// A node of the road network. Its position is kept in millionths of a degree.
#[derive(Copy, Clone, Debug, PartialEq, Eq, Hash, Structural)]
pub struct Node {
    pub osm_node_id: OsmNodeId,
    pub raw_lat: i32,
    pub raw_lon: i32,
}

/// A directed edge between two nodes of the network.
#[derive(Copy, Clone, Debug, PartialEq, Eq, Hash, Structural)]
pub struct Edge {
    pub source_node_id: NodeId,
    pub target_node_id: NodeId,
    /// Number of routes that passed through this edge.
    pub number: usize,
}

/// An edge together with the nodes at its two ends.
#[derive(Copy, Clone, Debug, PartialEq, Eq, Structural)]
pub struct FullEdge {
    /// First point.
    pub a: Node,
    /// Second point.
    pub b: Node,
    /// Number of routes that passed through this edge.
    pub number: usize,
}

/// Why a network could not be built or extended.
#[derive(Copy, Clone, Debug, PartialEq, Eq, Structural)]
pub enum NetworkError {
    /// The position of a node would not fit in 32 bits.
    TooManyNodes,
    /// The position of an edge would not fit in 32 bits.
    TooManyEdges,
    /// An edge names a node that the network does not hold.
    UnknownNode,
}

/// The road network. Nodes and edges are only ever appended; of an edge only
/// the counter changes.
pub struct Network {
    nodes_vec: Vec<Node>,
    edges_vec: Vec<Edge>,
    /// From the two ends of an edge, packed into one key, to the edge's position.
    edges_map: HashMap<u64, u32>,
    /// From an OpenStreetMap identifier to the node's position.
    osm_2_node_id: HashMap<i64, u32>,
}

/// What a network holds: its nodes and its edges, each in insertion order.
pub struct NetworkView {
    pub nodes: Seq<Node>,
    pub edges: Seq<Edge>,
}

/// The position of the last node in `nodes` that carries `id`.
pub open spec fn last_node(nodes: Seq<Node>, id: OsmNodeId) -> Option<int>
    decreases nodes.len(),
{
    if nodes.len() == 0 {
        None
    } else if nodes.last().osm_node_id == id {
        Some(nodes.len() - 1)
    } else {
        last_node(nodes.drop_last(), id)
    }
}

/// The position of the last edge in `edges` that leads from `a` to `b`.
pub open spec fn last_edge(edges: Seq<Edge>, a: NodeId, b: NodeId) -> Option<int>
    decreases edges.len(),
{
    if edges.len() == 0 {
        None
    } else if edges.last().source_node_id == a && edges.last().target_node_id == b {
        Some(edges.len() - 1)
    } else {
        last_edge(edges.drop_last(), a, b)
    }
}

/// What `last_node` finds: a node with that identifier, after which none
/// other carries it; and nothing only where no node carries it.
pub proof fn lemma_last_node(nodes: Seq<Node>, id: OsmNodeId)
    ensures
        match last_node(nodes, id) {
            Some(i) => 0 <= i < nodes.len() && nodes[i].osm_node_id == id && forall|j: int|
                i < j < nodes.len() ==> (#[trigger] nodes[j]).osm_node_id != id,
            None => forall|j: int| 0 <= j < nodes.len() ==> (#[trigger] nodes[j]).osm_node_id != id,
        },
    decreases nodes.len(),
{
    if nodes.len() > 0 && nodes.last().osm_node_id != id {
        let front = nodes.drop_last();
        lemma_last_node(front, id);
        assert forall|j: int| 0 <= j < front.len() implies front[j] == nodes[j] by {}
        match last_node(front, id) {
            Some(i) => {
                assert forall|j: int| i < j < nodes.len() implies (#[trigger] nodes[j]).osm_node_id
                    != id by {
                    if j < front.len() {
                        assert(front[j] == nodes[j]);
                    }
                }
            },
            None => {
                assert forall|j: int| 0 <= j < nodes.len() implies (#[trigger] nodes[j]).osm_node_id
                    != id by {
                    if j < front.len() {
                        assert(front[j] == nodes[j]);
                    }
                }
            },
        }
    }
}

/// What `last_edge` finds: an edge from `a` to `b`, after which there is no
/// other; and nothing only where no edge leads from `a` to `b`.
pub proof fn lemma_last_edge(edges: Seq<Edge>, a: NodeId, b: NodeId)
    ensures
        match last_edge(edges, a, b) {
            Some(i) => 0 <= i < edges.len() && edges[i].source_node_id == a
                && edges[i].target_node_id == b && forall|j: int|
                i < j < edges.len() ==> !((#[trigger] edges[j]).source_node_id == a
                    && edges[j].target_node_id == b),
            None => forall|j: int|
                0 <= j < edges.len() ==> !((#[trigger] edges[j]).source_node_id == a
                    && edges[j].target_node_id == b),
        },
    decreases edges.len(),
{
    if edges.len() > 0 && !(edges.last().source_node_id == a && edges.last().target_node_id == b) {
        let front = edges.drop_last();
        lemma_last_edge(front, a, b);
        match last_edge(front, a, b) {
            Some(i) => {
                assert forall|j: int| i < j < edges.len() implies !((#[trigger] edges[j]).source_node_id
                    == a && edges[j].target_node_id == b) by {
                    if j < front.len() {
                        assert(front[j] == edges[j]);
                    }
                }
            },
            None => {
                assert forall|j: int| 0 <= j < edges.len() implies !((#[trigger] edges[j]).source_node_id
                    == a && edges[j].target_node_id == b) by {
                    if j < front.len() {
                        assert(front[j] == edges[j]);
                    }
                }
            },
        }
    }
}

impl NetworkView {
    /// The positions of all nodes and edges fit in 32 bits, and every edge
    /// joins two nodes of the network.
    pub open spec fn wf(self) -> bool {
        &&& self.nodes.len() <= 0x1_0000_0000
        &&& self.edges.len() <= 0x1_0000_0000
        &&& forall|i: int|
            0 <= i < self.edges.len() ==> (#[trigger] self.edges[i]).source_node_id.0
                < self.nodes.len() && self.edges[i].target_node_id.0 < self.nodes.len()
    }

    /// The position of the node that `id` stands for.
    pub open spec fn node_of(self, id: OsmNodeId) -> Option<int> {
        last_node(self.nodes, id)
    }

    /// The position of the edge that leads from node `a` to node `b`.
    pub open spec fn edge_of(self, a: NodeId, b: NodeId) -> Option<int> {
        last_edge(self.edges, a, b)
    }

    /// The edge that a route travelling from `u` to `v` is counted on: the
    /// edge from `u` to `v`, else the edge from `v` to `u`, else none.
    pub open spec fn edge_between(self, u: OsmNodeId, v: OsmNodeId) -> Option<int> {
        match (self.node_of(u), self.node_of(v)) {
            (Some(a), Some(b)) => match self.edge_of(NodeId(a as u32), NodeId(b as u32)) {
                Some(e) => Some(e),
                None => self.edge_of(NodeId(b as u32), NodeId(a as u32)),
            },
            _ => None,
        }
    }

    /// The network after one more route has passed through edge `e`.
    pub open spec fn bump_edge(self, e: int) -> NetworkView {
        NetworkView {
            nodes: self.nodes,
            edges: self.edges.update(
                e,
                Edge {
                    source_node_id: self.edges[e].source_node_id,
                    target_node_id: self.edges[e].target_node_id,
                    number: next_count(self.edges[e].number),
                },
            ),
        }
    }

    /// The network after a route has travelled from `u` to `v`: the edge
    /// between the two, if there is one, has counted it.
    pub open spec fn bump(self, u: OsmNodeId, v: OsmNodeId) -> NetworkView {
        match self.edge_between(u, v) {
            Some(e) => self.bump_edge(e),
            None => self,
        }
    }

    /// The network after a route has travelled along `path`: each pair of
    /// consecutive nodes is counted in turn, from the start of the path.
    pub open spec fn bump_path(self, path: Seq<OsmNodeId>) -> NetworkView
        decreases path.len(),
    {
        if path.len() < 2 {
            self
        } else {
            self.bump_path(path.drop_last()).bump(path[path.len() - 2], path[path.len() - 1])
        }
    }

    /// How often a route along `path` is counted on edge `e`.
    pub open spec fn traversals(self, path: Seq<OsmNodeId>, e: int) -> nat
        decreases path.len(),
    {
        if path.len() < 2 {
            0
        } else {
            self.traversals(path.drop_last(), e) + if self.edge_between(
                path[path.len() - 2],
                path[path.len() - 1],
            ) == Some(e) {
                1nat
            } else {
                0nat
            }
        }
    }

    /// Edge `i` with its two nodes.
    pub open spec fn full_edge(self, i: int) -> FullEdge {
        FullEdge {
            a: self.nodes[self.edges[i].source_node_id.0 as int],
            b: self.nodes[self.edges[i].target_node_id.0 as int],
            number: self.edges[i].number,
        }
    }

    /// All edges with their nodes, in insertion order.
    pub open spec fn full_edges(self) -> Seq<FullEdge> {
        Seq::new(self.edges.len(), |i: int| self.full_edge(i))
    }

    /// The positions of the two ends of every edge: those of the first edge,
    /// then those of the second, and so on.
    pub open spec fn endpoints(self) -> Seq<GeoPoint> {
        Seq::new(
            2 * self.edges.len(),
            |k: int|
                if k % 2 == 0 {
                    self.full_edge(k / 2).a.point()
                } else {
                    self.full_edge(k / 2).b.point()
                },
        )
    }

    /// Edge `i` as a feature of a GeoJSON collection: a line from its first
    /// node to its second, with its counter as the property `number`.
    pub open spec fn edge_feature(self, i: int) -> Seq<char> {
        self.full_edge(i).feature()
    }

    /// A route has passed through one of the first `n` edges.
    pub open spec fn counted_before(self, n: int) -> bool {
        exists|k: int| 0 <= k < n && (#[trigger] self.edges[k]).number > 0
    }

    /// Those of the first `n` edges that a route has passed through, as
    /// features of a GeoJSON collection, with commas between them.
    pub open spec fn edge_features(self, n: nat) -> Seq<char>
        decreases n,
    {
        if n == 0 {
            Seq::empty()
        } else if self.edges[n - 1].number == 0 {
            self.edge_features((n - 1) as nat)
        } else if self.counted_before(n - 1) {
            self.edge_features((n - 1) as nat) + ","@ + self.edge_feature(n - 1)
        } else {
            self.edge_features((n - 1) as nat) + self.edge_feature(n - 1)
        }
    }

    /// The network as a GeoJSON collection of the edges that a route has
    /// passed through.
    pub open spec fn geojson(self) -> Seq<char> {
        collection_head() + self.edge_features(self.edges.len()) + collection_tail()
    }

    /// Whether edge `i` is drawn before edge `j`: edges are drawn in the
    /// order of their counters, the lightest first, and edges with equal
    /// counters in the order in which they were inserted.
    pub open spec fn draws_before(self, i: int, j: int) -> bool {
        self.edges[i].number < self.edges[j].number || (self.edges[i].number
            == self.edges[j].number && i < j)
    }
}

/// A counter after one more route. A counter that has reached the largest
/// value it can hold stays there.
pub open spec fn next_count(n: usize) -> usize {
    if n < usize::MAX {
        (n + 1) as usize
    } else {
        n
    }
}

/// Those of `edges` that at least one route has passed through, in their
/// order.
pub open spec fn counted_edges(edges: Seq<FullEdge>) -> Seq<FullEdge>
    decreases edges.len(),
{
    if edges.len() == 0 {
        Seq::empty()
    } else if edges.last().number > 0 {
        counted_edges(edges.drop_last()).push(edges.last())
    } else {
        counted_edges(edges.drop_last())
    }
}

/// A counter after `times` more routes.
pub open spec fn counted(n: usize, times: nat) -> usize {
    if n + times <= usize::MAX {
        (n + times) as usize
    } else {
        usize::MAX
    }
}

/// The edges of a network that no route has passed through yet, from the ends
/// of each.
pub open spec fn fresh_edges(ends: Seq<(NodeId, NodeId)>) -> Seq<Edge> {
    Seq::new(
        ends.len(),
        |i: int| Edge { source_node_id: ends[i].0, target_node_id: ends[i].1, number: 0 },
    )
}

/// Every edge joins two of the first `n` nodes.
pub open spec fn ends_known(ends: Seq<(NodeId, NodeId)>, n: nat) -> bool {
    forall|i: int| 0 <= i < ends.len() ==> (#[trigger] ends[i]).0.0 < n && ends[i].1.0 < n
}

/// Two lists of edges with the same ends, edge by edge.
pub open spec fn same_ends(x: Seq<Edge>, y: Seq<Edge>) -> bool {
    &&& x.len() == y.len()
    &&& forall|i: int|
        0 <= i < x.len() ==> (#[trigger] x[i]).source_node_id == y[i].source_node_id
            && x[i].target_node_id == y[i].target_node_id
}

proof fn lemma_last_edge_same_ends(x: Seq<Edge>, y: Seq<Edge>, a: NodeId, b: NodeId)
    requires
        same_ends(x, y),
    ensures
        last_edge(x, a, b) == last_edge(y, a, b),
    decreases x.len(),
{
    if x.len() > 0 {
        assert(x.last().source_node_id == y.last().source_node_id);
        assert(x.last().target_node_id == y.last().target_node_id);
        let xf = x.drop_last();
        let yf = y.drop_last();
        assert forall|i: int| 0 <= i < xf.len() implies (#[trigger] xf[i]).source_node_id
            == yf[i].source_node_id && xf[i].target_node_id == yf[i].target_node_id by {
            assert(xf[i] == x[i]);
            assert(yf[i] == y[i]);
        }
        lemma_last_edge_same_ends(xf, yf, a, b);
    }
}

/// Counting routes changes neither the nodes nor the ends of an edge, and so
/// not the edge on which a route between two nodes is counted.
pub proof fn lemma_edge_between_stable(x: NetworkView, y: NetworkView, u: OsmNodeId, v: OsmNodeId)
    requires
        x.nodes == y.nodes,
        same_ends(x.edges, y.edges),
    ensures
        x.edge_between(u, v) == y.edge_between(u, v),
{
    match (x.node_of(u), x.node_of(v)) {
        (Some(a), Some(b)) => {
            lemma_last_edge_same_ends(x.edges, y.edges, NodeId(a as u32), NodeId(b as u32));
            lemma_last_edge_same_ends(x.edges, y.edges, NodeId(b as u32), NodeId(a as u32));
        },
        _ => {},
    }
}

/// A route along `path` leaves the nodes and the ends of the edges as they
/// are, and raises the counter of each edge by the number of times that the
/// route passes through it, in either direction. Pairs of nodes that no edge
/// joins raise no counter, and no counter ever falls.
#[verifier::rlimit(50)]
pub proof fn lemma_bump_path_counts(net: NetworkView, path: Seq<OsmNodeId>)
    ensures
        net.bump_path(path).nodes == net.nodes,
        same_ends(net.bump_path(path).edges, net.edges),
        forall|e: int|
            0 <= e < net.edges.len() ==> (#[trigger] net.bump_path(path).edges[e]).number == counted(
                net.edges[e].number,
                net.traversals(path, e),
            ) && net.bump_path(path).edges[e].number >= net.edges[e].number,
    decreases path.len(),
{
    if path.len() >= 2 {
        let front = path.drop_last();
        let u = path[path.len() - 2];
        let v = path[path.len() - 1];
        lemma_bump_path_counts(net, front);
        let mid = net.bump_path(front);
        lemma_edge_between_stable(mid, net, u, v);
        match mid.edge_between(u, v) {
            Some(hit) => {
                match (mid.node_of(u), mid.node_of(v)) {
                    (Some(a), Some(b)) => {
                        lemma_last_edge(mid.edges, NodeId(a as u32), NodeId(b as u32));
                        lemma_last_edge(mid.edges, NodeId(b as u32), NodeId(a as u32));
                    },
                    _ => {},
                }
                let after = mid.bump_edge(hit);
                assert(after == net.bump_path(path));
                assert forall|e: int| 0 <= e < net.edges.len() implies (#[trigger] after.edges[e]).number
                    == counted(net.edges[e].number, net.traversals(path, e)) by {
                    assert(mid.edges[e].number == counted(
                        net.edges[e].number,
                        net.traversals(front, e),
                    ));
                }
                assert forall|i: int| 0 <= i < after.edges.len() implies (
                #[trigger] after.edges[i]).source_node_id == net.edges[i].source_node_id
                    && after.edges[i].target_node_id == net.edges[i].target_node_id by {
                    assert(mid.edges[i].source_node_id == net.edges[i].source_node_id);
                }
            },
            None => {
                assert forall|e: int| 0 <= e < net.edges.len() implies (#[trigger] mid.edges[e]).number
                    == counted(net.edges[e].number, net.traversals(path, e)) by {}
            },
        }
    }
}

/// A route over three nodes is counted on the edge between the first two and
/// on the edge between the last two, once on each. Where both pairs have the
/// same edge between them, that edge counts the route twice.
pub proof fn lemma_bump_three(net: NetworkView, u: OsmNodeId, v: OsmNodeId, w: OsmNodeId)
    ensures
        net.bump_path(seq![u, v, w]) == net.bump(u, v).bump(v, w),
        net.bump(u, v).edge_between(v, w) == net.edge_between(v, w),
        forall|e: int|
            0 <= e < net.edges.len() ==> (#[trigger] net.bump(u, v).bump(v, w).edges[e]).number
                == counted(
                net.edges[e].number,
                (if net.edge_between(u, v) == Some(e) {
                    1nat
                } else {
                    0nat
                }) + (if net.edge_between(v, w) == Some(e) {
                    1nat
                } else {
                    0nat
                }),
            ),
{
    let path = seq![u, v, w];
    let two = path.drop_last();
    let one = two.drop_last();
    assert(two =~= seq![u, v]);
    assert(one =~= seq![u]);
    assert(net.bump_path(one) == net);
    assert(net.bump_path(two) == net.bump(u, v));
    lemma_bump_path_counts(net, two);
    lemma_edge_between_stable(net.bump(u, v), net, v, w);
    lemma_bump_path_counts(net, path);
    assert forall|e: int| 0 <= e < net.edges.len() implies net.traversals(path, e) == (if net.edge_between(
        u,
        v,
    ) == Some(e) {
        1nat
    } else {
        0nat
    }) + (if net.edge_between(v, w) == Some(e) {
        1nat
    } else {
        0nat
    }) by {
        assert(net.traversals(one, e) == 0);
        assert(net.traversals(two, e) == net.traversals(one, e) + if net.edge_between(u, v) == Some(
            e,
        ) {
            1nat
        } else {
            0nat
        });
    }
}

/// The way a route travels along an edge plays no part: where a route from
/// `u` to `v` is counted on some edge, so is a route from `v` to `u`; and
/// where only one edge joins the two nodes, both are counted on that edge.
pub proof fn lemma_edge_between_reversed(net: NetworkView, u: OsmNodeId, v: OsmNodeId)
    ensures
        net.edge_between(u, v) is Some <==> net.edge_between(v, u) is Some,
        match (net.node_of(u), net.node_of(v)) {
            (Some(a), Some(b)) => net.edge_of(NodeId(a as u32), NodeId(b as u32)) is None
                || net.edge_of(NodeId(b as u32), NodeId(a as u32)) is None ==> net.edge_between(u, v)
                == net.edge_between(v, u),
            _ => true,
        },
{
}

/// The key under which the edge from `a` to `b` is filed.
pub open spec fn pair_key(a: NodeId, b: NodeId) -> u64 {
    (a.0 as int * 0x1_0000_0000 + b.0 as int) as u64
}

fn make_pair_key(a: NodeId, b: NodeId) -> (k: u64)
    ensures
        k == pair_key(a, b),
{
    (a.0 as u64) * 0x1_0000_0000u64 + (b.0 as u64)
}

proof fn lemma_pair_key_injective(a: NodeId, b: NodeId, c: NodeId, d: NodeId)
    requires
        pair_key(a, b) == pair_key(c, d),
    ensures
        a == c,
        b == d,
{
}

impl View for Network {
    type V = NetworkView;

    closed spec fn view(&self) -> NetworkView {
        NetworkView { nodes: self.nodes_vec@, edges: self.edges_vec@ }
    }
}

impl Node {
    /// A node from its identifier and its position in millionths of a degree.
    pub fn new(osm_node_id: OsmNodeId, raw_lat: i32, raw_lon: i32) -> (n: Self)
        ensures
            n.osm_node_id == osm_node_id,
            n.raw_lat == raw_lat,
            n.raw_lon == raw_lon,
    {
        Node { osm_node_id, raw_lat, raw_lon }
    }

    /// Where the node lies.
    pub open spec fn point(self) -> GeoPoint {
        GeoPoint { raw_lat: self.raw_lat, raw_lon: self.raw_lon }
    }

    /// The node's geographic position.
    pub fn as_point4326(&self) -> (p: GeoPoint)
        ensures
            p == self.point(),
    {
        GeoPoint { raw_lat: self.raw_lat, raw_lon: self.raw_lon }
    }
}

impl FullEdge {
    /// The edge as a feature of a GeoJSON collection: a line from its first
    /// node to its second, with its counter as the property `number`.
    pub open spec fn feature(self) -> Seq<char> {
        line_head() + positions(seq![self.a.point(), self.b.point()]) + line_tail() + property(
            "number"@,
            decimal(self.number as nat),
        ) + feature_tail()
    }

    /// Writes the edge as a feature of a GeoJSON collection.
    pub fn write_feature(&self, writer: &mut GeoJsonWriter)
        ensures
            final(writer).text() == old(writer).text() + old(writer).lead() + self.feature(),
            !final(writer).open(),
            !final(writer).is_first(),
    {
        let mut coords: Vec<GeoPoint> = Vec::new();
        coords.push(self.a.as_point4326());
        coords.push(self.b.as_point4326());
        assert(coords@ =~= seq![self.a.point(), self.b.point()]);
        let number = format_number(self.number as u64);
        let mut ls = writer.add_line_string(coords.as_slice());
        ls.add_property("number", number.as_str());
        ls.finish();
        assert(writer.text() =~= old(writer).text() + old(writer).lead() + self.feature());
    }

    /// The identifiers of the two ends.
    pub fn osm_ids(&self) -> (r: (OsmNodeId, OsmNodeId))
        ensures
            r == (self.a.osm_node_id, self.b.osm_node_id),
    {
        (self.a.osm_node_id, self.b.osm_node_id)
    }
}

impl Network {
    /// The two lookup tables agree with the lists of nodes and edges.
    pub closed spec fn indexed(&self) -> bool {
        &&& self.nodes_vec.len() <= 0x1_0000_0000
        &&& self.edges_vec.len() <= 0x1_0000_0000
        &&& forall|id: i64|
            match #[trigger] last_node(self.nodes_vec@, OsmNodeId(id)) {
                Some(i) => self.osm_2_node_id@.contains_key(id) && self.osm_2_node_id@[id] == i,
                None => !self.osm_2_node_id@.contains_key(id),
            }
        &&& forall|a: NodeId, b: NodeId|
            match #[trigger] last_edge(self.edges_vec@, a, b) {
                Some(i) => self.edges_map@.contains_key(pair_key(a, b)) && self.edges_map@[pair_key(
                    a,
                    b,
                )] == i,
                None => !self.edges_map@.contains_key(pair_key(a, b)),
            }
    }

    /// The invariant of a network: its edges join nodes that it holds, and
    /// its lookup tables are up to date.
    pub open spec fn wf(&self) -> bool {
        self@.wf() && self.indexed()
    }

    /// A network without nodes and edges.
    pub fn new() -> (net: Self)
        ensures
            net.wf(),
            net@.nodes.len() == 0,
            net@.edges.len() == 0,
    {
        Network {
            nodes_vec: Vec::new(),
            edges_vec: Vec::new(),
            edges_map: HashMap::new(),
            osm_2_node_id: HashMap::new(),
        }
    }

    /// Appends a node. A node with an identifier that the network already
    /// holds takes that identifier over.
    pub fn add_node(&mut self, node: Node) -> (r: Result<NodeId, NetworkError>)
        requires
            old(self).wf(),
        ensures
            final(self).wf(),
            match r {
                Ok(id) => {
                    &&& old(self)@.nodes.len() <= u32::MAX
                    &&& id.0 == old(self)@.nodes.len()
                    &&& final(self)@.nodes == old(self)@.nodes.push(node)
                    &&& final(self)@.edges == old(self)@.edges
                },
                Err(e) => {
                    &&& e == NetworkError::TooManyNodes
                    &&& old(self)@.nodes.len() > u32::MAX
                    &&& final(self)@ == old(self)@
                },
            },
    {
        let n: usize = self.nodes_vec.len();
        if n as u64 > 0xffff_ffffu64 {
            return Err(NetworkError::TooManyNodes);
        }
        let index: u32 = n as u32;
        self.osm_2_node_id.insert(node.osm_node_id.0, index);
        self.nodes_vec.push(node);
        proof {
            let before = old(self).nodes_vec@;
            let after = self.nodes_vec@;
            assert(after.drop_last() == before);
            assert forall|id: i64|
                match #[trigger] last_node(after, OsmNodeId(id)) {
                    Some(i) => self.osm_2_node_id@.contains_key(id) && self.osm_2_node_id@[id] == i,
                    None => !self.osm_2_node_id@.contains_key(id),
                } by {
                if id != node.osm_node_id.0 {
                    assert(last_node(after, OsmNodeId(id)) == last_node(before, OsmNodeId(id)));
                }
            }
            assert forall|i: int| 0 <= i < self.edges_vec@.len() implies (
            #[trigger] self@.edges[i]).source_node_id.0 < self@.nodes.len()
                && self@.edges[i].target_node_id.0 < self@.nodes.len() by {
                assert(old(self)@.edges[i] == self@.edges[i]);
            }
        }
        Ok(NodeId(index))
    }

    /// Appends an edge from `source` to `target`, with its counter at zero.
    pub fn add_edge(&mut self, source: NodeId, target: NodeId) -> (r: Result<EdgeId, NetworkError>)
        requires
            old(self).wf(),
        ensures
            final(self).wf(),
            match r {
                Ok(id) => {
                    &&& source.0 < old(self)@.nodes.len()
                    &&& target.0 < old(self)@.nodes.len()
                    &&& old(self)@.edges.len() <= u32::MAX
                    &&& id.0 == old(self)@.edges.len()
                    &&& final(self)@.nodes == old(self)@.nodes
                    &&& final(self)@.edges == old(self)@.edges.push(
                        Edge { source_node_id: source, target_node_id: target, number: 0 },
                    )
                },
                Err(NetworkError::UnknownNode) => {
                    &&& source.0 >= old(self)@.nodes.len() || target.0 >= old(self)@.nodes.len()
                    &&& final(self)@ == old(self)@
                },
                Err(NetworkError::TooManyEdges) => {
                    &&& source.0 < old(self)@.nodes.len()
                    &&& target.0 < old(self)@.nodes.len()
                    &&& old(self)@.edges.len() > u32::MAX
                    &&& final(self)@ == old(self)@
                },
                Err(NetworkError::TooManyNodes) => false,
            },
    {
        let n: usize = self.nodes_vec.len();
        if source.0 as u64 >= n as u64 || target.0 as u64 >= n as u64 {
            return Err(NetworkError::UnknownNode);
        }
        let m: usize = self.edges_vec.len();
        if m as u64 > 0xffff_ffffu64 {
            return Err(NetworkError::TooManyEdges);
        }
        let index: u32 = m as u32;
        let edge = Edge { source_node_id: source, target_node_id: target, number: 0 };
        self.edges_map.insert(make_pair_key(source, target), index);
        self.edges_vec.push(edge);
        proof {
            let before = old(self).edges_vec@;
            let after = self.edges_vec@;
            assert(after.drop_last() == before);
            assert forall|a: NodeId, b: NodeId|
                match #[trigger] last_edge(after, a, b) {
                    Some(i) => self.edges_map@.contains_key(pair_key(a, b))
                        && self.edges_map@[pair_key(a, b)] == i,
                    None => !self.edges_map@.contains_key(pair_key(a, b)),
                } by {
                if !(a == source && b == target) {
                    assert(last_edge(after, a, b) == last_edge(before, a, b));
                    if pair_key(a, b) == pair_key(source, target) {
                        lemma_pair_key_injective(a, b, source, target);
                    }
                }
            }
            assert forall|i: int| 0 <= i < after.len() implies (#[trigger] self@.edges[i]).source_node_id.0
                < self@.nodes.len() && self@.edges[i].target_node_id.0 < self@.nodes.len() by {
                if i < before.len() {
                    assert(old(self)@.edges[i] == self@.edges[i]);
                }
            }
        }
        Ok(EdgeId(index))
    }

    /// The node that `osm_node_id` stands for, if the network holds one.
    pub fn get_node(&self, osm_node_id: OsmNodeId) -> (r: Option<Node>)
        requires
            self.wf(),
        ensures
            r == match self@.node_of(osm_node_id) {
                Some(i) => Some(self@.nodes[i]),
                None => None,
            },
    {
        proof {
            lemma_last_node(self.nodes_vec@, osm_node_id);
            assert(osm_node_id == OsmNodeId(osm_node_id.0));
        }
        match self.osm_2_node_id.get(&osm_node_id.0) {
            Some(index) => Some(self.nodes_vec[*index as usize]),
            None => None,
        }
    }

    /// Counts a route that travels from `u` to `v`: on the edge from `u` to
    /// `v`, else on the edge from `v` to `u`. Where the network has neither,
    /// or does not know one of the two nodes, nothing changes.
    #[verifier::rlimit(50)]
    pub fn bump_edge(&mut self, u: OsmNodeId, v: OsmNodeId)
        requires
            old(self).wf(),
        ensures
            final(self).wf(),
            final(self)@ == old(self)@.bump(u, v),
    {
        proof {
            lemma_last_node(self.nodes_vec@, u);
            lemma_last_node(self.nodes_vec@, v);
            assert(u == OsmNodeId(u.0));
            assert(v == OsmNodeId(v.0));
        }
        let a: u32 = match self.osm_2_node_id.get(&u.0) {
            Some(a) => *a,
            None => {
                return ;
            },
        };
        let b: u32 = match self.osm_2_node_id.get(&v.0) {
            Some(b) => *b,
            None => {
                return ;
            },
        };
        proof {
            lemma_last_edge(self.edges_vec@, NodeId(a), NodeId(b));
            lemma_last_edge(self.edges_vec@, NodeId(b), NodeId(a));
        }
        let forward: Option<u32> = match self.edges_map.get(&make_pair_key(NodeId(a), NodeId(b))) {
            Some(e) => Some(*e),
            None => None,
        };
        let found: Option<u32> = match forward {
            Some(e) => Some(e),
            None => match self.edges_map.get(&make_pair_key(NodeId(b), NodeId(a))) {
                Some(e) => Some(*e),
                None => None,
            },
        };
        assert(match found {
            Some(e) => self@.edge_between(u, v) == Some(e as int),
            None => self@.edge_between(u, v) == None::<int>,
        });
        match found {
            Some(e) => {
                let edge = self.edges_vec[e as usize];
                let number: usize = if edge.number < usize::MAX {
                    edge.number + 1
                } else {
                    edge.number
                };
                self.edges_vec.set(
                    e as usize,
                    Edge {
                        source_node_id: edge.source_node_id,
                        target_node_id: edge.target_node_id,
                        number,
                    },
                );
                proof {
                    let before = old(self).edges_vec@;
                    let after = self.edges_vec@;
                    assert(same_ends(after, before));
                    assert forall|a: NodeId, b: NodeId|
                        match #[trigger] last_edge(after, a, b) {
                            Some(i) => self.edges_map@.contains_key(pair_key(a, b))
                                && self.edges_map@[pair_key(a, b)] == i,
                            None => !self.edges_map@.contains_key(pair_key(a, b)),
                        } by {
                        lemma_last_edge_same_ends(after, before, a, b);
                        assert(last_edge(after, a, b) == last_edge(before, a, b));
                    }
                    assert forall|i: int| 0 <= i < after.len() implies (
                    #[trigger] self@.edges[i]).source_node_id.0 < self@.nodes.len()
                        && self@.edges[i].target_node_id.0 < self@.nodes.len() by {
                        assert(old(self)@.edges[i].source_node_id == self@.edges[i].source_node_id);
                        assert(old(self)@.edges[i].target_node_id == self@.edges[i].target_node_id);
                    }
                    assert(self@.edges =~= old(self)@.bump_edge(e as int).edges);
                }
            },
            None => {},
        }
    }

    /// Counts a route that travels along `nodes`: each pair of consecutive
    /// nodes is counted on the edge between them, whichever way that edge
    /// points. Pairs that no edge joins are passed over.
    pub fn bump_edges(&mut self, nodes: &[OsmNodeId])
        requires
            old(self).wf(),
        ensures
            final(self).wf(),
            final(self)@ == old(self)@.bump_path(nodes@),
    {
        let n: usize = nodes.len();
        if n < 2 {
            return ;
        }
        let mut i: usize = 1;
        while i < n
            invariant
                self.wf(),
                1 <= i <= n,
                n == nodes@.len(),
                self@ == old(self)@.bump_path(nodes@.take(i as int)),
            decreases n - i,
        {
            self.bump_edge(nodes[i - 1], nodes[i]);
            proof {
                assert(nodes@.take(i + 1).drop_last() =~= nodes@.take(i as int));
            }
            i += 1;
        }
        assert(nodes@.take(n as int) =~= nodes@);
    }

    /// Builds a network from its nodes and from the two ends of each of its
    /// edges, both in file order. All counters start at zero.
    #[verifier::rlimit(50)]
    pub fn from_entries(nodes: &Vec<Node>, edges: &Vec<(NodeId, NodeId)>) -> (r: Result<
        Network,
        NetworkError,
    >)
        ensures
            match r {
                Ok(net) => {
                    &&& net.wf()
                    &&& net@.nodes == nodes@
                    &&& net@.edges == fresh_edges(edges@)
                },
                Err(NetworkError::TooManyNodes) => nodes@.len() > 0x1_0000_0000,
                Err(NetworkError::TooManyEdges) => nodes@.len() <= 0x1_0000_0000 && edges@.len()
                    > 0x1_0000_0000,
                Err(NetworkError::UnknownNode) => {
                    &&& nodes@.len() <= 0x1_0000_0000
                    &&& edges@.len() <= 0x1_0000_0000
                    &&& !ends_known(edges@, nodes@.len())
                },
            },
            r is Ok <==> nodes@.len() <= 0x1_0000_0000 && edges@.len() <= 0x1_0000_0000
                && ends_known(edges@, nodes@.len()),
    {
        if nodes.len() as u64 > 0x1_0000_0000u64 {
            return Err(NetworkError::TooManyNodes);
        }
        if edges.len() as u64 > 0x1_0000_0000u64 {
            return Err(NetworkError::TooManyEdges);
        }
        let mut net = Network::new();
        let mut i: usize = 0;
        while i < nodes.len()
            invariant
                net.wf(),
                i <= nodes.len() <= 0x1_0000_0000,
                net@.nodes == nodes@.take(i as int),
                net@.edges.len() == 0,
            decreases nodes.len() - i,
        {
            let added = net.add_node(nodes[i]);
            assert(added is Ok);
            proof {
                assert(nodes@.take(i + 1) =~= nodes@.take(i as int).push(nodes@[i as int]));
            }
            i += 1;
        }
        assert(nodes@.take(nodes.len() as int) =~= nodes@);
        let mut j: usize = 0;
        while j < edges.len()
            invariant
                net.wf(),
                j <= edges.len() <= 0x1_0000_0000,
                net@.nodes == nodes@,
                net@.edges == fresh_edges(edges@.take(j as int)),
                ends_known(edges@.take(j as int), nodes@.len()),
            decreases edges.len() - j,
        {
            let ghost before = edges@.take(j as int);
            let ghost after = edges@.take(j + 1);
            let (source, target) = edges[j];
            match net.add_edge(source, target) {
                Ok(_) => {
                    proof {
                        assert(after =~= before.push(edges@[j as int]));
                        assert(fresh_edges(after) =~= fresh_edges(before).push(
                            Edge { source_node_id: source, target_node_id: target, number: 0 },
                        ));
                        assert forall|k: int| 0 <= k < after.len() implies (#[trigger] after[k]).0.0
                            < nodes@.len() && after[k].1.0 < nodes@.len() by {
                            if k < j {
                                assert(before[k] == after[k]);
                            }
                        }
                    }
                },
                Err(_) => {
                    assert(!(edges@[j as int].0.0 < nodes@.len() && edges@[j as int].1.0
                        < nodes@.len()));
                    return Err(NetworkError::UnknownNode);
                },
            }
            j += 1;
        }
        assert(edges@.take(edges.len() as int) =~= edges@);
        Ok(net)
    }

    /// The number of edges.
    pub fn edge_count(&self) -> (n: usize)
        ensures
            n == self@.edges.len(),
    {
        self.edges_vec.len()
    }

    /// The number of nodes.
    pub fn node_count(&self) -> (n: usize)
        ensures
            n == self@.nodes.len(),
    {
        self.nodes_vec.len()
    }

    /// The edge at position `id` with its two nodes.
    pub fn full_edge(&self, id: EdgeId) -> (r: Option<FullEdge>)
        requires
            self.wf(),
        ensures
            r == if id.0 < self@.edges.len() {
                Some(self@.full_edge(id.0 as int))
            } else {
                None
            },
    {
        if id.0 as u64 >= self.edges_vec.len() as u64 {
            return None;
        }
        let edge = self.edges_vec[id.0 as usize];
        assert(self@.edges[id.0 as int] == edge);
        Some(
            FullEdge {
                a: self.nodes_vec[edge.source_node_id.0 as usize],
                b: self.nodes_vec[edge.target_node_id.0 as usize],
                number: edge.number,
            },
        )
    }

    /// The largest counter of any edge; none where the network has no edge.
    pub fn max_number(&self) -> (r: Option<usize>)
        ensures
            match r {
                Some(m) => {
                    &&& forall|i: int|
                        0 <= i < self@.edges.len() ==> (#[trigger] self@.edges[i]).number <= m
                    &&& exists|i: int|
                        0 <= i < self@.edges.len() && (#[trigger] self@.edges[i]).number == m
                },
                None => self@.edges.len() == 0,
            },
    {
        if self.edges_vec.len() == 0 {
            return None;
        }
        let mut best: usize = self.edges_vec[0].number;
        let ghost mut at: int = 0;
        let mut i: usize = 1;
        while i < self.edges_vec.len()
            invariant
                1 <= i <= self.edges_vec.len(),
                0 <= at < i,
                self@.edges[at].number == best,
                forall|k: int| 0 <= k < i ==> (#[trigger] self@.edges[k]).number <= best,
            decreases self.edges_vec.len() - i,
        {
            if self.edges_vec[i].number > best {
                best = self.edges_vec[i].number;
                proof {
                    at = i as int;
                }
            }
            i += 1;
        }
        Some(best)
    }

    /// The edges that at least one route has passed through, in the order in
    /// which they are drawn: by counter, the lightest first, so that heavy
    /// edges come to lie on top; edges with equal counters in insertion order.
    #[verifier::rlimit(50)]
    pub fn draw_order(&self) -> (r: Vec<EdgeId>)
        requires
            self.wf(),
        ensures
            forall|k: int|
                0 <= k < r@.len() ==> (#[trigger] r@[k]).0 < self@.edges.len()
                    && self@.edges[r@[k].0 as int].number > 0,
            forall|k: int, l: int|
                0 <= k < l < r@.len() ==> self@.draws_before(
                    (#[trigger] r@[k]).0 as int,
                    (#[trigger] r@[l]).0 as int,
                ),
            forall|e: int|
                0 <= e < self@.edges.len() && (#[trigger] self@.edges[e]).number > 0
                    ==> r@.contains(EdgeId(e as u32)),
    {
        let mut out: Vec<EdgeId> = Vec::new();
        let mut i: usize = 0;
        while i < self.edges_vec.len()
            invariant
                self.wf(),
                i <= self.edges_vec.len(),
                forall|k: int|
                    0 <= k < out@.len() ==> (#[trigger] out@[k]).0 < i
                        && self@.edges[out@[k].0 as int].number > 0,
                forall|k: int, l: int|
                    0 <= k < l < out@.len() ==> self@.draws_before(
                        (#[trigger] out@[k]).0 as int,
                        (#[trigger] out@[l]).0 as int,
                    ),
                forall|e: int|
                    0 <= e < i && (#[trigger] self@.edges[e]).number > 0 ==> out@.contains(
                        EdgeId(e as u32),
                    ),
            decreases self.edges_vec.len() - i,
        {
            let number: usize = self.edges_vec[i].number;
            assert(self@.edges[i as int].number == number);
            if number > 0 {
                let mut p: usize = out.len();
                while p > 0 && self.edges_vec[out[p - 1].0 as usize].number > number
                    invariant
                        self.wf(),
                        i < self.edges_vec.len(),
                        p <= out@.len(),
                        forall|k: int| 0 <= k < out@.len() ==> (#[trigger] out@[k]).0 < i,
                        forall|q: int|
                            p <= q < out@.len() ==> self@.edges[(#[trigger] out@[q]).0 as int].number
                                > number,
                    decreases p,
                {
                    p -= 1;
                }
                let ghost before = out@;
                let id = EdgeId(i as u32);
                out.insert(p, id);
                proof {
                    let after = out@;
                    assert(after.len() == before.len() + 1);
                    assert(after[p as int] == id);
                    assert forall|k: int| 0 <= k < p implies #[trigger] after[k] == before[k] by {}
                    assert forall|k: int| p < k < after.len() implies #[trigger] after[k] == before[k
                        - 1] by {}
                    assert forall|q: int| 0 <= q < p implies self@.edges[(
                    #[trigger] before[q]).0 as int].number <= number by {
                        if q < p - 1 {
                            assert(self@.draws_before(before[q].0 as int, before[p - 1].0 as int));
                        }
                    }
                    assert forall|k: int, l: int| 0 <= k < l < after.len() implies self@.draws_before(
                        (#[trigger] after[k]).0 as int,
                        (#[trigger] after[l]).0 as int,
                    ) by {
                        if l < p {
                            assert(self@.draws_before(before[k].0 as int, before[l].0 as int));
                        } else if l == p {
                            assert(after[k] == before[k]);
                        } else if k < p {
                            assert(self@.draws_before(before[k].0 as int, before[l - 1].0 as int));
                        } else if k == p {
                            assert(after[l] == before[l - 1]);
                        } else {
                            assert(self@.draws_before(before[k - 1].0 as int, before[l - 1].0 as int));
                        }
                    }
                    assert forall|e: int|
                        0 <= e < i + 1 && (#[trigger] self@.edges[e]).number > 0 implies after.contains(
                        EdgeId(e as u32),
                    ) by {
                        if e < i {
                            assert(before.contains(EdgeId(e as u32)));
                            let k = choose|k: int| 0 <= k < before.len() && before[k] == EdgeId(e as u32);
                            if k < p {
                                assert(after[k] == before[k]);
                            } else {
                                assert(after[k + 1] == before[k]);
                            }
                        } else {
                            assert(after[p as int] == EdgeId(e as u32));
                        }
                    }
                    assert forall|k: int| 0 <= k < after.len() implies (#[trigger] after[k]).0 < i + 1
                        && self@.edges[after[k].0 as int].number > 0 by {
                        if k < p {
                            assert(after[k] == before[k]);
                        } else if k > p {
                            assert(after[k] == before[k - 1]);
                        }
                    }
                }
            }
            i += 1;
        }
        out
    }

    /// The edges that at least one route has passed through, with their
    /// nodes, in insertion order.
    pub fn counted_edges(&self) -> (r: Vec<FullEdge>)
        requires
            self.wf(),
        ensures
            r@ == counted_edges(self@.full_edges()),
    {
        let ghost all = self@.full_edges();
        let mut out: Vec<FullEdge> = Vec::new();
        let mut i: usize = 0;
        while i < self.edges_vec.len()
            invariant
                self.wf(),
                all == self@.full_edges(),
                i <= self.edges_vec.len(),
                out@ == counted_edges(all.take(i as int)),
            decreases self.edges_vec.len() - i,
        {
            let edge = self.edges_vec[i];
            assert(self@.edges[i as int] == edge);
            proof {
                assert(all.take(i + 1).drop_last() =~= all.take(i as int));
                assert(all.take(i + 1).last() == self@.full_edge(i as int));
            }
            if edge.number > 0 {
                out.push(
                    FullEdge {
                        a: self.nodes_vec[edge.source_node_id.0 as usize],
                        b: self.nodes_vec[edge.target_node_id.0 as usize],
                        number: edge.number,
                    },
                );
            }
            i += 1;
        }
        assert(all.take(i as int) =~= all);
        out
    }

    /// The smallest geographic rectangle that holds both ends of every edge.
    /// For a network without edges it is the single point at latitude and
    /// longitude zero.
    #[verifier::rlimit(50)]
    pub fn get_bounds(&self) -> (b: BoundingBox)
        requires
            self.wf(),
        ensures
            self@.edges.len() == 0 ==> b == (BoundingBox {
                sw: GeoPoint { raw_lat: 0, raw_lon: 0 },
                ne: GeoPoint { raw_lat: 0, raw_lon: 0 },
            }),
            self@.edges.len() > 0 ==> b.is_envelope_of(self@.endpoints()),
    {
        let mut min_lat: i32 = 0;
        let mut min_lon: i32 = 0;
        let mut max_lat: i32 = 0;
        let mut max_lon: i32 = 0;
        let ghost points = self@.endpoints();
        let ghost mut at_min_lat: int = 0;
        let ghost mut at_min_lon: int = 0;
        let ghost mut at_max_lat: int = 0;
        let ghost mut at_max_lon: int = 0;
        let mut i: usize = 0;
        while i < self.edges_vec.len()
            invariant
                self.wf(),
                points == self@.endpoints(),
                i <= self.edges_vec.len(),
                i == 0 ==> min_lat == 0 && min_lon == 0 && max_lat == 0 && max_lon == 0,
                i > 0 ==> {
                    &&& 0 <= at_min_lat < 2 * i && points[at_min_lat].raw_lat == min_lat
                    &&& 0 <= at_min_lon < 2 * i && points[at_min_lon].raw_lon == min_lon
                    &&& 0 <= at_max_lat < 2 * i && points[at_max_lat].raw_lat == max_lat
                    &&& 0 <= at_max_lon < 2 * i && points[at_max_lon].raw_lon == max_lon
                },
                forall|k: int|
                    0 <= k < 2 * i ==> min_lat <= (#[trigger] points[k]).raw_lat <= max_lat && min_lon
                        <= points[k].raw_lon <= max_lon,
            decreases self.edges_vec.len() - i,
        {
            let edge = self.edges_vec[i];
            assert(self@.edges[i as int] == edge);
            let a = self.nodes_vec[edge.source_node_id.0 as usize];
            let b = self.nodes_vec[edge.target_node_id.0 as usize];
            proof {
                assert(points[2 * i] == a.point());
                assert(points[2 * i + 1] == b.point());
            }
            if i == 0 {
                min_lat = a.raw_lat;
                min_lon = a.raw_lon;
                max_lat = a.raw_lat;
                max_lon = a.raw_lon;
                proof {
                    at_min_lat = 0;
                    at_min_lon = 0;
                    at_max_lat = 0;
                    at_max_lon = 0;
                }
            }
            if a.raw_lon < min_lon {
                min_lon = a.raw_lon;
                proof {
                    at_min_lon = 2 * i;
                }
            }
            if b.raw_lon < min_lon {
                min_lon = b.raw_lon;
                proof {
                    at_min_lon = 2 * i + 1;
                }
            }
            if a.raw_lat < min_lat {
                min_lat = a.raw_lat;
                proof {
                    at_min_lat = 2 * i;
                }
            }
            if b.raw_lat < min_lat {
                min_lat = b.raw_lat;
                proof {
                    at_min_lat = 2 * i + 1;
                }
            }
            if a.raw_lon > max_lon {
                max_lon = a.raw_lon;
                proof {
                    at_max_lon = 2 * i;
                }
            }
            if b.raw_lon > max_lon {
                max_lon = b.raw_lon;
                proof {
                    at_max_lon = 2 * i + 1;
                }
            }
            if a.raw_lat > max_lat {
                max_lat = a.raw_lat;
                proof {
                    at_max_lat = 2 * i;
                }
            }
            if b.raw_lat > max_lat {
                max_lat = b.raw_lat;
                proof {
                    at_max_lat = 2 * i + 1;
                }
            }
            i += 1;
        }
        BoundingBox {
            sw: GeoPoint { raw_lat: min_lat, raw_lon: min_lon },
            ne: GeoPoint { raw_lat: max_lat, raw_lon: max_lon },
        }
    }

    /// Writes the network as a GeoJSON collection: each edge that a route
    /// has passed through becomes a line with the property `number`.
    #[verifier::rlimit(50)]
    pub fn write_to_geojson(&self) -> (r: String)
        requires
            self.wf(),
        ensures
            r@ == self@.geojson(),
    {
        let mut writer = GeoJsonWriter::new();
        let mut i: usize = 0;
        while i < self.edges_vec.len()
            invariant
                self.wf(),
                i <= self.edges_vec.len(),
                writer.text() == collection_head() + self@.edge_features(i as nat),
                writer.is_first() == !self@.counted_before(i as int),
                !writer.open(),
            decreases self.edges_vec.len() - i,
        {
            let edge = self.edges_vec[i];
            assert(self@.edges[i as int] == edge);
            if edge.number >= 1 {
                let full = FullEdge {
                    a: self.nodes_vec[edge.source_node_id.0 as usize],
                    b: self.nodes_vec[edge.target_node_id.0 as usize],
                    number: edge.number,
                };
                assert(full == self@.full_edge(i as int));
                let ghost before = writer.text();
                let ghost first = writer.is_first();
                full.write_feature(&mut writer);
                proof {
                    if first {
                        assert(writer.text() =~= before + full.feature());
                    } else {
                        assert(writer.text() =~= before + ","@ + full.feature());
                    }
                    assert(writer.text() =~= collection_head() + self@.edge_features((i + 1) as nat));
                    assert(self@.counted_before(i + 1));
                }
            } else {
                proof {
                    if self@.counted_before(i + 1) {
                        let k = choose|k: int| 0 <= k < i + 1 && (#[trigger] self@.edges[k]).number > 0;
                        assert(k < i);
                    }
                }
            }
            i += 1;
        }
        let text = writer.finish();
        assert(text@ =~= self@.geojson());
        text
    }

    /// Splits the network into polylines.
    pub fn build_polylines(&self) -> (r: PolylineCollection)
        requires
            self.wf(),
        ensures
            r.splits(half_edges(self@.full_edges())),
    {
        PolylineCollection::new(self)
    }

    /// All edges with their nodes, in insertion order.
    pub fn edges(&self) -> (r: Vec<FullEdge>)
        requires
            self.wf(),
        ensures
            r@ == self@.full_edges(),
    {
        let mut out: Vec<FullEdge> = Vec::new();
        let mut i: usize = 0;
        while i < self.edges_vec.len()
            invariant
                self.wf(),
                i <= self.edges_vec.len(),
                out@.len() == i,
                forall|k: int| 0 <= k < i ==> out@[k] == self@.full_edge(k),
            decreases self.edges_vec.len() - i,
        {
            let edge = self.edges_vec[i];
            assert(self@.edges[i as int] == edge);
            let source = self.nodes_vec[edge.source_node_id.0 as usize];
            let target = self.nodes_vec[edge.target_node_id.0 as usize];
            out.push(FullEdge { a: source, b: target, number: edge.number });
            i += 1;
        }
        assert(out@ =~= self@.full_edges());
        out
    }
}

} // verus!
