use nori::geo::{BoundingBox, GeoPoint};
use nori::network::{EdgeId, Network, NetworkError, Node, NodeId, OsmNodeId};

fn node(id: i64, lat: i32, lon: i32) -> Node {
    Node::new(OsmNodeId(id), lat, lon)
}

/// Three nodes in a row: 10 -> 20 -> 30.
fn chain() -> Network {
    let nodes = vec![node(10, 0, 0), node(20, 1_000, 2_000), node(30, -500, 4_000)];
    let edges = vec![(NodeId(0), NodeId(1)), (NodeId(1), NodeId(2))];
    Network::from_entries(&nodes, &edges).unwrap()
}

fn numbers(net: &Network) -> Vec<usize> {
    net.edges().iter().map(|e| e.number).collect()
}

#[test]
fn bump_three_nodes_counts_both_edges_once() {
    let mut net = chain();
    net.bump_edges(&[OsmNodeId(10), OsmNodeId(20), OsmNodeId(30)]);
    assert_eq!(numbers(&net), vec![1, 1]);
}

#[test]
fn bump_is_direction_insensitive() {
    let nodes = vec![node(1, 0, 0), node(2, 10, 10)];
    let edges = vec![(NodeId(0), NodeId(1))];
    let mut net = Network::from_entries(&nodes, &edges).unwrap();
    net.bump_edges(&[OsmNodeId(2), OsmNodeId(1)]);
    assert_eq!(numbers(&net), vec![1]);
    net.bump_edges(&[OsmNodeId(1), OsmNodeId(2)]);
    assert_eq!(numbers(&net), vec![2]);
}

#[test]
fn bump_unknown_pairs_change_nothing() {
    let mut net = chain();
    net.bump_edges(&[OsmNodeId(10), OsmNodeId(30)]);
    net.bump_edges(&[OsmNodeId(10), OsmNodeId(99)]);
    net.bump_edges(&[OsmNodeId(77), OsmNodeId(99)]);
    net.bump_edges(&[OsmNodeId(10)]);
    net.bump_edges(&[]);
    assert_eq!(numbers(&net), vec![0, 0]);
}

#[test]
fn bump_back_and_forth_counts_twice() {
    let mut net = chain();
    net.bump_edges(&[OsmNodeId(10), OsmNodeId(20), OsmNodeId(10)]);
    assert_eq!(numbers(&net), vec![2, 0]);
}

#[test]
fn bump_prefers_the_forward_edge() {
    let nodes = vec![node(1, 0, 0), node(2, 10, 10)];
    let edges = vec![(NodeId(0), NodeId(1)), (NodeId(1), NodeId(0))];
    let mut net = Network::from_entries(&nodes, &edges).unwrap();
    net.bump_edges(&[OsmNodeId(2), OsmNodeId(1)]);
    assert_eq!(numbers(&net), vec![0, 1]);
    net.bump_edges(&[OsmNodeId(1), OsmNodeId(2)]);
    assert_eq!(numbers(&net), vec![1, 1]);
}

#[test]
fn get_node_finds_by_osm_id() {
    let net = chain();
    assert_eq!(net.get_node(OsmNodeId(20)), Some(node(20, 1_000, 2_000)));
    assert_eq!(net.get_node(OsmNodeId(21)), None);
}

#[test]
fn duplicate_osm_id_overrides_earlier_node() {
    let nodes = vec![node(5, 1, 1), node(5, 2, 2)];
    let net = Network::from_entries(&nodes, &vec![]).unwrap();
    assert_eq!(net.get_node(OsmNodeId(5)), Some(node(5, 2, 2)));
    assert_eq!(net.node_count(), 2);
}

#[test]
fn duplicate_edge_is_counted_on_the_later_one() {
    let nodes = vec![node(1, 0, 0), node(2, 10, 10)];
    let edges = vec![(NodeId(0), NodeId(1)), (NodeId(0), NodeId(1))];
    let mut net = Network::from_entries(&nodes, &edges).unwrap();
    net.bump_edges(&[OsmNodeId(1), OsmNodeId(2)]);
    assert_eq!(numbers(&net), vec![0, 1]);
}

#[test]
fn edges_come_in_insertion_order() {
    let net = chain();
    let edges = net.edges();
    assert_eq!(edges.len(), 2);
    assert_eq!(edges[0].osm_ids(), (OsmNodeId(10), OsmNodeId(20)));
    assert_eq!(edges[1].osm_ids(), (OsmNodeId(20), OsmNodeId(30)));
    assert_eq!(edges[0].a, node(10, 0, 0));
    assert_eq!(edges[1].b, node(30, -500, 4_000));
    assert_eq!(edges[0].number, 0);
}

#[test]
fn from_entries_rejects_unknown_node() {
    let nodes = vec![node(1, 0, 0)];
    let edges = vec![(NodeId(0), NodeId(1))];
    assert_eq!(Network::from_entries(&nodes, &edges).err(), Some(NetworkError::UnknownNode));
}

#[test]
fn add_edge_rejects_unknown_node() {
    let mut net = Network::new();
    assert_eq!(net.add_node(node(1, 0, 0)), Ok(NodeId(0)));
    assert_eq!(net.add_edge(NodeId(0), NodeId(0)), Ok(EdgeId(0)));
    assert_eq!(net.add_edge(NodeId(0), NodeId(1)), Err(NetworkError::UnknownNode));
    assert_eq!(net.edge_count(), 1);
}

#[test]
fn bounds_of_empty_network_are_the_origin() {
    let net = Network::new();
    assert_eq!(net.get_bounds(), BoundingBox::new(GeoPoint::new(0, 0), GeoPoint::new(0, 0)));
}

#[test]
fn bounds_cover_all_edge_ends() {
    let net = chain();
    let b = net.get_bounds();
    assert_eq!(b.sw, GeoPoint::new(-500, 0));
    assert_eq!(b.ne, GeoPoint::new(1_000, 4_000));
}

#[test]
fn bounds_ignore_nodes_without_edges() {
    let nodes = vec![node(1, 5, 5), node(2, 7, 9), node(3, 100, 100)];
    let edges = vec![(NodeId(0), NodeId(1))];
    let net = Network::from_entries(&nodes, &edges).unwrap();
    let b = net.get_bounds();
    assert_eq!(b.sw, GeoPoint::new(5, 5));
    assert_eq!(b.ne, GeoPoint::new(7, 9));
}

#[test]
fn max_number_is_the_largest_counter() {
    let mut net = chain();
    assert_eq!(net.max_number(), Some(0));
    net.bump_edges(&[OsmNodeId(10), OsmNodeId(20), OsmNodeId(30)]);
    net.bump_edges(&[OsmNodeId(30), OsmNodeId(20)]);
    assert_eq!(net.max_number(), Some(2));
    assert_eq!(Network::new().max_number(), None);
}

#[test]
fn draw_order_is_ascending_and_stable() {
    let nodes = vec![node(1, 0, 0), node(2, 0, 1), node(3, 0, 2), node(4, 0, 3), node(5, 0, 4)];
    let edges = vec![
        (NodeId(0), NodeId(1)),
        (NodeId(1), NodeId(2)),
        (NodeId(2), NodeId(3)),
        (NodeId(3), NodeId(4)),
    ];
    let mut net = Network::from_entries(&nodes, &edges).unwrap();
    // counters: edge 0 -> 2, edge 1 -> 1, edge 2 -> 0, edge 3 -> 1
    net.bump_edges(&[OsmNodeId(1), OsmNodeId(2), OsmNodeId(3)]);
    net.bump_edges(&[OsmNodeId(1), OsmNodeId(2)]);
    net.bump_edges(&[OsmNodeId(4), OsmNodeId(5)]);
    assert_eq!(numbers(&net), vec![2, 1, 0, 1]);
    assert_eq!(net.draw_order(), vec![EdgeId(1), EdgeId(3), EdgeId(0)]);
}

#[test]
fn full_edge_by_position() {
    let net = chain();
    assert_eq!(net.full_edge(EdgeId(1)).map(|e| e.osm_ids()), Some((OsmNodeId(20), OsmNodeId(30))));
    assert_eq!(net.full_edge(EdgeId(2)), None);
}

#[test]
fn node_point_is_in_microdegrees() {
    assert_eq!(node(1, 52_500_000, 13_400_000).as_point4326(), GeoPoint::new(52_500_000, 13_400_000));
}

#[test]
fn counted_edges_are_those_with_traffic() {
    let mut net = chain();
    assert!(net.counted_edges().is_empty());
    net.bump_edges(&[OsmNodeId(30), OsmNodeId(20)]);
    let counted = net.counted_edges();
    assert_eq!(counted.len(), 1);
    assert_eq!(counted[0].osm_ids(), (OsmNodeId(20), OsmNodeId(30)));
    assert_eq!(counted[0].number, 1);
}

#[test]
fn counters_never_fall() {
    let mut net = chain();
    let paths: [&[i64]; 4] = [&[10, 20, 30], &[30, 20], &[10, 30, 20, 10], &[20]];
    let mut before = numbers(&net);
    for path in paths {
        let ids: Vec<OsmNodeId> = path.iter().map(|&i| OsmNodeId(i)).collect();
        net.bump_edges(&ids);
        let after = numbers(&net);
        assert!(before.iter().zip(&after).all(|(b, a)| b <= a));
        before = after;
    }
    assert_eq!(before, vec![2, 3]);
}
