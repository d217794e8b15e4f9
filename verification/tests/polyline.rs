use nori::geo::GeoPoint;
use nori::network::{Network, Node, NodeId, OsmNodeId};
use nori::polyline::PolylineCollection;

fn network(node_ids: &[i64], edges: &[(u32, u32)]) -> Network {
    let nodes: Vec<Node> = node_ids
        .iter()
        .enumerate()
        .map(|(i, &id)| Node::new(OsmNodeId(id), i as i32 * 10, i as i32 * 100))
        .collect();
    let edges: Vec<(NodeId, NodeId)> = edges.iter().map(|&(a, b)| (NodeId(a), NodeId(b))).collect();
    Network::from_entries(&nodes, &edges).unwrap()
}

fn ids(coll: &PolylineCollection, i: usize) -> Vec<i64> {
    coll.polylines[i].points.iter().map(|p| p.id.0).collect()
}

/// What holds of the polylines of every network: each edge is filed under a
/// polyline that passes along it, no two polylines pass along the same edge,
/// and each step of a polyline is an edge of the network.
fn check_invariants(net: &Network, coll: &PolylineCollection) {
    let edges = net.edges();
    for e in &edges {
        let (u, v) = e.osm_ids();
        for (a, b) in [(u, v), (v, u)] {
            let i = coll.lookup_edge((a, b)).expect("every edge is filed under a polyline");
            let points = &coll.polylines[i as usize].points;
            let passes = points
                .windows(2)
                .any(|w| (w[0].id, w[1].id) == (a, b) || (w[0].id, w[1].id) == (b, a));
            assert!(passes, "polyline {} does not pass along ({:?}, {:?})", i, a, b);
        }
    }
    for (i, p) in coll.polylines.iter().enumerate() {
        for q in &coll.polylines[i + 1..] {
            for a in p.points.windows(2) {
                for b in q.points.windows(2) {
                    let same = (a[0].id, a[1].id) == (b[0].id, b[1].id)
                        || (a[0].id, a[1].id) == (b[1].id, b[0].id);
                    assert!(!same, "two polylines pass along ({:?}, {:?})", a[0].id, a[1].id);
                }
            }
        }
    }
    for (i, p) in coll.polylines.iter().enumerate() {
        for w in p.points.windows(2) {
            assert_eq!(coll.lookup_edge((w[0].id, w[1].id)), Some(i as u32));
            assert_eq!(coll.lookup_edge((w[1].id, w[0].id)), Some(i as u32));
        }
    }
    let joined = |a: OsmNodeId, b: OsmNodeId| -> usize {
        edges.iter().filter(|e| e.osm_ids() == (a, b) || e.osm_ids() == (b, a)).count()
    };
    for p in &coll.polylines {
        let steps: Vec<_> = p.points.windows(2).collect();
        for (s, a) in steps.iter().enumerate() {
            for b in &steps[s + 1..] {
                let same = (a[0].id, a[1].id) == (b[0].id, b[1].id)
                    || (a[0].id, a[1].id) == (b[1].id, b[0].id);
                // an edge is passed along twice only where there are two
                assert!(!same || joined(a[0].id, a[1].id) >= 2);
            }
        }
    }
    let degree = |id: OsmNodeId| -> usize {
        edges.iter().map(|e| (e.a.osm_node_id == id) as usize + (e.b.osm_node_id == id) as usize).sum()
    };
    for poly in &coll.polylines {
        let first = poly.points.first().unwrap().id;
        let last = poly.points.last().unwrap().id;
        // a polyline cannot be made longer at either end
        assert!(degree(first) != 2 || first == last);
        assert!(degree(last) != 2 || first == last);
        // no node comes twice but the first, as the last
        let inner = &poly.points[..poly.points.len() - 1];
        for (s, a) in inner.iter().enumerate() {
            assert!(inner[s + 1..].iter().all(|b| b.id != a.id));
        }
        for p in &poly.points[1..poly.points.len() - 1] {
            assert_eq!(degree(p.id), 2);
        }
    }
    for poly in &coll.polylines {
        assert!(poly.points.len() >= 2);
        for w in poly.points.windows(2) {
            let joined = edges.iter().any(|e| {
                e.osm_ids() == (w[0].id, w[1].id) || e.osm_ids() == (w[1].id, w[0].id)
            });
            assert!(joined, "no edge between {:?} and {:?}", w[0].id, w[1].id);
        }
        for p in &poly.points {
            let node = net.get_node(p.id).unwrap();
            assert_eq!(p.point, node.as_point4326());
        }
    }
}

#[test]
fn chain_is_one_polyline() {
    let net = network(&[1, 2, 3, 4], &[(0, 1), (1, 2), (2, 3)]);
    let coll = PolylineCollection::new(&net);
    check_invariants(&net, &coll);
    assert_eq!(coll.len(), 1);
    assert_eq!(ids(&coll, 0), vec![1, 2, 3, 4]);
    assert_eq!(coll.lookup_edge((OsmNodeId(2), OsmNodeId(3))), Some(0));
    assert_eq!(coll.lookup_edge((OsmNodeId(3), OsmNodeId(2))), Some(0));
}

#[test]
fn lookup_of_unknown_edge_is_none() {
    let net = network(&[1, 2, 3, 4], &[(0, 1), (1, 2), (2, 3)]);
    let coll = PolylineCollection::new(&net);
    assert_eq!(coll.lookup_edge((OsmNodeId(1), OsmNodeId(3))), None);
    assert_eq!(coll.lookup_edge((OsmNodeId(1), OsmNodeId(99))), None);
    assert_eq!(coll.lookup_edge((OsmNodeId(1), OsmNodeId(1))), None);
}

#[test]
fn junction_splits_polylines() {
    // 1 - 2 - 3 with a branch 2 - 4 - 5
    let net = network(&[1, 2, 3, 4, 5], &[(0, 1), (1, 2), (1, 3), (3, 4)]);
    let coll = PolylineCollection::new(&net);
    check_invariants(&net, &coll);
    assert_eq!(coll.len(), 3);
    assert_eq!(ids(&coll, 0), vec![1, 2]);
    assert_eq!(ids(&coll, 1), vec![2, 3]);
    assert_eq!(ids(&coll, 2), vec![2, 4, 5]);
    assert_eq!(coll.lookup_edge((OsmNodeId(5), OsmNodeId(4))), Some(2));
    assert_eq!(coll.lookup_edge((OsmNodeId(2), OsmNodeId(4))), Some(2));
    assert_eq!(coll.lookup_edge((OsmNodeId(1), OsmNodeId(2))), Some(0));
}

#[test]
fn pure_cycle_is_one_closed_polyline() {
    let net = network(&[1, 2, 3], &[(0, 1), (1, 2), (2, 0)]);
    let coll = PolylineCollection::new(&net);
    check_invariants(&net, &coll);
    assert_eq!(coll.len(), 1);
    assert_eq!(ids(&coll, 0), vec![1, 2, 3, 1]);
}

#[test]
fn cycle_hanging_off_a_junction() {
    // 1 - 2, and a loop 2 - 3 - 4 - 2
    let net = network(&[1, 2, 3, 4], &[(0, 1), (1, 2), (2, 3), (3, 1)]);
    let coll = PolylineCollection::new(&net);
    check_invariants(&net, &coll);
    assert_eq!(coll.len(), 2);
    assert_eq!(ids(&coll, 0), vec![1, 2]);
    assert_eq!(ids(&coll, 1), vec![2, 3, 4, 2]);
}

#[test]
fn edge_direction_plays_no_part() {
    let net = network(&[1, 2, 3, 4], &[(1, 0), (1, 2), (3, 2)]);
    let coll = PolylineCollection::new(&net);
    check_invariants(&net, &coll);
    assert_eq!(coll.len(), 1);
    assert_eq!(ids(&coll, 0), vec![1, 2, 3, 4]);
}

#[test]
fn parallel_edges_and_self_loops() {
    let net = network(&[1, 2, 3], &[(0, 1), (1, 0), (2, 2), (1, 2), (0, 1)]);
    let coll = PolylineCollection::new(&net);
    check_invariants(&net, &coll);
}

#[test]
fn two_nodes_joined_twice() {
    let net = network(&[1, 2], &[(0, 1), (1, 0)]);
    let coll = PolylineCollection::new(&net);
    check_invariants(&net, &coll);
    assert_eq!(coll.len(), 1);
    assert_eq!(ids(&coll, 0), vec![1, 2, 1]);
}

#[test]
fn self_loop_alone() {
    let net = network(&[7], &[(0, 0)]);
    let coll = PolylineCollection::new(&net);
    check_invariants(&net, &coll);
    assert_eq!(coll.len(), 1);
    assert_eq!(ids(&coll, 0), vec![7, 7]);
}

#[test]
fn disconnected_parts() {
    let net = network(&[1, 2, 3, 4, 5, 6, 7], &[(0, 1), (2, 3), (3, 4), (4, 2), (5, 6)]);
    let coll = PolylineCollection::new(&net);
    check_invariants(&net, &coll);
    assert_eq!(coll.len(), 3);
}

#[test]
fn grid_of_crossings() {
    // 3 x 3 grid, nodes numbered row by row
    let mut edges = Vec::new();
    for r in 0..3u32 {
        for c in 0..3u32 {
            let i = r * 3 + c;
            if c < 2 {
                edges.push((i, i + 1));
            }
            if r < 2 {
                edges.push((i, i + 3));
            }
        }
    }
    let net = network(&[10, 11, 12, 13, 14, 15, 16, 17, 18], &edges);
    let coll = PolylineCollection::new(&net);
    check_invariants(&net, &coll);
    // the four corners are plain links in a chain; the four sides and the
    // centre are junctions
    assert_eq!(coll.len(), 8);
}

#[test]
fn empty_network_has_no_polylines() {
    let net = Network::new();
    let coll = net.build_polylines();
    assert_eq!(coll.len(), 0);
    assert_eq!(coll.lookup_edge((OsmNodeId(1), OsmNodeId(2))), None);
}

#[test]
fn nodes_without_edges_are_in_no_polyline() {
    let net = network(&[1, 2, 3], &[(0, 1)]);
    let coll = net.build_polylines();
    check_invariants(&net, &coll);
    assert_eq!(coll.len(), 1);
    assert_eq!(ids(&coll, 0), vec![1, 2]);
}

#[test]
fn polyline_points_carry_positions() {
    let net = network(&[1, 2], &[(0, 1)]);
    let coll = net.build_polylines();
    assert_eq!(coll.polylines[0].points[0].point, GeoPoint::new(0, 0));
    assert_eq!(coll.polylines[0].points[1].point, GeoPoint::new(10, 100));
    assert_eq!(coll.polylines[0].len(), 2);
}

#[test]
fn polylines_as_geojson() {
    let net = network(&[1, 2, 3], &[(0, 1), (1, 2)]);
    let coll = net.build_polylines();
    let text = coll.write_to_geojson();
    assert_eq!(
        text,
        "{\"type\": \"FeatureCollection\", \"features\": [\n\
         {\"type\": \"Feature\", \"geometry\": {\"type\": \"LineString\", \"coordinates\": \
         [[0.000000, 0.000000],[0.000100, 0.000010],[0.000200, 0.000020]]}, \
         \"properties\": {\"id\": 0}}\n]}"
    );
}

#[test]
fn triangle_is_one_closed_polyline_of_four_points() {
    let net = network(&[1, 2, 3], &[(0, 1), (1, 2), (2, 0)]);
    let coll = PolylineCollection::new(&net);
    check_invariants(&net, &coll);
    assert_eq!(coll.polylines.len(), 1);
    let points = coll.points(0);
    assert_eq!(points.len(), 4);
    assert_eq!(points[0].id, points[3].id);
    let mut inner: Vec<i64> = points[..3].iter().map(|p| p.id.0).collect();
    inner.sort();
    assert_eq!(inner, vec![1, 2, 3]);
    for edge in [(1, 2), (2, 3), (3, 1), (1, 3)] {
        assert_eq!(coll.lookup_edge((OsmNodeId(edge.0), OsmNodeId(edge.1))), Some(0));
    }
}

#[test]
fn path_is_not_cut_at_its_middle_node() {
    let net = network(&[1, 2, 3], &[(0, 1), (1, 2)]);
    let coll = PolylineCollection::new(&net);
    check_invariants(&net, &coll);
    assert_eq!(coll.polylines.len(), 1);
    let path = ids(&coll, 0);
    assert!(path == vec![1, 2, 3] || path == vec![3, 2, 1]);
    assert_eq!(coll.lookup_edge((OsmNodeId(1), OsmNodeId(2))), Some(0));
    assert_eq!(coll.lookup_edge((OsmNodeId(3), OsmNodeId(2))), Some(0));
    assert_eq!(coll.lookup_edge((OsmNodeId(1), OsmNodeId(3))), None);
}

#[test]
fn steps_of_all_polylines_are_the_edges_once_each() {
    // networks without self-loops and without two edges between two nodes
    let networks = [
        network(&[1, 2, 3, 4], &[(0, 1), (1, 2), (2, 3)]),
        network(&[1, 2, 3, 4, 5], &[(0, 1), (1, 2), (1, 3), (3, 4)]),
        network(&[1, 2, 3], &[(0, 1), (1, 2), (2, 0)]),
        network(&[1, 2, 3, 4], &[(0, 1), (1, 2), (2, 3), (3, 1)]),
        network(&[1, 2, 3, 4, 5, 6, 7], &[(0, 1), (2, 3), (3, 4), (4, 2), (5, 6)]),
        network(&[1, 2, 3, 4, 5, 6], &[(0, 1), (1, 2), (2, 0), (3, 4), (4, 5), (5, 3), (0, 3)]),
    ];
    for net in &networks {
        let coll = PolylineCollection::new(net);
        check_invariants(net, &coll);
        let mut wanted: Vec<(i64, i64)> = net
            .edges()
            .iter()
            .map(|e| {
                let (a, b) = e.osm_ids();
                (a.0.min(b.0), a.0.max(b.0))
            })
            .collect();
        wanted.sort();
        let mut found: Vec<(i64, i64)> = Vec::new();
        for i in 0..coll.len() {
            for w in coll.points(i).windows(2) {
                found.push((w[0].id.0.min(w[1].id.0), w[0].id.0.max(w[1].id.0)));
            }
        }
        found.sort();
        assert_eq!(found, wanted);
    }
}

#[test]
fn points_of_a_polyline_by_position() {
    let net = network(&[1, 2, 3, 4, 5], &[(0, 1), (1, 2), (1, 3), (3, 4)]);
    let coll = PolylineCollection::new(&net);
    for i in 0..coll.len() {
        assert_eq!(coll.points(i), &coll.polylines[i].points);
    }
}
