use nori::geo::GeoPoint;
use nori::network::{Network, Node, NodeId, OsmNodeId};
use nori::route::{
    LatLon32, Route, RouteCollectionHeader, RouteCollectionReader, RouteCollectionWriter, RouteError,
};
use nori::wire::DecodeError;

fn route(start: (i32, i32), end: (i32, i32), ids: &[i64], distance: f64) -> Route {
    Route {
        start_coord: LatLon32::new(start.0, start.1),
        end_coord: LatLon32::new(end.0, end.1),
        node_ids: ids.iter().map(|&i| OsmNodeId(i)).collect(),
        distance_bits: distance.to_bits(),
    }
}

fn first_route() -> Route {
    route((1_000_000, 2_000_000), (3_000_000, 4_000_000), &[10, 20, 30], 123.4)
}

fn second_route() -> Route {
    route((5_000_000, 6_000_000), (7_000_000, 8_000_000), &[40, 50], 78.9)
}

fn read_all(bytes: Vec<u8>) -> Vec<Result<Route, RouteError>> {
    let mut reader = RouteCollectionReader::new(bytes).unwrap();
    let mut out = Vec::new();
    while let Some(item) = reader.next() {
        out.push(item);
    }
    out
}

#[test]
fn route_round_trip() {
    let mut writer = RouteCollectionWriter::new("map.osrm".to_string(), "sample".to_string());
    assert_eq!(writer.write_route(first_route()), Ok(first_route()));
    assert_eq!(writer.write_route(second_route()), Ok(second_route()));
    let bytes = writer.finish();
    let mut reader = RouteCollectionReader::new(bytes).unwrap();
    assert_eq!(reader.header().number_of_routes(), 2);
    assert_eq!(reader.header().osrm_file(), "map.osrm");
    assert_eq!(reader.header().scenario(), "sample");
    assert_eq!(reader.header().major_version(), 0);
    assert_eq!(reader.header().minor_version(), 2);
    assert_eq!(reader.next(), Some(Ok(first_route())));
    assert_eq!(reader.next(), Some(Ok(second_route())));
    assert_eq!(reader.next(), None);
    assert_eq!(reader.next(), None);
}

#[test]
fn route_distance_survives_bit_for_bit() {
    let mut writer = RouteCollectionWriter::new(String::new(), String::new());
    writer.write_route(first_route()).unwrap();
    let back = read_all(writer.finish());
    let distance = f64::from_bits(back[0].as_ref().unwrap().distance_bits);
    assert_eq!(distance, 123.4);
}

#[test]
fn unfinished_collection_yields_no_routes() {
    let mut writer = RouteCollectionWriter::new("map.osrm".to_string(), "sample".to_string());
    writer.write_route(first_route()).unwrap();
    writer.write_route(second_route()).unwrap();
    let abandoned = writer.as_bytes().clone();
    let mut reader = RouteCollectionReader::new(abandoned).unwrap();
    assert_eq!(reader.header().number_of_routes(), 0);
    assert_eq!(reader.next(), None);
}

#[test]
fn writer_header_counts_routes() {
    let mut writer = RouteCollectionWriter::new("a".to_string(), "b".to_string());
    assert_eq!(writer.header().number_of_routes(), 0);
    writer.write_route(first_route()).unwrap();
    assert_eq!(writer.header().number_of_routes(), 1);
    writer.write_route(second_route()).unwrap();
    assert_eq!(writer.header().number_of_routes(), 2);
}

#[test]
fn finish_changes_only_the_count() {
    let mut writer = RouteCollectionWriter::new("map.osrm".to_string(), "sample".to_string());
    writer.write_route(first_route()).unwrap();
    let before = writer.as_bytes().clone();
    let after = writer.finish();
    assert_eq!(before.len(), after.len());
    // 2 + 2 + (8 + 8) + (8 + 6) bytes stand before the count
    let count_at = 2 + 2 + 8 + 8 + 8 + 6;
    assert_eq!(before[..count_at], after[..count_at]);
    assert_eq!(before[count_at..count_at + 8], [0u8; 8]);
    assert_eq!(after[count_at..count_at + 8], [1u8, 0, 0, 0, 0, 0, 0, 0]);
    assert_eq!(before[count_at + 8..], after[count_at + 8..]);
}

#[test]
fn header_layout_is_exact() {
    let writer = RouteCollectionWriter::new("ab".to_string(), "c".to_string());
    let expected: Vec<u8> = vec![
        0, 0, // major version
        2, 0, // minor version
        2, 0, 0, 0, 0, 0, 0, 0, b'a', b'b', // name of the network file
        1, 0, 0, 0, 0, 0, 0, 0, b'c', // scenario
        0, 0, 0, 0, 0, 0, 0, 0, // number of routes
    ];
    assert_eq!(writer.as_bytes(), &expected);
}

#[test]
fn route_layout_is_exact() {
    let r = route((1, -1), (256, -2), &[-1, 2], 0.0);
    let mut bytes = Vec::new();
    r.encode(&mut bytes);
    let expected: Vec<u8> = vec![
        1, 0, 0, 0, // start latitude
        0xff, 0xff, 0xff, 0xff, // start longitude
        0, 1, 0, 0, // end latitude
        0xfe, 0xff, 0xff, 0xff, // end longitude
        2, 0, 0, 0, 0, 0, 0, 0, // number of nodes
        0xff, 0xff, 0xff, 0xff, 0xff, 0xff, 0xff, 0xff, // node -1
        2, 0, 0, 0, 0, 0, 0, 0, // node 2
        0, 0, 0, 0, 0, 0, 0, 0, // distance
    ];
    assert_eq!(bytes, expected);
}

#[test]
fn header_bytes_match_bincode() {
    let mut writer = RouteCollectionWriter::new("data/map.osrm".to_string(), "sämple".to_string());
    writer.write_route(first_route()).unwrap();
    writer.write_route(second_route()).unwrap();
    let ours = writer.finish();
    let mut theirs = bincode::serialize(&(
        0u16,
        2u16,
        "data/map.osrm".to_string(),
        "sämple".to_string(),
        2u64,
    ))
    .unwrap();
    theirs.extend(
        bincode::serialize(&(
            (1_000_000i32, 2_000_000i32),
            (3_000_000i32, 4_000_000i32),
            vec![10i64, 20, 30],
            123.4f64,
        ))
        .unwrap(),
    );
    theirs.extend(
        bincode::serialize(&(
            (5_000_000i32, 6_000_000i32),
            (7_000_000i32, 8_000_000i32),
            vec![40i64, 50],
            78.9f64,
        ))
        .unwrap(),
    );
    assert_eq!(ours, theirs);
}

#[test]
fn route_bytes_match_bincode_for_extreme_values() {
    let r = route((i32::MIN, i32::MAX), (-1, 0), &[i64::MIN, i64::MAX, -1, 0], f64::MAX);
    let mut ours = Vec::new();
    r.encode(&mut ours);
    let theirs = bincode::serialize(&(
        (i32::MIN, i32::MAX),
        (-1i32, 0i32),
        vec![i64::MIN, i64::MAX, -1, 0],
        f64::MAX,
    ))
    .unwrap();
    assert_eq!(ours, theirs);
    assert_eq!(Route::decode(&ours, 0), Ok((r, ours.len())));
}

#[test]
fn bincode_output_is_read_back() {
    let mut bytes =
        bincode::serialize(&(0u16, 2u16, "x".to_string(), "y".to_string(), 1u64)).unwrap();
    bytes.extend(
        bincode::serialize(&((1i32, 2i32), (3i32, 4i32), vec![7i64, 8, 9], 1.5f64)).unwrap(),
    );
    let back = read_all(bytes);
    assert_eq!(back, vec![Ok(route((1, 2), (3, 4), &[7, 8, 9], 1.5))]);
}

#[test]
fn reader_refuses_other_major_version() {
    let bytes = bincode::serialize(&(1u16, 0u16, "x".to_string(), "y".to_string(), 0u64)).unwrap();
    assert_eq!(RouteCollectionReader::new(bytes).err(), Some(RouteError::VersionMismatch));
}

#[test]
fn reader_accepts_other_minor_version() {
    let bytes = bincode::serialize(&(0u16, 9u16, "x".to_string(), "y".to_string(), 0u64)).unwrap();
    let reader = RouteCollectionReader::new(bytes).unwrap();
    assert_eq!(reader.header().minor_version(), 9);
}

#[test]
fn reader_reports_truncated_header() {
    let mut bytes =
        bincode::serialize(&(0u16, 2u16, "x".to_string(), "y".to_string(), 0u64)).unwrap();
    bytes.pop();
    assert_eq!(
        RouteCollectionReader::new(bytes).err(),
        Some(RouteError::Decode(DecodeError::UnexpectedEnd))
    );
    assert_eq!(
        RouteCollectionReader::new(Vec::new()).err(),
        Some(RouteError::Decode(DecodeError::UnexpectedEnd))
    );
}

#[test]
fn reader_reports_invalid_utf8() {
    let mut bytes = vec![0u8, 0, 2, 0];
    bytes.extend([1u8, 0, 0, 0, 0, 0, 0, 0, 0xff]);
    bytes.extend([0u8, 0, 0, 0, 0, 0, 0, 0]);
    bytes.extend([0u8, 0, 0, 0, 0, 0, 0, 0]);
    assert_eq!(
        RouteCollectionReader::new(bytes).err(),
        Some(RouteError::Decode(DecodeError::InvalidUtf8))
    );
}

#[test]
fn reader_reports_string_longer_than_the_file() {
    let mut bytes = vec![0u8, 0, 2, 0];
    bytes.extend(u64::MAX.to_le_bytes());
    bytes.extend([b'a'; 32]);
    assert_eq!(
        RouteCollectionReader::new(bytes).err(),
        Some(RouteError::Decode(DecodeError::UnexpectedEnd))
    );
}

#[test]
fn truncated_route_surfaces_as_error_item() {
    let mut writer = RouteCollectionWriter::new("m".to_string(), "s".to_string());
    writer.write_route(first_route()).unwrap();
    writer.write_route(second_route()).unwrap();
    let mut bytes = writer.finish();
    bytes.truncate(bytes.len() - 3);
    let back = read_all(bytes);
    assert_eq!(
        back,
        vec![Ok(first_route()), Err(RouteError::Decode(DecodeError::UnexpectedEnd))]
    );
}

#[test]
fn node_count_larger_than_the_file_is_an_error() {
    let mut bytes =
        bincode::serialize(&(0u16, 2u16, "x".to_string(), "y".to_string(), 1u64)).unwrap();
    bytes.extend(bincode::serialize(&((1i32, 2i32), (3i32, 4i32))).unwrap());
    bytes.extend((u64::MAX / 2).to_le_bytes());
    bytes.extend([0u8; 64]);
    let back = read_all(bytes);
    assert_eq!(back, vec![Err(RouteError::Decode(DecodeError::UnexpectedEnd))]);
}

#[test]
fn header_announcing_more_routes_than_written() {
    let mut bytes =
        bincode::serialize(&(0u16, 2u16, "x".to_string(), "y".to_string(), 3u64)).unwrap();
    bytes.extend(
        bincode::serialize(&((1i32, 2i32), (3i32, 4i32), vec![7i64], 1.5f64)).unwrap(),
    );
    let back = read_all(bytes);
    assert_eq!(back.len(), 3);
    assert_eq!(back[0], Ok(route((1, 2), (3, 4), &[7], 1.5)));
    assert_eq!(back[1], Err(RouteError::Decode(DecodeError::UnexpectedEnd)));
    assert_eq!(back[2], Err(RouteError::Decode(DecodeError::UnexpectedEnd)));
}

#[test]
fn empty_collection_round_trip() {
    let writer = RouteCollectionWriter::new("m".to_string(), "s".to_string());
    let bytes = writer.finish();
    assert!(read_all(bytes).is_empty());
}

#[test]
fn route_without_nodes_round_trip() {
    let r = route((0, 0), (0, 0), &[], -0.0);
    let mut writer = RouteCollectionWriter::new("m".to_string(), "s".to_string());
    writer.write_route(r.clone()).unwrap();
    assert_eq!(read_all(writer.finish()), vec![Ok(r)]);
}

#[test]
fn header_decode_gives_end_of_header() {
    let h = RouteCollectionHeader::new("net".to_string(), "sample".to_string());
    let mut bytes = Vec::new();
    h.encode(&mut bytes);
    let len = bytes.len();
    bytes.extend([1u8, 2, 3]);
    assert_eq!(RouteCollectionHeader::decode(&bytes), Ok((h, len)));
}

#[test]
fn latlon_as_point() {
    let p = LatLon32::new(52_000_000, -13_000_000).as_point4326();
    assert_eq!((p.raw_lat, p.raw_lon), (52_000_000, -13_000_000));
}

#[test]
fn route_line_follows_the_nodes_of_the_network() {
    let nodes = vec![
        Node::new(OsmNodeId(10), 1_000_000, 2_000_000),
        Node::new(OsmNodeId(20), 3_000_000, 4_000_000),
    ];
    let net = Network::from_entries(&nodes, &vec![(NodeId(0), NodeId(1))]).unwrap();
    let r = route((0, 0), (0, 0), &[20, 10, 20], 12.5);
    assert_eq!(
        r.line(&net),
        Some(vec![
            GeoPoint::new(3_000_000, 4_000_000),
            GeoPoint::new(1_000_000, 2_000_000),
            GeoPoint::new(3_000_000, 4_000_000),
        ])
    );
    assert_eq!(
        r.write_to_geojson(&net, "12.5", "7.25"),
        Some(
            "{\"type\": \"FeatureCollection\", \"features\": [\n\
             {\"type\": \"Feature\", \"geometry\": {\"type\": \"LineString\", \"coordinates\": \
             [[4.000000, 3.000000],[2.000000, 1.000000],[4.000000, 3.000000]]}, \
             \"properties\": {\"distance\": 12.5,\"distance_bee_line\": 7.25}}\n]}"
                .to_string()
        )
    );
    let lost = route((0, 0), (0, 0), &[20, 11], 1.0);
    assert_eq!(lost.line(&net), None);
    assert_eq!(lost.write_to_geojson(&net, "1.0", "1.0"), None);
}
